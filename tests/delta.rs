use mercurial_delta::delta::{
    apply, apply_chain, combine, combine_chain, valid_deltas, Delta, InvalidFragmentList,
    InvalidReason,
};
use mercurial_delta::fragment::{well_formed_fragments, Fragment};

fn frag(start: usize, end: usize, content: &[u8]) -> Fragment {
    Fragment { start, end, content: content.to_vec() }
}

fn delta(frags: Vec<Fragment>) -> Delta {
    Delta::new(frags).unwrap()
}

#[test]
fn test_delta_new() {
    let test_cases = vec![
        (vec![Fragment { start: 0, end: 0, content: vec![] }], true),
        (vec![Fragment { start: 0, end: 5, content: vec![] }], true),
        (vec![Fragment { start: 0, end: 5, content: vec![] },
              Fragment { start: 5, end: 8, content: vec![] }], true),
        (vec![Fragment { start: 0, end: 5, content: vec![] },
              Fragment { start: 6, end: 9, content: vec![] }], true),
        (vec![Fragment { start: 0, end: 5, content: vec![] },
              Fragment { start: 6, end: 5, content: vec![] }], false),
        (vec![Fragment { start: 0, end: 5, content: vec![] },
              Fragment { start: 4, end: 8, content: vec![] }], false),
    ];

    for (frags, success) in test_cases.into_iter() {
        let delta = Delta::new(frags);
        if success {
            assert!(delta.is_ok());
        } else {
            assert!(delta.is_err());
        }
    }
}

#[test]
fn test_fragment_shrink() {
    let mut frag = Fragment { start: 10, end: 20, content: vec![1, 2, 3, 4, 5] };

    assert_eq!(frag.post_end(), 15);
    assert_eq!(frag.length_change(), -5);

    assert!(frag.contains_offset(12));
    assert!(!frag.contains_offset(17));

    assert_eq!(frag.split(17), None);
    let rest = frag.split(12).unwrap();

    assert_eq!(frag, Fragment { start: 10, end: 12, content: vec![1, 2] });
    assert_eq!(rest, Fragment { start: 12, end: 20, content: vec![3, 4, 5] });
}

#[test]
fn test_fragment_grow() {
    let mut frag = Fragment { start: 10, end: 15, content: vec![1, 2, 3, 4, 5, 6, 7, 8, 9, 10] };

    assert_eq!(frag.post_end(), 20);
    assert_eq!(frag.length_change(), 5);

    assert!(frag.contains_offset(17));

    // The split point is past the end offset but inside the content: the cut in
    // the base text is clamped to the end offset.
    let rest = frag.split(17).unwrap();

    assert_eq!(frag, Fragment { start: 10, end: 15, content: vec![1, 2, 3, 4, 5, 6, 7] });
    assert_eq!(rest, Fragment { start: 15, end: 15, content: vec![8, 9, 10] });
}

#[test]
fn test_combine() {
    let delta1 = delta(vec![
        Fragment { start: 3, end: 6, content: vec![1, 2, 3, 4, 5] },
        Fragment { start: 8, end: 16, content: vec![6, 7, 8, 9] },
    ]);
    let delta2 = delta(vec![Fragment { start: 7, end: 12, content: vec![10, 11, 12, 13] }]);
    let expected = delta(vec![
        Fragment { start: 3, end: 6, content: vec![1, 2, 3, 4] },
        Fragment { start: 6, end: 10, content: vec![10, 11, 12, 13] },
        Fragment { start: 10, end: 16, content: vec![8, 9] },
    ]);

    let combined = combine(delta1, delta2);
    assert_eq!(combined, expected);
}

#[test]
fn test_apply_1() {
    let text = b"aaaa\nbbbb\ncccc\n";
    let delta = delta(vec![frag(5, 10, b"xxxx\n")]);
    let res = apply(text, delta);
    assert_eq!(&res[..], b"aaaa\nxxxx\ncccc\n");
}

#[test]
fn test_apply_2() {
    let text = b"bbbb\ncccc\n";
    let delta = delta(vec![frag(0, 5, b"aaaabbbb\n"), frag(10, 10, b"dddd\n")]);
    let res = apply(text, delta);
    assert_eq!(&res[..], b"aaaabbbb\ncccc\ndddd\n");
}

#[test]
fn test_apply_3a() {
    let text = b"aaaa\nbbbb\ncccc\n";
    let delta = delta(vec![frag(0, 15, b"zzzz\nyyyy\nxxxx\n")]);
    let res = apply(text, delta);
    assert_eq!(&res[..], b"zzzz\nyyyy\nxxxx\n");
}

#[test]
fn test_apply_3b() {
    let text = b"aaaa\nbbbb\ncccc\n";
    let delta = delta(vec![frag(0, 5, b"zzzz\n"), frag(5, 10, b"yyyy\n"), frag(10, 15, b"xxxx\n")]);
    let res = apply(text, delta);
    assert_eq!(&res[..], b"zzzz\nyyyy\nxxxx\n");
}

#[test]
fn test_apply_4() {
    let text = b"aaaa\nbbbb";
    let delta = delta(vec![frag(5, 9, b"bbbbcccc")]);
    let res = apply(text, delta);
    assert_eq!(&res[..], b"aaaa\nbbbbcccc");
}

#[test]
fn test_apply_5() {
    let text = b"aaaa\nbbbb\ncccc\n";
    let delta = delta(vec![frag(5, 10, b"")]);
    let res = apply(text, delta);
    assert_eq!(&res[..], b"aaaa\ncccc\n");
}

#[test]
fn new_reports_start_after_end() {
    let r = Delta::new(vec![frag(0, 5, b""), frag(6, 5, b"")]);
    assert_eq!(
        r.unwrap_err(),
        InvalidFragmentList { index: 1, reason: InvalidReason::StartAfterEnd { start: 6, end: 5 } }
    );
}

#[test]
fn new_reports_overlap() {
    let r = Delta::new(vec![frag(0, 5, b""), frag(4, 8, b""), frag(9, 3, b"")]);
    assert_eq!(
        r.unwrap_err(),
        InvalidFragmentList { index: 1, reason: InvalidReason::Overlap { prev_end: 5, start: 4 } }
    );
}

#[test]
fn new_accepts_empty_and_touching() {
    assert!(Delta::new(vec![]).is_ok());
    let d = delta(vec![frag(2, 2, b"ab"), frag(2, 4, b""), frag(4, 4, b"c")]);
    assert_eq!(d.fragments().len(), 3);
    assert_eq!(d.fragments()[1], frag(2, 4, b""));
}

#[test]
fn apply_empty_delta_is_identity() {
    let text = b"some text\n";
    assert_eq!(apply(text, Delta::default()), text.to_vec());
    assert_eq!(apply(b"", Delta::default()), Vec::<u8>::new());
}

#[test]
fn combine_with_empty_is_identity() {
    let d = || delta(vec![frag(1, 3, b"xyz"), frag(5, 5, b"q")]);
    assert_eq!(combine(d(), Delta::default()), d());
    assert_eq!(combine(Delta::default(), d()), d());
}

#[test]
fn combine_matches_sequential_apply() {
    let text = b"0123456789abcdefghij";
    let d1 = || {
        delta(vec![frag(3, 6, &[1, 2, 3, 4, 5]), frag(8, 16, &[6, 7, 8, 9])])
    };
    let d2 = || delta(vec![frag(7, 12, &[10, 11, 12, 13])]);
    let seq = apply(&apply(text, d1()), d2());
    let once = apply(text, combine(d1(), d2()));
    assert_eq!(once, seq);
    assert_eq!(once, b"012\x01\x02\x03\x04\x0a\x0b\x0c\x0d\x08\x09ghij".to_vec());
}

#[test]
fn combine_take_skip_interleaved() {
    let text = b"abcdefghijklmnopqrstuvwxyz";
    let d1 = || delta(vec![frag(0, 2, b"X"), frag(5, 5, b"YYY"), frag(10, 20, b"Z")]);
    let d2 = || delta(vec![frag(1, 1, b"--"), frag(4, 9, b""), frag(12, 14, b"**")]);
    let seq = apply(&apply(text, d1()), d2());
    assert_eq!(apply(text, combine(d1(), d2())), seq);
}

#[test]
fn combine_is_associative_on_a_text() {
    let text = b"the quick brown fox jumps";
    let d1 = || delta(vec![frag(4, 9, b"slow"), frag(16, 19, b"cat")]);
    let d2 = || delta(vec![frag(0, 3, b"a"), frag(10, 12, b"")]);
    let d3 = || delta(vec![frag(2, 6, b"very slow"), frag(14, 14, b"!")]);
    let left = combine(combine(d1(), d2()), d3());
    let right = combine(d1(), combine(d2(), d3()));
    let expected = apply(&apply(&apply(text, d1()), d2()), d3());
    assert_eq!(apply(text, left), expected);
    assert_eq!(apply(text, right), expected);
}

#[test]
fn split_halves_apply_like_whole() {
    let text = b"0123456789abcdefghijklmnop";
    for at in 10..20 {
        let whole = frag(10, 15, &[1, 2, 3, 4, 5, 6, 7, 8, 9, 10]);
        let mut head = whole.clone();
        let tail = head.split(at).unwrap();
        let two = apply(text, delta(vec![head, tail]));
        assert_eq!(two, apply(text, delta(vec![whole])));
    }
}

#[test]
fn split_outside_leaves_fragment() {
    let mut f = frag(4, 6, b"ab");
    assert_eq!(f.split(3), None);
    assert_eq!(f.split(6), None);
    assert_eq!(f, frag(4, 6, b"ab"));
    let mut g = frag(4, 6, b"");
    assert!(!g.contains_offset(4));
    assert_eq!(g.split(4), None);
}

#[test]
fn length_change_matches_applied_length() {
    let text = b"aaaa\nbbbb\ncccc\n";
    let frags = vec![frag(0, 5, b"zz"), frag(7, 7, b"123456"), frag(10, 15, b"")];
    let change: isize = frags.iter().map(|f| f.length_change()).sum();
    let out = apply(text, delta(frags));
    assert_eq!(out.len() as isize, text.len() as isize + change);
    assert_eq!(out, b"zzbb123456bb\n".to_vec());
}

#[test]
fn chain_applies_in_order() {
    let text = b"hello world";
    let chain = || vec![
        delta(vec![frag(0, 5, b"goodbye")]),
        delta(vec![frag(8, 13, b"moon")]),
        delta(vec![frag(0, 0, b"> ")]),
    ];
    let mut step = text.to_vec();
    for d in chain() {
        step = apply(&step, d);
    }
    assert_eq!(step, b"> goodbye moon".to_vec());
    assert_eq!(apply_chain(text, chain()), step);
    assert_eq!(combine_chain(vec![]), Delta::default());
    assert_eq!(apply_chain(text, vec![]), text.to_vec());
}

#[test]
fn from_gaps_builds_valid_delta() {
    let d = Delta::from_gaps(&[(2, 3), (0, 0), (4, 1)], vec![b"a".to_vec(), vec![], b"xyz".to_vec()]);
    assert_eq!(d.fragments(), &[frag(2, 5, b"a"), frag(5, 5, b""), frag(9, 10, b"xyz")][..]);
    let again = Delta::new(d.fragments().to_vec());
    assert!(again.is_ok());
}

#[test]
fn valid_deltas_filters_invalid_candidates() {
    let cands = vec![
        vec![frag(0, 2, b"")],
        vec![frag(3, 2, b"")],
        vec![frag(0, 5, b""), frag(4, 6, b"")],
        vec![],
        vec![frag(1, 1, b"x"), frag(1, 2, b"")],
    ];
    let out = valid_deltas(cands);
    assert_eq!(out.len(), 3);
    assert_eq!(out[0].fragments(), &[frag(0, 2, b"")][..]);
    assert_eq!(out[1].fragments().len(), 0);
    assert_eq!(out[2].fragments(), &[frag(1, 1, b"x"), frag(1, 2, b"")][..]);
}

#[test]
fn fragment_verify_and_from_draw() {
    assert!(frag(3, 3, b"").verify());
    assert!(!frag(4, 3, b"").verify());
    let f = Fragment::from_draw(7, 2, b"k".to_vec());
    assert_eq!(f, frag(7, 9, b"k"));
}

#[test]
fn well_formed_fragments_drops_reversed() {
    let out = well_formed_fragments(vec![frag(0, 1, b"a"), frag(5, 4, b""), frag(2, 2, b"")]);
    assert_eq!(out, vec![frag(0, 1, b"a"), frag(2, 2, b"")]);
}

#[test]
fn combine_chain_of_one_is_that_delta() {
    let d = || delta(vec![frag(0, 4, b"abc"), frag(6, 9, b""), frag(9, 9, b"zz")]);
    assert_eq!(combine_chain(vec![d()]), d());
}

#[test]
fn combine_fragment_count_bound() {
    let d1 = || delta(vec![frag(0, 4, b"abcdef"), frag(6, 9, b"gh"), frag(12, 20, b"ijkl")]);
    let d2 = || delta(vec![frag(3, 5, b"x"), frag(8, 13, b"yy")]);
    let c = combine(d1(), d2());
    assert!(c.fragments().len() <= 3 + 2 * 2);
    assert_eq!(
        c.fragments(),
        &[
            frag(0, 3, b"abc"),
            frag(3, 4, b"x"),
            frag(4, 4, b"f"),
            frag(6, 6, b""),
            frag(6, 12, b"yy"),
            frag(12, 20, b"ijkl"),
        ][..]
    );
    let text = b"01234567890123456789";
    assert_eq!(apply(text, c), apply(&apply(text, d1()), d2()));
}
