//! What applying a list of fragments to a text means, and the facts about it
//! that the executable code relies on.
use vstd::prelude::*;
use crate::fragment::{Fragment, split_parts};

verus! {

/// Each fragment starts no later than it ends, and the fragments are sorted and
/// do not overlap (touching is allowed).
pub open spec fn frags_valid(s: Seq<Fragment>) -> bool {
    &&& forall|i: int| 0 <= i < s.len() ==> (#[trigger] s[i]).start <= s[i].end
    &&& forall|i: int, j: int|
        0 <= i < j < s.len() ==> (#[trigger] s[i]).end <= (#[trigger] s[j]).start
}

/// Fragment `i` is well formed and does not overlap the fragment before it.
pub open spec fn frag_ok_at(s: Seq<Fragment>, i: int) -> bool {
    &&& s[i].start <= s[i].end
    &&& i > 0 ==> s[i - 1].end <= s[i].start
}

/// The length of text that the fragments reach into: the last end offset.
pub open spec fn reach(s: Seq<Fragment>) -> int {
    if s.len() == 0 {
        0
    } else {
        s.last().end as int
    }
}

/// Valid fragments that all lie at or after offset `off`.
pub open spec fn valid_after(s: Seq<Fragment>, off: int) -> bool {
    &&& frags_valid(s)
    &&& s.len() > 0 ==> off <= s[0].start
}

/// The fragments can be applied to `t`: they are valid and stay within it.
pub open spec fn applicable(t: Seq<u8>, s: Seq<Fragment>) -> bool {
    frags_valid(s) && reach(s) <= t.len()
}

/// The output of applying `s` to the part of `t` from offset `off` on.
pub open spec fn apply_from(t: Seq<u8>, s: Seq<Fragment>, off: int) -> Seq<u8>
    decreases s.len(),
{
    if s.len() == 0 {
        t.subrange(off, t.len() as int)
    } else {
        t.subrange(off, s[0].start as int) + s[0].content@ + apply_from(
            t,
            s.drop_first(),
            s[0].end as int,
        )
    }
}

/// The result of applying the fragments `s` to the text `t`.
pub open spec fn apply_spec(t: Seq<u8>, s: Seq<Fragment>) -> Seq<u8> {
    apply_from(t, s, 0)
}

/// The sum of the fragments' length changes.
pub open spec fn total_change(s: Seq<Fragment>) -> int
    decreases s.len(),
{
    if s.len() == 0 {
        0
    } else {
        s[0].spec_length_change() + total_change(s.drop_first())
    }
}

/// Validity is exactly that each fragment is well formed and does not overlap its
/// predecessor.
pub proof fn lemma_valid_iff_local(s: Seq<Fragment>)
    ensures
        frags_valid(s) <==> forall|i: int| 0 <= i < s.len() ==> #[trigger] frag_ok_at(s, i),
{
    if forall|i: int| 0 <= i < s.len() ==> #[trigger] frag_ok_at(s, i) {
        assert forall|i: int, j: int| 0 <= i < j < s.len() implies (#[trigger] s[i]).end
            <= (#[trigger] s[j]).start by {
            lemma_local_chain(s, i, j);
        }
        assert forall|i: int| 0 <= i < s.len() implies (#[trigger] s[i]).start <= s[i].end by {
            assert(frag_ok_at(s, i));
        }
    }
    if frags_valid(s) {
        assert forall|i: int| 0 <= i < s.len() implies #[trigger] frag_ok_at(s, i) by {
            if i > 0 {
                assert(s[i - 1].end <= s[i].start);
            }
        }
    }
}

proof fn lemma_local_chain(s: Seq<Fragment>, i: int, j: int)
    requires
        0 <= i < j < s.len(),
        forall|k: int| 0 <= k < s.len() ==> #[trigger] frag_ok_at(s, k),
    ensures
        s[i].end <= s[j].start,
    decreases j - i,
{
    assert(frag_ok_at(s, j));
    if i < j - 1 {
        lemma_local_chain(s, i, j - 1);
        assert(frag_ok_at(s, j - 1));
    }
}

/// Dropping the first fragment keeps the rest valid, after the first one's end.
pub proof fn lemma_valid_drop_first(s: Seq<Fragment>)
    requires
        frags_valid(s),
        s.len() > 0,
    ensures
        valid_after(s.drop_first(), s[0].end as int),
        reach(s.drop_first()) <= reach(s),
        s[0].end <= reach(s),
{
    let r = s.drop_first();
    assert forall|i: int| 0 <= i < r.len() implies (#[trigger] r[i]).start <= r[i].end by {
        assert(s[i + 1].start <= s[i + 1].end);
    }
    assert forall|i: int, j: int| 0 <= i < j < r.len() implies (#[trigger] r[i]).end
        <= (#[trigger] r[j]).start by {
        assert(s[i + 1].end <= s[j + 1].start);
    }
    if r.len() > 0 {
        assert(s[0].end <= s[1].start);
        assert(s[0].end <= s.last().end) by {
            assert(s[0].end <= s[s.len() - 1].start);
            assert(s[s.len() - 1].start <= s[s.len() - 1].end);
        }
    }
}

/// The first part of a valid list is valid.
pub proof fn lemma_valid_prefix(a: Seq<Fragment>, b: Seq<Fragment>)
    requires
        frags_valid(a + b),
    ensures
        frags_valid(a),
        frags_valid(b),
{
    let ab = a + b;
    assert forall|i: int| 0 <= i < a.len() implies (#[trigger] a[i]).start <= a[i].end by {
        assert(ab[i] == a[i]);
    }
    assert forall|i: int, j: int| 0 <= i < j < a.len() implies (#[trigger] a[i]).end
        <= (#[trigger] a[j]).start by {
        assert(ab[i] == a[i] && ab[j] == a[j]);
    }
    assert forall|i: int| 0 <= i < b.len() implies (#[trigger] b[i]).start <= b[i].end by {
        assert(ab[a.len() + i] == b[i]);
    }
    assert forall|i: int, j: int| 0 <= i < j < b.len() implies (#[trigger] b[i]).end
        <= (#[trigger] b[j]).start by {
        assert(ab[a.len() + i] == b[i] && ab[a.len() + j] == b[j]);
    }
}

/// Applying from `off` equals copying the unchanged text up to `p` and applying
/// from `p`, when no fragment starts before `p`.
pub proof fn lemma_advance(t: Seq<u8>, s: Seq<Fragment>, off: int, p: int)
    requires
        0 <= off <= p,
        valid_after(s, p),
        reach(s) <= t.len(),
        p <= t.len(),
    ensures
        apply_from(t, s, off) == t.subrange(off, p) + apply_from(t, s, p),
{
    if s.len() == 0 {
        assert(t.subrange(off, t.len() as int) =~= t.subrange(off, p) + t.subrange(p, t.len() as int));
    } else {
        assert(s[0].start <= s[0].end);
        lemma_valid_drop_first(s);
        assert(t.subrange(off, s[0].start as int) =~= t.subrange(off, p) + t.subrange(p, s[0].start as int));
    }
}

/// Applying `a + b` splits at an offset `p` between them: `a` acts on the text up
/// to `p` and `b` on the rest.
pub proof fn lemma_apply_concat(t: Seq<u8>, a: Seq<Fragment>, b: Seq<Fragment>, off: int, p: int)
    requires
        frags_valid(a + b),
        a.len() > 0 ==> off <= a[0].start,
        reach(a) <= p,
        b.len() > 0 ==> p <= b[0].start,
        0 <= off <= p,
        p <= t.len(),
        reach(b) <= t.len(),
    ensures
        apply_from(t, a + b, off) == apply_from(t.subrange(0, p), a, off) + apply_from(t, b, p),
    decreases a.len(),
{
    let ab = a + b;
    if a.len() == 0 {
        assert(ab =~= b);
        assert(frags_valid(b));
        lemma_advance(t, b, off, p);
        assert(t.subrange(0, p).subrange(off, p) =~= t.subrange(off, p));
    } else {
        assert(ab[0] == a[0]);
        lemma_valid_prefix(a, b);
        lemma_valid_drop_first(ab);
        lemma_valid_drop_first(a);
        assert(ab.drop_first() =~= a.drop_first() + b);
        assert(a[0].end <= p);
        if a.len() > 1 {
            assert(reach(a.drop_first()) == reach(a));
        }
        lemma_apply_concat(t, a.drop_first(), b, a[0].end as int, p);
        assert(t.subrange(0, p).subrange(off, a[0].start as int) =~= t.subrange(
            off,
            a[0].start as int,
        ));
        assert(apply_from(t, ab, off) =~= t.subrange(off, a[0].start as int) + a[0].content@
            + apply_from(t, ab.drop_first(), a[0].end as int));
    }
}


/// Every fragment ends by `b` and has content whose length fits in an `isize`.
pub open spec fn frags_fit(s: Seq<Fragment>, b: int) -> bool {
    forall|i: int|
        0 <= i < s.len() ==> (#[trigger] s[i]).end <= b && s[i].content@.len() <= isize::MAX
}

/// In a valid list no fragment ends after the last one.
pub proof fn lemma_reach_bounds(s: Seq<Fragment>)
    requires
        frags_valid(s),
    ensures
        forall|i: int| 0 <= i < s.len() ==> (#[trigger] s[i]).end <= reach(s),
        reach(s) >= 0,
{
    assert forall|i: int| 0 <= i < s.len() implies (#[trigger] s[i]).end <= reach(s) by {
        if i < s.len() - 1 {
            assert(s[i].end <= s[s.len() - 1].start);
            assert(s[s.len() - 1].start <= s[s.len() - 1].end);
        }
    }
}

/// Appending a fragment after the end of a valid list keeps it valid.
pub proof fn lemma_valid_push(c: Seq<Fragment>, x: Fragment)
    requires
        frags_valid(c),
        reach(c) <= x.start <= x.end,
    ensures
        frags_valid(c.push(x)),
        reach(c.push(x)) == x.end,
{
    lemma_reach_bounds(c);
    let cx = c.push(x);
    assert forall|i: int| 0 <= i < cx.len() implies (#[trigger] cx[i]).start <= cx[i].end by {
        if i < c.len() {
            assert(cx[i] == c[i]);
        }
    }
    assert forall|i: int, j: int| 0 <= i < j < cx.len() implies (#[trigger] cx[i]).end
        <= (#[trigger] cx[j]).start by {
        assert(cx[i] == c[i]);
        if j < c.len() {
            assert(cx[j] == c[j]);
        }
    }
}

/// Putting a fragment in front of a valid list that starts after it keeps it valid.
pub proof fn lemma_valid_prepend(x: Fragment, s: Seq<Fragment>)
    requires
        x.start <= x.end,
        valid_after(s, x.end as int),
    ensures
        valid_after(seq![x] + s, x.start as int),
        (seq![x] + s).drop_first() =~= s,
        reach(seq![x] + s) == if s.len() == 0 { x.end as int } else { reach(s) },
{
    lemma_reach_bounds(s);
    let xs = seq![x] + s;
    assert forall|i: int| 0 <= i < xs.len() implies (#[trigger] xs[i]).start <= xs[i].end by {
        if i > 0 {
            assert(xs[i] == s[i - 1]);
        }
    }
    assert forall|i: int, j: int| 0 <= i < j < xs.len() implies (#[trigger] xs[i]).end
        <= (#[trigger] xs[j]).start by {
        assert(xs[j] == s[j - 1]);
        if i > 0 {
            assert(xs[i] == s[i - 1]);
        } else {
            assert(s[0].start <= s[j - 1].start) by {
                if j - 1 > 0 {
                    assert(s[0].end <= s[j - 1].start);
                }
            }
        }
    }
}

/// Two valid lists, the second starting after the first ends, form a valid list.
pub proof fn lemma_valid_concat(a: Seq<Fragment>, b: Seq<Fragment>, p: int)
    requires
        frags_valid(a),
        reach(a) <= p,
        valid_after(b, p),
    ensures
        frags_valid(a + b),
        reach(a + b) == if b.len() == 0 { reach(a) } else { reach(b) },
{
    lemma_reach_bounds(a);
    lemma_reach_bounds(b);
    let ab = a + b;
    assert forall|i: int| 0 <= i < ab.len() implies (#[trigger] ab[i]).start <= ab[i].end by {
        if i < a.len() {
            assert(ab[i] == a[i]);
        } else {
            assert(ab[i] == b[i - a.len()]);
        }
    }
    assert forall|i: int, j: int| 0 <= i < j < ab.len() implies (#[trigger] ab[i]).end
        <= (#[trigger] ab[j]).start by {
        if j < a.len() {
            assert(ab[i] == a[i] && ab[j] == a[j]);
        } else if i < a.len() {
            assert(ab[i] == a[i] && ab[j] == b[j - a.len()]);
            assert(b[0].start <= b[j - a.len()].start) by {
                if j - a.len() > 0 {
                    assert(b[0].end <= b[j - a.len()].start);
                }
            }
        } else {
            assert(ab[i] == b[i - a.len()] && ab[j] == b[j - a.len()]);
        }
    }
}

/// Applying valid fragments that end by `q` to `x` cut at `q2 >= q` gives their
/// output up to `q` followed by the untouched bytes between `q` and `q2`.
pub proof fn lemma_apply_extend(x: Seq<u8>, s: Seq<Fragment>, q: int, q2: int)
    requires
        frags_valid(s),
        reach(s) <= q,
        0 <= q <= q2 <= x.len(),
    ensures
        apply_from(x.subrange(0, q2), s, 0) == apply_from(x.subrange(0, q), s, 0) + x.subrange(
            q,
            q2,
        ),
{
    let xq2 = x.subrange(0, q2);
    let e = Seq::<Fragment>::empty();
    assert(s + e =~= s);
    lemma_reach_bounds(s);
    if s.len() > 0 {
        assert(s[0].start <= s[0].end);
        assert(s[0].end <= reach(s));
    }
    lemma_apply_concat(xq2, s, e, 0, q);
    assert(xq2.subrange(0, q) =~= x.subrange(0, q));
    assert(xq2.subrange(q, xq2.len() as int) =~= x.subrange(q, q2));
}

/// Applying `c` followed by a fragment `x` to the text cut at `x.end` gives the
/// output of `c` up to `p`, the untouched bytes up to `x.start`, then `x`'s content.
pub proof fn lemma_apply_push(t: Seq<u8>, c: Seq<Fragment>, x: Fragment, p: int)
    requires
        frags_valid(c),
        reach(c) <= p,
        0 <= p <= x.start <= x.end <= t.len(),
    ensures
        apply_from(t.subrange(0, x.end as int), c.push(x), 0) == apply_from(t.subrange(0, p), c, 0)
            + t.subrange(p, x.start as int) + x.content@,
{
    let tx = t.subrange(0, x.end as int);
    let one = seq![x];
    lemma_valid_push(c, x);
    assert(c.push(x) =~= c + one);
    lemma_reach_bounds(c);
    if c.len() > 0 {
        assert(c[0].start <= c[0].end);
        assert(c[0].end <= reach(c));
    }
    lemma_apply_concat(tx, c, one, 0, p);
    assert(tx.subrange(0, p) =~= t.subrange(0, p));
    assert(one.drop_first() =~= Seq::<Fragment>::empty());
    assert(tx.subrange(p, x.start as int) =~= t.subrange(p, x.start as int));
    assert(tx.subrange(x.end as int, tx.len() as int) =~= Seq::<u8>::empty());
    assert(apply_from(tx, one.drop_first(), x.end as int) =~= Seq::<u8>::empty());
    assert(apply_from(tx, one, p) == tx.subrange(p, x.start as int) + x.content@ + apply_from(
        tx,
        one.drop_first(),
        x.end as int,
    ));
    assert(apply_from(tx, one, p) =~= t.subrange(p, x.start as int) + x.content@);
}

/// If `w + rest` is the part of `x` from `q` on, then `w` is the part from `q` to
/// `q + |w|` and `rest` the part after it.
pub proof fn lemma_peel(x: Seq<u8>, q: int, w: Seq<u8>, rest: Seq<u8>)
    requires
        0 <= q <= x.len(),
        w + rest == x.subrange(q, x.len() as int),
    ensures
        q + w.len() <= x.len(),
        w == x.subrange(q, q + w.len()),
        rest == x.subrange(q + w.len(), x.len() as int),
{
    let z = x.subrange(q, x.len() as int);
    assert((w + rest).subrange(0, w.len() as int) =~= w);
    assert((w + rest).subrange(w.len() as int, z.len() as int) =~= rest);
    assert(z.subrange(0, w.len() as int) =~= x.subrange(q, q + w.len()));
    assert(z.subrange(w.len() as int, z.len() as int) =~= x.subrange(q + w.len(), x.len() as int));
}

/// Within a list, replacing a fragment by the two halves of a split inside its
/// content leaves the result of applying the list unchanged, on every text long
/// enough for the list.
pub proof fn lemma_split_in_list(
    x: Seq<Fragment>,
    g: Fragment,
    h: Fragment,
    tl: Fragment,
    rest: Seq<Fragment>,
    p: int,
    pc: int,
    at: int,
)
    requires
        valid_after(x, p),
        reach(x) <= pc,
        0 <= p <= pc <= g.start <= g.end,
        valid_after(rest, g.end as int),
        g.spec_contains_offset(at),
        split_parts(g, at, h, tl),
    ensures
        forall|t: Seq<u8>|
            g.end <= t.len() && reach(rest) <= t.len() ==> #[trigger] apply_from(
                t,
                x.push(h) + (seq![tl] + rest),
                p,
            ) == apply_from(t, x + (seq![g] + rest), p),
{
    lemma_valid_prepend(tl, rest);
    lemma_valid_prepend(h, seq![tl] + rest);
    lemma_valid_prepend(g, rest);
    let hs = seq![h] + (seq![tl] + rest);
    let gs = seq![g] + rest;
    lemma_valid_concat(x, hs, pc);
    lemma_valid_concat(x, gs, pc);
    assert(x.push(h) + (seq![tl] + rest) =~= x + hs);
    lemma_reach_bounds(x);
    assert forall|t: Seq<u8>|
        g.end <= t.len() && reach(rest) <= t.len() implies #[trigger] apply_from(
            t,
            x.push(h) + (seq![tl] + rest),
            p,
        ) == apply_from(t, x + (seq![g] + rest), p) by {
        if x.len() > 0 {
            assert(x[0].start <= x[0].end);
        }
        lemma_apply_concat(t, x, hs, p, pc);
        lemma_apply_concat(t, x, gs, p, pc);
        assert(hs.drop_first() =~= seq![tl] + rest);
        assert((seq![tl] + rest).drop_first() =~= rest);
        assert(gs.drop_first() =~= rest);
        assert(t.subrange(h.end as int, tl.start as int) =~= Seq::<u8>::empty());
        assert(g.content@ =~= h.content@ + tl.content@);
        let tail = apply_from(t, rest, g.end as int);
        assert(apply_from(t, seq![tl] + rest, h.end as int) == t.subrange(
            h.end as int,
            tl.start as int,
        ) + tl.content@ + tail);
        assert(apply_from(t, hs, pc) == t.subrange(pc, g.start as int) + h.content@ + apply_from(
            t,
            seq![tl] + rest,
            h.end as int,
        ));
        assert(apply_from(t, gs, pc) == t.subrange(pc, g.start as int) + g.content@ + tail);
        assert(apply_from(t, hs, pc) =~= apply_from(t, gs, pc));
    }
}

/// Applying valid fragments changes the length of the text by the sum of their
/// length changes.
pub proof fn lemma_apply_len(t: Seq<u8>, s: Seq<Fragment>, off: int)
    requires
        valid_after(s, off),
        0 <= off <= t.len(),
        reach(s) <= t.len(),
    ensures
        apply_from(t, s, off).len() == t.len() - off + total_change(s),
    decreases s.len(),
{
    if s.len() > 0 {
        lemma_valid_drop_first(s);
        lemma_apply_len(t, s.drop_first(), s[0].end as int);
    }
}

/// Applying a delta with no fragments returns the text unchanged.
pub proof fn lemma_apply_empty(t: Seq<u8>)
    ensures
        apply_spec(t, Seq::<Fragment>::empty()) == t,
{
    assert(t.subrange(0, t.len() as int) =~= t);
}

/// The length of the applied text is the base length plus the sum of the
/// fragments' length changes.
pub proof fn lemma_length_change(t: Seq<u8>, s: Seq<Fragment>)
    requires
        applicable(t, s),
    ensures
        apply_spec(t, s).len() == t.len() + total_change(s),
{
    lemma_apply_len(t, s, 0);
}

/// Splitting a fragment inside its content and applying both halves has the same
/// effect as applying the whole fragment.
pub proof fn lemma_split_round_trip(t: Seq<u8>, f: Fragment, at: int, h: Fragment, r: Fragment)
    requires
        f.start <= f.end <= t.len(),
        f.spec_contains_offset(at),
        split_parts(f, at, h, r),
    ensures
        apply_spec(t, seq![h, r]) == apply_spec(t, seq![f]),
{
    let hr = seq![h, r];
    let one = seq![f];
    assert(hr.drop_first() =~= seq![r]);
    assert(hr.drop_first().drop_first() =~= Seq::<Fragment>::empty());
    assert(one.drop_first() =~= Seq::<Fragment>::empty());
    assert(f.content@ =~= h.content@ + r.content@);
    assert(t.subrange(h.end as int, r.start as int) =~= Seq::<u8>::empty());
    let tail = t.subrange(f.end as int, t.len() as int);
    assert(apply_from(t, Seq::<Fragment>::empty(), f.end as int) == tail);
    assert(apply_from(t, seq![r], h.end as int) == t.subrange(h.end as int, r.start as int)
        + r.content@ + tail);
    assert(apply_spec(t, hr) == t.subrange(0, f.start as int) + h.content@ + apply_from(
        t,
        seq![r],
        h.end as int,
    ));
    assert(apply_spec(t, one) == t.subrange(0, f.start as int) + f.content@ + tail);
    assert(apply_spec(t, hr) =~= apply_spec(t, one));
}

} // verus!
