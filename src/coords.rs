//! Composing two deltas walks the fragments of both in step, tracking an offset
//! `p` in the base text and the matching offset `q` in the text after the
//! first delta. These definitions and lemmas say what stays true of every text
//! on which the composition is meant, as the walk proceeds.
use vstd::prelude::*;
use crate::fragment::{FragModel, Fragment};
use crate::text::{
    applicable, apply_from, apply_spec, frags_valid, lemma_advance, lemma_apply_concat,
    lemma_apply_extend, lemma_apply_push, lemma_peel, lemma_reach_bounds, lemma_valid_prefix,
    reach, valid_after,
};

verus! {

/// `d1` can be applied to `t`, and `d2` to the result.
pub open spec fn composable_on(t: Seq<u8>, d1: Seq<Fragment>, d2: Seq<Fragment>) -> bool {
    applicable(t, d1) && applicable(apply_spec(t, d1), d2)
}

/// The fragments `r` still to come from `d1`, applied to `t` from offset `p`,
/// rebuild the text after `d1` from offset `q`.
pub open spec fn rest_matches(t: Seq<u8>, d1: Seq<Fragment>, r: Seq<Fragment>, p: int, q: int) -> bool {
    let u = apply_spec(t, d1);
    &&& 0 <= p <= t.len()
    &&& 0 <= q <= u.len()
    &&& reach(r) <= t.len()
    &&& apply_from(t, r, p) == u.subrange(q, u.len() as int)
}

/// The fragments `c` emitted so far, applied to `t` cut at `p`, give what the first
/// `k` fragments of `d2` give on the text after `d1` cut at `q`.
pub open spec fn done_matches(
    t: Seq<u8>,
    d1: Seq<Fragment>,
    d2: Seq<Fragment>,
    k: int,
    c: Seq<Fragment>,
    p: int,
    q: int,
) -> bool {
    let u = apply_spec(t, d1);
    apply_from(t.subrange(0, p), c, 0) == apply_from(u.subrange(0, q), d2.take(k), 0)
}

proof fn lemma_take_valid(d2: Seq<Fragment>, k: int)
    requires
        frags_valid(d2),
        0 <= k <= d2.len(),
    ensures
        frags_valid(d2.take(k)),
{
    assert(d2 =~= d2.take(k) + d2.skip(k));
    lemma_valid_prefix(d2.take(k), d2.skip(k));
}

/// Before anything is consumed, all of `d1` remains and nothing is emitted.
pub proof fn lemma_state_start(d1: Seq<Fragment>, d2: Seq<Fragment>)
    ensures
        forall|t: Seq<u8>| #[trigger]
            composable_on(t, d1, d2) ==> rest_matches(t, d1, d1, 0, 0) && done_matches(
                t,
                d1,
                d2,
                0,
                Seq::<Fragment>::empty(),
                0,
                0,
            ),
{
    assert forall|t: Seq<u8>| #[trigger] composable_on(t, d1, d2) implies rest_matches(t, d1, d1, 0, 0)
        && done_matches(t, d1, d2, 0, Seq::<Fragment>::empty(), 0, 0) by {
        let u = apply_spec(t, d1);
        assert(u.subrange(0, u.len() as int) =~= u);
        assert(d2.take(0) =~= Seq::<Fragment>::empty());
        assert(t.subrange(0, 0).subrange(0, 0) =~= Seq::<u8>::empty());
        assert(u.subrange(0, 0).subrange(0, 0) =~= Seq::<u8>::empty());
    }
}

/// Consuming the fragment `x` from the front of the rest moves `p` to `x.end` and
/// `q` past the bytes that `x` and the untouched text before it produce; when `x`
/// is kept, it is emitted.
pub proof fn lemma_state_consume(
    d1: Seq<Fragment>,
    d2: Seq<Fragment>,
    k: int,
    c: Seq<Fragment>,
    keep: bool,
    r: Seq<Fragment>,
    p: int,
    q: int,
    x: Fragment,
    r2: Seq<Fragment>,
)
    requires
        keep ==> frags_valid(c) && reach(c) <= p,
        frags_valid(d2),
        0 <= k <= d2.len(),
        reach(d2.take(k)) <= q,
        0 <= p <= x.start <= x.end <= reach(r),
        reach(r2) <= reach(r),
        forall|t: Seq<u8>| #[trigger]
            composable_on(t, d1, d2) ==> rest_matches(t, d1, r, p, q),
        keep ==> forall|t: Seq<u8>| #[trigger]
            composable_on(t, d1, d2) ==> done_matches(t, d1, d2, k, c, p, q),
        forall|t: Seq<u8>| #[trigger]
            composable_on(t, d1, d2) ==> apply_from(t, r, p) == t.subrange(p, x.start as int)
                + x.content@ + apply_from(t, r2, x.end as int),
    ensures
        forall|t: Seq<u8>| #[trigger]
            composable_on(t, d1, d2) ==> rest_matches(
                t,
                d1,
                r2,
                x.end as int,
                q + (x.start - p) + x.content@.len(),
            ),
        keep ==> forall|t: Seq<u8>| #[trigger]
            composable_on(t, d1, d2) ==> done_matches(
                t,
                d1,
                d2,
                k,
                c.push(x),
                x.end as int,
                q + (x.start - p) + x.content@.len(),
            ),
{
    let q2 = q + (x.start - p) + x.content@.len();
    lemma_take_valid(d2, k);
    assert forall|t: Seq<u8>| #[trigger] composable_on(t, d1, d2) implies rest_matches(
        t,
        d1,
        r2,
        x.end as int,
        q2,
    ) && (keep ==> done_matches(t, d1, d2, k, c.push(x), x.end as int, q2)) by {
        let u = apply_spec(t, d1);
        assert(rest_matches(t, d1, r, p, q));
        let w = t.subrange(p, x.start as int) + x.content@;
        let rest = apply_from(t, r2, x.end as int);
        assert(w + rest =~= t.subrange(p, x.start as int) + x.content@ + rest);
        lemma_peel(u, q, w, rest);
        assert(w.len() == (x.start - p) + x.content@.len());
        assert(rest_matches(t, d1, r2, x.end as int, q2));
        if keep {
            assert(done_matches(t, d1, d2, k, c, p, q));
            lemma_apply_push(t, c, x, p);
            lemma_apply_extend(u, d2.take(k), q, q2);
            assert(apply_from(t.subrange(0, p), c, 0) + t.subrange(p, x.start as int) + x.content@
                =~= apply_from(t.subrange(0, p), c, 0) + w);
        }
    }
}

/// Where no fragment of the rest starts before `p2`, both offsets move forward by
/// the same amount over text that `d1` leaves alone.
pub proof fn lemma_state_advance(
    d1: Seq<Fragment>,
    d2: Seq<Fragment>,
    k: int,
    c: Seq<Fragment>,
    keep: bool,
    r: Seq<Fragment>,
    p: int,
    q: int,
    p2: int,
)
    requires
        keep ==> frags_valid(c) && reach(c) <= p,
        frags_valid(d2),
        0 <= k <= d2.len(),
        reach(d2.take(k)) <= q,
        0 <= p <= p2,
        valid_after(r, p2),
        forall|t: Seq<u8>| #[trigger]
            composable_on(t, d1, d2) ==> rest_matches(t, d1, r, p, q),
        forall|t: Seq<u8>| #[trigger]
            composable_on(t, d1, d2) ==> q + (p2 - p) <= apply_spec(t, d1).len(),
        keep ==> forall|t: Seq<u8>| #[trigger]
            composable_on(t, d1, d2) ==> done_matches(t, d1, d2, k, c, p, q),
    ensures
        forall|t: Seq<u8>| #[trigger]
            composable_on(t, d1, d2) ==> rest_matches(t, d1, r, p2, q + (p2 - p)),
        keep ==> forall|t: Seq<u8>| #[trigger]
            composable_on(t, d1, d2) ==> done_matches(t, d1, d2, k, c, p2, q + (p2 - p)),
{
    let q2 = q + (p2 - p);
    lemma_take_valid(d2, k);
    lemma_reach_bounds(r);
    assert forall|t: Seq<u8>| #[trigger] composable_on(t, d1, d2) implies rest_matches(t, d1, r, p2, q2)
        && (keep ==> done_matches(t, d1, d2, k, c, p2, q2)) by {
        let u = apply_spec(t, d1);
        assert(rest_matches(t, d1, r, p, q));
        assert(q2 <= u.len());
        if r.len() == 0 {
            assert(apply_from(t, r, p) == t.subrange(p, t.len() as int));
            assert(t.len() - p == u.len() - q);
        } else {
            assert(r[0].start <= r[0].end);
        }
        lemma_advance(t, r, p, p2);
        lemma_peel(u, q, t.subrange(p, p2), apply_from(t, r, p2));
        if keep {
            assert(done_matches(t, d1, d2, k, c, p, q));
            lemma_apply_extend(t, c, p, p2);
            lemma_apply_extend(u, d2.take(k), q, q2);
        }
    }
}

/// Emitting the fragment `k` of `d2`, moved to cover `[p, p2)` of the base text,
/// accounts for it.
pub proof fn lemma_state_replace(
    d1: Seq<Fragment>,
    d2: Seq<Fragment>,
    k: int,
    c: Seq<Fragment>,
    r: Seq<Fragment>,
    p: int,
    x: Fragment,
)
    requires
        frags_valid(c),
        reach(c) <= p,
        frags_valid(d2),
        0 <= k < d2.len(),
        reach(d2.take(k)) <= d2[k].start,
        x.start == p,
        p <= x.end,
        x.content@ == d2[k].content@,
        forall|t: Seq<u8>| #[trigger]
            composable_on(t, d1, d2) ==> done_matches(t, d1, d2, k, c, p, d2[k].start as int),
        forall|t: Seq<u8>| #[trigger]
            composable_on(t, d1, d2) ==> rest_matches(t, d1, r, x.end as int, d2[k].end as int),
    ensures
        forall|t: Seq<u8>| #[trigger]
            composable_on(t, d1, d2) ==> done_matches(
                t,
                d1,
                d2,
                k + 1,
                c.push(x),
                x.end as int,
                d2[k].end as int,
            ),
{
    let f = d2[k];
    lemma_take_valid(d2, k);
    lemma_reach_bounds(d2);
    assert(d2.take(k).push(f) =~= d2.take(k + 1));
    assert forall|t: Seq<u8>| #[trigger] composable_on(t, d1, d2) implies done_matches(
        t,
        d1,
        d2,
        k + 1,
        c.push(x),
        x.end as int,
        f.end as int,
    ) by {
        let u = apply_spec(t, d1);
        assert(rest_matches(t, d1, r, x.end as int, f.end as int));
        assert(done_matches(t, d1, d2, k, c, p, f.start as int));
        assert(f.start <= f.end);
        lemma_apply_push(t, c, x, p);
        lemma_apply_push(u, d2.take(k), f, f.start as int);
        assert(t.subrange(p, p) =~= Seq::<u8>::empty());
        assert(u.subrange(f.start as int, f.start as int) =~= Seq::<u8>::empty());
    }
}

/// Once all of `d2` is accounted for, the emitted fragments followed by the rest of
/// `d1` act on every text as `d1` then `d2` do.
pub proof fn lemma_state_finish(
    d1: Seq<Fragment>,
    d2: Seq<Fragment>,
    c: Seq<Fragment>,
    r: Seq<Fragment>,
    p: int,
    q: int,
)
    requires
        frags_valid(c + r),
        reach(c) <= p,
        valid_after(r, p),
        frags_valid(d2),
        reach(d2) <= q,
        forall|t: Seq<u8>| #[trigger]
            composable_on(t, d1, d2) ==> rest_matches(t, d1, r, p, q),
        forall|t: Seq<u8>| #[trigger]
            composable_on(t, d1, d2) ==> done_matches(t, d1, d2, d2.len() as int, c, p, q),
    ensures
        forall|t: Seq<u8>| #[trigger]
            composable_on(t, d1, d2) ==> reach(c + r) <= t.len() && apply_spec(t, c + r)
                == apply_spec(apply_spec(t, d1), d2),
{
    assert(d2.take(d2.len() as int) =~= d2);
    lemma_reach_bounds(c + r);
    assert forall|t: Seq<u8>| #[trigger] composable_on(t, d1, d2) implies reach(c + r) <= t.len()
        && apply_spec(t, c + r) == apply_spec(apply_spec(t, d1), d2) by {
        let u = apply_spec(t, d1);
        assert(rest_matches(t, d1, r, p, q));
        assert(done_matches(t, d1, d2, d2.len() as int, c, p, q));
        if r.len() == 0 {
            assert(c + r =~= c);
        } else {
            assert((c + r).last() == r.last());
        }
        lemma_valid_prefix(c, r);
        lemma_reach_bounds(c);
        if c.len() > 0 {
            assert(c[0] == (c + r)[0]);
        }
        lemma_apply_concat(t, c, r, 0, p);
        lemma_apply_extend(u, d2, q, u.len() as int);
        assert(u.subrange(0, u.len() as int) =~= u);
    }
}

/// The models of a list of fragments.
pub open spec fn models(s: Seq<Fragment>) -> Seq<FragModel> {
    s.map_values(|f: Fragment| f@)
}

/// The change in text length that applying `g` causes.
pub open spec fn model_change(g: FragModel) -> int {
    g.content.len() - (g.end - g.start)
}

/// One drain step of composition. Starting with cumulative length change `cum`,
/// fragments are taken from the front of `r` while their content ends at or before
/// the cutoff moved into pre-application offsets (`cutoff - cum`, with `cum`
/// updated by each one taken). A fragment whose content straddles that offset is
/// split there: its head is taken and its tail stays in front of the rest.
/// Returns the fragments taken, the rest, and the final cumulative change.
pub open spec fn drain(r: Seq<FragModel>, cutoff: int, cum: int) -> (Seq<FragModel>, Seq<FragModel>, int)
    decreases r.len(),
{
    if r.len() == 0 {
        (Seq::empty(), Seq::empty(), cum)
    } else {
        let g = r[0];
        let adj = cutoff - cum;
        if g.start + g.content.len() > adj {
            if g.start <= adj {
                let cut = if g.end <= adj { g.end } else { adj };
                let h = FragModel {
                    start: g.start,
                    end: cut,
                    content: g.content.subrange(0, adj - g.start),
                };
                let tl = FragModel {
                    start: cut,
                    end: g.end,
                    content: g.content.subrange(adj - g.start, g.content.len() as int),
                };
                (seq![h], seq![tl] + r.drop_first(), cum + model_change(h))
            } else {
                (Seq::empty(), r, cum)
            }
        } else {
            let next = drain(r.drop_first(), cutoff, cum + model_change(g));
            (seq![g] + next.0, next.1, next.2)
        }
    }
}

/// The state of composing `d1` with `d2` after the first `k` fragments of `d2`:
/// the fragments emitted, what remains of `d1`, and the cumulative length change.
/// For each fragment `f` of `d2`, the fragments of `d1` before it are taken, those
/// it overwrites are dropped, and `f` is emitted moved into pre-application offsets.
pub open spec fn merge_state(d1: Seq<FragModel>, d2: Seq<FragModel>, k: int) -> (Seq<FragModel>, Seq<FragModel>, int)
    decreases k,
{
    if k <= 0 {
        (Seq::empty(), d1, 0)
    } else {
        let st = merge_state(d1, d2, k - 1);
        let f = d2[k - 1];
        let first = drain(st.1, f.start, st.2);
        let second = drain(first.1, f.end, first.2);
        let moved = FragModel { start: f.start - first.2, end: f.end - second.2, content: f.content };
        (st.0 + first.0 + seq![moved], second.1, second.2)
    }
}

/// The fragments that composing `d1` with `d2` produces.
pub open spec fn combine_model(d1: Seq<FragModel>, d2: Seq<FragModel>) -> Seq<FragModel> {
    let st = merge_state(d1, d2, d2.len() as int);
    st.0 + st.1
}

proof fn lemma_drain_len(r: Seq<FragModel>, cutoff: int, cum: int)
    ensures
        drain(r, cutoff, cum).0.len() + drain(r, cutoff, cum).1.len() <= r.len() + 1,
        drain(r, cutoff, cum).1.len() <= r.len(),
    decreases r.len(),
{
    if r.len() > 0 {
        let g = r[0];
        if g.start + g.content.len() <= cutoff - cum {
            lemma_drain_len(r.drop_first(), cutoff, cum + model_change(g));
        }
    }
}

proof fn lemma_merge_len(d1: Seq<FragModel>, d2: Seq<FragModel>, k: int)
    requires
        0 <= k <= d2.len(),
    ensures
        merge_state(d1, d2, k).0.len() + merge_state(d1, d2, k).1.len() <= d1.len() + 2 * k,
    decreases k,
{
    if k > 0 {
        lemma_merge_len(d1, d2, k - 1);
        let st = merge_state(d1, d2, k - 1);
        let f = d2[k - 1];
        let first = drain(st.1, f.start, st.2);
        lemma_drain_len(st.1, f.start, st.2);
        lemma_drain_len(first.1, f.end, first.2);
    }
}

/// Composing `d1` with `d2` yields at most `|d1| + 2 * |d2|` fragments: each
/// fragment of `d2`, and at most one extra piece of `d1` split off before each.
pub proof fn law_combine_len(d1: Seq<FragModel>, d2: Seq<FragModel>)
    ensures
        combine_model(d1, d2).len() <= d1.len() + 2 * d2.len(),
{
    lemma_merge_len(d1, d2, d2.len() as int);
}

} // verus!
