//! Deltas: validated fragment lists, their application to texts, and their
//! composition.
use vstd::prelude::*;
use itertools::PutBack;
use std::vec::IntoIter;
use vstd::pervasive::VecAdditionalExecFns;
use crate::fragment::{FragModel, Fragment};
use crate::text::{
    applicable, apply_from, apply_spec, frag_ok_at, frags_fit, frags_valid, lemma_reach_bounds,
    lemma_valid_concat, lemma_valid_drop_first, lemma_valid_iff_local, lemma_valid_prepend,
    lemma_split_in_list, lemma_valid_push, reach, valid_after,
};
use crate::coords::{
    combine_model, composable_on, done_matches, drain, law_combine_len, lemma_state_advance,
    lemma_state_consume, lemma_state_finish, lemma_state_replace, lemma_state_start,
    merge_state, models, rest_matches,
};

verus! {

/// Why a fragment list was refused.
#[derive(Clone, Copy, Debug, PartialEq, Eq)]
pub enum InvalidReason {
    /// The fragment starts after it ends.
    StartAfterEnd { start: usize, end: usize },
    /// The fragment starts before the previous fragment ends.
    Overlap { prev_end: usize, start: usize },
}

/// A fragment list that does not form a delta: the index of the first offending
/// fragment, and why.
#[derive(Clone, Copy, Debug, PartialEq, Eq)]
pub struct InvalidFragmentList {
    pub index: usize,
    pub reason: InvalidReason,
}

/// `e` names the first fragment of `s` that is malformed or overlaps its
/// predecessor, with the reason that a check of that fragment finds first.
pub open spec fn first_invalid(s: Seq<Fragment>, e: InvalidFragmentList) -> bool {
    let i = e.index as int;
    &&& 0 <= i < s.len()
    &&& !frag_ok_at(s, i)
    &&& forall|j: int| 0 <= j < i ==> #[trigger] frag_ok_at(s, j)
    &&& e.reason == if s[i].start > s[i].end {
        InvalidReason::StartAfterEnd { start: s[i].start, end: s[i].end }
    } else {
        InvalidReason::Overlap { prev_end: s[i - 1].end, start: s[i].start }
    }
}

/// A sorted list of non-overlapping fragments.
#[derive(Debug, PartialEq, Eq)]
pub struct Delta {
    frags: Vec<Fragment>,
}

impl View for Delta {
    type V = Seq<Fragment>;

    closed spec fn view(&self) -> Seq<Fragment> {
        self.frags@
    }
}

impl Delta {
    #[verifier::type_invariant]
    spec fn inv(self) -> bool {
        frags_valid(self.frags@)
    }

    /// Build a delta, checking that `frags` are well formed, sorted and
    /// non-overlapping.
    pub fn new(frags: Vec<Fragment>) -> (r: Result<Delta, InvalidFragmentList>)
        ensures
            r is Ok <==> frags_valid(frags@),
            r matches Ok(d) ==> d@ == frags@,
            r matches Err(e) ==> first_invalid(frags@, e),
    {
        match Self::verify(frags.as_slice()) {
            Ok(()) => Ok(Delta { frags }),
            Err(e) => Err(e),
        }
    }

    /// The fragments of the delta, in order.
    pub fn fragments(&self) -> (r: &[Fragment])
        ensures
            r@ == self@,
            frags_valid(r@),
    {
        proof {
            use_type_invariant(self);
        }
        self.frags.as_slice()
    }

    /// Check a fragment list, reporting the first fragment that is malformed or
    /// overlaps its predecessor.
    pub fn verify(frags: &[Fragment]) -> (r: Result<(), InvalidFragmentList>)
        ensures
            r is Ok <==> frags_valid(frags@),
            r matches Err(e) ==> first_invalid(frags@, e),
    {
        let n = frags.len();
        let mut i: usize = 0;
        while i < n
            invariant
                i <= n,
                n == frags@.len(),
                forall|j: int| 0 <= j < i ==> #[trigger] frag_ok_at(frags@, j),
            decreases n - i,
        {
            let frag = &frags[i];
            if !frag.verify() {
                let e = InvalidFragmentList {
                    index: i,
                    reason: InvalidReason::StartAfterEnd { start: frag.start, end: frag.end },
                };
                proof {
                    lemma_valid_iff_local(frags@);
                }
                return Err(e);
            }
            if i > 0 {
                let prev = &frags[i - 1];
                if frag.start < prev.end {
                    let e = InvalidFragmentList {
                        index: i,
                        reason: InvalidReason::Overlap { prev_end: prev.end, start: frag.start },
                    };
                    proof {
                        lemma_valid_iff_local(frags@);
                    }
                    return Err(e);
                }
            }
            i = i + 1;
        }
        proof {
            lemma_valid_iff_local(frags@);
        }
        Ok(())
    }

    /// The delta with no fragments.
    pub fn empty() -> (r: Delta)
        ensures
            r@ == Seq::<Fragment>::empty(),
    {
        Delta { frags: Vec::new() }
    }
}

impl Default for Delta {
    fn default() -> (r: Delta)
        ensures
            r@ == Seq::<Fragment>::empty(),
    {
        Delta::empty()
    }
}

/// Append `src[lo..hi]` to `out`.
fn push_bytes(out: &mut Vec<u8>, src: &[u8], lo: usize, hi: usize)
    requires
        lo <= hi <= src@.len(),
    ensures
        final(out)@ == old(out)@ + src@.subrange(lo as int, hi as int),
{
    let mut i = lo;
    while i < hi
        invariant
            lo <= i <= hi,
            hi <= src@.len(),
            out@ == old(out)@ + src@.subrange(lo as int, i as int),
        decreases hi - i,
    {
        out.push(src[i]);
        i = i + 1;
        assert(out@ =~= old(out)@ + src@.subrange(lo as int, i as int));
    }
}

/// Apply a delta to a text, returning the new text.
pub fn apply(text: &[u8], delta: Delta) -> (r: Vec<u8>)
    requires
        reach(delta@) <= text@.len(),
    ensures
        r@ == apply_spec(text@, delta@),
{
    proof {
        use_type_invariant(&delta);
        lemma_reach_bounds(delta@);
    }
    let frags = &delta.frags;
    let n = frags.len();
    let ghost s = frags@;
    // First pass: the size of the output, used only to allocate it once.
    let mut size: usize = 0;
    let mut off: usize = 0;
    let mut i: usize = 0;
    while i < n
        invariant
            i <= n,
            n == s.len(),
            s == frags@,
            frags_valid(s),
            reach(s) <= text@.len(),
            off <= text@.len(),
            i == 0 ==> off == 0,
            i > 0 ==> off == s[i - 1].end,
        decreases n - i,
    {
        let frag = &frags[i];
        if i > 0 {
            assert(s[i - 1].end <= s[i as int].start);
        }
        size = size.saturating_add(frag.start - off).saturating_add(frag.content.len());
        off = frag.end;
        i = i + 1;
    }
    size = size.saturating_add(text.len() - off);
    // Second pass: copy the untouched stretches and the fragments' contents.
    let mut output: Vec<u8> = Vec::with_capacity(size);
    off = 0;
    i = 0;
    assert(s.subrange(0, n as int) =~= s);
    assert(output@ + apply_spec(text@, s) =~= apply_spec(text@, s));
    while i < n
        invariant
            i <= n,
            n == s.len(),
            s == frags@,
            frags_valid(s),
            reach(s) <= text@.len(),
            off <= text@.len(),
            valid_after(s.subrange(i as int, n as int), off as int),
            reach(s.subrange(i as int, n as int)) <= text@.len(),
            output@ + apply_from(text@, s.subrange(i as int, n as int), off as int) == apply_spec(
                text@,
                s,
            ),
        decreases n - i,
    {
        let ghost rest = s.subrange(i as int, n as int);
        let frag = &frags[i];
        proof {
            assert(rest[0] == s[i as int]);
            lemma_valid_drop_first(rest);
            assert(rest.drop_first() =~= s.subrange(i + 1, n as int));
            assert(s[i as int].end <= reach(s));
        }
        push_bytes(&mut output, text, off, frag.start);
        let mut j: usize = 0;
        let clen = frag.content.len();
        let ghost before = output@;
        while j < clen
            invariant
                j <= clen,
                clen == frag.content@.len(),
                output@ == before + frag.content@.subrange(0, j as int),
            decreases clen - j,
        {
            output.push(frag.content[j]);
            j = j + 1;
            assert(output@ =~= before + frag.content@.subrange(0, j as int));
        }
        assert(frag.content@.subrange(0, clen as int) =~= frag.content@);
        off = frag.end;
        i = i + 1;
        assert(output@ + apply_from(text@, s.subrange(i as int, n as int), off as int) =~= apply_spec(
            text@,
            s,
        ));
    }
    push_bytes(&mut output, text, off, text.len());
    proof {
        assert(s.subrange(n as int, n as int) =~= Seq::<Fragment>::empty());
        assert(output@ =~= apply_spec(text@, s));
    }
    output
}

#[verifier::external_type_specification]
#[verifier::external_body]
#[verifier::reject_recursive_types(I)]
pub struct ExPutBack<I: Iterator>(PutBack<I>);

/// The fragments that a put-back iterator will still yield, in order.
pub uninterp spec fn pending(p: PutBack<IntoIter<Fragment>>) -> Seq<Fragment>;

/// Whether the put-back slot of the iterator is empty.
pub uninterp spec fn slot_free(p: PutBack<IntoIter<Fragment>>) -> bool;

/// Relies on itertools::put_back: the iterator yields the vector's items in order,
/// with nothing put back yet.
#[verifier::external_body]
fn put_back_vec(v: Vec<Fragment>) -> (p: PutBack<IntoIter<Fragment>>)
    ensures
        pending(p) == v@,
        slot_free(p),
{
    itertools::put_back(v)
}

/// Relies on PutBack::next: it yields the put-back item if there is one, else the
/// next item of the vector, and leaves the slot empty.
#[verifier::external_body]
fn next_frag(p: &mut PutBack<IntoIter<Fragment>>) -> (r: Option<Fragment>)
    ensures
        slot_free(*final(p)),
        pending(*old(p)).len() == 0 ==> r is None && pending(*final(p)).len() == 0,
        pending(*old(p)).len() > 0 ==> r == Some(pending(*old(p))[0]) && pending(*final(p))
            == pending(*old(p)).drop_first(),
{
    p.next()
}

/// Relies on PutBack::put_back: with the slot empty, `f` becomes the next item.
#[verifier::external_body]
fn put_back_frag(p: &mut PutBack<IntoIter<Fragment>>, f: Fragment)
    requires
        slot_free(*old(p)),
    ensures
        pending(*final(p)) == seq![f] + pending(*old(p)),
{
    p.put_back(f)
}

/// Subtract a signed adjustment from an offset.
fn adjust(offset: usize, adjustment: isize) -> (r: usize)
    requires
        0 <= offset - adjustment <= usize::MAX,
    ensures
        r == offset - adjustment,
{
    if adjustment < 0 {
        // `-(adjustment + 1)` cannot overflow, even for `isize::MIN`.
        offset + (-(adjustment + 1)) as usize + 1
    } else {
        offset - adjustment as usize
    }
}

/// Move fragments from `src` to `dst` (or drop them, when `keep` is false) until
/// the post-application offset `cutoff` is reached, splitting a fragment that
/// straddles it and putting its remainder back. Returns the cumulative length
/// change including the fragments taken.
///
/// What is taken, what stays in `src` and the returned change are those of one
/// `drain` step; when kept, the taken fragments followed by what stays act on every
/// long enough text as the fragments of `src` did.
///
/// The ghost `p` is the offset in the base text up to which `src` has been
/// consumed; `p + cum_len_change` is the matching offset after the first delta.
#[verifier::rlimit(100)]
#[verifier::spinoff_prover]
fn take_frags(
    dst: &mut Vec<Fragment>,
    keep: bool,
    src: &mut PutBack<IntoIter<Fragment>>,
    cutoff: usize,
    cum_len_change: isize,
    Ghost(d1): Ghost<Seq<Fragment>>,
    Ghost(d2): Ghost<Seq<Fragment>>,
    Ghost(k): Ghost<int>,
    Ghost(p): Ghost<int>,
    Ghost(bound): Ghost<int>,
    Ghost(dst_bound): Ghost<int>,
) -> (ret: isize)
    requires
        0 <= p,
        0 <= p + cum_len_change <= cutoff,
        -bound <= cum_len_change,
        0 <= bound <= isize::MAX,
        bound <= dst_bound,
        cutoff <= isize::MAX,
        valid_after(pending(*old(src)), p),
        frags_fit(pending(*old(src)), bound),
        keep ==> frags_valid(old(dst)@) && reach(old(dst)@) <= p && frags_fit(
            old(dst)@,
            dst_bound,
        ),
        frags_valid(d2),
        0 <= k <= d2.len(),
        reach(d2.take(k)) <= p + cum_len_change,
        forall|t: Seq<u8>| #[trigger]
            composable_on(t, d1, d2) ==> cutoff <= apply_spec(t, d1).len(),
        forall|t: Seq<u8>| #[trigger]
            composable_on(t, d1, d2) ==> rest_matches(
                t,
                d1,
                pending(*old(src)),
                p,
                p + cum_len_change,
            ),
        keep ==> forall|t: Seq<u8>| #[trigger]
            composable_on(t, d1, d2) ==> done_matches(
                t,
                d1,
                d2,
                k,
                old(dst)@,
                p,
                p + cum_len_change,
            ),
    ensures
        -bound <= ret <= cutoff,
        p <= cutoff - ret,
        valid_after(pending(*final(src)), cutoff - ret),
        frags_fit(pending(*final(src)), bound),
        keep ==> frags_valid(final(dst)@) && reach(final(dst)@) <= cutoff - ret && frags_fit(
            final(dst)@,
            dst_bound,
        ),
        !keep ==> final(dst)@ == old(dst)@,
        forall|t: Seq<u8>| #[trigger]
            composable_on(t, d1, d2) ==> rest_matches(
                t,
                d1,
                pending(*final(src)),
                cutoff - ret,
                cutoff as int,
            ),
        keep ==> forall|t: Seq<u8>| #[trigger]
            composable_on(t, d1, d2) ==> done_matches(
                t,
                d1,
                d2,
                k,
                final(dst)@,
                cutoff - ret,
                cutoff as int,
            ),
        pending(*old(src)).len() == 0 ==> ret == cum_len_change && final(dst)@ == old(dst)@
            && pending(*final(src)).len() == 0,
        ret == drain(models(pending(*old(src))), cutoff as int, cum_len_change as int).2,
        models(pending(*final(src))) == drain(
            models(pending(*old(src))),
            cutoff as int,
            cum_len_change as int,
        ).1,
        keep ==> models(final(dst)@) == models(old(dst)@) + drain(
            models(pending(*old(src))),
            cutoff as int,
            cum_len_change as int,
        ).0,
        keep ==> valid_after(final(dst)@.skip(old(dst)@.len() as int), p),
        keep ==> forall|t: Seq<u8>|
            reach(pending(*old(src))) <= t.len() ==> apply_from(
                t,
                final(dst)@.skip(old(dst)@.len() as int) + pending(*final(src)),
                p,
            ) == #[trigger] apply_from(t, pending(*old(src)), p),
{
    let mut cum = cum_len_change;
    let ghost mut pc: int = p;
    let ghost r0 = pending(*src);
    let ghost c0 = dst@;
    let ghost dr = drain(models(r0), cutoff as int, cum_len_change as int);
    let ghost mut taken: Seq<FragModel> = Seq::empty();
    assert(dr == (
        taken + drain(models(pending(*src)), cutoff as int, cum as int).0,
        drain(models(pending(*src)), cutoff as int, cum as int).1,
        drain(models(pending(*src)), cutoff as int, cum as int).2,
    ));
    assert(models(c0) + taken =~= models(dst@));
    assert(dst@.skip(c0.len() as int) + pending(*src) =~= r0);
    assert(reach(dst@.skip(c0.len() as int)) == 0);
    loop
        invariant_except_break
            p <= pc,
            0 <= pc + cum <= cutoff,
            p + cum_len_change <= pc + cum,
            -bound <= cum,
            valid_after(pending(*src), pc),
            frags_fit(pending(*src), bound),
            keep ==> frags_valid(dst@) && reach(dst@) <= pc && frags_fit(dst@, dst_bound),
            !keep ==> dst@ == c0,
            forall|t: Seq<u8>| #[trigger]
                composable_on(t, d1, d2) ==> rest_matches(t, d1, pending(*src), pc, pc + cum),
            keep ==> forall|t: Seq<u8>| #[trigger]
                composable_on(t, d1, d2) ==> done_matches(t, d1, d2, k, dst@, pc, pc + cum),
            r0.len() == 0 ==> cum == cum_len_change && dst@ == c0 && pending(*src).len() == 0
                && pc == p,
            dr == (
                taken + drain(models(pending(*src)), cutoff as int, cum as int).0,
                drain(models(pending(*src)), cutoff as int, cum as int).1,
                drain(models(pending(*src)), cutoff as int, cum as int).2,
            ),
            keep ==> models(dst@) == models(c0) + taken,
            reach(pending(*src)) <= reach(r0),
            dst@.len() >= c0.len(),
            keep ==> valid_after(dst@.skip(c0.len() as int), p) && reach(
                dst@.skip(c0.len() as int),
            ) <= pc,
            keep ==> forall|t: Seq<u8>|
                reach(r0) <= t.len() ==> apply_from(
                    t,
                    dst@.skip(c0.len() as int) + pending(*src),
                    p,
                ) == #[trigger] apply_from(t, r0, p),
        invariant
            dr == drain(models(r0), cutoff as int, cum_len_change as int),
            0 <= p,
            0 <= bound <= isize::MAX,
            bound <= dst_bound,
            cutoff <= isize::MAX,
            frags_valid(d2),
            0 <= k <= d2.len(),
            reach(d2.take(k)) <= p + cum_len_change,
            forall|t: Seq<u8>| #[trigger]
                composable_on(t, d1, d2) ==> cutoff <= apply_spec(t, d1).len(),
            r0 == pending(*old(src)),
            c0 == old(dst)@,
        ensures
            -bound <= cum <= cutoff,
            p <= cutoff - cum,
            valid_after(pending(*src), cutoff - cum),
            frags_fit(pending(*src), bound),
            keep ==> frags_valid(dst@) && reach(dst@) <= cutoff - cum && frags_fit(dst@, dst_bound),
            !keep ==> dst@ == c0,
            forall|t: Seq<u8>| #[trigger]
                composable_on(t, d1, d2) ==> rest_matches(
                    t,
                    d1,
                    pending(*src),
                    cutoff - cum,
                    cutoff as int,
                ),
            keep ==> forall|t: Seq<u8>| #[trigger]
                composable_on(t, d1, d2) ==> done_matches(
                    t,
                    d1,
                    d2,
                    k,
                    dst@,
                    cutoff - cum,
                    cutoff as int,
                ),
            r0.len() == 0 ==> cum == cum_len_change && dst@ == c0 && pending(*src).len() == 0,
            models(pending(*src)) == dr.1,
            cum == dr.2,
            keep ==> models(dst@) == models(c0) + dr.0,
            keep ==> valid_after(dst@.skip(c0.len() as int), p),
            keep ==> forall|t: Seq<u8>|
                reach(r0) <= t.len() ==> apply_from(
                    t,
                    dst@.skip(c0.len() as int) + pending(*src),
                    p,
                ) == #[trigger] apply_from(t, r0, p),
        decreases pending(*src).len(),
    {
        let ghost r = pending(*src);
        let next = next_frag(src);
        match next {
            None => {
                proof {
                    lemma_state_advance(d1, d2, k, dst@, keep, r, pc, pc + cum, cutoff - cum);
                    assert(models(r) =~= Seq::<FragModel>::empty());
                    assert(models(pending(*src)) =~= Seq::<FragModel>::empty());
                    assert(taken + Seq::<FragModel>::empty() =~= taken);
                    assert(dst@.skip(c0.len() as int) + pending(*src) =~= dst@.skip(
                        c0.len() as int,
                    ) + r);
                }
                break ;
            },
            Some(frag) => {
                let mut frag = frag;
                let ghost whole = frag;
                proof {
                    lemma_valid_drop_first(r);
                    lemma_reach_bounds(r);
                    assert(r[0] == whole);
                    assert(whole.start <= whole.end);
                    assert(whole.end <= bound && whole.content@.len() <= isize::MAX);
                    assert(models(r)[0] == whole@);
                    assert(models(r).drop_first() =~= models(r.drop_first()));
                }
                let adjusted = adjust(cutoff, cum);
                if frag.post_end() > adjusted {
                    let split = frag.split(adjusted);
                    match split {
                        Some(rest) => {
                            let ghost cum_before = cum;
                            let ghost pc_before = pc;
                            let ghost r2 = seq![rest] + r.drop_first();
                            proof {
                                lemma_valid_prepend(rest, r.drop_first());
                                assert forall|t: Seq<u8>| #[trigger]
                                    composable_on(t, d1, d2) implies apply_from(t, r, pc)
                                    == t.subrange(pc, frag.start as int) + frag.content@
                                    + apply_from(t, r2, frag.end as int) by {
                                    assert(rest_matches(t, d1, r, pc, pc + cum));
                                    assert(whole.content@ =~= frag.content@ + rest.content@);
                                    assert(t.subrange(rest.start as int, rest.start as int)
                                        =~= Seq::<u8>::empty());
                                    assert(apply_from(t, r2, rest.start as int)
                                        == t.subrange(rest.start as int, rest.start as int)
                                        + rest.content@ + apply_from(
                                        t,
                                        r.drop_first(),
                                        rest.end as int,
                                    ));
                                    assert(apply_from(t, r, pc) =~= t.subrange(
                                        pc,
                                        frag.start as int,
                                    ) + frag.content@ + apply_from(t, r2, frag.end as int));
                                }
                                lemma_state_consume(
                                    d1,
                                    d2,
                                    k,
                                    dst@,
                                    keep,
                                    r,
                                    pc,
                                    pc + cum,
                                    frag,
                                    r2,
                                );
                                if keep {
                                    lemma_valid_push(dst@, frag);
                                }
                            }
                            cum = cum + frag.length_change();
                            let ghost new_pc = frag.end as int;
                            let ghost old_dst = dst@;
                            put_back_frag(src, rest);
                            if keep {
                                dst.push(frag);
                            }
                            proof {
                                pc = new_pc;
                                assert(models(pending(*src)) =~= seq![rest@] + models(r.drop_first()));
                                assert(frag@.content =~= whole@.content.subrange(0, adjusted - whole.start));
                                assert(rest@.content =~= whole@.content.subrange(adjusted - whole.start, whole@.content.len() as int));
                                assert(drain(models(r), cutoff as int, cum_before as int) == (
                                    seq![frag@],
                                    seq![rest@] + models(r.drop_first()),
                                    cum as int,
                                ));
                                if keep {
                                    assert(models(dst@) =~= models(old_dst) + seq![frag@]);
                                }
                                assert(taken + seq![frag@] =~= taken.push(frag@));
                                taken = taken.push(frag@);
                                if keep {
                                    let x = old_dst.skip(c0.len() as int);
                                    assert(dst@.skip(c0.len() as int) =~= x.push(frag));
                                    assert(x + (seq![whole] + r.drop_first()) =~= x + r);
                                    lemma_split_in_list(
                                        x,
                                        whole,
                                        frag,
                                        rest,
                                        r.drop_first(),
                                        p,
                                        pc_before,
                                        adjusted as int,
                                    );
                                    if x.len() > 0 {
                                        assert(x.last() == old_dst.last());
                                    }
                                    lemma_valid_push(x, frag);
                                    assert forall|t: Seq<u8>|
                                        reach(r0) <= t.len() implies apply_from(
                                        t,
                                        dst@.skip(c0.len() as int) + pending(*src),
                                        p,
                                    ) == #[trigger] apply_from(t, r0, p) by {
                                        assert(apply_from(t, x + r, p) == apply_from(t, r0, p));
                                        assert(apply_from(
                                            t,
                                            x.push(frag) + (seq![rest] + r.drop_first()),
                                            p,
                                        ) == apply_from(t, x + (seq![whole] + r.drop_first()), p));
                                    }
                                }
                            }
                        },
                        None => {
                            put_back_frag(src, frag);
                            proof {
                                assert(seq![whole] + r.drop_first() =~= r);
                                assert(taken + Seq::<FragModel>::empty() =~= taken);
                                lemma_state_advance(
                                    d1,
                                    d2,
                                    k,
                                    dst@,
                                    keep,
                                    r,
                                    pc,
                                    pc + cum,
                                    cutoff - cum,
                                );
                            }
                        },
                    }
                    break ;
                }
                proof {
                    assert forall|t: Seq<u8>| #[trigger]
                        composable_on(t, d1, d2) implies apply_from(t, r, pc) == t.subrange(
                        pc,
                        frag.start as int,
                    ) + frag.content@ + apply_from(t, r.drop_first(), frag.end as int) by {}
                    lemma_state_consume(
                        d1,
                        d2,
                        k,
                        dst@,
                        keep,
                        r,
                        pc,
                        pc + cum,
                        frag,
                        r.drop_first(),
                    );
                    if keep {
                        lemma_valid_push(dst@, frag);
                    }
                }
                let ghost cum_before = cum;
                let ghost old_dst = dst@;
                cum = cum + frag.length_change();
                let ghost new_pc = frag.end as int;
                if keep {
                    dst.push(frag);
                }
                proof {
                    pc = new_pc;
                    let next = drain(models(r.drop_first()), cutoff as int, cum as int);
                    assert(drain(models(r), cutoff as int, cum_before as int) == (
                        seq![whole@] + next.0,
                        next.1,
                        next.2,
                    ));
                    assert(taken + (seq![whole@] + next.0) =~= taken.push(whole@) + next.0);
                    if keep {
                        let x = old_dst.skip(c0.len() as int);
                        assert(dst@.skip(c0.len() as int) =~= x.push(whole));
                        assert(x.push(whole) + r.drop_first() =~= x + r);
                        if x.len() > 0 {
                            assert(x.last() == old_dst.last());
                        }
                        lemma_valid_push(x, whole);
                        assert(models(dst@) =~= models(old_dst).push(whole@));
                        assert(models(c0) + taken.push(whole@) =~= (models(c0) + taken).push(whole@));
                    }
                    taken = taken.push(whole@);
                }
            },
        }
    }
    cum
}

/// `c` is a composition of `d1` then `d2`: it is valid, and on every text that
/// `d1` applies to and whose result `d2` applies to, `c` applies and acts as `d1`
/// followed by `d2`. Composing with the empty delta on either side gives the other
/// delta unchanged.
pub open spec fn composes(d1: Seq<Fragment>, d2: Seq<Fragment>, c: Seq<Fragment>) -> bool {
    &&& frags_valid(c)
    &&& forall|t: Seq<u8>| #[trigger]
        composable_on(t, d1, d2) ==> applicable(t, c) && apply_spec(t, c) == apply_spec(
            apply_spec(t, d1),
            d2,
        )
    &&& d2.len() == 0 ==> c == d1
    &&& d1.len() == 0 ==> c == d2
}

/// Combine two deltas into one that is equivalent to applying `first` and then
/// `second`.
pub fn combine(first: Delta, second: Delta) -> (r: Delta)
    requires
        frags_fit(first@, isize::MAX as int),
        frags_fit(second@, isize::MAX as int),
    ensures
        composes(first@, second@, r@),
        models(r@) == combine_model(models(first@), models(second@)),
        r@.len() <= first@.len() + 2 * second@.len(),
        frags_fit(r@, reach(first@) + reach(second@)),
{
    proof {
        use_type_invariant(&first);
        use_type_invariant(&second);
    }
    let ghost d1 = first@;
    let ghost d2 = second@;
    let Delta { frags: first_vec } = first;
    let Delta { frags: second_vec } = second;
    let mut combined: Vec<Fragment> = Vec::new();
    let mut first_frags = put_back_vec(first_vec);
    let mut second_frags = put_back_vec(second_vec);
    // Cumulative change in length caused by the fragments of `first` processed so
    // far: the offsets in `second` are relative to the text after `first`.
    let mut cum_len_change: isize = 0;
    let ghost mut p: int = 0;
    let ghost mut k: int = 0;
    let ghost bound = reach(d1);
    let ghost db = reach(d1) + reach(d2);
    let ghost m1 = models(d1);
    let ghost m2 = models(d2);
    assert(models(combined@) =~= Seq::<FragModel>::empty());
    proof {
        lemma_state_start(d1, d2);
        lemma_reach_bounds(d1);
        lemma_reach_bounds(d2);
        assert(d2.skip(0) =~= d2);
        assert(d2.take(0) =~= Seq::<Fragment>::empty());
    }
    loop
        invariant_except_break
            0 <= k <= d2.len(),
            pending(second_frags) == d2.skip(k),
            0 <= p,
            reach(d2.take(k)) == p + cum_len_change,
            -bound <= cum_len_change,
            valid_after(pending(first_frags), p),
            frags_fit(pending(first_frags), bound),
            frags_valid(combined@),
            reach(combined@) <= p,
            frags_fit(combined@, db),
            forall|t: Seq<u8>| #[trigger]
                composable_on(t, d1, d2) ==> rest_matches(
                    t,
                    d1,
                    pending(first_frags),
                    p,
                    p + cum_len_change,
                ),
            forall|t: Seq<u8>| #[trigger]
                composable_on(t, d1, d2) ==> done_matches(
                    t,
                    d1,
                    d2,
                    k,
                    combined@,
                    p,
                    p + cum_len_change,
                ),
            d1.len() == 0 ==> pending(first_frags).len() == 0 && cum_len_change == 0
                && combined@ == d2.take(k),
            d2.len() == 0 ==> pending(first_frags) == d1 && combined@.len() == 0,
            models(combined@) == merge_state(m1, m2, k).0,
            models(pending(first_frags)) == merge_state(m1, m2, k).1,
            cum_len_change == merge_state(m1, m2, k).2,
        invariant
            m1 == models(d1),
            m2 == models(d2),
            frags_valid(d1),
            frags_valid(d2),
            frags_fit(d2, isize::MAX as int),
            bound == reach(d1),
            db == reach(d1) + reach(d2),
            0 <= bound <= isize::MAX,
            reach(d2) <= isize::MAX,
            forall|i: int| 0 <= i < d2.len() ==> (#[trigger] d2[i]).end <= reach(d2),
            forall|t: Seq<u8>| #[trigger]
                composable_on(t, d1, d2) ==> reach(d2) <= apply_spec(t, d1).len(),
        ensures
            k == d2.len(),
            0 <= p,
            reach(d2) == p + cum_len_change,
            valid_after(pending(first_frags), p),
            frags_fit(pending(first_frags), bound),
            frags_valid(combined@),
            reach(combined@) <= p,
            frags_fit(combined@, db),
            forall|t: Seq<u8>| #[trigger]
                composable_on(t, d1, d2) ==> rest_matches(
                    t,
                    d1,
                    pending(first_frags),
                    p,
                    p + cum_len_change,
                ),
            forall|t: Seq<u8>| #[trigger]
                composable_on(t, d1, d2) ==> done_matches(
                    t,
                    d1,
                    d2,
                    d2.len() as int,
                    combined@,
                    p,
                    p + cum_len_change,
                ),
            d1.len() == 0 ==> pending(first_frags).len() == 0 && combined@ == d2,
            d2.len() == 0 ==> pending(first_frags) == d1 && combined@.len() == 0,
            models(combined@) == merge_state(m1, m2, d2.len() as int).0,
            models(pending(first_frags)) == merge_state(m1, m2, d2.len() as int).1,
        decreases d2.len() - k,
    {
        let next = next_frag(&mut second_frags);
        let mut frag = match next {
            None => {
                proof {
                    assert(d2.take(k) =~= d2);
                }
                break ;
            },
            Some(f) => f,
        };
        let ghost f = frag;
        let ghost st = merge_state(m1, m2, k);
        let ghost comb0 = combined@;
        proof {
            assert(f == d2[k]);
            assert(m2[k] == f@);
            assert(d2.skip(k).drop_first() =~= d2.skip(k + 1));
            assert(d2[k].start <= d2[k].end);
            if k > 0 {
                assert(d2.take(k).last() == d2[k - 1]);
                assert(d2[k - 1].end <= d2[k].start);
            }
        }
        // Take the fragments of `first` that come before this one.
        let before = take_frags(
            &mut combined,
            true,
            &mut first_frags,
            frag.start,
            cum_len_change,
            Ghost(d1),
            Ghost(d2),
            Ghost(k),
            Ghost(p),
            Ghost(bound),
            Ghost(db),
        );
        let ghost a1 = frag.start - before;
        // Drop the fragments of `first` that this one overwrites.
        let after = take_frags(
            &mut combined,
            false,
            &mut first_frags,
            frag.end,
            before,
            Ghost(d1),
            Ghost(d2),
            Ghost(k),
            Ghost(a1),
            Ghost(bound),
            Ghost(db),
        );
        let ghost a2 = frag.end - after;
        frag.start = adjust(frag.start, before);
        frag.end = adjust(frag.end, after);
        proof {
            lemma_valid_push(combined@, frag);
            lemma_state_replace(d1, d2, k, combined@, pending(first_frags), a1, frag);
            assert(d2.take(k).push(f) =~= d2.take(k + 1));
            assert(d2.take(k + 1).last() == f);
        }
        let ghost comb1 = combined@;
        combined.push(frag);
        proof {
            let first = drain(st.1, f.start as int, st.2);
            let second = drain(first.1, f.end as int, first.2);
            assert(models(comb1) == st.0 + first.0);
            assert(frag@ == FragModel {
                start: f.start - first.2,
                end: f.end - second.2,
                content: f.content@,
            });
            assert(models(combined@) =~= models(comb1).push(frag@));
            assert(models(combined@) =~= st.0 + first.0 + seq![frag@]);
        }
        cum_len_change = after;
        proof {
            p = a2;
            k = k + 1;
        }
    }
    // Add the fragments of `first` that remain.
    let ghost c0 = combined@;
    let ghost r0 = pending(first_frags);
    loop
        invariant_except_break
            combined@ + pending(first_frags) == c0 + r0,
        ensures
            combined@ == c0 + r0,
        decreases pending(first_frags).len(),
    {
        let ghost before = combined@;
        let ghost rest = pending(first_frags);
        match next_frag(&mut first_frags) {
            None => {
                assert(rest =~= Seq::<Fragment>::empty());
                assert(c0 + r0 =~= before);
                break ;
            },
            Some(f) => {
                combined.push(f);
                assert(combined@ + pending(first_frags) =~= before + rest);
            },
        }
    }
    proof {
        assert(models(combined@) =~= models(c0) + models(r0));
        law_combine_len(models(d1), models(d2));
        lemma_valid_concat(c0, r0, p);
        lemma_state_finish(d1, d2, c0, r0, p, p + cum_len_change);
        assert forall|i: int| 0 <= i < combined@.len() implies (#[trigger] combined@[i]).end
            <= db && combined@[i].content@.len() <= isize::MAX by {
            if i < c0.len() {
                assert(combined@[i] == c0[i]);
            } else {
                assert(combined@[i] == r0[i - c0.len()]);
            }
        }
        if d1.len() == 0 {
            assert(combined@ =~= d2);
        }
        if d2.len() == 0 {
            assert(combined@ =~= d1);
        }
    }
    Delta { frags: combined }
}

/// The text after applying each delta of `ds` in turn to `t`.
pub open spec fn apply_seq(t: Seq<u8>, ds: Seq<Delta>) -> Seq<u8>
    decreases ds.len(),
{
    if ds.len() == 0 {
        t
    } else {
        apply_spec(apply_seq(t, ds.drop_last()), ds.last()@)
    }
}

/// Each delta of `ds` applies to the text that the deltas before it produce from `t`.
pub open spec fn chain_applicable(t: Seq<u8>, ds: Seq<Delta>) -> bool
    decreases ds.len(),
{
    ds.len() == 0 || (chain_applicable(t, ds.drop_last()) && applicable(
        apply_seq(t, ds.drop_last()),
        ds.last()@,
    ))
}

/// Each delta of the chain has offsets and contents that fit in an `isize`, and
/// the chain applies to some text whose length fits in an `isize`.
pub open spec fn chain_fits(ds: Seq<Delta>) -> bool {
    &&& forall|i: int| 0 <= i < ds.len() ==> frags_fit(#[trigger] ds[i]@, isize::MAX as int)
    &&& exists|t: Seq<u8>| #[trigger] chain_applicable(t, ds) && t.len() <= isize::MAX
}

proof fn lemma_chain_applicable_prefix(t: Seq<u8>, ds: Seq<Delta>, i: int)
    requires
        0 <= i <= ds.len(),
        chain_applicable(t, ds),
    ensures
        chain_applicable(t, ds.take(i)),
    decreases ds.len() - i,
{
    if i < ds.len() {
        lemma_chain_applicable_prefix(t, ds, i + 1);
        assert(ds.take(i + 1).drop_last() =~= ds.take(i));
    } else {
        assert(ds.take(i) =~= ds);
    }
}

/// Combine a chain of deltas into one equivalent delta.
pub fn combine_chain(deltas: Vec<Delta>) -> (r: Delta)
    requires
        chain_fits(deltas@),
    ensures
        deltas@.len() == 0 ==> r@ == Seq::<Fragment>::empty(),
        deltas@.len() == 1 ==> r@ == deltas@[0]@,
        frags_fit(r@, isize::MAX as int),
        forall|t: Seq<u8>| #[trigger]
            chain_applicable(t, deltas@) ==> applicable(t, r@) && apply_spec(t, r@) == apply_seq(
                t,
                deltas@,
            ),
{
    let ghost ds = deltas@;
    let mut deltas = deltas;
    let n = deltas.len();
    let mut acc = Delta::default();
    let mut i: usize = 0;
    let ghost w = choose|t: Seq<u8>| #[trigger] chain_applicable(t, ds) && t.len() <= isize::MAX;
    proof {
        assert(ds.take(0) =~= Seq::<Delta>::empty());
    }
    while i < n
        invariant
            i <= n,
            n == ds.len(),
            deltas@.len() == n,
            forall|j: int| i <= j < n ==> #[trigger] deltas@[j] == ds[j],
            chain_fits(ds),
            chain_applicable(w, ds),
            w.len() <= isize::MAX,
            frags_fit(acc@, isize::MAX as int),
            i == 0 ==> acc@ == Seq::<Fragment>::empty(),
            i == 1 ==> acc@ == ds[0]@,
            forall|t: Seq<u8>| #[trigger]
                chain_applicable(t, ds.take(i as int)) ==> applicable(t, acc@) && apply_spec(t, acc@)
                    == apply_seq(t, ds.take(i as int)),
        decreases n - i,
    {
        let mut next = Delta::empty();
        deltas.set_and_swap(i, &mut next);
        proof {
            use_type_invariant(&acc);
            assert(ds.take(i + 1).drop_last() =~= ds.take(i as int));
            assert(ds.take(i + 1).last() == ds[i as int]);
            assert(next == ds[i as int]);
            assert(frags_fit(ds[i as int]@, isize::MAX as int));
            lemma_chain_applicable_prefix(w, ds, i + 1);
        }
        let ghost prev = acc@;
        acc = combine(acc, next);
        proof {
            assert forall|t: Seq<u8>| #[trigger]
                chain_applicable(t, ds.take(i + 1)) implies applicable(t, acc@) && apply_spec(t, acc@)
                == apply_seq(t, ds.take(i + 1)) by {
                assert(chain_applicable(t, ds.take(i as int)));
                assert(composable_on(t, prev, ds[i as int]@));
            }
            assert(chain_applicable(w, ds.take(i + 1)));
            use_type_invariant(&acc);
            lemma_reach_bounds(acc@);
            assert forall|j: int| 0 <= j < acc@.len() implies (#[trigger] acc@[j]).end
                <= isize::MAX && acc@[j].content@.len() <= isize::MAX by {}
        }
        i = i + 1;
    }
    proof {
        assert(ds.take(n as int) =~= ds);
    }
    acc
}

/// Apply a chain of deltas to a text, composing them first so that no
/// intermediate text is built.
pub fn apply_chain(text: &[u8], deltas: Vec<Delta>) -> (r: Vec<u8>)
    requires
        forall|i: int| 0 <= i < deltas@.len() ==> frags_fit(#[trigger] deltas@[i]@, isize::MAX as int),
        chain_applicable(text@, deltas@),
        text@.len() <= isize::MAX,
    ensures
        r@ == apply_seq(text@, deltas@),
{
    assert(chain_applicable(text@, deltas@) && text@.len() <= isize::MAX);
    let combined = combine_chain(deltas);
    apply(text, combined)
}

/// Applying a composition of `d1` and `d2` gives what applying `d1` and then `d2`
/// gives.
pub proof fn law_combine_sound(t: Seq<u8>, d1: Seq<Fragment>, d2: Seq<Fragment>, c: Seq<Fragment>)
    requires
        composes(d1, d2, c),
        applicable(t, d1),
        applicable(apply_spec(t, d1), d2),
    ensures
        apply_spec(t, c) == apply_spec(apply_spec(t, d1), d2),
{
    assert(composable_on(t, d1, d2));
}

/// The empty delta is an identity of composition on both sides.
pub proof fn law_combine_identity(d: Seq<Fragment>, c1: Seq<Fragment>, c2: Seq<Fragment>)
    requires
        frags_valid(d),
        composes(d, Seq::<Fragment>::empty(), c1),
        composes(Seq::<Fragment>::empty(), d, c2),
    ensures
        c1 == d,
        c2 == d,
{
}

/// Composition is associative: composing `d1` with `d2` and the result with `d3`
/// acts on every text as composing `d1` with the composition of `d2` and `d3`.
pub proof fn law_combine_assoc(
    t: Seq<u8>,
    d1: Seq<Fragment>,
    d2: Seq<Fragment>,
    d3: Seq<Fragment>,
    c12: Seq<Fragment>,
    c12_3: Seq<Fragment>,
    c23: Seq<Fragment>,
    c1_23: Seq<Fragment>,
)
    requires
        composes(d1, d2, c12),
        composes(c12, d3, c12_3),
        composes(d2, d3, c23),
        composes(d1, c23, c1_23),
        applicable(t, d1),
        applicable(apply_spec(t, d1), d2),
        applicable(apply_spec(apply_spec(t, d1), d2), d3),
    ensures
        apply_spec(t, c12_3) == apply_spec(t, c1_23),
        apply_spec(t, c12_3) == apply_spec(apply_spec(apply_spec(t, d1), d2), d3),
{
    let t1 = apply_spec(t, d1);
    assert(composable_on(t, d1, d2));
    assert(composable_on(t, c12, d3));
    assert(composable_on(t1, d2, d3));
    assert(composable_on(t, d1, c23));
}

impl Delta {
    /// Build a delta from gaps: fragment `i` starts `gaps[i].0` bytes after the end
    /// of the fragment before it (or after offset 0), replaces `gaps[i].1` bytes and
    /// holds `contents[i]`. Such a delta is valid by construction.
    pub fn from_gaps(gaps: &[(usize, usize)], contents: Vec<Vec<u8>>) -> (r: Delta)
        requires
            gaps@.len() == contents@.len(),
            gap_total(gaps@) <= usize::MAX,
        ensures
            frags_valid(r@),
            r@.len() == gaps@.len(),
            forall|i: int| 0 <= i < r@.len() ==> #[trigger] placed(r@, gaps@, i),
            forall|i: int| 0 <= i < r@.len() ==> (#[trigger] r@[i]).content@ == contents@[i]@,
    {
        let ghost cs = contents@;
        let mut contents = contents;
        let n = gaps.len();
        let mut frags: Vec<Fragment> = Vec::new();
        let mut end: usize = 0;
        let mut i: usize = 0;
        proof {
            assert(gaps@.skip(0) =~= gaps@);
        }
        while i < n
            invariant
                i <= n,
                n == gaps@.len(),
                contents@.len() == n,
                cs.len() == n,
                forall|j: int| i <= j < n ==> #[trigger] contents@[j] == cs[j],
                frags@.len() == i,
                frags_valid(frags@),
                reach(frags@) == end,
                end + gap_total(gaps@.skip(i as int)) <= usize::MAX,
                forall|j: int| 0 <= j < i ==> #[trigger] placed(frags@, gaps@, j),
                forall|j: int| 0 <= j < i ==> (#[trigger] frags@[j]).content@ == cs[j]@,
            decreases n - i,
        {
            proof {
                assert(gaps@.skip(i as int)[0] == gaps@[i as int]);
                assert(gaps@.skip(i as int).drop_first() =~= gaps@.skip(i + 1));
                lemma_gap_total_nonneg(gaps@.skip(i + 1));
            }
            let (skip, len) = gaps[i];
            let mut content: Vec<u8> = Vec::new();
            contents.set_and_swap(i, &mut content);
            let start = end + skip;
            end = start + len;
            let frag = Fragment { start, end, content };
            let ghost old_frags = frags@;
            proof {
                lemma_valid_push(frags@, frag);
            }
            frags.push(frag);
            proof {
                assert forall|j: int| 0 <= j < i + 1 implies #[trigger] placed(frags@, gaps@, j) by {
                    if j < i {
                        assert(placed(old_frags, gaps@, j));
                        assert(frags@[j] == old_frags[j]);
                        if j > 0 {
                            assert(frags@[j - 1] == old_frags[j - 1]);
                        }
                    } else if j > 0 {
                        assert(old_frags.last() == old_frags[j - 1]);
                    }
                }
                assert forall|j: int| 0 <= j < i + 1 implies (#[trigger] frags@[j]).content@
                    == cs[j]@ by {
                    if j < i {
                        assert(frags@[j] == old_frags[j]);
                    }
                }
            }
            i = i + 1;
        }
        Delta { frags }
    }
}

/// Fragment `j` of `f` starts `g[j].0` bytes after the end of the fragment before
/// it (or after offset 0) and replaces `g[j].1` bytes.
pub open spec fn placed(f: Seq<Fragment>, g: Seq<(usize, usize)>, j: int) -> bool {
    &&& f[j].start == (if j == 0 {
        0
    } else {
        f[j - 1].end as int
    }) + g[j].0
    &&& f[j].end == f[j].start + g[j].1
}

/// The sum of all the gaps and lengths.
pub open spec fn gap_total(g: Seq<(usize, usize)>) -> int
    decreases g.len(),
{
    if g.len() == 0 {
        0
    } else {
        g[0].0 + g[0].1 + gap_total(g.drop_first())
    }
}

proof fn lemma_gap_total_nonneg(g: Seq<(usize, usize)>)
    ensures
        gap_total(g) >= 0,
    decreases g.len(),
{
    if g.len() > 0 {
        lemma_gap_total_nonneg(g.drop_first());
    }
}

/// The valid members of a list of fragment lists, in order.
pub open spec fn valid_only(s: Seq<Seq<Fragment>>) -> Seq<Seq<Fragment>>
    decreases s.len(),
{
    if s.len() == 0 {
        s
    } else if frags_valid(s.last()) {
        valid_only(s.drop_last()).push(s.last())
    } else {
        valid_only(s.drop_last())
    }
}

/// Keep, as deltas, the candidate fragment lists that are valid, in order; the
/// others are dropped.
pub fn valid_deltas(candidates: Vec<Vec<Fragment>>) -> (r: Vec<Delta>)
    ensures
        r@.map_values(|d: Delta| d@) == valid_only(candidates@.map_values(|v: Vec<Fragment>| v@)),
        forall|i: int| 0 <= i < r@.len() ==> frags_valid(#[trigger] r@[i]@),
{
    let ghost cs = candidates@.map_values(|v: Vec<Fragment>| v@);
    let mut candidates = candidates;
    let n = candidates.len();
    let mut out: Vec<Delta> = Vec::new();
    let mut i: usize = 0;
    proof {
        assert(cs.take(0) =~= Seq::<Seq<Fragment>>::empty());
        assert(out@.map_values(|d: Delta| d@) =~= Seq::<Seq<Fragment>>::empty());
    }
    while i < n
        invariant
            i <= n,
            n == cs.len(),
            candidates@.len() == n,
            forall|j: int| i <= j < n ==> (#[trigger] candidates@[j])@ == cs[j],
            out@.map_values(|d: Delta| d@) == valid_only(cs.take(i as int)),
            forall|j: int| 0 <= j < out@.len() ==> frags_valid(#[trigger] out@[j]@),
        decreases n - i,
    {
        let mut frags: Vec<Fragment> = Vec::new();
        candidates.set_and_swap(i, &mut frags);
        proof {
            assert(cs.take(i + 1).drop_last() =~= cs.take(i as int));
            assert(cs.take(i + 1).last() == cs[i as int]);
        }
        let ghost before = out@;
        match Delta::new(frags) {
            Ok(d) => {
                out.push(d);
                assert(out@.map_values(|d: Delta| d@) =~= before.map_values(|d: Delta| d@).push(
                    cs[i as int],
                ));
            },
            Err(_) => {},
        }
        i = i + 1;
    }
    proof {
        assert(cs.take(n as int) =~= cs);
    }
    out
}

} // verus!
