use vstd::prelude::*;
use vstd::pervasive::VecAdditionalExecFns;

verus! {

/// A single contiguous modified region of text: the bytes `[start, end)` of the
/// text before application are replaced by `content`.
#[derive(Clone, Debug, PartialEq, Eq, PartialOrd, Ord)]
pub struct Fragment {
    pub start: usize,
    pub end: usize,
    pub content: Vec<u8>,
}

/// A fragment as mathematical values: replace `[start, end)` with `content`.
pub struct FragModel {
    pub start: int,
    pub end: int,
    pub content: Seq<u8>,
}

impl View for Fragment {
    type V = FragModel;

    open spec fn view(&self) -> FragModel {
        FragModel { start: self.start as int, end: self.end as int, content: self.content@ }
    }
}

/// How `f` splits at post-application offset `at` into a head `h` and a tail `r`.
pub open spec fn split_parts(f: Fragment, at: int, h: Fragment, r: Fragment) -> bool {
    let cut = if f.end <= at { f.end as int } else { at };
    &&& h.start == f.start
    &&& h.end == cut
    &&& h.content@ == f.content@.subrange(0, at - f.start)
    &&& r.start == cut
    &&& r.end == f.end
    &&& r.content@ == f.content@.subrange(at - f.start, f.content@.len() as int)
}

impl Fragment {
    /// Where the fragment's content ends once applied.
    pub open spec fn spec_post_end(&self) -> int {
        self.start + self.content@.len()
    }

    /// The change in text length that applying the fragment causes.
    pub open spec fn spec_length_change(&self) -> int {
        self.content@.len() - (self.end - self.start)
    }

    /// Whether post-application offset `o` falls inside the fragment's content.
    pub open spec fn spec_contains_offset(&self, o: int) -> bool {
        self.start <= o < self.spec_post_end()
    }

    /// The fragment's offsets and content length all fit in an `isize`.
    pub open spec fn fits(&self) -> bool {
        &&& self.end <= isize::MAX
        &&& self.start <= isize::MAX
        &&& self.content@.len() <= isize::MAX
    }

    /// Return the end offset of this fragment's content, after application.
    pub fn post_end(&self) -> (r: usize)
        requires
            self.spec_post_end() <= usize::MAX,
        ensures
            r == self.spec_post_end(),
    {
        self.start + self.content.len()
    }

    /// Return the change in text length this fragment causes when applied.
    pub fn length_change(&self) -> (r: isize)
        requires
            self.start <= self.end,
            self.end - self.start <= isize::MAX,
            self.content@.len() <= isize::MAX,
        ensures
            r == self.spec_length_change(),
    {
        self.content.len() as isize - (self.end - self.start) as isize
    }

    /// Return true if the given offset falls within this fragment's content
    /// (post-application).
    pub fn contains_offset(&self, offset: usize) -> (r: bool)
        ensures
            r == self.spec_contains_offset(offset as int),
    {
        self.start <= offset && offset - self.start < self.content.len()
    }

    /// Split the fragment at the given post-application offset. The fragment keeps
    /// the part before `at` and the part from `at` on is returned. Returns `None`,
    /// leaving the fragment as it was, if `at` is not within the fragment's content.
    ///
    /// When the content is longer than the replaced range, `at` may lie past `end`;
    /// the cut in pre-application offsets is then clamped to `end`.
    pub fn split(&mut self, at: usize) -> (r: Option<Fragment>)
        ensures
            r is None <==> !old(self).spec_contains_offset(at as int),
            r is None ==> *final(self) == *old(self),
            r matches Some(tail) ==> split_parts(*old(self), at as int, *final(self), tail),
    {
        if !self.contains_offset(at) {
            return None;
        }
        let split = if self.end < at { self.end } else { at };
        let end = self.end;
        self.end = split;
        let rest = self.content.split_off(at - self.start);
        Some(Fragment { start: split, end: end, content: rest })
    }

    /// Check that the fragment does not start after it ends.
    pub fn verify(&self) -> (r: bool)
        ensures
            r == (self.start <= self.end),
    {
        self.start <= self.end
    }

    /// A fragment replacing `len` bytes from `start`, built so that it is well formed.
    pub fn from_draw(start: usize, len: usize, content: Vec<u8>) -> (r: Fragment)
        requires
            start + len <= usize::MAX,
        ensures
            r.start == start,
            r.end == start + len,
            r.content@ == content@,
            r.start <= r.end,
    {
        Fragment { start, end: start + len, content }
    }
}

/// Keep the candidates that are well formed (start no later than end), in order.
pub fn well_formed_fragments(candidates: Vec<Fragment>) -> (r: Vec<Fragment>)
    ensures
        r@ == candidates@.filter(|f: Fragment| f.start <= f.end),
{
    let ghost cs = candidates@;
    let mut candidates = candidates;
    let n = candidates.len();
    let mut out: Vec<Fragment> = Vec::new();
    let mut i: usize = 0;
    proof {
        reveal(Seq::filter);
        assert(cs.take(0) =~= Seq::<Fragment>::empty());
    }
    while i < n
        invariant
            i <= n,
            n == cs.len(),
            candidates@.len() == n,
            forall|j: int| i <= j < n ==> #[trigger] candidates@[j] == cs[j],
            out@ == cs.take(i as int).filter(|f: Fragment| f.start <= f.end),
        decreases n - i,
    {
        let mut f = Fragment { start: 0, end: 0, content: Vec::new() };
        candidates.set_and_swap(i, &mut f);
        proof {
            reveal(Seq::filter);
            assert(cs.take(i + 1).drop_last() =~= cs.take(i as int));
            assert(cs.take(i + 1).last() == cs[i as int]);
        }
        if f.verify() {
            out.push(f);
        }
        i = i + 1;
    }
    proof {
        assert(cs.take(n as int) =~= cs);
    }
    out
}

} // verus!
