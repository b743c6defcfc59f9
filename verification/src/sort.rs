//! The merge core of `Array.prototype.sort`: a bottom-up, stable merge sort
//! over snapshot positions, driven one comparison at a time.
//!
//! The sorter never looks at the values being sorted. It holds positions
//! `0..n` of the snapshot; whenever it needs to order two of them it hands
//! them out (`MergeStep::Compare`) and waits for the caller to run the
//! comparator and report the outcome (`place`). Equal outcomes keep the left
//! run's element first, which makes the sort stable.
use vstd::prelude::*;
use vstd::set_lib::{lemma_int_range, lemma_len_subset, lemma_subset_equality, set_int_range};
use std::cmp::Ordering;

verus! {

/// The state of a merge sort, as plain values.
pub struct SortModel {
    /// The current pass's order: runs of `width` positions, each merged.
    pub items: Seq<usize>,
    /// The next pass's order, filled pair by pair.
    pub aux: Seq<usize>,
    /// Length of the runs being merged in this pass.
    pub width: int,
    /// Start of the pair of runs being merged.
    pub base: int,
    /// Next unmerged position of the left run.
    pub i: int,
    /// Next unmerged position of the right run.
    pub j: int,
    /// Next position of `aux` to fill.
    pub k: int,
    /// End of the left run (start of the right run).
    pub left_end: int,
    /// End of the right run.
    pub right_end: int,
    /// End of the pair (same as `right_end`).
    pub pair_end: int,
    /// The sort is complete; `items` holds the result.
    pub done: bool,
}

/// What the driver has to do after a merge step.
#[derive(Clone, Copy, Debug, PartialEq, Eq, Structural)]
pub enum MergeStep {
    /// Compare the values at these two snapshot positions (the first from
    /// the left run) and report the outcome to `MergeSorter::place`.
    Compare(usize, usize),
    /// An element moved, or a pair was completed; step again.
    Progress,
    /// The sort is complete.
    Finished,
}

/// The smaller of two integers.
pub open spec fn min_int(a: int, b: int) -> int {
    if a <= b { a } else { b }
}

/// `hi` is reached from `lo` by whole steps of `w`.
pub open spec fn reaches(lo: int, hi: int, w: int) -> bool
    decreases hi - lo,
{
    if w <= 0 || lo > hi {
        false
    } else if lo == hi {
        true
    } else if lo + w > hi {
        false
    } else {
        reaches(lo + w, hi, w)
    }
}

/// Positions `lo..hi` of `s` hold distinct values, each in `lo..hi`.
pub open spec fn block_ok(s: Seq<usize>, lo: int, hi: int) -> bool {
    &&& forall|p: int| lo <= p < hi ==> lo <= #[trigger] s[p] < hi
    &&& forall|p: int, q: int| lo <= p < q < hi ==> #[trigger] s[p] != #[trigger] s[q]
}

/// Every run of `w` positions from `lo` up to `hi` (the last one cut at
/// `hi`) satisfies `block_ok`.
pub open spec fn blocks_ok(s: Seq<usize>, lo: int, hi: int, w: int) -> bool
    decreases hi - lo,
{
    if w <= 0 || lo >= hi {
        true
    } else if lo + w >= hi {
        block_ok(s, lo, hi)
    } else {
        block_ok(s, lo, lo + w) && blocks_ok(s, lo + w, hi, w)
    }
}

/// The order in which `key` sorts snapshot positions: by key, and among
/// equal keys by position.
pub open spec fn lex_lt(key: Seq<int>, x: usize, y: usize) -> bool {
    key[x as int] < key[y as int] || (key[x as int] == key[y as int] && x < y)
}

/// Positions `lo..hi` of `s` are strictly ordered by `lex_lt`.
pub open spec fn block_sorted(s: Seq<usize>, key: Seq<int>, lo: int, hi: int) -> bool {
    forall|p: int, q: int| lo <= p < q < hi ==> lex_lt(key, #[trigger] s[p], #[trigger] s[q])
}

/// Every run of `w` positions from `lo` up to `hi` is sorted.
pub open spec fn blocks_sorted(s: Seq<usize>, key: Seq<int>, lo: int, hi: int, w: int) -> bool
    decreases hi - lo,
{
    if w <= 0 || lo >= hi {
        true
    } else if lo + w >= hi {
        block_sorted(s, key, lo, hi)
    } else {
        block_sorted(s, key, lo, lo + w) && blocks_sorted(s, key, lo + w, hi, w)
    }
}

/// The value `v` is held at some position of `s`.
pub open spec fn occurs(s: Seq<usize>, v: int) -> bool {
    exists|p: int| 0 <= p < s.len() && #[trigger] s[p] == v
}

/// A position as an integer.
pub open spec fn position(i: usize) -> int {
    i as int
}

/// The identity order `0..n`.
pub open spec fn identity(n: nat) -> Seq<usize> {
    Seq::new(n, |t: int| t as usize)
}

impl SortModel {
    /// Number of positions being sorted.
    pub open spec fn n(self) -> int {
        self.items.len() as int
    }

    /// `aux` with the run `lo..hi` of `items` copied over unchanged.
    pub open spec fn carried(self, lo: int, hi: int) -> Seq<usize> {
        Seq::new(self.aux.len(), |t: int| if lo <= t < hi { self.items[t] } else { self.aux[t] })
    }

    /// Set up the next pair of runs to merge, going on to the next pass
    /// when this one is through; a lone run is carried over as it is.
    /// Marks the sort done when the runs cover everything.
    pub open spec fn advanced(self) -> SortModel
        decreases self.n() - self.width, self.n() - self.base,
    {
        let n = self.n();
        if self.width <= 0 || self.base < 0 || self.aux.len() != n {
            self
        } else if self.base >= n {
            if self.width >= n - self.width {
                SortModel { items: self.aux, aux: self.items, done: true, ..self }
            } else {
                SortModel { items: self.aux, aux: self.items, width: 2 * self.width, base: 0, ..self }.advanced()
            }
        } else {
            let mid = min_int(self.base + self.width, n);
            let end = min_int(self.base + 2 * self.width, n);
            if mid >= end {
                SortModel { aux: self.carried(self.base, mid), base: end, ..self }.advanced()
            } else {
                SortModel {
                    i: self.base,
                    j: mid,
                    k: self.base,
                    left_end: mid,
                    right_end: end,
                    pair_end: end,
                    ..self
                }
            }
        }
    }

    /// The state in which a sort of `n` positions starts.
    pub open spec fn start(n: nat) -> SortModel {
        let s = SortModel {
            items: identity(n),
            aux: Seq::new(n, |t: int| 0usize),
            width: 1,
            base: 0,
            i: 0,
            j: 0,
            k: 0,
            left_end: 0,
            right_end: 0,
            pair_end: 0,
            done: n <= 1,
        };
        if n <= 1 { s } else { s.advanced() }
    }

    /// `items[from]`, where `from` is the next position of the left run if
    /// `take_left`, else of the right run, appended to the merged output.
    pub open spec fn took(self, take_left: bool) -> SortModel {
        let from = if take_left { self.i } else { self.j };
        SortModel {
            aux: self.aux.update(self.k, self.items[from]),
            i: if take_left { self.i + 1 } else { self.i },
            j: if take_left { self.j } else { self.j + 1 },
            k: self.k + 1,
            ..self
        }
    }

    /// The state right after the current pair was wholly merged.
    pub open spec fn pair_closed(self) -> SortModel {
        SortModel { base: self.pair_end, ..self }
    }

    /// Once a pair is wholly merged, go on to the next one.
    pub open spec fn finish_pair(self) -> SortModel {
        if self.k >= self.pair_end {
            self.pair_closed().advanced()
        } else {
            self
        }
    }

    /// Both runs of the pair have elements left: the next step needs a
    /// comparison.
    pub open spec fn ready(self) -> bool {
        !self.done && self.k < self.pair_end && self.i < self.left_end && self.j < self.right_end
    }

    /// One merge step without a comparison: when one run is exhausted the
    /// other is carried over to the end of the pair, and a finished pair
    /// moves the sort on to the next one.
    pub open spec fn drained(self) -> SortModel
        decreases self.pair_end - self.k,
    {
        if self.done {
            self
        } else if self.k >= self.pair_end {
            self.finish_pair()
        } else if self.i < self.left_end && self.j < self.right_end {
            self
        } else {
            self.took(self.i < self.left_end).drained()
        }
    }

    /// What a merge step reports: the two snapshot positions to compare
    /// when both runs have elements left, `Finished` once the sort is
    /// done, and `Progress` otherwise.
    pub open spec fn step_result(self) -> MergeStep {
        if self.done {
            MergeStep::Finished
        } else if self.ready() {
            MergeStep::Compare(self.items[self.i], self.items[self.j])
        } else {
            MergeStep::Progress
        }
    }

    /// Place one element after a comparison: the left one unless the
    /// comparison put it after the right one.
    pub open spec fn placed(self, take_left: bool) -> SortModel {
        self.took(take_left).finish_pair()
    }

    /// The state between passes or pairs: the pairs before `base` are
    /// merged into `aux`.
    pub open spec fn boundary(self) -> bool {
        let n = self.n();
        &&& self.aux.len() == n
        &&& n <= usize::MAX
        &&& !self.done
        &&& 1 <= self.width < n
        &&& 0 <= self.base <= n
        &&& (reaches(0, self.base, 2 * self.width) || self.base == n)
        &&& blocks_ok(self.items, 0, n, self.width)
        &&& blocks_ok(self.aux, 0, self.base, 2 * self.width)
    }

    /// A pair is being merged and the merge has not consumed it yet.
    pub open spec fn merging(self) -> bool {
        let n = self.n();
        &&& self.aux.len() == n
        &&& n <= usize::MAX
        &&& !self.done
        &&& 1 <= self.width < n
        &&& 0 <= self.base < n
        &&& reaches(0, self.base, 2 * self.width)
        &&& blocks_ok(self.items, 0, n, self.width)
        &&& blocks_ok(self.aux, 0, self.base, 2 * self.width)
        &&& self.left_end == min_int(self.base + self.width, n)
        &&& self.right_end == min_int(self.base + 2 * self.width, n)
        &&& self.pair_end == self.right_end
        &&& self.left_end < self.right_end
        &&& block_ok(self.items, self.base, self.left_end)
        &&& block_ok(self.items, self.left_end, self.right_end)
        &&& self.base <= self.i <= self.left_end
        &&& self.left_end <= self.j <= self.right_end
        &&& self.k == self.i + self.j - self.left_end
        &&& self.k < self.pair_end
        &&& forall|p: int| self.base <= p < self.k ==> self.from_pair(#[trigger] self.aux[p])
        &&& forall|p: int, q: int|
            self.base <= p < q < self.k ==> #[trigger] self.aux[p] != #[trigger] self.aux[q]
    }

    /// `v` is one of the positions already taken from the current pair.
    pub open spec fn from_pair(self, v: usize) -> bool {
        exists|r: int|
            ((self.base <= r < self.i) || (self.left_end <= r < self.j)) && #[trigger] self.items[r] == v
    }

    /// On top of `boundary`: every run of `items` and every merged pair of
    /// `aux` is sorted by `key`.
    pub open spec fn boundary_sorted(self, key: Seq<int>) -> bool {
        &&& self.boundary()
        &&& key.len() == self.n()
        &&& blocks_sorted(self.items, key, 0, self.n(), self.width)
        &&& blocks_sorted(self.aux, key, 0, self.base, 2 * self.width)
    }

    /// The sort is on its way to ordering the positions by `key`: the state
    /// is well formed, every run and every merged pair is sorted by `key`,
    /// and so is the output of the current pair, whose last element comes
    /// before the next element of either run.
    pub open spec fn sorting(self, key: Seq<int>) -> bool {
        &&& self.wf()
        &&& key.len() == self.n()
        &&& if self.done {
            block_sorted(self.items, key, 0, self.n())
        } else {
            &&& blocks_sorted(self.items, key, 0, self.n(), self.width)
            &&& blocks_sorted(self.aux, key, 0, self.base, 2 * self.width)
            &&& block_sorted(self.items, key, self.base, self.left_end)
            &&& block_sorted(self.items, key, self.left_end, self.right_end)
            &&& block_sorted(self.aux, key, self.base, self.k)
            &&& (self.base < self.k && self.i < self.left_end ==> lex_lt(
                key,
                self.aux[self.k - 1],
                self.items[self.i],
            ))
            &&& (self.base < self.k && self.j < self.right_end ==> lex_lt(
                key,
                self.aux[self.k - 1],
                self.items[self.j],
            ))
        }
    }

    /// The outcome reported for the pending comparison agrees with `key`:
    /// the left element is taken exactly when its key is not greater.
    pub open spec fn agrees(self, key: Seq<int>, take_left: bool) -> bool {
        take_left == (key[self.items[self.i] as int] <= key[self.items[self.j] as int])
    }

    /// `self` is strictly further along than `other`: finished where
    /// `other` was not, or merging longer runs, or further into the same
    /// pass. Between unfinished well-formed states `width` and `k` stay
    /// below `n`, so no sort can move ahead forever.
    pub open spec fn ahead_of(self, other: SortModel) -> bool {
        ||| (!other.done && self.done)
        ||| (!other.done && !self.done && other.width < self.width)
        ||| (!other.done && !self.done && other.width == self.width && other.k < self.k)
    }

    /// The state is one that a sort reaches: either done with its result
    /// in `items`, or in the middle of merging a pair.
    pub open spec fn wf(self) -> bool {
        if self.done {
            &&& self.aux.len() == self.n()
            &&& self.n() <= usize::MAX
            &&& block_ok(self.items, 0, self.n())
        } else {
            self.merging()
        }
    }
}

// ---------------------------------------------------------------------------
// Lemmas on runs.
// ---------------------------------------------------------------------------

proof fn lemma_reaches_step(lo: int, hi: int, w: int)
    requires
        reaches(lo, hi, w),
    ensures
        reaches(lo, hi + w, w),
    decreases hi - lo,
{
    if lo < hi {
        lemma_reaches_step(lo + w, hi, w);
    } else {
        assert(reaches(lo + w, hi + w, w));
    }
}

proof fn lemma_reaches_half(lo: int, hi: int, w: int)
    requires
        reaches(lo, hi, 2 * w),
    ensures
        reaches(lo, hi, w),
    decreases hi - lo,
{
    if lo < hi {
        lemma_reaches_half(lo + 2 * w, hi, w);
        assert(reaches(lo + w, hi, w));
    }
}

proof fn lemma_blocks_ok_at(s: Seq<usize>, lo: int, hi: int, w: int, b: int)
    requires
        blocks_ok(s, lo, hi, w),
        reaches(lo, b, w),
        b < hi,
    ensures
        block_ok(s, b, min_int(b + w, hi)),
    decreases b - lo,
{
    if lo < b {
        lemma_blocks_ok_at(s, lo + w, hi, w, b);
    }
}

proof fn lemma_blocks_sorted_at(s: Seq<usize>, key: Seq<int>, lo: int, hi: int, w: int, b: int)
    requires
        blocks_sorted(s, key, lo, hi, w),
        reaches(lo, b, w),
        b < hi,
    ensures
        block_sorted(s, key, b, min_int(b + w, hi)),
    decreases b - lo,
{
    if lo < b {
        lemma_blocks_sorted_at(s, key, lo + w, hi, w, b);
    }
}

proof fn lemma_blocks_ok_append(s: Seq<usize>, lo: int, b: int, end: int, w: int)
    requires
        reaches(lo, b, w),
        blocks_ok(s, lo, b, w),
        block_ok(s, b, end),
        b < end <= b + w,
    ensures
        blocks_ok(s, lo, end, w),
    decreases b - lo,
{
    if lo < b {
        lemma_blocks_ok_append(s, lo + w, b, end, w);
    } else {
        assert(blocks_ok(s, b + w, end, w));
    }
}

proof fn lemma_blocks_sorted_append(s: Seq<usize>, key: Seq<int>, lo: int, b: int, end: int, w: int)
    requires
        reaches(lo, b, w),
        blocks_sorted(s, key, lo, b, w),
        block_sorted(s, key, b, end),
        b < end <= b + w,
    ensures
        blocks_sorted(s, key, lo, end, w),
    decreases b - lo,
{
    if lo < b {
        lemma_blocks_sorted_append(s, key, lo + w, b, end, w);
    } else {
        assert(blocks_sorted(s, key, b + w, end, w));
    }
}

proof fn lemma_blocks_ok_frame(s: Seq<usize>, t: Seq<usize>, lo: int, hi: int, w: int)
    requires
        blocks_ok(s, lo, hi, w),
        forall|p: int| lo <= p < hi ==> s[p] == t[p],
    ensures
        blocks_ok(t, lo, hi, w),
    decreases hi - lo,
{
    if w > 0 && lo < hi {
        let e = min_int(lo + w, hi);
        assert forall|p: int| lo <= p < e implies lo <= #[trigger] t[p] < e by {
            assert(s[p] == t[p]);
        }
        assert forall|p: int, q: int| lo <= p < q < e implies #[trigger] t[p] != #[trigger] t[q] by {
            assert(s[p] == t[p] && s[q] == t[q]);
        }
        if lo + w < hi {
            lemma_blocks_ok_frame(s, t, lo + w, hi, w);
        }
    }
}

proof fn lemma_blocks_sorted_frame(s: Seq<usize>, t: Seq<usize>, key: Seq<int>, lo: int, hi: int, w: int)
    requires
        blocks_sorted(s, key, lo, hi, w),
        forall|p: int| lo <= p < hi ==> s[p] == t[p],
    ensures
        blocks_sorted(t, key, lo, hi, w),
    decreases hi - lo,
{
    if w > 0 && lo < hi {
        let e = min_int(lo + w, hi);
        assert forall|p: int, q: int| lo <= p < q < e implies lex_lt(key, #[trigger] t[p], #[trigger] t[q]) by {
            assert(s[p] == t[p] && s[q] == t[q]);
        }
        if lo + w < hi {
            lemma_blocks_sorted_frame(s, t, key, lo + w, hi, w);
        }
    }
}

proof fn lemma_blocks_whole(s: Seq<usize>, n: int, w: int)
    requires
        blocks_ok(s, 0, n, w),
        0 < n <= w,
    ensures
        block_ok(s, 0, n),
{
}

proof fn lemma_identity_blocks(n: nat, lo: int)
    requires
        0 <= lo,
        n <= usize::MAX,
    ensures
        blocks_ok(identity(n), lo, n as int, 1),
    decreases n - lo,
{
    if lo < n {
        assert(identity(n)[lo] == lo);
        lemma_identity_blocks(n, lo + 1);
    }
}

/// Copy positions `lo..hi` of `src` over those of `dst`.
fn copy_run(dst: &mut Vec<usize>, src: &Vec<usize>, lo: usize, hi: usize)
    requires
        lo <= hi <= src.len(),
        old(dst).len() == src.len(),
    ensures
        final(dst)@ == Seq::new(old(dst)@.len(), |t: int| if lo <= t < hi { src@[t] } else { old(dst)@[t] }),
{
    let mut t = lo;
    while t < hi
        invariant
            lo <= t <= hi <= src.len(),
            dst.len() == src.len(),
            forall|p: int|
                0 <= p < src.len() ==> #[trigger] dst@[p] == (if lo <= p < t { src@[p] } else { old(dst)@[p] }),
        decreases hi - t,
    {
        let v = src[t];
        dst.set(t, v);
        t = t + 1;
    }
    assert(dst@ =~= Seq::new(old(dst)@.len(), |t: int| if lo <= t < hi { src@[t] } else { old(dst)@[t] }));
}

/// A boundary state advances to a state that is merging a pair, or to a
/// finished sort.
proof fn lemma_advanced_wf(m: SortModel)
    requires
        m.boundary(),
    ensures
        m.advanced().wf(),
    decreases m.n() - m.width, m.n() - m.base,
{
    let n = m.n();
    if m.base >= n {
        assert(m.base == n);
        if m.width >= n - m.width {
            lemma_blocks_whole(m.aux, n, 2 * m.width);
        } else {
            let m2 = SortModel { items: m.aux, aux: m.items, width: 2 * m.width, base: 0, ..m };
            assert(m2.boundary()) by {
                assert(reaches(0, 0, 4 * m.width));
            }
            lemma_advanced_wf(m2);
        }
    } else {
        assert(reaches(0, m.base, 2 * m.width));
        let mid = min_int(m.base + m.width, n);
        let end = min_int(m.base + 2 * m.width, n);
        lemma_reaches_half(0, m.base, m.width);
        lemma_blocks_ok_at(m.items, 0, n, m.width, m.base);
        if mid >= end {
            let m2 = SortModel { aux: m.carried(m.base, mid), base: end, ..m };
            assert(end == n);
            lemma_blocks_ok_frame(m.aux, m2.aux, 0, m.base, 2 * m.width);
            assert(block_ok(m2.aux, m.base, end)) by {
                assert forall|p: int| m.base <= p < end implies m2.aux[p] == m.items[p] by {}
                assert forall|p: int, q: int| m.base <= p < q < end implies #[trigger] m2.aux[p] != #[trigger] m2.aux[q] by {
                    assert(m2.aux[p] == m.items[p] && m2.aux[q] == m.items[q]);
                }
                assert forall|p: int| m.base <= p < end implies m.base <= #[trigger] m2.aux[p] < end by {
                    assert(m2.aux[p] == m.items[p]);
                }
            }
            lemma_blocks_ok_append(m2.aux, 0, m.base, end, 2 * m.width);
            lemma_advanced_wf(m2);
        } else {
            lemma_reaches_step(0, m.base, m.width);
            lemma_blocks_ok_at(m.items, 0, n, m.width, m.base + m.width);
        }
    }
}

/// Appending one element of the pair keeps the merge well formed; the
/// last one completes the pair and leaves a boundary state.
proof fn lemma_took_wf(m: SortModel, take_left: bool)
    requires
        m.merging(),
        take_left ==> m.i < m.left_end,
        !take_left ==> m.j < m.right_end,
    ensures
        m.took(take_left).k < m.pair_end ==> m.took(take_left).merging(),
        m.took(take_left).k >= m.pair_end ==> m.took(take_left).pair_closed().boundary(),
{
    let s1 = m.took(take_left);
    let from = if take_left { m.i } else { m.j };
    let v = m.items[from];
    assert(s1.aux[m.k] == v);
    assert forall|p: int| 0 <= p < m.k implies s1.aux[p] == m.aux[p] by {}
    lemma_blocks_ok_frame(m.aux, s1.aux, 0, m.base, 2 * m.width);
    assert forall|p: int| m.base <= p < s1.k implies s1.from_pair(#[trigger] s1.aux[p]) by {
        if p < m.k {
            assert(m.from_pair(m.aux[p]));
            let r = choose|r: int|
                ((m.base <= r < m.i) || (m.left_end <= r < m.j)) && #[trigger] m.items[r] == m.aux[p];
            assert(s1.items[r] == s1.aux[p]);
        } else {
            assert(s1.items[from] == s1.aux[p]);
        }
    }
    assert forall|p: int, q: int| m.base <= p < q < s1.k implies #[trigger] s1.aux[p] != #[trigger] s1.aux[q] by {
        if q == m.k {
            assert(m.from_pair(m.aux[p]));
            let r = choose|r: int|
                ((m.base <= r < m.i) || (m.left_end <= r < m.j)) && #[trigger] m.items[r] == m.aux[p];
            assert(m.items[r] != m.items[from]);
        }
    }
    if s1.k >= m.pair_end {
        let s2 = s1.pair_closed();
        let end = m.pair_end;
        assert(s1.i == m.left_end && s1.j == m.right_end);
        assert forall|p: int| m.base <= p < end implies m.base <= #[trigger] s1.aux[p] < end by {
            assert(s1.from_pair(s1.aux[p]));
            let r = choose|r: int|
                ((s1.base <= r < s1.i) || (s1.left_end <= r < s1.j)) && #[trigger] s1.items[r] == s1.aux[p];
            assert(m.items[r] == s1.aux[p]);
        }
        assert(block_ok(s1.aux, m.base, end));
        lemma_blocks_ok_append(s1.aux, 0, m.base, end, 2 * m.width);
        if end < m.n() {
            lemma_reaches_step(0, m.base, 2 * m.width);
        }
        assert(s2.boundary());
    }
}

/// A merge step without a comparison keeps the state well formed.
proof fn lemma_drained_wf(m: SortModel)
    requires
        m.wf(),
    ensures
        m.drained().wf(),
    decreases m.pair_end - m.k,
{
    if !m.done && !(m.i < m.left_end && m.j < m.right_end) {
        let t = m.i < m.left_end;
        lemma_took_wf(m, t);
        let s1 = m.took(t);
        if s1.k < m.pair_end {
            lemma_drained_wf(s1);
        } else {
            lemma_advanced_wf(s1.pair_closed());
        }
    }
}

/// Placing an element after a comparison keeps the state well formed.
proof fn lemma_placed_wf(m: SortModel, take_left: bool)
    requires
        m.wf(),
        m.ready(),
    ensures
        m.placed(take_left).wf(),
{
    lemma_took_wf(m, take_left);
    let s1 = m.took(take_left);
    if s1.k >= m.pair_end {
        lemma_advanced_wf(s1.pair_closed());
    }
}

/// The sorted counterpart of `lemma_advanced_wf`.
proof fn lemma_advanced_sorting(m: SortModel, key: Seq<int>)
    requires
        m.boundary_sorted(key),
    ensures
        m.advanced().sorting(key),
    decreases m.n() - m.width, m.n() - m.base,
{
    lemma_advanced_wf(m);
    let n = m.n();
    if m.base >= n {
        if m.width < n - m.width {
            let m2 = SortModel { items: m.aux, aux: m.items, width: 2 * m.width, base: 0, ..m };
            assert(m2.boundary()) by {
                assert(reaches(0, 0, 4 * m.width));
            }
            lemma_advanced_sorting(m2, key);
        }
    } else {
        assert(reaches(0, m.base, 2 * m.width));
        let mid = min_int(m.base + m.width, n);
        let end = min_int(m.base + 2 * m.width, n);
        lemma_reaches_half(0, m.base, m.width);
        lemma_blocks_ok_at(m.items, 0, n, m.width, m.base);
        lemma_blocks_sorted_at(m.items, key, 0, n, m.width, m.base);
        if mid >= end {
            let m2 = SortModel { aux: m.carried(m.base, mid), base: end, ..m };
            lemma_blocks_ok_frame(m.aux, m2.aux, 0, m.base, 2 * m.width);
            lemma_blocks_sorted_frame(m.aux, m2.aux, key, 0, m.base, 2 * m.width);
            assert(block_ok(m2.aux, m.base, end)) by {
                assert forall|p: int, q: int| m.base <= p < q < end implies #[trigger] m2.aux[p] != #[trigger] m2.aux[q] by {
                    assert(m2.aux[p] == m.items[p] && m2.aux[q] == m.items[q]);
                }
                assert forall|p: int| m.base <= p < end implies m.base <= #[trigger] m2.aux[p] < end by {
                    assert(m2.aux[p] == m.items[p]);
                }
            }
            assert(block_sorted(m2.aux, key, m.base, end)) by {
                assert forall|p: int, q: int| m.base <= p < q < end implies lex_lt(key, #[trigger] m2.aux[p], #[trigger] m2.aux[q]) by {
                    assert(m2.aux[p] == m.items[p] && m2.aux[q] == m.items[q]);
                }
            }
            lemma_blocks_ok_append(m2.aux, 0, m.base, end, 2 * m.width);
            lemma_blocks_sorted_append(m2.aux, key, 0, m.base, end, 2 * m.width);
            lemma_advanced_sorting(m2, key);
        } else {
            lemma_reaches_step(0, m.base, m.width);
            lemma_blocks_sorted_at(m.items, key, 0, n, m.width, m.base + m.width);
        }
    }
}

/// The sorted counterpart of `lemma_took_wf`: appending the element that
/// `key` puts next keeps the output sorted.
proof fn lemma_took_sorting(m: SortModel, key: Seq<int>, take_left: bool)
    requires
        m.sorting(key),
        !m.done,
        take_left ==> m.i < m.left_end,
        !take_left ==> m.j < m.right_end,
        m.i < m.left_end && m.j < m.right_end ==> m.agrees(key, take_left),
    ensures
        m.took(take_left).k < m.pair_end ==> m.took(take_left).sorting(key),
        m.took(take_left).k >= m.pair_end ==> m.took(take_left).pair_closed().boundary_sorted(key),
{
    lemma_took_wf(m, take_left);
    let s1 = m.took(take_left);
    let from = if take_left { m.i } else { m.j };
    let x = m.items[from];
    assert(s1.aux[m.k] == x);
    assert forall|p: int| 0 <= p < m.k implies s1.aux[p] == m.aux[p] by {}
    lemma_blocks_sorted_frame(m.aux, s1.aux, key, 0, m.base, 2 * m.width);
    assert(block_sorted(s1.aux, key, m.base, s1.k)) by {
        assert forall|p: int, q: int| m.base <= p < q < s1.k implies lex_lt(key, #[trigger] s1.aux[p], #[trigger] s1.aux[q]) by {
            if q == m.k {
                if p < m.k - 1 {
                    assert(lex_lt(key, m.aux[p], m.aux[m.k - 1]));
                }
            }
        }
    }
    if take_left {
        if s1.i < m.left_end {
            assert(lex_lt(key, m.items[m.i], m.items[m.i + 1]));
        }
        if m.j < m.right_end {
            assert(m.left_end <= m.items[m.j] < m.right_end);
            assert(m.base <= m.items[m.i] < m.left_end);
        }
    } else {
        if s1.j < m.right_end {
            assert(lex_lt(key, m.items[m.j], m.items[m.j + 1]));
        }
    }
    if s1.k >= m.pair_end {
        lemma_blocks_sorted_append(s1.aux, key, 0, m.base, m.pair_end, 2 * m.width);
    }
}

/// The sorted counterpart of `lemma_drained_wf`.
proof fn lemma_drained_sorting(m: SortModel, key: Seq<int>)
    requires
        m.sorting(key),
    ensures
        m.drained().sorting(key),
    decreases m.pair_end - m.k,
{
    if !m.done && !(m.i < m.left_end && m.j < m.right_end) {
        let t = m.i < m.left_end;
        lemma_took_sorting(m, key, t);
        let s1 = m.took(t);
        if s1.k < m.pair_end {
            lemma_drained_sorting(s1, key);
        } else {
            lemma_advanced_sorting(s1.pair_closed(), key);
        }
    }
}

/// The sorted counterpart of `lemma_placed_wf`.
proof fn lemma_placed_sorting(m: SortModel, key: Seq<int>, take_left: bool)
    requires
        m.sorting(key),
        m.ready(),
        m.agrees(key, take_left),
    ensures
        m.placed(take_left).sorting(key),
{
    lemma_took_sorting(m, key, take_left);
    let s1 = m.took(take_left);
    if s1.k >= m.pair_end {
        lemma_advanced_sorting(s1.pair_closed(), key);
    }
}

proof fn lemma_width_one_sorted(s: Seq<usize>, key: Seq<int>, lo: int, hi: int)
    ensures
        blocks_sorted(s, key, lo, hi, 1),
    decreases hi - lo,
{
    if lo + 1 < hi {
        lemma_width_one_sorted(s, key, lo + 1, hi);
    }
}

/// Setting up the next pair never moves the sort back: it finishes it,
/// starts a later pass, or starts a pair at or after `base`.
proof fn lemma_advanced_forward(m: SortModel)
    requires
        m.boundary(),
    ensures
        m.advanced().done || m.advanced().width > m.width || (m.advanced().width == m.width
            && m.advanced().k >= m.base),
    decreases m.n() - m.width, m.n() - m.base,
{
    let n = m.n();
    if m.base >= n {
        if m.width < n - m.width {
            let m2 = SortModel { items: m.aux, aux: m.items, width: 2 * m.width, base: 0, ..m };
            assert(m2.boundary()) by {
                assert(reaches(0, 0, 4 * m.width));
            }
            lemma_advanced_forward(m2);
        }
    } else {
        let mid = min_int(m.base + m.width, n);
        let end = min_int(m.base + 2 * m.width, n);
        if mid >= end {
            let m2 = SortModel { aux: m.carried(m.base, mid), base: end, ..m };
            assert(m2.boundary()) by {
                lemma_reaches_half(0, m.base, m.width);
                lemma_blocks_ok_at(m.items, 0, n, m.width, m.base);
                lemma_blocks_ok_frame(m.aux, m2.aux, 0, m.base, 2 * m.width);
                assert forall|p: int, q: int| m.base <= p < q < end implies #[trigger] m2.aux[p] != #[trigger] m2.aux[q] by {
                    assert(m2.aux[p] == m.items[p] && m2.aux[q] == m.items[q]);
                }
                assert forall|p: int| m.base <= p < end implies m.base <= #[trigger] m2.aux[p] < end by {
                    assert(m2.aux[p] == m.items[p]);
                }
                lemma_blocks_ok_append(m2.aux, 0, m.base, end, 2 * m.width);
            }
            lemma_advanced_forward(m2);
        }
    }
}

proof fn lemma_took_forward(m: SortModel, take_left: bool)
    requires
        m.merging(),
        take_left ==> m.i < m.left_end,
        !take_left ==> m.j < m.right_end,
    ensures
        m.took(take_left).finish_pair().ahead_of(m),
{
    lemma_took_wf(m, take_left);
    let s1 = m.took(take_left);
    if s1.k >= m.pair_end {
        lemma_advanced_forward(s1.pair_closed());
    }
}

proof fn lemma_drained_forward(m: SortModel)
    requires
        m.merging(),
        !m.ready(),
    ensures
        m.drained().ahead_of(m),
    decreases m.pair_end - m.k,
{
    let t = m.i < m.left_end;
    lemma_took_wf(m, t);
    lemma_took_forward(m, t);
    let s1 = m.took(t);
    assert(m.drained() == s1.drained());
    if s1.k < m.pair_end {
        assert(!s1.ready());
        lemma_drained_forward(s1);
        assert(s1.ahead_of(m));
    } else {
        assert(s1.drained() == s1.finish_pair());
    }
}

// ---------------------------------------------------------------------------
// Laws.
// ---------------------------------------------------------------------------

/// A new sort of `n` positions starts well formed and on its way to
/// ordering the positions by any key for them.
pub proof fn law_start(n: nat, key: Seq<int>)
    requires
        n <= usize::MAX,
        key.len() == n,
    ensures
        SortModel::start(n).wf(),
        SortModel::start(n).sorting(key),
{
    let s0 = SortModel {
        items: identity(n),
        aux: Seq::new(n, |t: int| 0usize),
        width: 1,
        base: 0,
        i: 0,
        j: 0,
        k: 0,
        left_end: 0,
        right_end: 0,
        pair_end: 0,
        done: n <= 1,
    };
    if n <= 1 {
        assert(block_ok(s0.items, 0, n as int));
    } else {
        assert(reaches(0, 0, 2));
        lemma_identity_blocks(n, 0);
        lemma_width_one_sorted(s0.items, key, 0, n as int);
        lemma_advanced_wf(s0);
        lemma_advanced_sorting(s0, key);
    }
}

/// A merge step keeps the sort well formed, and on its way to ordering by
/// `key` if it was; when a comparison is pending it changes nothing, and
/// otherwise it moves the sort strictly forward.
pub proof fn law_merge_step(m: SortModel, key: Seq<int>)
    requires
        m.wf(),
    ensures
        m.drained().wf(),
        m.sorting(key) ==> m.drained().sorting(key),
        m.ready() ==> m.drained() == m,
        !m.done && !m.ready() ==> m.drained().ahead_of(m),
{
    lemma_drained_wf(m);
    if m.sorting(key) {
        lemma_drained_sorting(m, key);
    }
    if !m.done && !m.ready() {
        lemma_drained_forward(m);
    }
}

/// Placing an element after a comparison keeps the sort well formed and
/// moves it strictly forward; when the outcome agrees with `key`, the sort
/// stays on its way to ordering by `key`.
pub proof fn law_place(m: SortModel, key: Seq<int>, take_left: bool)
    requires
        m.wf(),
        m.ready(),
    ensures
        m.placed(take_left).wf(),
        m.placed(take_left).ahead_of(m),
        m.sorting(key) && m.agrees(key, take_left) ==> m.placed(take_left).sorting(key),
{
    lemma_placed_wf(m, take_left);
    lemma_took_forward(m, take_left);
    if m.sorting(key) && m.agrees(key, take_left) {
        lemma_placed_sorting(m, key, take_left);
    }
}

/// A finished sort holds every snapshot position exactly once: whatever
/// the comparator reported, the result is a permutation of `0..n`.
pub proof fn law_done_permutation(m: SortModel)
    requires
        m.wf(),
        m.done,
    ensures
        forall|p: int| 0 <= p < m.n() ==> 0 <= #[trigger] m.items[p] < m.n(),
        forall|p: int, q: int| 0 <= p < q < m.n() ==> #[trigger] m.items[p] != #[trigger] m.items[q],
        forall|v: int| 0 <= v < m.n() ==> #[trigger] occurs(m.items, v),
{
    let n = m.n();
    let u = m.items.map_values(|v: usize| v as int);
    assert(u.no_duplicates()) by {
        assert forall|p: int, q: int| 0 <= p < u.len() && 0 <= q < u.len() && p != q implies u[p] != u[q] by {
            if p < q {
                assert(m.items[p] != m.items[q]);
            } else {
                assert(m.items[q] != m.items[p]);
            }
        }
    }
    u.unique_seq_to_set();
    lemma_int_range(0, n);
    assert(u.to_set().subset_of(set_int_range(0, n))) by {
        assert forall|v: int| u.to_set().contains(v) implies set_int_range(0, n).contains(v) by {
            let p = choose|p: int| 0 <= p < u.len() && u[p] == v;
            assert(0 <= m.items[p] < n);
        }
    }
    lemma_len_subset(u.to_set(), set_int_range(0, n));
    lemma_subset_equality(u.to_set(), set_int_range(0, n));
    assert forall|v: int| 0 <= v < n implies #[trigger] occurs(m.items, v) by {
        assert(set_int_range(0, n).contains(v));
        assert(u.to_set().contains(v));
        let p = choose|p: int| 0 <= p < u.len() && u[p] == v;
        assert(m.items[p] == v);
    }
}

/// A finished sort whose comparisons all agreed with `key` holds the
/// positions ordered by key, and positions with equal keys in their
/// original order: the sort is stable.
pub proof fn law_done_sorted(m: SortModel, key: Seq<int>)
    requires
        m.sorting(key),
        m.done,
    ensures
        forall|p: int, q: int| 0 <= p < q < m.n() ==> lex_lt(key, #[trigger] m.items[p], #[trigger] m.items[q]),
{
}

// ---------------------------------------------------------------------------
// The default comparison.
// ---------------------------------------------------------------------------

/// The UTF-16 order of `a` and `b` from position `i` on: the first unit
/// that differs decides, and a string that ends first comes first.
pub open spec fn units_order_from(a: Seq<u16>, b: Seq<u16>, i: int) -> Ordering
    decreases a.len() - i,
{
    if i < 0 || (i >= a.len() && i >= b.len()) {
        Ordering::Equal
    } else if i >= a.len() {
        Ordering::Less
    } else if i >= b.len() {
        Ordering::Greater
    } else if a[i] < b[i] {
        Ordering::Less
    } else if a[i] > b[i] {
        Ordering::Greater
    } else {
        units_order_from(a, b, i + 1)
    }
}

/// How the default comparison orders two elements given by their string
/// keys, `None` standing for `undefined`: `undefined` goes after
/// everything else, and strings go in UTF-16 order.
pub open spec fn default_order_spec(x: Option<Seq<u16>>, y: Option<Seq<u16>>) -> Ordering {
    match (x, y) {
        (None, None) => Ordering::Equal,
        (None, Some(_)) => Ordering::Greater,
        (Some(_), None) => Ordering::Less,
        (Some(a), Some(b)) => units_order_from(a, b, 0),
    }
}

/// The default comparison of two elements by their string keys (`None`
/// for `undefined`).
pub fn default_order(x: Option<&[u16]>, y: Option<&[u16]>) -> (r: Ordering)
    ensures
        r == default_order_spec(
            match x {
                Some(a) => Some(a@),
                None => None,
            },
            match y {
                Some(b) => Some(b@),
                None => None,
            },
        ),
{
    match (x, y) {
        (None, None) => Ordering::Equal,
        (None, Some(_)) => Ordering::Greater,
        (Some(_), None) => Ordering::Less,
        (Some(a), Some(b)) => {
            let mut i: usize = 0;
            while i < a.len() && i < b.len()
                invariant
                    x == Some(a),
                    y == Some(b),
                    i <= a@.len(),
                    i <= b@.len(),
                    units_order_from(a@, b@, 0) == units_order_from(a@, b@, position(i)),
                decreases a.len() - i,
            {
                let ghost p = position(i);
                let ai = a[i];
                let bi = b[i];
                assert(a@[p] == ai && b@[p] == bi);
                if ai < bi {
                    assert(units_order_from(a@, b@, p) == Ordering::Less);
                    return Ordering::Less;
                }
                if ai > bi {
                    assert(units_order_from(a@, b@, p) == Ordering::Greater);
                    return Ordering::Greater;
                }
                i = i + 1;
                assert(units_order_from(a@, b@, p) == units_order_from(a@, b@, position(i)));
            }
            let ghost p = position(i);
            assert(units_order_from(a@, b@, 0) == units_order_from(a@, b@, p));
            if i < a.len() {
                Ordering::Greater
            } else if i < b.len() {
                Ordering::Less
            } else {
                Ordering::Equal
            }
        },
    }
}

proof fn lemma_units_order_flip(a: Seq<u16>, b: Seq<u16>, i: int)
    requires
        0 <= i <= a.len(),
        i <= b.len(),
    ensures
        (units_order_from(a, b, i) == Ordering::Less) == (units_order_from(b, a, i) == Ordering::Greater),
        (units_order_from(a, b, i) == Ordering::Equal) == (units_order_from(b, a, i) == Ordering::Equal),
        units_order_from(a, b, i) == Ordering::Equal ==> a.skip(i) == b.skip(i),
    decreases a.len() - i,
{
    if i < a.len() && i < b.len() && a[i] == b[i] {
        lemma_units_order_flip(a, b, i + 1);
        if units_order_from(a, b, i) == Ordering::Equal {
            assert(a.skip(i) =~= seq![a[i]] + a.skip(i + 1));
            assert(b.skip(i) =~= seq![b[i]] + b.skip(i + 1));
        }
    } else if i >= a.len() && i >= b.len() {
        assert(a.skip(i) =~= b.skip(i));
    }
}

/// The default comparison is antisymmetric, and calls two elements equal
/// only when both are `undefined` or their keys are the same string.
pub proof fn law_default_order_antisymmetric(x: Option<Seq<u16>>, y: Option<Seq<u16>>)
    ensures
        (default_order_spec(x, y) == Ordering::Less) == (default_order_spec(y, x) == Ordering::Greater),
        (default_order_spec(x, y) == Ordering::Equal) == (x == y),
{
    if let (Some(a), Some(b)) = (x, y) {
        lemma_units_order_flip(a, b, 0);
        if a == b {
            lemma_units_order_equal(a);
        }
        if units_order_from(a, b, 0) == Ordering::Equal {
            assert(a.skip(0) =~= a);
            assert(b.skip(0) =~= b);
        }
    }
}

proof fn lemma_units_order_equal(a: Seq<u16>)
    ensures
        units_order_from(a, a, 0) == Ordering::Equal,
{
    lemma_units_order_refl(a, 0);
}

proof fn lemma_units_order_refl(a: Seq<u16>, i: int)
    requires
        0 <= i,
    ensures
        units_order_from(a, a, i) == Ordering::Equal,
    decreases a.len() - i,
{
    if i < a.len() {
        lemma_units_order_refl(a, i + 1);
    }
}

// ---------------------------------------------------------------------------
// The executable sorter.
// ---------------------------------------------------------------------------

/// A merge sort of the snapshot positions `0..n`, advanced one step at a
/// time by its driver.
pub struct MergeSorter {
    items: Vec<usize>,
    aux: Vec<usize>,
    width: usize,
    base: usize,
    i: usize,
    j: usize,
    k: usize,
    left_end: usize,
    right_end: usize,
    pair_end: usize,
    done: bool,
}

impl View for MergeSorter {
    type V = SortModel;

    closed spec fn view(&self) -> SortModel {
        SortModel {
            items: self.items@,
            aux: self.aux@,
            width: self.width as int,
            base: self.base as int,
            i: self.i as int,
            j: self.j as int,
            k: self.k as int,
            left_end: self.left_end as int,
            right_end: self.right_end as int,
            pair_end: self.pair_end as int,
            done: self.done,
        }
    }
}

impl MergeSorter {
    /// Start sorting `n` snapshot positions. With fewer than two there is
    /// nothing to merge and the sort is done at once.
    pub fn new(n: usize) -> (s: MergeSorter)
        ensures
            s@ == SortModel::start(n as nat),
            s@.wf(),
    {
        let mut items: Vec<usize> = Vec::new();
        let mut aux: Vec<usize> = Vec::new();
        let mut t: usize = 0;
        while t < n
            invariant
                t <= n,
                items@ == identity(t as nat),
                aux@ == Seq::new(t as nat, |p: int| 0usize),
            decreases n - t,
        {
            items.push(t);
            aux.push(0);
            t = t + 1;
            assert(items@ =~= identity(t as nat));
            assert(aux@ =~= Seq::new(t as nat, |p: int| 0usize));
        }
        let mut s = MergeSorter {
            items,
            aux,
            width: 1,
            base: 0,
            i: 0,
            j: 0,
            k: 0,
            left_end: 0,
            right_end: 0,
            pair_end: 0,
            done: n <= 1,
        };
        proof {
            if n <= 1 {
                assert(block_ok(s@.items, 0, n as int));
            } else {
                assert(s@.boundary()) by {
                    assert(reaches(0, 0, 2));
                    lemma_identity_blocks(n as nat, 0);
                }
                lemma_advanced_wf(s@);
            }
        }
        if n > 1 {
            s.advance();
        }
        s
    }

    /// Set up the next pair of runs, as `SortModel::advanced` says.
    /// Returns false once the sort is done.
    fn advance(&mut self) -> (more: bool)
        requires
            1 <= old(self)@.width < old(self)@.n(),
            old(self)@.aux.len() == old(self)@.n(),
            !old(self)@.done,
        ensures
            final(self)@ == old(self)@.advanced(),
            more == !final(self)@.done,
    {
        let n = self.items.len();
        loop
            invariant
                self.items.len() == n,
                self.aux.len() == n,
                1 <= self.width < n,
                !self.done,
                self@.advanced() == old(self)@.advanced(),
            decreases n - self.width, n - self.base,
        {
            let ghost prev = self@;
            if self.base >= n {
                std::mem::swap(&mut self.items, &mut self.aux);
                if self.width >= n - self.width {
                    self.done = true;
                    assert(self@ == prev.advanced());
                    return false;
                }
                self.width = self.width + self.width;
                self.base = 0;
                assert(self@.advanced() == prev.advanced());
                continue;
            }
            let mid = if self.width >= n - self.base { n } else { self.base + self.width };
            let end = if mid == n || self.width >= n - mid { n } else { mid + self.width };
            assert(mid == min_int(prev.base + prev.width, n as int));
            assert(end == min_int(prev.base + 2 * prev.width, n as int));
            if mid >= end {
                copy_run(&mut self.aux, &self.items, self.base, mid);
                assert(self.aux@ =~= prev.carried(prev.base, mid as int));
                self.base = end;
                assert(self@.advanced() == prev.advanced());
                continue;
            }
            self.i = self.base;
            self.j = mid;
            self.k = self.base;
            self.left_end = mid;
            self.right_end = end;
            self.pair_end = end;
            assert(self@ == prev.advanced());
            return true;
        }
    }

    /// One merge step. When both runs of the pair have elements left it
    /// hands out the two snapshot positions to compare and changes
    /// nothing; otherwise it carries the rest of the other run over, closes
    /// the pair and sets up the next one.
    pub fn merge_step(&mut self) -> (r: MergeStep)
        requires
            old(self)@.wf(),
        ensures
            final(self)@ == old(self)@.drained(),
            r == old(self)@.step_result(),
            final(self)@.wf(),
    {
        proof {
            lemma_drained_wf(self@);
        }
        if self.done {
            return MergeStep::Finished;
        }
        if self.i < self.left_end && self.j < self.right_end {
            return MergeStep::Compare(self.items[self.i], self.items[self.j]);
        }
        let ghost m0 = self@;
        while self.k < self.pair_end
            invariant
                !self@.done,
                self@.drained() == m0.drained(),
                self.k < self.pair_end ==> self@.merging() && !(self.i < self.left_end && self.j < self.right_end),
                self.k >= self.pair_end ==> self@.pair_closed().boundary(),
            decreases self.pair_end - self.k,
        {
            let ghost prev = self@;
            let take_left = self.i < self.left_end;
            proof {
                lemma_took_wf(prev, take_left);
            }
            let from = if take_left {
                let t = self.i;
                self.i = self.i + 1;
                t
            } else {
                let t = self.j;
                self.j = self.j + 1;
                t
            };
            let v = self.items[from];
            self.aux.set(self.k, v);
            self.k = self.k + 1;
            assert(self@ == prev.took(take_left));
        }
        self.base = self.pair_end;
        self.advance();
        MergeStep::Progress
    }

    /// Report the outcome of the comparison asked for by the last merge
    /// step: `Greater` places the right element next, anything else the
    /// left one, so equal elements keep their order.
    pub fn place(&mut self, ord: Ordering)
        requires
            old(self)@.wf(),
            old(self)@.ready(),
        ensures
            final(self)@ == old(self)@.placed(ord != Ordering::Greater),
            final(self)@.wf(),
    {
        let take_left = match ord {
            Ordering::Greater => false,
            _ => true,
        };
        self.take(take_left);
    }

    /// Place the next element of the left run (or of the right one).
    fn take(&mut self, take_left: bool)
        requires
            old(self)@.wf(),
            old(self)@.ready(),
        ensures
            final(self)@ == old(self)@.placed(take_left),
            final(self)@.wf(),
    {
        let ghost prev = self@;
        proof {
            lemma_placed_wf(prev, take_left);
            lemma_took_wf(prev, take_left);
        }
        let from = if take_left {
            let t = self.i;
            self.i = self.i + 1;
            t
        } else {
            let t = self.j;
            self.j = self.j + 1;
            t
        };
        let v = self.items[from];
        self.aux.set(self.k, v);
        self.k = self.k + 1;
        assert(self@ == prev.took(take_left));
        if self.k >= self.pair_end {
            self.base = self.pair_end;
            self.advance();
        }
    }

    /// True once the sort is complete.
    pub fn is_done(&self) -> (r: bool)
        ensures
            r == self@.done,
    {
        self.done
    }

    /// The current order of the snapshot positions; once the sort is done,
    /// the sorted order.
    pub fn order(&self) -> (r: &Vec<usize>)
        ensures
            r@ == self@.items,
    {
        &self.items
    }
}

} // verus!
