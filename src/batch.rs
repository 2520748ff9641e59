//! How a batch transform of `count` points is shared out: a fixed number of
//! workers each take one contiguous, lane-aligned slice of equal size, and the
//! calling thread takes the remainder at the end. The slices and the
//! remainder are pairwise disjoint and together cover every index exactly
//! once, which is what lets the workers write one shared destination without
//! locks. The caller then waits on a [`CompletionBarrier`] for one signal per
//! dispatched slice.
use vstd::prelude::*;

verus! {

/// The partition of `count` indices into `workers` slices of `slice_size`
/// each, followed by the remainder.
pub struct SlicePlan {
    pub count: usize,
    pub workers: usize,
    pub lanes: usize,
    pub slice_size: usize,
}

impl SlicePlan {
    pub open spec fn wf(&self) -> bool {
        &&& self.workers > 0
        &&& self.lanes > 0
        &&& self.slice_size == (self.count / self.workers) / self.lanes * self.lanes
    }

    /// Where slice `i` starts.
    pub open spec fn start_of(&self, i: int) -> int {
        i * self.slice_size
    }

    /// Where the remainder starts: just after the last slice.
    pub open spec fn tail_start(&self) -> int {
        self.workers * self.slice_size
    }

    /// The part of the work that index `k` belongs to: `Some(i)` for slice
    /// `i`, `None` for the remainder.
    pub open spec fn owner(&self, k: int) -> Option<int> {
        if k < self.tail_start() {
            Some(k / self.slice_size as int)
        } else {
            None
        }
    }

    /// Plans the split of `count` points over `workers` workers with vectors
    /// of `lanes` values: each slice holds the largest multiple of `lanes`
    /// that is at most `count / workers`.
    pub fn new(count: usize, workers: usize, lanes: usize) -> (r: SlicePlan)
        requires
            workers > 0,
            lanes > 0,
        ensures
            r.wf(),
            r.count == count,
            r.workers == workers,
            r.lanes == lanes,
    {
        let per_worker = count / workers;
        proof {
            lemma_div_mul_le(per_worker as int, lanes as int);
        }
        let slice_size = per_worker / lanes * lanes;
        SlicePlan { count, workers, lanes, slice_size }
    }

    /// The index range `[start, end)` of slice `i`.
    pub fn slice_range(&self, i: usize) -> (r: (usize, usize))
        requires
            self.wf(),
            i < self.workers,
        ensures
            r.0 == self.start_of(i as int),
            r.1 == self.start_of(i + 1),
            r.1 - r.0 == self.slice_size,
            r.1 <= self.count,
    {
        proof {
            lemma_plan_fits(*self);
            lemma_mul_mono(i + 1, self.workers as int, self.slice_size as int);
            assert((i + 1) * self.slice_size == i * self.slice_size + self.slice_size)
                by (nonlinear_arith);
        }
        (i * self.slice_size, (i + 1) * self.slice_size)
    }

    /// The index range `[start, count)` left to the calling thread.
    pub fn remainder(&self) -> (r: (usize, usize))
        requires
            self.wf(),
        ensures
            r.0 == self.tail_start(),
            r.1 == self.count,
            r.0 <= r.1,
    {
        proof {
            lemma_plan_fits(*self);
        }
        (self.workers * self.slice_size, self.count)
    }

    /// Where the result for index `k` is kept: `(Some(i), o)` for offset `o`
    /// of slice `i`, `(None, o)` for offset `o` of the remainder.
    pub fn locate(&self, k: usize) -> (r: (Option<usize>, usize))
        requires
            self.wf(),
            k < self.count,
        ensures
            r.0 == match self.owner(k as int) {
                Some(i) => Some(i as usize),
                None => None::<usize>,
            },
            r.1 == match r.0 {
                Some(i) => k - self.start_of(i as int),
                None => k - self.tail_start(),
            },
            r.1 < match r.0 {
                Some(_) => self.slice_size as int,
                None => self.count - self.tail_start(),
            },
    {
        proof {
            lemma_partition(*self, k as int);
            lemma_plan_fits(*self);
        }
        let tail = self.workers * self.slice_size;
        if k < tail {
            assert(self.slice_size > 0) by (nonlinear_arith)
                requires k < self.workers * self.slice_size;
            let i = k / self.slice_size;
            proof {
                lemma_mul_mono(i as int, self.workers as int, self.slice_size as int);
                assert((i + 1) * self.slice_size == i * self.slice_size + self.slice_size)
                    by (nonlinear_arith);
            }
            (Some(i), k - i * self.slice_size)
        } else {
            (None, k - tail)
        }
    }

    /// The number of whole vectors of `lanes` values in one slice.
    pub fn vectors_per_slice(&self) -> (r: usize)
        requires
            self.wf(),
        ensures
            r * self.lanes == self.slice_size,
    {
        proof {
            lemma_div_mul_le(self.count as int / self.workers as int, self.lanes as int);
        }
        self.slice_size / self.lanes
    }
}

proof fn lemma_div_mul_le(a: int, b: int)
    requires
        a >= 0,
        b > 0,
    ensures
        0 <= a / b * b <= a,
        (a / b * b) / b == a / b,
        (a / b * b) % b == 0,
{
    vstd::arithmetic::div_mod::lemma_fundamental_div_mod(a, b);
    vstd::arithmetic::div_mod::lemma_div_multiples_vanish(a / b, b);
    vstd::arithmetic::div_mod::lemma_mod_multiples_basic(a / b, b);
    assert(a / b >= 0) by {
        vstd::arithmetic::div_mod::lemma_div_pos_is_pos(a, b);
    }
    assert(a % b >= 0) by {
        vstd::arithmetic::div_mod::lemma_mod_pos_bound(a, b);
    }
    assert(a / b * b == b * (a / b)) by (nonlinear_arith);
    assert(a / b * b >= 0) by (nonlinear_arith)
        requires a / b >= 0, b > 0;
}

proof fn lemma_mul_mono(a: int, b: int, c: int)
    requires
        0 <= a <= b,
        c >= 0,
    ensures
        a * c <= b * c,
{
    assert(a * c <= b * c) by (nonlinear_arith)
        requires 0 <= a <= b, c >= 0;
}

/// All the slices fit inside the points: `workers * slice_size <= count`.
proof fn lemma_plan_fits(p: SlicePlan)
    requires
        p.wf(),
    ensures
        p.workers * p.slice_size <= p.count,
        p.slice_size % p.lanes == 0,
{
    let q = p.count / p.workers;
    lemma_div_mul_le(q as int, p.lanes as int);
    lemma_div_mul_le(p.count as int, p.workers as int);
    lemma_mul_mono(p.slice_size as int, q as int, p.workers as int);
    assert(p.workers * p.slice_size == p.slice_size * p.workers) by (nonlinear_arith);
    assert(q * p.workers == p.count / p.workers * p.workers);
}

/// Every index below `count` belongs to exactly one part of the plan: to the
/// slice `i` with `start_of(i) <= k < start_of(i + 1)` and to no other slice,
/// or, past the last slice, to the remainder alone.
pub proof fn lemma_partition(p: SlicePlan, k: int)
    requires
        p.wf(),
        0 <= k < p.count,
    ensures
        match p.owner(k) {
            Some(i) => 0 <= i < p.workers && p.start_of(i) <= k < p.start_of(i + 1) && forall|j: int|
                0 <= j < p.workers && j != i ==> !(#[trigger] p.start_of(j) <= k < p.start_of(j + 1)),
            None => p.tail_start() <= k && forall|j: int|
                0 <= j < p.workers ==> !(#[trigger] p.start_of(j) <= k < p.start_of(j + 1)),
        },
{
    lemma_plan_fits(p);
    let s = p.slice_size as int;
    let w = p.workers as int;
    if k < p.tail_start() {
        assert(s > 0) by (nonlinear_arith)
            requires k < w * s, k >= 0, s >= 0;
        let i = k / s;
        vstd::arithmetic::div_mod::lemma_fundamental_div_mod(k, s);
        vstd::arithmetic::div_mod::lemma_mod_pos_bound(k, s);
        vstd::arithmetic::div_mod::lemma_div_pos_is_pos(k, s);
        assert(i < w) by (nonlinear_arith)
            requires k == s * i + k % s, k % s >= 0, k < w * s, s > 0;
        assert(i * s <= k < (i + 1) * s) by (nonlinear_arith)
            requires k == s * i + k % s, 0 <= k % s < s;
        assert forall|j: int| 0 <= j < w && j != i implies !(#[trigger] p.start_of(j) <= k < p.start_of(j + 1)) by {
            if j < i {
                assert((j + 1) * s <= i * s) by (nonlinear_arith)
                    requires j + 1 <= i, s > 0;
            } else {
                assert((i + 1) * s <= j * s) by (nonlinear_arith)
                    requires i + 1 <= j, s > 0;
            }
        }
    } else {
        assert forall|j: int| 0 <= j < w implies !(#[trigger] p.start_of(j) <= k < p.start_of(j + 1)) by {
            assert((j + 1) * s <= w * s) by (nonlinear_arith)
                requires j + 1 <= w, s >= 0;
        }
    }
}

/// Every slice starts on a whole vector: `start_of(i)` and the slice size are
/// multiples of `lanes`.
pub proof fn lemma_lane_aligned(p: SlicePlan, i: int)
    requires
        p.wf(),
        0 <= i < p.workers,
    ensures
        p.start_of(i) % p.lanes as int == 0,
        p.slice_size % p.lanes == 0,
{
    lemma_plan_fits(p);
    let q = (p.count / p.workers) as int / p.lanes as int;
    vstd::arithmetic::div_mod::lemma_div_pos_is_pos((p.count / p.workers) as int, p.lanes as int);
    assert(i * p.slice_size == (i * q) * p.lanes) by (nonlinear_arith)
        requires p.slice_size == q * p.lanes;
    assert(i * q >= 0) by (nonlinear_arith)
        requires i >= 0, q >= 0;
    vstd::arithmetic::div_mod::lemma_mod_multiples_basic(i * q, p.lanes as int);
}

/// Counts completion signals until one has come for every dispatched slice.
pub struct CompletionBarrier {
    expected: usize,
    received: usize,
}

impl CompletionBarrier {
    pub closed spec fn expected(&self) -> nat {
        self.expected as nat
    }

    pub closed spec fn received(&self) -> nat {
        self.received as nat
    }

    pub closed spec fn wf(&self) -> bool {
        self.received <= self.expected
    }

    /// A barrier that waits for `expected` signals, none received yet.
    pub fn new(expected: usize) -> (r: CompletionBarrier)
        ensures
            r.wf(),
            r.expected() == expected,
            r.received() == 0,
    {
        CompletionBarrier { expected, received: 0 }
    }

    /// Records one signal; a signal past the expected number is a fault of
    /// the caller and is not accepted.
    pub fn record(&mut self)
        requires
            old(self).wf(),
            old(self).received() < old(self).expected(),
        ensures
            final(self).wf(),
            final(self).expected() == old(self).expected(),
            final(self).received() == old(self).received() + 1,
    {
        self.received = self.received + 1;
    }

    /// Whether every expected signal has come.
    pub fn is_complete(&self) -> (r: bool)
        requires
            self.wf(),
        ensures
            r == (self.received() == self.expected()),
    {
        self.received == self.expected
    }

    /// How many signals are still to come.
    pub fn remaining(&self) -> (r: usize)
        requires
            self.wf(),
        ensures
            r == self.expected() - self.received(),
    {
        self.expected - self.received
    }
}

} // verus!
