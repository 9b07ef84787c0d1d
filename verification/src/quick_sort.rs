//! The full-range benchmark variant: the generator's whole 31-bit state is
//! kept as the array element, and the checksum is accumulated in 64 bits.

use vstd::prelude::*;
use vstd::pervasive::VecAdditionalExecFns;
use vstd::relations::{sorted_by, total_ordering};
use vstd::seq_lib::lemma_sorted_unique;
use crate::rng::{lcg_iter, lcg_next, lemma_lcg_iter_add, lemma_lcg_iter_bound,
    lemma_lcg_step_reduced};
use crate::seq_facts::{lemma_frame_subrange_multiset, lemma_multiset_preserves_all,
    lemma_swap_multiset};

verus! {

/// The total order the sort establishes.
pub open spec fn u64_le() -> spec_fn(u64, u64) -> bool {
    |a: u64, b: u64| a <= b
}

pub proof fn lemma_u64_le_total()
    ensures
        total_ordering(u64_le()),
{
    assert(total_ordering(u64_le())) by {
        let leq = u64_le();
        assert forall|x: u64, y: u64| #[trigger] leq(x, y) || #[trigger] leq(y, x) by {
            assert(leq(x, y) == (x <= y));
            assert(leq(y, x) == (y <= x));
        }
    }
}

/// The window `[lo, hi]` of `s` is in ascending order.
pub open spec fn sorted_between(s: Seq<u64>, lo: int, hi: int) -> bool {
    forall|x: int, y: int| lo <= x && x <= y && y <= hi ==> s[x] <= s[y]
}

/// The values one benchmark round fills the array with: draws `r * len + 1`
/// up to `(r + 1) * len` from initial state `s0`, kept at full range.
pub open spec fn round_values(s0: nat, len: nat, r: nat) -> Seq<u64> {
    Seq::new(len, |k: int| lcg_iter(s0, (r * len + k + 1) as nat) as u64)
}

/// The same values in ascending order.
pub open spec fn sorted_round(s0: nat, len: nat, r: nat) -> Seq<u64> {
    round_values(s0, len, r).sort_by(u64_le())
}

/// The checksum after `iters` rounds: each round contributes the element at
/// position `sample` of that round's sorted array.
pub open spec fn bench_checksum(s0: nat, len: nat, iters: nat, sample: int) -> nat
    decreases iters,
{
    if iters == 0 {
        0
    } else {
        bench_checksum(s0, len, (iters - 1) as nat, sample)
            + sorted_round(s0, len, (iters - 1) as nat)[sample] as nat
    }
}

/// Each round's values are plain 31-bit quantities.
pub proof fn lemma_round_values_bounds(s0: nat, len: nat, r: nat)
    ensures
        round_values(s0, len, r).len() == len,
        forall|k: int| 0 <= k < len ==>
            (#[trigger] round_values(s0, len, r)[k]) < 0x8000_0000,
        forall|k: int| 0 <= k < len ==>
            (#[trigger] round_values(s0, len, r)[k]) as nat
                == lcg_iter(s0, (r * len + k + 1) as nat),
{
    assert forall|k: int| 0 <= k < len implies
        (#[trigger] round_values(s0, len, r)[k]) < 0x8000_0000
            && round_values(s0, len, r)[k] as nat == lcg_iter(s0, (r * len + k + 1) as nat) by {
        lemma_lcg_iter_bound(s0, (r * len + k + 1) as nat);
    }
}

/// A sorted sequence with the same multiset of values as a round's fill is
/// that round's sorted array: sortedness and the multiset pin it uniquely.
pub proof fn lemma_sorted_round_correspondence(s0: nat, len: nat, r: nat, s: Seq<u64>)
    requires
        s.to_multiset() == round_values(s0, len, r).to_multiset(),
        forall|x: int, y: int| 0 <= x && x <= y && y < s.len() ==> s[x] <= s[y],
    ensures
        s == sorted_round(s0, len, r),
        s.len() == len,
{
    broadcast use vstd::seq_lib::group_to_multiset_ensures;

    lemma_u64_le_total();
    round_values(s0, len, r).lemma_sort_by_ensures(u64_le());
    vstd::seq_lib::to_multiset_len(s);
    vstd::seq_lib::to_multiset_len(round_values(s0, len, r));
    assert(s.len() == len);
    let leq = u64_le();
    assert forall|x: int, y: int| 0 <= x < y < s.len() implies #[trigger] leq(s[x], s[y]) by {
        assert(s[x] <= s[y]);
    }
    assert(sorted_by(s, leq));
    lemma_sorted_unique(s, sorted_round(s0, len, r), leq);
    assert(s =~= sorted_round(s0, len, r));
}

/// The benchmark of the full-range variant: a linear-congruential generator
/// whose drawn value is the new 31-bit state itself.
pub struct QuickSort {
    seed: u64,
}

impl QuickSort {
    /// The generator state, as a mathematical integer.
    pub closed spec fn state(&self) -> nat {
        self.seed as nat
    }

    pub fn new(seed: u64) -> (r: QuickSort)
        ensures
            r.state() == seed as nat,
    {
        QuickSort { seed: seed }
    }

    /// Advances the state one step of the recurrence and returns it.  The
    /// state is reduced modulo 2^31 before the multiplication, which computes
    /// the same stepped state as the plain recurrence for every seed while
    /// keeping the product inside 64 bits.
    pub fn random(&mut self) -> (r: u64)
        ensures
            final(self).state() == lcg_next(old(self).state()),
            r as nat == final(self).state(),
            r < 0x8000_0000,
    {
        proof {
            lemma_lcg_step_reduced(self.seed as nat);
        }
        let s: u64 = self.seed % 0x8000_0000;
        self.seed = (1103515245u64 * s + 12345) % 0x8000_0000;
        self.seed
    }

    /// Overwrites every slot of `arr`, in index order, with the next drawn
    /// value; the array keeps its length.
    pub fn randomize_array(&mut self, arr: &mut Vec<u64>)
        ensures
            final(arr).len() == old(arr).len(),
            final(self).state() == lcg_iter(old(self).state(), old(arr).len() as nat),
            forall|k: int| 0 <= k < old(arr).len() ==>
                (#[trigger] final(arr)[k]) as nat
                    == lcg_iter(old(self).state(), (k + 1) as nat),
            forall|k: int| 0 <= k < old(arr).len() ==> (#[trigger] final(arr)[k]) < 0x8000_0000,
    {
        let ghost s0 = self.state();
        let n: usize = arr.len();
        let mut idx: usize = 0;
        while idx < n
            invariant
                idx <= n,
                arr.len() == n,
                n == old(arr).len(),
                s0 == old(self).state(),
                self.state() == lcg_iter(s0, idx as nat),
                forall|k: int| 0 <= k < idx ==>
                    (#[trigger] arr[k]) as nat == lcg_iter(s0, (k + 1) as nat),
                forall|k: int| 0 <= k < idx ==> (#[trigger] arr[k]) < 0x8000_0000,
            decreases n - idx,
        {
            let v: u64 = self.random();
            arr.set(idx, v);
            idx = idx + 1;
            proof {
                assert(self.state() == lcg_next(lcg_iter(s0, (idx - 1) as nat)));
                assert(self.state() == lcg_iter(s0, idx as nat));
            }
        }
    }

    /// Sorts the window `[left, right]` of `arr` in place, ascending, with
    /// the Hoare partition scheme around the middle element.  Everything
    /// outside the window is untouched and the array keeps its multiset of
    /// values.
    #[verifier::loop_isolation(false)]
    pub fn quick_sort(&mut self, arr: &mut Vec<u64>, left: usize, right: usize)
        requires
            left < right ==> right < old(arr).len(),
        ensures
            final(self).state() == old(self).state(),
            final(arr).len() == old(arr).len(),
            final(arr)@.to_multiset() == old(arr)@.to_multiset(),
            forall|k: int| 0 <= k < old(arr).len() && !(left <= k && k <= right) ==>
                final(arr)[k] == old(arr)[k],
            sorted_between(final(arr)@, left as int, right as int),
            left >= right ==> final(arr)@ == old(arr)@,
        decreases right - left,
    {
        if left >= right {
            return;
        }
        let ghost arr0 = arr@;
        let mid: usize = left + (right - left) / 2;
        let pivot: u64 = arr[mid];
        let mut i: usize = left;
        let mut j: usize = right;
        while i <= j
            invariant
                left <= i,
                i <= right + 1,
                i <= j + 2,
                j <= right,
                arr.len() == arr0.len(),
                forall|k: int| 0 <= k < arr0.len() && !(left <= k && k <= right) ==>
                    arr[k] == arr0[k],
                arr@.to_multiset() == arr0.to_multiset(),
                forall|k: int| left <= k < i ==> (#[trigger] arr[k]) <= pivot,
                forall|k: int| j < k <= right ==> (#[trigger] arr[k]) >= pivot,
                (i == left) == (j == right),
                i == left ==> arr@ == arr0,
            decreases j + 2 - i,
        {
            let ghost i0 = i;
            let ghost j0 = j;
            let ghost pre = arr@;
            let ghost stop_i: int = if j < right { j + 1 } else { mid as int };
            proof {
                if j < right {
                    assert(arr[stop_i] >= pivot);
                } else {
                    assert(i == left && arr@ == arr0);
                    assert(arr[stop_i] == pivot);
                }
            }
            while arr[i] < pivot
                invariant
                    left <= i,
                    i0 <= i,
                    i <= stop_i,
                    stop_i <= right,
                    arr@ == pre,
                    arr[stop_i] >= pivot,
                    forall|k: int| left <= k < i ==> (#[trigger] arr[k]) <= pivot,
                decreases stop_i - i,
            {
                i = i + 1;
            }
            let ghost stop_j: int = if i > left { i - 1 } else { mid as int };
            proof {
                if i > left {
                    assert(arr[stop_j] <= pivot);
                } else {
                    assert(i0 == left && j0 == right && arr@ == arr0);
                    assert(arr[stop_j] == pivot);
                    assert(stop_j <= j);
                }
            }
            while pivot < arr[j]
                invariant
                    stop_j <= j,
                    j <= j0,
                    j <= right,
                    left <= stop_j,
                    arr@ == pre,
                    arr[stop_j] <= pivot,
                    forall|k: int| j < k <= right ==> (#[trigger] arr[k]) >= pivot,
                decreases j - stop_j,
            {
                j = j - 1;
            }
            if i <= j {
                let ghost before = arr@;
                let vi: u64 = arr[i];
                let vj: u64 = arr[j];
                arr.set(i, vj);
                arr.set(j, vi);
                proof {
                    lemma_swap_multiset(before, i as int, j as int);
                    assert(arr@ == before.update(i as int, before[j as int])
                        .update(j as int, before[i as int]));
                    if i == j {
                        assert(vi <= pivot && vi >= pivot);
                    }
                }
                i = i + 1;
                j = if j > 0 { j - 1 } else { 0 };
            }
        }
        // The window is now partitioned: `[left, j]` at or below the pivot,
        // `[i, right]` at or above it, and everything strictly between equal
        // to it.
        let ghost parted = arr@;
        proof {
            assert(i > left && j < right) by {
                if i == left {
                    assert(j == right);
                    assert(i <= j);
                }
            }
        }
        if left < j {
            self.quick_sort(arr, left, j);
            proof {
                lemma_frame_subrange_multiset(parted, arr@, left as int, j + 1);
                lemma_multiset_preserves_all(
                    parted.subrange(left as int, j + 1),
                    arr@.subrange(left as int, j + 1),
                    |v: u64| v <= pivot,
                );
                assert forall|k: int| left <= k <= j implies (#[trigger] arr[k]) <= pivot by {
                    assert(arr@.subrange(left as int, j + 1)[k - left] == arr[k]);
                }
            }
        }
        let ghost low_done = arr@;
        if i < right {
            self.quick_sort(arr, i, right);
            proof {
                lemma_frame_subrange_multiset(low_done, arr@, i as int, right + 1);
                lemma_multiset_preserves_all(
                    low_done.subrange(i as int, right + 1),
                    arr@.subrange(i as int, right + 1),
                    |v: u64| v >= pivot,
                );
                assert forall|k: int| i <= k <= right implies (#[trigger] arr[k]) >= pivot by {
                    assert(arr@.subrange(i as int, right + 1)[k - i] == arr[k]);
                }
            }
        }
        proof {
            assert forall|x: int, y: int| left <= x && x <= y && y <= right
                implies arr@[x] <= arr@[y] by {
                if y <= j {
                    // both inside the sorted low window
                } else if x >= i {
                    // both inside the sorted high window
                } else if x <= j {
                    assert(arr[x] <= pivot);
                    if y < i {
                        assert(arr[y] == pivot);
                    } else {
                        assert(arr[y] >= pivot);
                    }
                } else {
                    assert(arr[x] == pivot);
                    if y < i {
                        assert(arr[y] == pivot);
                    } else {
                        assert(arr[y] >= pivot);
                    }
                }
            }
        }
    }

    /// The common driver: `iter` rounds of fill, sort and sample at index
    /// `sample`, accumulating the sampled elements in 64 bits.
    fn drive(&mut self, arr_len: usize, iter: usize, sample: usize) -> (checksum: u64)
        requires
            arr_len >= 1,
            sample < arr_len,
            iter * 0x7FFF_FFFF <= u64::MAX,
        ensures
            checksum as nat == bench_checksum(
                old(self).state(), arr_len as nat, iter as nat, sample as int),
            final(self).state() == lcg_iter(old(self).state(), (iter * arr_len) as nat),
    {
        let ghost s0 = self.state();
        let mut checksum: u64 = 0;
        let mut arr: Vec<u64> = vec![0u64; arr_len];
        let mut it: usize = 0;
        #[verifier::loop_isolation(false)]
        while it < iter
            invariant
                it <= iter,
                arr.len() == arr_len,
                self.state() == lcg_iter(s0, (it * arr_len) as nat),
                checksum as nat == bench_checksum(s0, arr_len as nat, it as nat, sample as int),
                checksum <= it * 0x7FFF_FFFF,
            decreases iter - it,
        {
            self.randomize_array(&mut arr);
            proof {
                let vals = round_values(s0, arr_len as nat, it as nat);
                lemma_round_values_bounds(s0, arr_len as nat, it as nat);
                assert forall|k: int| 0 <= k < arr_len implies arr@[k] == vals[k] by {
                    lemma_lcg_iter_add(s0, (it * arr_len) as nat, (k + 1) as nat);
                }
                assert(arr@ =~= vals);
                lemma_lcg_iter_add(s0, (it * arr_len) as nat, arr_len as nat);
                assert(it * arr_len + arr_len == (it + 1) * arr_len) by (nonlinear_arith);
            }
            self.quick_sort(&mut arr, 0, arr_len - 1);
            proof {
                lemma_sorted_round_correspondence(s0, arr_len as nat, it as nat, arr@);
            }
            let c: u64 = arr[sample];
            proof {
                lemma_multiset_preserves_all(
                    round_values(s0, arr_len as nat, it as nat),
                    arr@,
                    (|v: u64| v < 0x8000_0000),
                );
                assert(c < 0x8000_0000);
            }
            checksum = checksum + c;
            it = it + 1;
        }
        checksum
    }

    /// The fixed benchmark configuration: 100 rounds over 1000 elements,
    /// sampling the sorted array at index 100 each round.
    pub fn benchmark(&mut self) -> (checksum: u64)
        ensures
            checksum as nat == bench_checksum(old(self).state(), 1000, 100, 100),
            final(self).state() == lcg_iter(old(self).state(), 100000),
    {
        self.drive(1000, 100, 100)
    }

    /// The parameterised driver: `iter` rounds over `arr_len` elements,
    /// sampling the middle of the sorted array each round.  The bound on
    /// `iter` keeps the 64-bit accumulator from overflowing.
    pub fn run(&mut self, arr_len: usize, iter: usize) -> (checksum: u64)
        requires
            arr_len >= 1,
            iter * 0x7FFF_FFFF <= u64::MAX,
        ensures
            checksum as nat == bench_checksum(
                old(self).state(), arr_len as nat, iter as nat, arr_len as int / 2),
            final(self).state() == lcg_iter(old(self).state(), (iter * arr_len) as nat),
    {
        self.drive(arr_len, iter, arr_len / 2)
    }
}

/// The checksum is a function of the initial generator state and the run
/// parameters alone: two runs over equal states and parameters return the
/// identical value, with no dependence on anything ambient.
pub proof fn lemma_run_deterministic(
    s1: nat, s2: nat, len: nat, iters: nat, sample: int, r1: nat, r2: nat)
    requires
        s1 == s2,
        r1 == bench_checksum(s1, len, iters, sample),
        r2 == bench_checksum(s2, len, iters, sample),
    ensures
        r1 == r2,
{
}

/// Re-entry reproduces the result: a fresh generator built over the same
/// initial seed drives the benchmark to the same checksum as the first run,
/// because no state outside the generator enters the computation.
pub proof fn lemma_fresh_rerun_reproduces(g1: QuickSort, g2: QuickSort, len: nat, iters: nat, sample: int)
    requires
        g1.state() == g2.state(),
    ensures
        bench_checksum(g1.state(), len, iters, sample)
            == bench_checksum(g2.state(), len, iters, sample),
{
}

} // verus!
