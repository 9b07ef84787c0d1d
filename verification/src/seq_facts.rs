//! General facts about sequences and their multisets of values, used to carry
//! permutation reasoning through the in-place sort.

use vstd::prelude::*;
use vstd::seq_lib::{group_to_multiset_ensures, lemma_multiset_commutative, to_multiset_update};
use vstd::multiset::Multiset;

verus! {

/// Swapping two positions of a sequence leaves its multiset of values
/// unchanged.
pub proof fn lemma_swap_multiset<A>(s: Seq<A>, x: int, y: int)
    requires
        0 <= x < s.len(),
        0 <= y < s.len(),
    ensures
        s.update(x, s[y]).update(y, s[x]).to_multiset() == s.to_multiset(),
{
    broadcast use group_to_multiset_ensures;
    broadcast use vstd::multiset::group_multiset_axioms;

    let t = s.update(x, s[y]);
    to_multiset_update(s, x, s[y]);
    to_multiset_update(t, y, s[x]);
    assert(s.to_multiset().count(s[x]) > 0);
    assert(t[y] == s[y]);
    assert(t.update(y, s[x]).to_multiset() =~= s.to_multiset());
}

/// Two sequences of equal length with equal multisets of values that agree
/// outside `[lo, hi)` also have equal multisets over the window `[lo, hi)`.
pub proof fn lemma_frame_subrange_multiset<A>(s: Seq<A>, t: Seq<A>, lo: int, hi: int)
    requires
        s.len() == t.len(),
        0 <= lo <= hi <= s.len(),
        s.to_multiset() == t.to_multiset(),
        forall|k: int| 0 <= k < s.len() && !(lo <= k < hi) ==> s[k] == t[k],
    ensures
        s.subrange(lo, hi).to_multiset() == t.subrange(lo, hi).to_multiset(),
{
    broadcast use vstd::multiset::group_multiset_axioms;

    let n = s.len() as int;
    let sp = s.subrange(0, lo);
    let sm = s.subrange(lo, hi);
    let ss = s.subrange(hi, n);
    let tp = t.subrange(0, lo);
    let tm = t.subrange(lo, hi);
    let ts = t.subrange(hi, n);
    assert(s =~= (sp + sm) + ss);
    assert(t =~= (tp + tm) + ts);
    assert(sp =~= tp);
    assert(ss =~= ts);
    lemma_multiset_commutative(sp + sm, ss);
    lemma_multiset_commutative(sp, sm);
    lemma_multiset_commutative(tp + tm, ts);
    lemma_multiset_commutative(tp, tm);
    assert forall|e: A| sm.to_multiset().count(e) == tm.to_multiset().count(e) by {
        assert(s.to_multiset().count(e) == sp.to_multiset().count(e)
            + sm.to_multiset().count(e) + ss.to_multiset().count(e));
        assert(t.to_multiset().count(e) == tp.to_multiset().count(e)
            + tm.to_multiset().count(e) + ts.to_multiset().count(e));
    }
    assert(sm.to_multiset() =~= tm.to_multiset());
}

/// A property that holds of every value of a sequence holds of every value of
/// any sequence with the same multiset of values.
pub proof fn lemma_multiset_preserves_all<A>(s: Seq<A>, t: Seq<A>, p: spec_fn(A) -> bool)
    requires
        s.to_multiset() == t.to_multiset(),
        forall|k: int| 0 <= k < s.len() ==> p(#[trigger] s[k]),
    ensures
        forall|k: int| 0 <= k < t.len() ==> p(#[trigger] t[k]),
{
    broadcast use group_to_multiset_ensures;

    assert forall|k: int| 0 <= k < t.len() implies p(t[k]) by {
        assert(t.contains(t[k]));
        assert(t.to_multiset().count(t[k]) > 0);
        assert(s.to_multiset().count(t[k]) > 0);
        assert(s.contains(t[k]));
        let i = choose|i: int| 0 <= i < s.len() && s[i] == t[k];
        assert(p(s[i]));
    }
}

} // verus!
