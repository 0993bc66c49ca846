//! The ownership rule: of all cells that contain a query point, the one
//! with the minimum global cell index owns it; a point that no cell
//! contains is owned by `-1`.

use vstd::prelude::*;

verus! {

/// Smallest entry of a non-empty sequence of cell ids.
pub open spec fn seq_min(s: Seq<i32>) -> i32
    decreases s.len(),
{
    if s.len() <= 1 {
        s[0]
    } else {
        let m = seq_min(s.drop_last());
        if s.last() < m {
            s.last()
        } else {
            m
        }
    }
}

/// Owner of a query point whose candidate cells are `cands`: the minimum
/// candidate, or `-1` when there is none.
pub open spec fn owner_of(cands: Seq<i32>) -> i32 {
    if cands.len() == 0 {
        -1i32
    } else {
        seq_min(cands)
    }
}

/// `seq_min` is an entry of the sequence and no entry is smaller.
pub proof fn lemma_seq_min_is_least(s: Seq<i32>)
    requires
        s.len() > 0,
    ensures
        s.contains(seq_min(s)),
        forall|i: int| 0 <= i < s.len() ==> seq_min(s) <= #[trigger] s[i],
    decreases s.len(),
{
    if s.len() > 1 {
        let t = s.drop_last();
        lemma_seq_min_is_least(t);
        let j = choose|j: int| 0 <= j < t.len() && t[j] == seq_min(t);
        assert(s[j] == t[j]);
        assert(s[s.len() - 1] == s.last());
        assert forall|i: int| 0 <= i < s.len() implies seq_min(s) <= #[trigger] s[i] by {
            if i < s.len() - 1 {
                assert(s[i] == t[i]);
            }
        }
    } else {
        assert(s[0] == seq_min(s));
    }
}

/// The ownership rule: a point with candidates is owned by the least of
/// them, which is itself a candidate; a point without candidates is owned
/// by `-1`.
pub proof fn lemma_owner_is_least_candidate(cands: Seq<i32>)
    ensures
        cands.len() == 0 ==> owner_of(cands) == -1i32,
        cands.len() > 0 ==> cands.contains(owner_of(cands)),
        forall|i: int| 0 <= i < cands.len() ==> owner_of(cands) <= #[trigger] cands[i],
{
    if cands.len() > 0 {
        lemma_seq_min_is_least(cands);
    }
}

/// The owner depends only on which cells are candidates, not on the order
/// in which they were found (nor on repetitions): two traversals that find
/// the same set of cells agree on the owner.
pub proof fn lemma_owner_order_independent(a: Seq<i32>, b: Seq<i32>)
    requires
        a.to_set() == b.to_set(),
    ensures
        owner_of(a) == owner_of(b),
{
    if a.len() > 0 {
        assert(a.to_set().contains(a[0]));
        assert(b.to_set().contains(a[0]));
    }
    if b.len() > 0 {
        assert(b.to_set().contains(b[0]));
        assert(a.to_set().contains(b[0]));
    }
    if a.len() > 0 && b.len() > 0 {
        lemma_seq_min_is_least(a);
        lemma_seq_min_is_least(b);
        let ma = seq_min(a);
        let mb = seq_min(b);
        assert(a.to_set().contains(ma));
        assert(b.to_set().contains(ma));
        assert(b.to_set().contains(mb));
        assert(a.to_set().contains(mb));
        let ia = choose|i: int| 0 <= i < a.len() && a[i] == mb;
        let ib = choose|i: int| 0 <= i < b.len() && b[i] == ma;
        assert(ma <= a[ia]);
        assert(mb <= b[ib]);
    }
}

} // verus!
