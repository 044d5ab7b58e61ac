//! Counting over the vertices of a closed polygon, given as a cyclic sequence.
use vstd::prelude::*;

verus! {

/// 1 when the two flags differ, else 0.
pub open spec fn differs(a: bool, b: bool) -> nat {
    if a != b {
        1
    } else {
        0
    }
}

/// Number of positions `j` in `1..k` where `b[j]` differs from `b[j - 1]`.
pub open spec fn changes_upto(b: Seq<bool>, k: int) -> nat
    decreases k,
{
    if k <= 1 {
        0
    } else {
        changes_upto(b, k - 1) + differs(b[k - 1], b[k - 2])
    }
}

/// Number of sides of the closed polygon `b[0], b[1], .., b[n - 1], b[0]`
/// whose two ends carry different flags.
pub open spec fn cyclic_changes(b: Seq<bool>) -> nat {
    if b.len() == 0 {
        0
    } else {
        differs(b[0], b[b.len() - 1]) + changes_upto(b, b.len() as int)
    }
}

/// Number of `true` flags among `b[0 .. k]`.
pub open spec fn count_true_upto(b: Seq<bool>, k: int) -> nat
    decreases k,
{
    if k <= 0 {
        0
    } else {
        count_true_upto(b, k - 1) + (if b[k - 1] {
            1nat
        } else {
            0nat
        })
    }
}

/// Along an open chain, the number of flag changes is odd exactly when the
/// chain's two ends differ.
pub proof fn lemma_changes_upto_parity(b: Seq<bool>, k: int)
    requires
        1 <= k <= b.len(),
    ensures
        changes_upto(b, k) % 2 == differs(b[0], b[k - 1]),
    decreases k,
{
    if k > 1 {
        lemma_changes_upto_parity(b, k - 1);
    }
}

/// A closed polygon crosses any boundary an even number of times: the
/// number of sides whose ends lie on different sides is even.
pub proof fn lemma_cyclic_changes_even(b: Seq<bool>)
    ensures
        cyclic_changes(b) % 2 == 0,
{
    if b.len() > 0 {
        lemma_changes_upto_parity(b, b.len() as int);
    }
}

} // verus!
