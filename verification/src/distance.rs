//! Edit distance between character sequences: the mathematical definition,
//! and the executable distance used to rank query results.
use vstd::prelude::*;

verus! {

/// The smaller of two naturals.
pub open spec fn nat_min(a: nat, b: nat) -> nat {
    if a <= b {
        a
    } else {
        b
    }
}

/// The Levenshtein edit distance between `a` and `b`: the least number of
/// single-character insertions, deletions and substitutions turning one
/// into the other, by the standard recurrence on the last characters.
pub open spec fn lev(a: Seq<char>, b: Seq<char>) -> nat
    decreases a.len(), b.len(),
{
    if a.len() == 0 {
        b.len()
    } else if b.len() == 0 {
        a.len()
    } else {
        let sub_cost: nat = if a.last() == b.last() {
            0nat
        } else {
            1nat
        };
        nat_min(
            nat_min(lev(a.drop_last(), b) + 1, lev(a, b.drop_last()) + 1),
            lev(a.drop_last(), b.drop_last()) + sub_cost,
        )
    }
}

/// Relies on `levenshtein::levenshtein`: computes the Levenshtein edit
/// distance between the two strings' character sequences by the usual
/// single-row dynamic program.
#[verifier::external_body]
pub fn edit_distance(a: &str, b: &str) -> (r: usize)
    ensures
        r == lev(a@, b@),
{
    levenshtein::levenshtein(a, b)
}

} // verus!
