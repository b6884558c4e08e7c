//! Edit distance between two texts.

use vstd::prelude::*;

verus! {

/// The smallest of three numbers.
pub open spec fn min3(x: nat, y: nat, z: nat) -> nat {
    if x <= y && x <= z {
        x
    } else if y <= z {
        y
    } else {
        z
    }
}

/// The Levenshtein distance between `a` and `b`: the least number of
/// characters to insert, delete or replace to turn `a` into `b`.
pub open spec fn levenshtein(a: Seq<char>, b: Seq<char>) -> nat
    decreases a.len() + b.len(),
{
    if a.len() == 0 {
        b.len()
    } else if b.len() == 0 {
        a.len()
    } else {
        let replace: nat = if a.last() == b.last() {
            0
        } else {
            1
        };
        min3(
            levenshtein(a.drop_last(), b) + 1,
            levenshtein(a, b.drop_last()) + 1,
            levenshtein(a.drop_last(), b.drop_last()) + replace,
        )
    }
}

/// The distance does not depend on the direction: turning `a` into `b` takes
/// as many steps as turning `b` into `a`.
pub proof fn lemma_levenshtein_symmetric(a: Seq<char>, b: Seq<char>)
    ensures
        levenshtein(a, b) == levenshtein(b, a),
    decreases a.len() + b.len(),
{
    if a.len() > 0 && b.len() > 0 {
        lemma_levenshtein_symmetric(a.drop_last(), b);
        lemma_levenshtein_symmetric(a, b.drop_last());
        lemma_levenshtein_symmetric(a.drop_last(), b.drop_last());
    }
}

/// A text is at distance 0 from itself.
pub proof fn lemma_levenshtein_identity(a: Seq<char>)
    ensures
        levenshtein(a, a) == 0,
    decreases a.len(),
{
    if a.len() > 0 {
        lemma_levenshtein_identity(a.drop_last());
    }
}

/// Only equal texts are at distance 0.
pub proof fn lemma_levenshtein_zero(a: Seq<char>, b: Seq<char>)
    requires
        levenshtein(a, b) == 0,
    ensures
        a == b,
    decreases a.len() + b.len(),
{
    if a.len() == 0 || b.len() == 0 {
        assert(a =~= b);
    } else {
        lemma_levenshtein_zero(a.drop_last(), b.drop_last());
        assert(a =~= a.drop_last().push(a.last()));
        assert(b =~= b.drop_last().push(b.last()));
    }
}

/// Calls `edit_distance::edit_distance`.
///
/// Not proved: that the call returns the Levenshtein distance between the
/// characters of its two arguments, as that crate documents it and computes it
/// by filling the usual table row by row.
#[verifier::external_body]
pub(crate) fn edit_distance(a: &str, b: &str) -> (distance: usize)
    ensures
        distance == levenshtein(a@, b@),
{
    ::edit_distance::edit_distance(a, b)
}

} // verus!
