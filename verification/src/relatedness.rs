//! How the relatedness of two pages is decided from the numbers of documents
//! that link to them. Where it has to be measured, the measure itself is a
//! matter of logarithms and is taken by the caller.

use crate::text::same_text;
use vstd::prelude::*;

verus! {

/// The relatedness of two pages.
#[derive(Clone, Copy, Debug, PartialEq, Eq)]
pub enum Relatedness {
    /// The two pages are the same page: their relatedness is one.
    Same,
    /// No document links to one of the pages, or none to both, or every
    /// document links to each of them, so that the measure has no value:
    /// their relatedness is zero.
    Unrelated,
    /// The relatedness is measured from the greater and the lesser number
    /// of documents that link to one of the pages, the number that link to
    /// both, and the number of all documents, which is greater than the
    /// lesser number.
    Measured { hi: u64, lo: u64, both: u64, total: u64 },
}

/// The relatedness of the pages `e0` and `e1`, where `a` documents link to
/// the first, `b` to the second, `both` to both, and there are `total`
/// documents.
pub open spec fn relatedness(
    e0: Seq<char>,
    e1: Seq<char>,
    a: u64,
    b: u64,
    both: u64,
    total: u64,
) -> Relatedness {
    if e0 == e1 {
        Relatedness::Same
    } else {
        let lo = if a > b {
            b
        } else {
            a
        };
        let hi = if a > b {
            a
        } else {
            b
        };
        if lo == 0 || both == 0 || lo >= total {
            Relatedness::Unrelated
        } else {
            Relatedness::Measured { hi, lo, both, total }
        }
    }
}

/// Where the relatedness is measured, the numbers it is measured from are
/// not zero, the lesser is not above the greater, and the lesser is below
/// the number of all documents: the measure divides by the difference of
/// the logarithms of these two, which is then above zero.
pub proof fn lemma_measured_is_defined(
    e0: Seq<char>,
    e1: Seq<char>,
    a: u64,
    b: u64,
    both: u64,
    total: u64,
)
    ensures
        relatedness(e0, e1, a, b, both, total) matches Relatedness::Measured {
            hi,
            lo,
            both: c,
            total: n,
        } ==> 0 < lo <= hi && 0 < c && lo < n && c == both && n == total,
{
}

/// A page is related to itself.
pub proof fn lemma_related_to_itself(e: Seq<char>, a: u64, b: u64, both: u64, total: u64)
    ensures
        relatedness(e, e, a, b, both, total) == Relatedness::Same,
{
}

/// Relatedness does not depend on the order of the two pages.
pub proof fn lemma_relatedness_symmetric(
    e0: Seq<char>,
    e1: Seq<char>,
    a: u64,
    b: u64,
    both: u64,
    total: u64,
)
    ensures
        relatedness(e0, e1, a, b, both, total) == relatedness(e1, e0, b, a, both, total),
{
}

/// The relatedness of the pages `e0` and `e1`.
pub fn relatedness_of(e0: &str, e1: &str, a: u64, b: u64, both: u64, total: u64) -> (r: Relatedness)
    ensures
        r == relatedness(e0@, e1@, a, b, both, total),
{
    if same_text(e0, e1) {
        return Relatedness::Same;
    }
    let (lo, hi) = if a > b {
        (b, a)
    } else {
        (a, b)
    };
    if lo == 0 || both == 0 || lo >= total {
        Relatedness::Unrelated
    } else {
        Relatedness::Measured { hi, lo, both, total }
    }
}

/// By what the sum of the relatedness to the other picked pages is divided:
/// their number, and one where there is no other.
pub fn coherence_divisor(picked: usize) -> (d: usize)
    ensures
        d == (if picked >= 2 {
            picked - 1
        } else {
            1
        }),
{
    if picked >= 2 {
        picked - 1
    } else {
        1
    }
}

} // verus!
