//! The records that cross the library's boundary.

use vstd::prelude::*;

verus! {

/// One path component of a document's file listing.
pub type Term = String;

/// The dense number a document gets when the index is built.
pub type DocumentId = u32;

/// The durable name of a document: the content hash of its archive.
pub type DocumentName = String;

/// One corpus record: an archive and the paths of the files in it.
#[derive(Debug)]
pub struct FileData {
    /// name of the archive
    pub name: DocumentName,
    /// paths of the files in the archive
    pub files: Vec<String>,
}

/// The product of two 64-bit numbers, which always fits in 128 bits.
pub fn wide_product(a: u64, b: u64) -> (p: u128)
    ensures
        p == a * b,
{
    assert(a * b <= 0xffff_ffff_ffff_ffff * 0xffff_ffff_ffff_ffff) by (nonlinear_arith)
        requires
            0 <= a <= 0xffff_ffff_ffff_ffff,
            0 <= b <= 0xffff_ffff_ffff_ffff,
    ;
    (a as u128) * (b as u128)
}

/// A non-negative fraction `num / den`.
///
/// Similarity scores and score thresholds are fractions of two counts, and the
/// library compares them exactly, by cross-multiplication. A zero denominator
/// with a positive numerator stands above every score.
#[derive(Debug, Clone, Copy, PartialEq, Eq, Structural)]
pub struct Score {
    pub num: u64,
    pub den: u64,
}

impl Score {
    /// `self < other` as fractions.
    pub open spec fn below(self, other: Score) -> bool {
        self.num * other.den < other.num * self.den
    }

    /// `self == other` as fractions.
    pub open spec fn same(self, other: Score) -> bool {
        self.num * other.den == other.num * self.den
    }

    /// The threshold that every score meets.
    pub fn zero() -> (s: Score)
        ensures
            s == (Score { num: 0, den: 1 }),
    {
        Score { num: 0, den: 1 }
    }

    /// Tells whether `self` is strictly less than `other`.
    pub fn less_than(&self, other: &Score) -> (b: bool)
        ensures
            b == self.below(*other),
    {
        let left: u128 = wide_product(self.num, other.den);
        let right: u128 = wide_product(other.num, self.den);
        left < right
    }

    /// Tells whether the two fractions have the same value.
    pub fn same_value(&self, other: &Score) -> (b: bool)
        ensures
            b == self.same(*other),
    {
        let left: u128 = wide_product(self.num, other.den);
        let right: u128 = wide_product(other.num, self.den);
        left == right
    }
}

/// A query: the terms to look for and the limits on the answer.
#[derive(Debug)]
pub struct SearchData {
    pub terms: Vec<Term>,
    /// the most matches to return; `None` sets no limit
    pub max_length: Option<usize>,
    /// the least score a match may have; `None` admits every score
    pub min_score: Option<Score>,
}

/// One ranked document of an answer.
#[derive(Debug)]
pub struct SearchMatch {
    /// name of the matching document
    pub md5: DocumentName,
    pub score: Score,
    /// the query terms that the document holds
    pub matched_terms: Vec<Term>,
}

/// The answer to a query, best match first.
#[derive(Debug)]
pub struct SearchResult {
    pub matches: Vec<SearchMatch>,
}

} // verus!
