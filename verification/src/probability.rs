//! Probabilities as exact fractions, and the table that gives each word its
//! probability in one class.

use crate::bignat::BigNat;
use crate::table::WordTable;
use vstd::prelude::*;

verus! {

/// A probability as a fraction of two integers.
#[derive(Clone, Copy, Debug, PartialEq, Eq)]
pub struct Probability {
    pub numerator: u128,
    pub denominator: u128,
}

impl Probability {
    /// The fraction lies between zero and one, both included.
    pub open spec fn wf(&self) -> bool {
        0 < self.denominator && self.numerator <= self.denominator
    }
}

/// The probabilities of the words in one class: a smoothed count for each
/// word that the class has seen, over one denominator.
pub struct ProbabilityTable {
    numerators: WordTable,
    denominator: u128,
}

impl ProbabilityTable {
    /// The smoothed count of each word that the class has seen.
    pub closed spec fn numerators(&self) -> Map<Seq<char>, nat> {
        self.numerators@
    }

    /// The smoothed number of tokens in the class.
    pub closed spec fn denominator(&self) -> nat {
        self.denominator as nat
    }

    /// The table can be kept: no word is listed twice.
    pub closed spec fn wf(&self) -> bool {
        self.numerators.wf()
    }

    /// Every probability of the table is a fraction above zero and at most
    /// one, and so is that of a word that the table lacks.
    pub open spec fn proper(&self) -> bool {
        &&& self.wf()
        &&& self.denominator() >= 1
        &&& forall|word: Seq<char>|
            self.numerators().dom().contains(word) ==> 1 <= #[trigger] self.numerators()[word]
                <= self.denominator()
    }

    /// The numerator of the probability of `word`: its smoothed count, or one
    /// for a word that the class has not seen.
    pub open spec fn numerator_of(&self, word: Seq<char>) -> nat {
        if self.numerators().dom().contains(word) {
            self.numerators()[word]
        } else {
            1
        }
    }

    /// The table of a class of which nothing is known yet.
    pub fn empty() -> (table: Self)
        ensures
            table.wf(),
            table.numerators() == Map::<Seq<char>, nat>::empty(),
            table.denominator() == 0,
    {
        ProbabilityTable { numerators: WordTable::new(), denominator: 0 }
    }

    /// The table with the given smoothed counts over the given denominator.
    pub fn from_counts(numerators: WordTable, denominator: u128) -> (table: Self)
        requires
            numerators.wf(),
        ensures
            table.wf(),
            table.numerators() == numerators@,
            table.denominator() == denominator,
    {
        ProbabilityTable { numerators, denominator }
    }

    /// The number of words that the class has seen.
    pub fn len(&self) -> (n: usize)
        requires
            self.wf(),
        ensures
            n == self.numerators().dom().len(),
    {
        self.numerators.len()
    }

    /// The probability of `word` in the class. It is above zero for every
    /// word: one that the class has not seen has the numerator one.
    pub fn probability(&self, word: &String) -> (p: Probability)
        requires
            self.proper(),
        ensures
            p.numerator == self.numerator_of(word@),
            p.denominator == self.denominator(),
            0 < p.numerator <= p.denominator,
    {
        match self.numerators.get(word) {
            Some(count) => Probability { numerator: count, denominator: self.denominator },
            None => Probability { numerator: 1, denominator: self.denominator },
        }
    }
}

/// The score of one class for a document, as an exact fraction.
pub struct Score {
    pub numerator: BigNat,
    pub denominator: BigNat,
}

impl Score {
    /// Whether this score is strictly greater than `other`, for two scores
    /// with denominators above zero.
    pub fn exceeds(&self, other: &Score) -> (greater: bool)
        ensures
            greater == (self.numerator@ * other.denominator@ > other.numerator@
                * self.denominator@),
    {
        let left = self.numerator.mul(&other.denominator);
        let right = other.numerator.mul(&self.denominator);
        left.exceeds(&right)
    }
}

} // verus!
