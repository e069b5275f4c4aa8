//! Scores as fixed-point numbers: a whole part and a fraction counted in
//! units of 2^-64. Sums and comparisons of scores are exact; the quotient
//! of a degree by a frequency is rounded down to the next such unit.

use vstd::prelude::*;
use vstd::arithmetic::div_mod::{lemma_fundamental_div_mod, lemma_fundamental_div_mod_converse};

verus! {

/// How many units of a score's view make one whole: 2^64.
pub const UNIT: u128 = 0x1_0000_0000_0000_0000;

/// A score: `whole + fraction / 2^64`.
#[derive(Clone, Copy, Debug, PartialEq, Eq, Structural, PartialOrd, Ord, Hash)]
pub struct Score {
    pub whole: u128,
    pub fraction: u64,
}

/// The quotient `degree / frequency` in units of 2^-64, rounded down.
pub open spec fn ratio_units(degree: nat, frequency: nat) -> nat {
    degree * UNIT as nat / frequency
}

impl Score {
    /// The score in units of 2^-64.
    pub open spec fn view(&self) -> nat {
        (self.whole * UNIT + self.fraction) as nat
    }

    /// The score nought.
    pub fn zero() -> (score: Score)
        ensures
            score@ == 0,
    {
        Score { whole: 0, fraction: 0 }
    }

    /// The quotient of `degree` by `frequency`, rounded down to a multiple
    /// of 2^-64.
    pub fn ratio(degree: u128, frequency: u64) -> (score: Score)
        requires
            frequency > 0,
        ensures
            score@ == ratio_units(degree as nat, frequency as nat),
    {
        let divisor = frequency as u128;
        let whole = degree / divisor;
        let rest = degree % divisor;
        assert(rest * UNIT <= u128::MAX) by (nonlinear_arith)
            requires
                rest < 0x1_0000_0000_0000_0000,
                UNIT == 0x1_0000_0000_0000_0000,
        ;
        let scaled = rest * UNIT;
        let fraction = scaled / divisor;
        proof {
            let f = divisor as int;
            let x = degree as int * UNIT as int;
            let last = scaled as int % f;
            lemma_fundamental_div_mod(degree as int, f);
            lemma_fundamental_div_mod(scaled as int, f);
            assert(fraction < UNIT) by (nonlinear_arith)
                requires
                    scaled == f * fraction + last,
                    0 <= last,
                    scaled == rest * UNIT,
                    rest < f,
                    0 < f,
                    0 <= fraction,
            ;
            assert(x == (whole * UNIT + fraction) * f + last) by (nonlinear_arith)
                requires
                    x == degree * UNIT,
                    degree == f * whole + rest,
                    scaled == rest * UNIT,
                    scaled == f * fraction + last,
            ;
            lemma_fundamental_div_mod_converse(x, f, whole * UNIT + fraction, last);
        }
        Score { whole, fraction: fraction as u64 }
    }

    /// The sum of two scores.
    pub fn plus(self, other: Score) -> (sum: Score)
        requires
            self@ + other@ <= u128::MAX * UNIT,
        ensures
            sum@ == self@ + other@,
    {
        let low = self.fraction as u128 + other.fraction as u128;
        let carry = low / UNIT;
        let fraction = low % UNIT;
        Score { whole: self.whole + other.whole + carry, fraction: fraction as u64 }
    }

    /// Tests whether this score is below `other`.
    pub fn less_than(&self, other: &Score) -> (b: bool)
        ensures
            b == (self@ < other@),
    {
        self.whole < other.whole || (self.whole == other.whole && self.fraction < other.fraction)
    }
}

/// Two scores of the same value are the same score.
pub proof fn lemma_score_by_view(a: Score, b: Score)
    requires
        a@ == b@,
    ensures
        a == b,
{
}

/// What the text says of one word: how often it occurs in the candidate
/// phrases, and the sum of the word counts of the phrases it occurs in,
/// counted once for each occurrence.
#[derive(Clone, Copy, Debug, PartialEq, Eq, Structural)]
pub struct WordStats {
    pub frequency: u64,
    pub degree: u128,
}

impl WordStats {
    /// The word's score in units of 2^-64: degree by frequency.
    pub open spec fn score_units(&self) -> nat {
        ratio_units(self.degree as nat, self.frequency as nat)
    }

    /// The word's score: its degree divided by its frequency.
    pub fn score(&self) -> (score: Score)
        requires
            self.frequency > 0,
        ensures
            score@ == self.score_units(),
    {
        Score::ratio(self.degree, self.frequency)
    }
}

/// A word whose degree equals its frequency scores exactly one.
pub proof fn lemma_ratio_of_equals(count: nat)
    requires
        count > 0,
    ensures
        ratio_units(count, count) == UNIT,
{
    assert(count * UNIT as nat / count == UNIT as nat) by (nonlinear_arith)
        requires
            count > 0,
    ;
}

/// A quotient is at most `bound` wholes if the degree is at most `bound`
/// times the frequency.
pub proof fn lemma_ratio_bound(degree: nat, frequency: nat, bound: nat)
    requires
        frequency > 0,
        degree <= frequency * bound,
    ensures
        ratio_units(degree, frequency) <= bound * UNIT,
{
    assert(degree * UNIT as nat / frequency <= bound * UNIT as nat) by (nonlinear_arith)
        requires
            frequency > 0,
            degree <= frequency * bound,
    ;
}

} // verus!
