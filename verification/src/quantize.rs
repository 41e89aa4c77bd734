//! From symbol frequencies to integer probabilities that sum to the precision.

use crate::error::BuildError;
use crate::power::{check_power_of_two, is_power_of_two};
use crate::sums::{
    lemma_take_all, lemma_total_bounded, lemma_total_bounds_item, lemma_total_prefix,
    lemma_total_take, lemma_total_update, total,
};
use vstd::prelude::*;

verus! {

/// What an alphabet of `alphabet` symbols and a precision must satisfy for
/// tables to be built: the precision is a power of two, gives every symbol
/// room for a state, and keeps the dense encode table, of twice the precision
/// times the alphabet entries, within what a `u32` can index.
pub open spec fn valid_configuration(alphabet: nat, precision: nat) -> bool {
    &&& is_power_of_two(precision as int)
    &&& alphabet <= precision
    &&& 2 * (precision * alphabet) <= u32::MAX
}

/// The error that a frequency vector of `alphabet` items summing to `sum`
/// meets at the given precision, if any. Where several faults are present,
/// the first of these is reported: a precision that is no power of two, one
/// below the alphabet, too large a table, a zero sum.
pub open spec fn configuration_error(alphabet: nat, precision: nat, sum: nat) -> Option<
    BuildError,
> {
    if !is_power_of_two(precision as int) {
        Some(BuildError::PrecisionNotPowerOfTwo)
    } else if alphabet > precision {
        Some(BuildError::PrecisionBelowAlphabet)
    } else if 2 * (precision * alphabet) > u32::MAX {
        Some(BuildError::TablesTooLarge)
    } else if sum == 0 {
        Some(BuildError::ZeroTotal)
    } else {
        None
    }
}

/// The share of `frequency` in `sum`, scaled to `precision` and rounded up.
pub open spec fn ceil_share(frequency: nat, sum: nat, precision: nat) -> nat {
    ((frequency * precision + sum - 1) / (sum as int)) as nat
}

/// `i` is a symbol that can give up a state: it holds more than one.
pub open spec fn is_candidate(probabilities: Seq<u32>, i: int) -> bool {
    0 <= i < probabilities.len() && probabilities[i] > 1
}

/// `k` is the candidate of least cost, and the first of those in symbol
/// order where several share that cost.
pub open spec fn is_first_least_cost(probabilities: Seq<u32>, costs: Seq<u64>, k: int) -> bool {
    &&& is_candidate(probabilities, k)
    &&& forall|j: int| #[trigger] is_candidate(probabilities, j) ==> costs[k] <= costs[j]
    &&& forall|j: int| j < k && #[trigger] is_candidate(probabilities, j) ==> costs[k] < costs[j]
}

/// What a [`Quantization`] stands for.
pub struct QuantizationView {
    /// The frequency of each symbol, as it was given.
    pub frequencies: Seq<u32>,
    /// The probability of each symbol, in units of one over the precision.
    pub probabilities: Seq<u32>,
    /// The precision `L`.
    pub precision: nat,
}

/// The integer probabilities of an alphabet on their way to summing to the
/// precision.
///
/// They start as the shares of the frequencies rounded up, which sum to the
/// precision or more; each [`Quantization::reduce`] takes one unit from one
/// symbol until nothing is left over.
#[derive(Debug)]
pub struct Quantization {
    frequencies: Vec<u32>,
    scaled: Vec<u32>,
    precision: u32,
}

impl View for Quantization {
    type V = QuantizationView;

    closed spec fn view(&self) -> QuantizationView {
        QuantizationView {
            frequencies: self.frequencies@,
            probabilities: self.scaled@,
            precision: self.precision as nat,
        }
    }
}

impl QuantizationView {
    /// The number of symbols.
    pub open spec fn alphabet_size(self) -> nat {
        self.frequencies.len()
    }

    /// By how much the probabilities sum to more than the precision.
    pub open spec fn excess(self) -> int {
        total(self.probabilities) - self.precision
    }

    /// The configuration is valid, a symbol has a probability of zero exactly
    /// where its frequency is zero, no probability is above the precision,
    /// and the probabilities sum to the precision or more.
    pub open spec fn wf(self) -> bool {
        &&& valid_configuration(self.alphabet_size(), self.precision)
        &&& self.probabilities.len() == self.frequencies.len()
        &&& total(self.frequencies) > 0
        &&& forall|i: int|
            0 <= i < self.probabilities.len() ==> {
                &&& (#[trigger] self.probabilities[i] == 0 <==> self.frequencies[i] == 0)
                &&& self.probabilities[i] <= self.precision
            }
        &&& self.excess() >= 0
    }
}

/// The rounded-up share is the least number of units that covers the share,
/// is zero only for a frequency of zero, and stays within the precision.
pub proof fn lemma_ceil_share(frequency: nat, sum: nat, precision: nat)
    requires
        0 < sum,
        frequency <= sum,
    ensures
        ceil_share(frequency, sum, precision) * sum >= frequency * precision,
        ceil_share(frequency, sum, precision) * sum < frequency * precision + sum,
        ceil_share(frequency, sum, precision) <= precision,
        precision > 0 ==> (ceil_share(frequency, sum, precision) == 0 <==> frequency == 0),
{
    let n = (frequency * precision + sum - 1) as int;
    let d = sum as int;
    let q = n / d;
    assert(n >= 0) by (nonlinear_arith)
        requires
            n == frequency * precision + sum - 1,
            sum > 0,
    ;
    assert(q * d <= n && n < q * d + d && q >= 0) by (nonlinear_arith)
        requires
            q == n / d,
            d > 0,
            n >= 0,
    ;
    assert(q <= precision) by (nonlinear_arith)
        requires
            q * d <= frequency * precision + sum - 1,
            frequency <= sum,
            d == sum,
            d > 0,
            q >= 0,
    ;
    if precision > 0 {
        assert(q == 0 <==> frequency == 0) by (nonlinear_arith)
            requires
                q * d <= frequency * precision + sum - 1,
                frequency * precision + sum - 1 < q * d + d,
                d == sum,
                d > 0,
                q >= 0,
                precision > 0,
        ;
    }
}

/// Where the probabilities sum to more than the precision, one of them can
/// give up a unit: were each at most one, they would sum to no more than
/// their number, which the precision covers.
proof fn lemma_excess_has_candidate(probabilities: Seq<u32>, precision: nat) -> (k: int)
    requires
        probabilities.len() <= precision,
        total(probabilities) > precision,
    ensures
        is_candidate(probabilities, k),
{
    if forall|i: int| 0 <= i < probabilities.len() ==> probabilities[i] <= 1 {
        lemma_total_bounded(probabilities, 1);
    }
    choose|i: int| 0 <= i < probabilities.len() && probabilities[i] > 1
}

impl Quantization {
    /// The quantization satisfies [`QuantizationView::wf`].
    pub open spec fn wf(&self) -> bool {
        self@.wf()
    }

    /// Scales each frequency to its share of `precision`, rounded up, so
    /// that every symbol that occurs has at least one unit.
    ///
    /// Fails where the precision is no power of two or is smaller than the
    /// alphabet, where the tables would be too large, and where the
    /// frequencies sum to zero: see [`configuration_error`].
    pub fn new(symbol_frequencies: &[u32], precision: u32) -> (r: Result<Quantization, BuildError>)
        ensures
            match r {
                Ok(q) => {
                    &&& configuration_error(
                        symbol_frequencies@.len(),
                        precision as nat,
                        total(symbol_frequencies@),
                    ) is None
                    &&& q.wf()
                    &&& q@.frequencies == symbol_frequencies@
                    &&& q@.precision == precision
                    &&& q@.probabilities.len() == symbol_frequencies@.len()
                    &&& forall|i: int|
                        0 <= i < symbol_frequencies@.len() ==> #[trigger] q@.probabilities[i]
                            == ceil_share(
                            symbol_frequencies@[i] as nat,
                            total(symbol_frequencies@),
                            precision as nat,
                        )
                },
                Err(e) => configuration_error(
                    symbol_frequencies@.len(),
                    precision as nat,
                    total(symbol_frequencies@),
                ) == Some(e),
            },
    {
        if !check_power_of_two(precision) {
            return Err(BuildError::PrecisionNotPowerOfTwo);
        }
        let alphabet = symbol_frequencies.len();
        if alphabet > precision as usize {
            return Err(BuildError::PrecisionBelowAlphabet);
        }
        assert(precision * alphabet <= u32::MAX * u32::MAX) by (nonlinear_arith)
            requires
                alphabet <= precision <= u32::MAX,
        ;
        if (precision as u64) * (alphabet as u64) > (u32::MAX / 2) as u64 {
            return Err(BuildError::TablesTooLarge);
        }
        let ghost f = symbol_frequencies@;
        let mut frequencies: Vec<u32> = Vec::new();
        let mut sum: u64 = 0;
        let mut i: usize = 0;
        while i < alphabet
            invariant
                alphabet == f.len(),
                f == symbol_frequencies@,
                alphabet <= u32::MAX,
                i <= alphabet,
                frequencies@ == f.take(i as int),
                sum == total(f.take(i as int)),
                sum <= i * u32::MAX,
            decreases alphabet - i,
        {
            proof {
                lemma_total_take(f, i as int);
            }
            frequencies.push(symbol_frequencies[i]);
            sum = sum + symbol_frequencies[i] as u64;
            i = i + 1;
            assert(frequencies@ =~= f.take(i as int));
        }
        proof {
            lemma_take_all(f);
        }
        if sum == 0 {
            return Err(BuildError::ZeroTotal);
        }
        let mut scaled: Vec<u32> = Vec::new();
        let mut scaled_sum: u64 = 0;
        let mut i: usize = 0;
        proof {
            assert(f.take(0) =~= Seq::<u32>::empty());
            assert(0 * sum >= precision * 0) by (nonlinear_arith);
        }
        while i < alphabet
            invariant
                alphabet == f.len(),
                frequencies@ == f,
                alphabet <= precision,
                2 * (precision * alphabet) <= u32::MAX,
                0 < sum == total(f),
                sum <= alphabet * u32::MAX,
                i <= alphabet,
                scaled@.len() == i,
                forall|j: int|
                    0 <= j < i ==> #[trigger] scaled@[j] == ceil_share(
                        f[j] as nat,
                        sum as nat,
                        precision as nat,
                    ),
                scaled_sum == total(scaled@),
                scaled_sum <= i * precision,
                scaled_sum * sum >= precision * total(f.take(i as int)),
            decreases alphabet - i,
        {
            let frequency = frequencies[i];
            proof {
                lemma_total_bounds_item(f, i as int);
                lemma_ceil_share(frequency as nat, sum as nat, precision as nat);
                lemma_total_take(f, i as int);
                // An alphabet of at least one symbol keeps the precision, and with it
                // the alphabet, below two to the 31.
                // An alphabet of at least one symbol keeps the precision, and with it
                // the alphabet, below two to the 31.
                assert(precision <= precision * alphabet) by (nonlinear_arith)
                    requires
                        alphabet >= 1,
                ;
                assert(frequency * precision <= u32::MAX * precision) by (nonlinear_arith)
                    requires
                        frequency <= u32::MAX,
                ;
                assert((i + 1) * precision == i * precision + precision && i * precision
                    + precision <= precision * alphabet) by (nonlinear_arith)
                    requires
                        i < alphabet,
                ;
            }
            let share: u64 = ((frequency as u64) * (precision as u64) + sum - 1) / sum;
            let ghost before = scaled@;
            scaled.push(share as u32);
            scaled_sum = scaled_sum + share;
            proof {
                assert(scaled@.drop_last() =~= before);
                assert((total(before) + share) * sum >= precision * (total(f.take(i as int))
                    + frequency)) by (nonlinear_arith)
                    requires
                        total(before) * sum >= precision * total(f.take(i as int)),
                        share * sum >= frequency * precision,
                ;
            }
            i = i + 1;
        }
        proof {
            lemma_take_all(f);
            assert(scaled_sum >= precision) by (nonlinear_arith)
                requires
                    scaled_sum * sum >= precision * sum,
                    sum > 0,
            ;
            assert(alphabet * precision == precision * alphabet) by (nonlinear_arith);
            assert forall|j: int| 0 <= j < scaled@.len() implies {
                &&& (#[trigger] scaled@[j] == 0 <==> f[j] == 0)
                &&& scaled@[j] <= precision
            } by {
                lemma_total_bounds_item(f, j);
                lemma_ceil_share(f[j] as nat, sum as nat, precision as nat);
            }
        }
        Ok(Quantization { frequencies, scaled, precision })
    }

    /// The frequencies that were given.
    pub fn frequencies(&self) -> (r: &Vec<u32>)
        ensures
            r@ == self@.frequencies,
    {
        &self.frequencies
    }

    /// The probability of each symbol, as it stands.
    pub fn probabilities(&self) -> (r: &Vec<u32>)
        ensures
            r@ == self@.probabilities,
    {
        &self.scaled
    }

    /// The precision.
    pub fn precision(&self) -> (r: u32)
        ensures
            r == self@.precision,
    {
        self.precision
    }

    /// By how much the probabilities sum to more than the precision: the
    /// number of calls of [`Quantization::reduce`] that are still due.
    pub fn excess(&self) -> (r: u32)
        requires
            self.wf(),
        ensures
            r == self@.excess(),
    {
        let mut sum: u32 = 0;
        let mut i: usize = 0;
        while i < self.scaled.len()
            invariant
                self@.wf(),
                i <= self.scaled@.len(),
                sum == total(self.scaled@.take(i as int)),
            decreases self.scaled@.len() - i,
        {
            proof {
                lemma_total_take(self.scaled@, i as int);
                lemma_total_prefix(self.scaled@, i + 1);
                lemma_total_bounded(self.scaled@, self.precision as nat);
                assert(self.scaled@.len() * self.precision == self.precision
                    * self.scaled@.len()) by (nonlinear_arith);
            }
            sum = sum + self.scaled[i];
            i = i + 1;
        }
        proof {
            lemma_total_take(self.scaled@, 0);
            lemma_take_all(self.scaled@);
        }
        sum - self.precision
    }

    /// Takes one unit from the symbol that it costs least.
    ///
    /// `costs[i]` is what is lost by taking a unit from symbol `i`; it is read
    /// only for symbols that hold more than one unit, so no symbol is left
    /// without a state. The symbol of least cost gives up the unit, the first
    /// of them in symbol order where several cost the same, and is returned.
    ///
    /// The cost is the caller's to choose. The usual one is the growth of the
    /// symbol's code length, the binary logarithm of `p / (p - 1)` for a
    /// symbol that holds `p` units, weighted by the symbol's share of the
    /// frequencies; any measure works that is mapped to integers in its own
    /// order.
    pub fn reduce(&mut self, costs: &[u64]) -> (chosen: usize)
        requires
            old(self).wf(),
            old(self)@.excess() > 0,
            costs@.len() == old(self)@.alphabet_size(),
        ensures
            final(self).wf(),
            is_first_least_cost(old(self)@.probabilities, costs@, chosen as int),
            final(self)@.probabilities == old(self)@.probabilities.update(
                chosen as int,
                (old(self)@.probabilities[chosen as int] - 1) as u32,
            ),
            final(self)@.frequencies == old(self)@.frequencies,
            final(self)@.precision == old(self)@.precision,
            final(self)@.excess() == old(self)@.excess() - 1,
    {
        let ghost q = self.scaled@;
        let alphabet = self.scaled.len();
        let mut chosen: usize = 0;
        let mut found = false;
        let mut i: usize = 0;
        while i < alphabet
            invariant
                q == self.scaled@,
                alphabet == q.len() == costs@.len(),
                i <= alphabet,
                !found ==> forall|j: int| 0 <= j < i ==> !is_candidate(q, j),
                found ==> {
                    &&& chosen < i
                    &&& is_candidate(q, chosen as int)
                    &&& forall|j: int|
                        0 <= j < i && #[trigger] is_candidate(q, j) ==> costs@[chosen as int]
                            <= costs@[j]
                    &&& forall|j: int|
                        0 <= j < chosen && #[trigger] is_candidate(q, j) ==> costs@[chosen as int]
                            < costs@[j]
                },
            decreases alphabet - i,
        {
            if self.scaled[i] > 1 && (!found || costs[i] < costs[chosen]) {
                chosen = i;
                found = true;
            }
            i = i + 1;
        }
        proof {
            let candidate = lemma_excess_has_candidate(q, self.precision as nat);
            assert(found);
            lemma_total_update(q, chosen as int, (q[chosen as int] - 1) as u32);
        }
        let units = self.scaled[chosen];
        self.scaled.set(chosen, units - 1);
        chosen
    }
}

} // verus!
