//! The coding tables of one probability distribution.

use crate::error::BuildError;
use crate::quantize::{valid_configuration, Quantization};
use crate::spread::{is_assignment, spread, spread_symbols};
use crate::sums::{
    count, lemma_count_prefix, lemma_count_take, lemma_take_all, lemma_total_bounds_item, total,
};
use vstd::prelude::*;

verus! {

/// The slot at which the spread begins where none is given.
pub const DEFAULT_START: u32 = 0;

/// The step of the spread where none is given.
pub const DEFAULT_STEP: u32 = 49;

/// The spread parameter that `given` stands for.
pub open spec fn or_default(given: Option<u32>, default: u32) -> u32 {
    match given {
        Some(value) => value,
        None => default,
    }
}

/// The states from which a symbol of probability `p` is encoded: `p` to
/// `2p - 1`, both ends included. A symbol of probability zero has no such
/// state, and holds `(0, 0)`.
pub open spec fn precursor_range(p: u32) -> (u32, u32) {
    if p == 0 {
        (0, 0)
    } else {
        (p, (2 * p - 1) as u32)
    }
}

/// The entry of the dense encode table for `state` and `symbol`, in an
/// alphabet of `alphabet` symbols.
pub open spec fn transition(encoding: Seq<u32>, alphabet: nat, state: int, symbol: int) -> u32 {
    encoding[state * alphabet + symbol]
}

/// What the decode table holds for the state of `slot`: the symbol that owns
/// the slot, and the state it is encoded from. A symbol's slots, in
/// ascending order, are reached from the states of its precursor range, in
/// ascending order.
pub open spec fn decode_entry(probabilities: Seq<u32>, slots: Seq<u32>, slot: int) -> (u32, u32) {
    let symbol = slots[slot];
    (symbol, (probabilities[symbol as int] + count(slots.take(slot), symbol)) as u32)
}

/// The decode table for a given assignment of slots: `(0, 0)` below the
/// precision, and the entry of slot `state - precision` from there on.
pub open spec fn decode_table(probabilities: Seq<u32>, slots: Seq<u32>, precision: nat) -> Seq<
    (u32, u32),
> {
    Seq::new(
        2 * precision,
        |state: int|
            if state < precision {
                (0u32, 0u32)
            } else {
                decode_entry(probabilities, slots, state - precision)
            },
    )
}

/// What a [`Context`] stands for: its precision and its three tables.
pub struct ContextView {
    /// The precision `L`; the coder's states are `L` to `2L - 1`.
    pub precision: nat,
    /// The encode table, dense: the entry for a state and a symbol stands at
    /// the state times the alphabet size, plus the symbol.
    pub encoding: Seq<u32>,
    /// The decode table: for each state the symbol it decodes to and the
    /// state it was encoded from.
    pub decoding: Seq<(u32, u32)>,
    /// For each symbol the first and the last state of its precursor range.
    pub ranges: Seq<(u32, u32)>,
}

impl ContextView {
    /// The number of symbols.
    pub open spec fn alphabet_size(self) -> nat {
        self.ranges.len()
    }

    /// The probability of `symbol`, in units of one over the precision.
    pub open spec fn probability(self, symbol: int) -> u32 {
        self.ranges[symbol].0
    }

    /// The probability of each symbol.
    pub open spec fn probabilities(self) -> Seq<u32> {
        Seq::new(self.ranges.len(), |symbol: int| self.ranges[symbol].0)
    }

    /// `symbol` belongs to the alphabet and owns at least one state.
    pub open spec fn encodable(self, symbol: u32) -> bool {
        symbol < self.alphabet_size() && self.probability(symbol as int) >= 1
    }

    /// `state` is one that the coder's register holds between two symbols.
    pub open spec fn is_state(self, state: u32) -> bool {
        self.precision <= state < 2 * self.precision
    }

    /// `state` lies in the precursor range of `symbol`.
    pub open spec fn is_precursor(self, state: int, symbol: int) -> bool {
        &&& 0 <= symbol < self.alphabet_size()
        &&& self.probability(symbol) <= state < 2 * self.probability(symbol)
    }

    /// The state that follows `state` when `symbol` is encoded.
    pub open spec fn next_state(self, state: int, symbol: int) -> u32 {
        transition(self.encoding, self.alphabet_size(), state, symbol)
    }

    /// The tables have their sizes, the probabilities sum to the precision,
    /// and the two tables are inverse to each other: encoding is defined on
    /// each symbol's precursor range and zero elsewhere, decoding on the
    /// states from the precision on and `(0, 0)` below it.
    pub open spec fn wf(self) -> bool {
        &&& valid_configuration(self.alphabet_size(), self.precision)
        &&& self.encoding.len() == 2 * (self.precision * self.alphabet_size())
        &&& self.decoding.len() == 2 * self.precision
        &&& forall|s: int|
            0 <= s < self.ranges.len() ==> #[trigger] self.ranges[s] == precursor_range(
                self.ranges[s].0,
            )
        &&& total(self.probabilities()) == self.precision
        &&& forall|state: int|
            self.precision <= state < 2 * self.precision ==> {
                &&& self.is_precursor(
                    (#[trigger] self.decoding[state]).1 as int,
                    self.decoding[state].0 as int,
                )
                &&& self.next_state(self.decoding[state].1 as int, self.decoding[state].0 as int)
                    == state
            }
        &&& forall|state: int|
            0 <= state < self.precision ==> #[trigger] self.decoding[state] == (0u32, 0u32)
        &&& forall|state: int, symbol: int|
            self.is_precursor(state, symbol) ==> {
                &&& self.precision <= #[trigger] self.next_state(state, symbol) < 2
                    * self.precision
                &&& self.decoding[self.next_state(state, symbol) as int] == (
                    symbol as u32,
                    state as u32,
                )
            }
        &&& forall|state: int, symbol: int|
            0 <= symbol < self.alphabet_size() && 0 <= state < 2 * self.precision
                && !self.is_precursor(state, symbol) ==> #[trigger] self.next_state(state, symbol)
                == 0
    }
}

impl ContextView {
    /// The tables of a well-formed context are for at least one symbol and
    /// for no more symbols than the precision; twice the precision fits in a
    /// `u32`; no probability is above the precision; and the precursor range
    /// of a symbol that owns a state ends at twice its probability less one.
    pub proof fn lemma_bounds(self)
        requires
            self.wf(),
        ensures
            1 <= self.alphabet_size() <= self.precision,
            2 * self.precision <= u32::MAX,
            forall|symbol: int|
                0 <= symbol < self.alphabet_size() ==> #[trigger] self.probability(symbol)
                    <= self.precision,
            forall|symbol: int|
                0 <= symbol < self.alphabet_size() && self.probability(symbol) >= 1
                    ==> (#[trigger] self.ranges[symbol]).1 == 2 * self.probability(symbol) - 1,
    {
        let a = self.alphabet_size();
        let l = self.precision;
        assert(l <= l * a) by (nonlinear_arith)
            requires
                a >= 1,
        ;
        assert forall|symbol: int| 0 <= symbol < self.alphabet_size() implies #[trigger]
            self.probability(symbol) <= self.precision by {
            assert(self.probabilities()[symbol] == self.probability(symbol));
            lemma_total_bounds_item(self.probabilities(), symbol);
        }
        assert forall|symbol: int|
            0 <= symbol < self.alphabet_size() && self.probability(symbol) >= 1 implies (
        #[trigger] self.ranges[symbol]).1 == 2 * self.probability(symbol) - 1 by {
            assert(self.probability(symbol) <= self.precision);
        }
    }
}

/// The encode table of a well-formed context is fixed by its precision, its
/// precursor ranges and its decode table: two contexts that agree on these
/// agree on every entry.
pub proof fn lemma_encoding_determined(first: ContextView, second: ContextView)
    requires
        first.wf(),
        second.wf(),
        first.precision == second.precision,
        first.ranges == second.ranges,
        first.decoding == second.decoding,
    ensures
        first.encoding == second.encoding,
{
    let a = first.alphabet_size() as int;
    let l = first.precision as int;
    first.lemma_bounds();
    assert forall|i: int| 0 <= i < first.encoding.len() implies first.encoding[i]
        == second.encoding[i] by {
        let state = i / a;
        let symbol = i % a;
        assert(i == state * a + symbol && 0 <= symbol < a && 0 <= state < 2 * l)
            by (nonlinear_arith)
            requires
                state == i / a,
                symbol == i % a,
                0 < a,
                0 <= i < 2 * (l * a),
        ;
        assert(first.encoding[i] == first.next_state(state, symbol));
        assert(second.encoding[i] == second.next_state(state, symbol));
        if first.is_precursor(state, symbol) {
            assert(second.is_precursor(state, symbol));
            let to = second.next_state(state, symbol) as int;
            assert(first.decoding[to] == (symbol as u32, state as u32));
        } else {
            assert(!second.is_precursor(state, symbol));
        }
    }
    assert(first.encoding =~= second.encoding);
}

/// One complete set of coding tables for one probability distribution.
/// It is built once and only read from then on.
#[derive(Debug)]
pub struct Context {
    encoding_table: Vec<u32>,
    decoding_table: Vec<(u32, u32)>,
    symbol_precursor_ranges: Vec<(u32, u32)>,
    precision: u32,
}

impl View for Context {
    type V = ContextView;

    closed spec fn view(&self) -> ContextView {
        ContextView {
            precision: self.precision as nat,
            encoding: self.encoding_table@,
            decoding: self.decoding_table@,
            ranges: self.symbol_precursor_ranges@,
        }
    }
}

/// An entry of the dense table lies within it.
proof fn lemma_entry_bound(state: int, symbol: int, alphabet: int, precision: int)
    requires
        0 <= symbol < alphabet,
        0 <= state < 2 * precision,
    ensures
        0 <= state * alphabet + symbol < 2 * (precision * alphabet),
{
    assert(0 <= state * alphabet && state * alphabet + alphabet <= 2 * (precision * alphabet))
        by (nonlinear_arith)
        requires
            0 <= state <= 2 * precision - 1,
            0 < alphabet,
    ;
}

/// Two pairs of state and symbol share no entry of the dense table.
proof fn lemma_entry_injective(state: int, symbol: int, state2: int, symbol2: int, alphabet: int)
    requires
        0 <= symbol < alphabet,
        0 <= symbol2 < alphabet,
        state * alphabet + symbol == state2 * alphabet + symbol2,
    ensures
        state == state2,
        symbol == symbol2,
{
    assert(state == state2) by (nonlinear_arith)
        requires
            0 <= symbol < alphabet,
            0 <= symbol2 < alphabet,
            state * alphabet + symbol == state2 * alphabet + symbol2,
    ;
}

/// A decode table of `len` entries that each hold `(0, 0)`.
fn blank_decode_table(len: usize) -> (table: Vec<(u32, u32)>)
    ensures
        table@.len() == len,
        forall|state: int| 0 <= state < len ==> table@[state] == (0u32, 0u32),
{
    let mut table: Vec<(u32, u32)> = Vec::new();
    while table.len() < len
        invariant
            table@.len() <= len,
            forall|state: int| 0 <= state < table@.len() ==> table@[state] == (0u32, 0u32),
        decreases len - table@.len(),
    {
        table.push((0, 0));
    }
    table
}

/// The precursor range of each symbol.
fn precursor_ranges(probabilities: &Vec<u32>, precision: u32) -> (ranges: Vec<(u32, u32)>)
    requires
        2 * precision <= u32::MAX,
        forall|s: int| 0 <= s < probabilities@.len() ==> probabilities@[s] <= precision,
    ensures
        ranges@.len() == probabilities@.len(),
        forall|s: int|
            0 <= s < ranges@.len() ==> #[trigger] ranges@[s] == precursor_range(probabilities@[s]),
{
    let mut ranges: Vec<(u32, u32)> = Vec::new();
    let mut symbol: usize = 0;
    while symbol < probabilities.len()
        invariant
            2 * precision <= u32::MAX,
            forall|s: int| 0 <= s < probabilities@.len() ==> probabilities@[s] <= precision,
            symbol <= probabilities@.len(),
            ranges@.len() == symbol,
            forall|s: int|
                0 <= s < symbol ==> #[trigger] ranges@[s] == precursor_range(probabilities@[s]),
        decreases probabilities@.len() - symbol,
    {
        let p = probabilities[symbol];
        if p == 0 {
            ranges.push((0, 0));
        } else {
            ranges.push((p, 2 * p - 1));
        }
        symbol = symbol + 1;
    }
    ranges
}

/// `state` lies in the precursor range of `symbol`, cut off at `next`: it is
/// one of the states that have been given a successor so far.
spec fn is_assigned(probabilities: Seq<u32>, next: Seq<u32>, state: int, symbol: int) -> bool {
    &&& 0 <= symbol < probabilities.len()
    &&& probabilities[symbol] <= state < next[symbol]
}

/// The encode and decode tables for a given assignment of slots.
fn build_tables(probabilities: &Vec<u32>, slots: &Vec<u32>, precision: u32) -> (tables: (
    Vec<u32>,
    Vec<(u32, u32)>,
))
    requires
        valid_configuration(probabilities@.len(), precision as nat),
        total(probabilities@) == precision,
        is_assignment(slots@, probabilities@, precision as nat),
    ensures
        tables.0@.len() == 2 * (precision * probabilities@.len()),
        tables.1@ == decode_table(probabilities@, slots@, precision as nat),
        forall|state: int, symbol: int|
            0 <= symbol < probabilities@.len() && probabilities@[symbol] <= state < 2
                * probabilities@[symbol] ==> {
                &&& precision <= #[trigger] transition(
                    tables.0@,
                    probabilities@.len(),
                    state,
                    symbol,
                ) < 2 * precision
                &&& tables.1@[transition(tables.0@, probabilities@.len(), state, symbol) as int]
                    == (symbol as u32, state as u32)
            },
        forall|state: int, symbol: int|
            0 <= symbol < probabilities@.len() && 0 <= state < 2 * precision && !(
            probabilities@[symbol] <= state < 2 * probabilities@[symbol]) ==> #[trigger] transition(
                tables.0@,
                probabilities@.len(),
                state,
                symbol,
            ) == 0,
        forall|state: int|
            precision <= state < 2 * precision ==> {
                &&& (#[trigger] tables.1@[state]).0 < probabilities@.len()
                &&& probabilities@[tables.1@[state].0 as int] <= tables.1@[state].1 < 2
                    * probabilities@[tables.1@[state].0 as int]
                &&& transition(
                    tables.0@,
                    probabilities@.len(),
                    tables.1@[state].1 as int,
                    tables.1@[state].0 as int,
                ) == state
            },
{
    let ghost q = probabilities@;
    let ghost a = probabilities@.len();
    let ghost l = precision as nat;
    let ghost sl = slots@;
    let alphabet = probabilities.len();
    assert(precision <= precision * alphabet) by (nonlinear_arith)
        requires
            alphabet >= 1,
    ;
    let mut encoding: Vec<u32> = vec![0u32; 2 * (precision as usize * alphabet)];
    let mut decoding: Vec<(u32, u32)> = blank_decode_table(2 * precision as usize);
    let mut next: Vec<u32> = Vec::new();
    let mut symbol: usize = 0;
    while symbol < alphabet
        invariant
            alphabet == a == q.len(),
            q == probabilities@,
            symbol <= alphabet,
            next@ == q.take(symbol as int),
        decreases alphabet - symbol,
    {
        next.push(probabilities[symbol]);
        symbol = symbol + 1;
        assert(next@ =~= q.take(symbol as int));
    }
    proof {
        lemma_take_all(q);
        assert forall|s: int| 0 <= s < a implies #[trigger] next@[s] == q[s] + count(
            sl.take(0),
            s as u32,
        ) by {
            lemma_count_take(sl, 0, s as u32);
        }
        assert forall|state: int, symbol: int|
            0 <= symbol < a && 0 <= state < 2 * l implies #[trigger] transition(
            encoding@,
            a,
            state,
            symbol,
        ) == 0 by {
            lemma_entry_bound(state, symbol, a as int, l as int);
        }
    }
    let mut slot: u32 = 0;
    while slot < precision
        invariant
            alphabet == a == q.len(),
            q == probabilities@,
            sl == slots@,
            l == precision,
            1 <= a <= l,
            2 * (l * a) <= u32::MAX,
            l <= l * a,
            total(q) == l,
            is_assignment(sl, q, l),
            slot <= precision,
            encoding@.len() == 2 * (l * a),
            decoding@.len() == 2 * l,
            next@.len() == a,
            forall|s: int|
                0 <= s < a ==> #[trigger] next@[s] == q[s] + count(sl.take(slot as int), s as u32),
            forall|state: int|
                0 <= state < l || l + slot <= state < 2 * l ==> #[trigger] decoding@[state] == (
                    0u32,
                    0u32,
                ),
            forall|state: int|
                l <= state < l + slot ==> #[trigger] decoding@[state] == decode_entry(
                    q,
                    sl,
                    state - l,
                ),
            forall|state: int, symbol: int|
                is_assigned(q, next@, state, symbol) ==> {
                    &&& l <= #[trigger] transition(encoding@, a, state, symbol) < l + slot
                    &&& decoding@[transition(encoding@, a, state, symbol) as int] == (
                        symbol as u32,
                        state as u32,
                    )
                },
            forall|state: int, symbol: int|
                0 <= symbol < a && 0 <= state < 2 * l && !is_assigned(q, next@, state, symbol)
                    ==> #[trigger] transition(encoding@, a, state, symbol) == 0,
            forall|state: int|
                l <= state < l + slot ==> {
                    &&& is_assigned(
                        q,
                        next@,
                        (#[trigger] decoding@[state]).1 as int,
                        decoding@[state].0 as int,
                    )
                    &&& transition(
                        encoding@,
                        a,
                        decoding@[state].1 as int,
                        decoding@[state].0 as int,
                    ) == state
                },
        decreases precision - slot,
    {
        let symbol = slots[slot as usize];
        let from_state = next[symbol as usize];
        let to_state = precision + slot;
        proof {
            lemma_count_take(sl, slot as int, symbol);
            lemma_count_prefix(sl, slot + 1, symbol);
            lemma_total_bounds_item(q, symbol as int);
            lemma_entry_bound(from_state as int, symbol as int, a as int, l as int);
        }
        let ghost old_encoding = encoding@;
        let ghost old_decoding = decoding@;
        let ghost old_next = next@;
        encoding.set(from_state as usize * alphabet + symbol as usize, to_state);
        decoding.set(to_state as usize, (symbol, from_state));
        next.set(symbol as usize, from_state + 1);
        proof {
            assert forall|s: int| 0 <= s < a implies #[trigger] next@[s] == q[s] + count(
                sl.take(slot + 1),
                s as u32,
            ) by {
                lemma_count_take(sl, slot as int, s as u32);
            }
            assert forall|state: int, sym: int| is_assigned(q, next@, state, sym) implies {
                &&& l <= #[trigger] transition(encoding@, a, state, sym) < l + slot + 1
                &&& decoding@[transition(encoding@, a, state, sym) as int] == (
                    sym as u32,
                    state as u32,
                )
            } by {
                lemma_count_prefix(sl, slot + 1, sym as u32);
                lemma_total_bounds_item(q, sym);
                lemma_entry_bound(state, sym, a as int, l as int);
                if state == from_state && sym == symbol {
                } else {
                    assert(is_assigned(q, old_next, state, sym));
                    if state * a + sym == from_state * a + symbol {
                        lemma_entry_injective(state, sym, from_state as int, symbol as int, a as int);
                    }
                    assert(transition(encoding@, a, state, sym) == transition(
                        old_encoding,
                        a,
                        state,
                        sym,
                    ));
                }
            }
            assert forall|state: int, sym: int|
                0 <= sym < a && 0 <= state < 2 * l && !is_assigned(
                    q,
                    next@,
                    state,
                    sym,
                ) implies #[trigger] transition(encoding@, a, state, sym) == 0 by {
                lemma_entry_bound(state, sym, a as int, l as int);
                assert(!is_assigned(q, old_next, state, sym));
                if state * a + sym == from_state * a + symbol {
                    lemma_entry_injective(state, sym, from_state as int, symbol as int, a as int);
                }
                assert(transition(encoding@, a, state, sym) == transition(
                    old_encoding,
                    a,
                    state,
                    sym,
                ));
            }
            assert forall|state: int| l <= state < l + slot + 1 implies {
                &&& is_assigned(
                    q,
                    next@,
                    (#[trigger] decoding@[state]).1 as int,
                    decoding@[state].0 as int,
                )
                &&& transition(encoding@, a, decoding@[state].1 as int, decoding@[state].0 as int)
                    == state
            } by {
                if state < l + slot {
                    let st = old_decoding[state].1 as int;
                    let sy = old_decoding[state].0 as int;
                    assert(is_assigned(q, old_next, st, sy));
                    lemma_count_prefix(sl, slot as int, sy as u32);
                    lemma_total_bounds_item(q, sy);
                    lemma_entry_bound(st, sy, a as int, l as int);
                    if st * a + sy == from_state * a + symbol {
                        lemma_entry_injective(st, sy, from_state as int, symbol as int, a as int);
                    }
                    assert(transition(encoding@, a, st, sy) == transition(old_encoding, a, st, sy));
                }
            }
        }
        slot = slot + 1;
    }
    proof {
        lemma_take_all(sl);
        assert(decoding@ =~= decode_table(q, sl, l));
        assert forall|state: int, symbol: int|
            0 <= symbol < a && q[symbol] <= state < 2 * q[symbol] implies {
            &&& precision <= #[trigger] transition(encoding@, a, state, symbol) < 2 * precision
            &&& decoding@[transition(encoding@, a, state, symbol) as int] == (
                symbol as u32,
                state as u32,
            )
        } by {
            assert(is_assigned(q, next@, state, symbol));
        }
        assert forall|state: int, symbol: int|
            0 <= symbol < a && 0 <= state < 2 * precision && !(q[symbol] <= state < 2
                * q[symbol]) implies #[trigger] transition(encoding@, a, state, symbol) == 0 by {
            assert(!is_assigned(q, next@, state, symbol));
        }
        assert forall|state: int| precision <= state < 2 * precision implies {
            &&& (#[trigger] decoding@[state]).0 < a
            &&& q[decoding@[state].0 as int] <= decoding@[state].1 < 2 * q[decoding@[state].0 as int]
            &&& transition(encoding@, a, decoding@[state].1 as int, decoding@[state].0 as int)
                == state
        } by {
            assert(is_assigned(q, next@, decoding@[state].1 as int, decoding@[state].0 as int));
        }
    }
    (encoding, decoding)
}

impl Context {
    /// The tables satisfy [`ContextView::wf`].
    pub open spec fn wf(&self) -> bool {
        self@.wf()
    }

    /// Builds the tables for probabilities that sum to the precision.
    ///
    /// The symbols are spread over the slots from `state_index_start`, or
    /// from [`DEFAULT_START`], with a step of `state_index_step`, or of
    /// [`DEFAULT_STEP`], taken modulo the precision. It fails with
    /// [`BuildError::ExcessProbability`] where the probabilities still sum to
    /// more than the precision, and otherwise with
    /// [`BuildError::StartOutOfRange`] where the start is no slot.
    ///
    /// The decode table follows the spread slot by slot. The precursor ranges
    /// follow from the probabilities, and the encode table is the inverse of
    /// the decode table, zero where it has no entry
    /// ([`lemma_encoding_determined`]).
    pub fn new(
        quantization: &Quantization,
        state_index_start: Option<u32>,
        state_index_step: Option<u32>,
    ) -> (r: Result<Context, BuildError>)
        requires
            quantization.wf(),
        ensures
            match r {
                Ok(context) => {
                    &&& quantization@.excess() == 0
                    &&& or_default(state_index_start, DEFAULT_START) < quantization@.precision
                    &&& context.wf()
                    &&& context@.precision == quantization@.precision
                    &&& context@.probabilities() == quantization@.probabilities
                    &&& total(context@.probabilities()) == context@.precision
                    &&& context@.decoding == decode_table(
                        quantization@.probabilities,
                        spread(
                            quantization@.probabilities,
                            quantization@.precision,
                            or_default(state_index_start, DEFAULT_START) as nat,
                            or_default(state_index_step, DEFAULT_STEP) as nat,
                        ),
                        quantization@.precision,
                    )
                    &&& forall|symbol: u32|
                        context@.encodable(symbol) <==> symbol < quantization@.alphabet_size()
                            && quantization@.frequencies[symbol as int] > 0
                },
                Err(e) => if quantization@.excess() > 0 {
                    e == BuildError::ExcessProbability
                } else {
                    &&& e == BuildError::StartOutOfRange
                    &&& or_default(state_index_start, DEFAULT_START) >= quantization@.precision
                },
            },
    {
        if quantization.excess() > 0 {
            return Err(BuildError::ExcessProbability);
        }
        let precision = quantization.precision();
        let start = match state_index_start {
            Some(value) => value,
            None => DEFAULT_START,
        };
        if start >= precision {
            return Err(BuildError::StartOutOfRange);
        }
        let step = match state_index_step {
            Some(value) => value,
            None => DEFAULT_STEP,
        };
        let probabilities = quantization.probabilities();
        assert(precision <= precision * probabilities@.len()) by (nonlinear_arith)
            requires
                probabilities@.len() >= 1,
        ;
        let symbol_precursor_ranges = precursor_ranges(probabilities, precision);
        let slots = spread_symbols(probabilities, precision, start, step);
        let (encoding_table, decoding_table) = build_tables(probabilities, &slots, precision);
        let context = Context {
            encoding_table,
            decoding_table,
            symbol_precursor_ranges,
            precision,
        };
        proof {
            assert(context@.probabilities() =~= probabilities@);
        }
        Ok(context)
    }

    /// The precision `L`. The coder's states are `L` to `2L - 1`, and
    /// encoding starts from `L`.
    pub fn precision(&self) -> (r: u32)
        ensures
            r == self@.precision,
    {
        self.precision
    }

    /// The number of symbols.
    pub fn alphabet_size(&self) -> (r: usize)
        ensures
            r == self@.alphabet_size(),
    {
        self.symbol_precursor_ranges.len()
    }

    /// Tells whether `symbol` belongs to the alphabet and owns a state.
    pub fn is_encodable(&self, symbol: u32) -> (r: bool)
        ensures
            r == self@.encodable(symbol),
    {
        (symbol as usize) < self.symbol_precursor_ranges.len()
            && self.symbol_precursor_ranges[symbol as usize].0 >= 1
    }

    /// The dense encode table.
    pub fn encoding_table(&self) -> (r: &Vec<u32>)
        ensures
            r@ == self@.encoding,
    {
        &self.encoding_table
    }

    /// The decode table.
    pub fn decoding_table(&self) -> (r: &Vec<(u32, u32)>)
        ensures
            r@ == self@.decoding,
    {
        &self.decoding_table
    }

    /// The first and the last state of each symbol's precursor range.
    pub fn symbol_precursor_ranges(&self) -> (r: &Vec<(u32, u32)>)
        ensures
            r@ == self@.ranges,
    {
        &self.symbol_precursor_ranges
    }
}

} // verus!
