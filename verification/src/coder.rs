//! The coder: one state register, moved through the tables of a context.
//!
//! Encoding a symbol first drains the low bits of the state onto the end of
//! the bit sequence until the state lies in the symbol's precursor range, and
//! then follows the encode table. Decoding follows the decode table and then
//! refills the state from the end of the bit sequence. Each step undoes the
//! other, so the symbols come out in the reverse of the order they went in.

use crate::context::{Context, ContextView};
use crate::error::DecodeError;
use crate::power::{lemma_shift_down, lemma_shift_up};
use vstd::prelude::*;

verus! {

/// The number that a bit stands for.
pub open spec fn bit_value(bit: bool) -> nat {
    if bit {
        1
    } else {
        0
    }
}

/// The state and the bit sequence once the state has been halved until it is
/// at most `high`, each halving pushing the bit that it drops.
pub open spec fn drained(state: nat, high: nat, bits: Seq<bool>) -> (nat, Seq<bool>)
    decreases state,
{
    if state <= high {
        (state, bits)
    } else {
        drained(state / 2, high, bits.push(state % 2 == 1))
    }
}

/// The state and the bit sequence once the state has been doubled until it
/// is at least `precision`, each doubling taking in the bit that it pops.
/// `None` where the bits run out first.
pub open spec fn refilled(state: nat, precision: nat, bits: Seq<bool>) -> Option<(nat, Seq<bool>)>
    decreases bits.len(),
{
    if state >= precision {
        Some((state, bits))
    } else if bits.len() == 0 {
        None
    } else {
        refilled(2 * state + bit_value(bits.last()), precision, bits.drop_last())
    }
}

/// The state and the bit sequence after `symbol` is encoded from `state`.
pub open spec fn encoded(context: ContextView, symbol: u32, state: u32, bits: Seq<bool>) -> (
    u32,
    Seq<bool>,
) {
    let (low, out) = drained(state as nat, context.ranges[symbol as int].1 as nat, bits);
    (context.next_state(low as int, symbol as int), out)
}

/// The symbol decoded from `state`, with the state and the bit sequence
/// after it. `None` where the bits run out.
pub open spec fn decoded(context: ContextView, state: u32, bits: Seq<bool>) -> Option<
    (u32, u32, Seq<bool>),
> {
    let (symbol, base) = context.decoding[state as int];
    match refilled(base as nat, context.precision, bits) {
        Some((next, rest)) => Some((symbol, next as u32, rest)),
        None => None,
    }
}

/// Draining a state of at least `low` into the precursor range of a
/// positive `low` ends within that range, `low` to `2 * low - 1`. It never
/// raises the state, and only adds bits at the end.
pub proof fn lemma_drained_in_range(state: nat, low: nat, bits: Seq<bool>)
    requires
        1 <= low <= state,
    ensures
        low <= drained(state, (2 * low - 1) as nat, bits).0 <= 2 * low - 1,
        drained(state, (2 * low - 1) as nat, bits).0 <= state,
        bits.len() <= drained(state, (2 * low - 1) as nat, bits).1.len(),
        drained(state, (2 * low - 1) as nat, bits).1.take(bits.len() as int) == bits,
    decreases state,
{
    let high = (2 * low - 1) as nat;
    if state <= high {
        assert(bits.take(bits.len() as int) =~= bits);
    } else {
        let pushed = bits.push(state % 2 == 1);
        lemma_drained_in_range(state / 2, low, pushed);
        let out = drained(state / 2, high, pushed).1;
        assert(out.take(bits.len() as int) =~= out.take(pushed.len() as int).take(
            bits.len() as int,
        ));
        assert(pushed.take(bits.len() as int) =~= bits);
    }
}

/// Refilling what was drained passes through the state and the bits that
/// the draining began with.
pub proof fn lemma_refill_inverts_drain(state: nat, high: nat, precision: nat, bits: Seq<bool>)
    requires
        state < 2 * precision,
    ensures
        refilled(
            drained(state, high, bits).0,
            precision,
            drained(state, high, bits).1,
        ) == refilled(state, precision, bits),
    decreases state,
{
    if state > high {
        let pushed = bits.push(state % 2 == 1);
        lemma_refill_inverts_drain(state / 2, high, precision, pushed);
        assert(pushed.drop_last() =~= bits);
        assert(2 * (state / 2) + bit_value(pushed.last()) == state);
    }
}

/// `visited` is one of the states that the register passes through while
/// `state` is drained down to `high`, both ends included.
pub open spec fn drain_visits(state: nat, high: nat, visited: nat) -> bool
    decreases state,
{
    visited == state || (state > high && drain_visits(state / 2, high, visited))
}

/// `visited` is one of the states that the register passes through while
/// `state` is refilled up to `precision`, both ends included.
pub open spec fn refill_visits(state: nat, precision: nat, bits: Seq<bool>, visited: nat) -> bool
    decreases bits.len(),
{
    visited == state || (state < precision && bits.len() > 0 && refill_visits(
        2 * state + bit_value(bits.last()),
        precision,
        bits.drop_last(),
        visited,
    ))
}

/// While a state is drained into the precursor range that begins at `low`,
/// the register never leaves the span from `low` to the state it began with.
pub proof fn lemma_drain_stays_bounded(state: nat, low: nat, visited: nat)
    requires
        1 <= low <= state,
        drain_visits(state, (2 * low - 1) as nat, visited),
    ensures
        low <= visited <= state,
    decreases state,
{
    if visited != state {
        lemma_drain_stays_bounded(state / 2, low, visited);
    }
}

/// While a positive state below twice the precision is refilled, the
/// register never falls below the state it began with and never reaches
/// twice the precision.
pub proof fn lemma_refill_stays_bounded(
    state: nat,
    precision: nat,
    bits: Seq<bool>,
    visited: nat,
)
    requires
        1 <= state < 2 * precision,
        refill_visits(state, precision, bits, visited),
    ensures
        state <= visited < 2 * precision,
    decreases bits.len(),
{
    if visited != state {
        lemma_refill_stays_bounded(
            2 * state + bit_value(bits.last()),
            precision,
            bits.drop_last(),
            visited,
        );
    }
}

/// Encoding leaves a state of the coder: the register stays between the
/// precision and twice the precision.
pub proof fn lemma_encoded_is_state(context: ContextView, symbol: u32, state: u32, bits: Seq<bool>)
    requires
        context.wf(),
        context.encodable(symbol),
        context.is_state(state),
    ensures
        context.is_state(encoded(context, symbol, state, bits).0),
        context.is_precursor(
            drained(state as nat, context.ranges[symbol as int].1 as nat, bits).0 as int,
            symbol as int,
        ),
{
    context.lemma_bounds();
    assert(context.ranges[symbol as int].1 == 2 * context.probability(symbol as int) - 1);
    lemma_drained_in_range(state as nat, context.probability(symbol as int) as nat, bits);
}

/// Decoding leaves a symbol that can be encoded and a state of the coder.
pub proof fn lemma_decoded_is_state(context: ContextView, state: u32, bits: Seq<bool>)
    requires
        context.wf(),
        context.is_state(state),
    ensures
        match decoded(context, state, bits) {
            Some((symbol, next, rest)) => {
                &&& context.encodable(symbol)
                &&& context.is_state(next)
                &&& rest.len() <= bits.len()
            },
            None => true,
        },
{
    let (symbol, base) = context.decoding[state as int];
    context.lemma_bounds();
    assert(context.is_precursor(base as int, symbol as int));
    assert(context.probability(symbol as int) <= context.precision);
    lemma_refilled_is_state(base as nat, context.precision, bits);
}

/// Refilling from a positive state below twice the precision ends between
/// the precision and twice the precision, and only takes bits away.
pub proof fn lemma_refilled_is_state(state: nat, precision: nat, bits: Seq<bool>)
    requires
        1 <= state < 2 * precision,
    ensures
        match refilled(state, precision, bits) {
            Some((next, rest)) => {
                &&& precision <= next < 2 * precision
                &&& rest.len() <= bits.len()
            },
            None => true,
        },
    decreases bits.len(),
{
    if state < precision && bits.len() > 0 {
        lemma_refilled_is_state(2 * state + bit_value(bits.last()), precision, bits.drop_last());
    }
}

/// Decoding undoes encoding: from the state and the bits that encoding a
/// symbol leaves, decoding gives back the symbol, the state before it, and
/// the bits before it.
pub proof fn lemma_decode_inverts_encode(
    context: ContextView,
    symbol: u32,
    state: u32,
    bits: Seq<bool>,
)
    requires
        context.wf(),
        context.encodable(symbol),
        context.is_state(state),
    ensures
        decoded(
            context,
            encoded(context, symbol, state, bits).0,
            encoded(context, symbol, state, bits).1,
        ) == Some((symbol, state, bits)),
{
    let high = context.ranges[symbol as int].1 as nat;
    let (low, out) = drained(state as nat, high, bits);
    lemma_encoded_is_state(context, symbol, state, bits);
    lemma_refill_inverts_drain(state as nat, high, context.precision, bits);
    assert(context.decoding[context.next_state(low as int, symbol as int) as int] == (
        symbol,
        low as u32,
    ));
}

/// Decoding pops as many bits as the encoding that it undoes has pushed.
pub proof fn lemma_bit_symmetry(context: ContextView, symbol: u32, state: u32, bits: Seq<bool>)
    requires
        context.wf(),
        context.encodable(symbol),
        context.is_state(state),
    ensures
        ({
            let (next, out) = encoded(context, symbol, state, bits);
            let pushed = out.len() - bits.len();
            &&& pushed >= 0
            &&& match decoded(context, next, out) {
                Some((_, _, rest)) => out.len() - rest.len() == pushed,
                None => false,
            }
        }),
{
    context.lemma_bounds();
    assert(context.ranges[symbol as int].1 == 2 * context.probability(symbol as int) - 1);
    lemma_drained_in_range(state as nat, context.probability(symbol as int) as nat, bits);
    lemma_decode_inverts_encode(context, symbol, state, bits);
}

/// The state and the bit sequence after `symbols` are encoded from `state`,
/// the last of them first.
pub open spec fn encoded_all(context: ContextView, symbols: Seq<u32>, state: u32, bits: Seq<bool>)
    -> (u32, Seq<bool>)
    decreases symbols.len(),
{
    if symbols.len() == 0 {
        (state, bits)
    } else {
        let (next, out) = encoded(context, symbols.last(), state, bits);
        encoded_all(context, symbols.drop_last(), next, out)
    }
}

/// The `count` symbols decoded from `state` one after the other, with the
/// state and the bit sequence after them. `None` where the bits run out.
pub open spec fn decoded_all(context: ContextView, count: nat, state: u32, bits: Seq<bool>)
    -> Option<(Seq<u32>, u32, Seq<bool>)>
    decreases count,
{
    if count == 0 {
        Some((Seq::empty(), state, bits))
    } else {
        match decoded(context, state, bits) {
            Some((symbol, next, rest)) => match decoded_all(
                context,
                (count - 1) as nat,
                next,
                rest,
            ) {
                Some((symbols, last, left)) => Some((seq![symbol] + symbols, last, left)),
                None => None,
            },
            None => None,
        }
    }
}

/// Decoding one symbol more, after `count` symbols, adds it at the end.
proof fn lemma_decoded_all_extends(context: ContextView, count: nat, state: u32, bits: Seq<bool>)
    requires
        decoded_all(context, count, state, bits) is Some,
    ensures
        ({
            let (symbols, last, left) = decoded_all(context, count, state, bits).unwrap();
            decoded_all(context, count + 1, state, bits) == match decoded(context, last, left) {
                Some((symbol, next, rest)) => Some((symbols.push(symbol), next, rest)),
                None => None,
            }
        }),
    decreases count,
{
    if count == 0 {
        match decoded(context, state, bits) {
            Some((symbol, next, rest)) => {
                assert(decoded_all(context, 0, next, rest) == Some(
                    (Seq::<u32>::empty(), next, rest),
                ));
                assert(seq![symbol] + Seq::<u32>::empty() =~= Seq::<u32>::empty().push(symbol));
            },
            None => {},
        }
    } else {
        let (first, next, rest) = decoded(context, state, bits).unwrap();
        lemma_decoded_all_extends(context, (count - 1) as nat, next, rest);
        let (symbols, last, left) = decoded_all(context, (count - 1) as nat, next, rest).unwrap();
        assert(decoded_all(context, count, state, bits) == Some(
            (seq![first] + symbols, last, left),
        ));
        match decoded(context, last, left) {
            Some((symbol, after, remaining)) => {
                assert(decoded_all(context, count, next, rest) == Some(
                    (symbols.push(symbol), after, remaining),
                ));
                assert(seq![first] + symbols.push(symbol) =~= (seq![first] + symbols).push(
                    symbol,
                ));
            },
            None => {
                assert(decoded_all(context, count, next, rest) is None);
            },
        }
    }
}

/// The round trip: from the state and the bits that encoding a sequence of
/// symbols leaves, decoding as many symbols gives back the sequence, in its
/// own order, and ends on the state and the bits that the encoding began
/// with. So decoding pops exactly the bits that encoding pushed.
pub proof fn lemma_round_trip(context: ContextView, symbols: Seq<u32>, state: u32, bits: Seq<bool>)
    requires
        context.wf(),
        forall|i: int| 0 <= i < symbols.len() ==> context.encodable(#[trigger] symbols[i]),
        context.is_state(state),
    ensures
        context.is_state(encoded_all(context, symbols, state, bits).0),
        decoded_all(
            context,
            symbols.len(),
            encoded_all(context, symbols, state, bits).0,
            encoded_all(context, symbols, state, bits).1,
        ) == Some((symbols, state, bits)),
    decreases symbols.len(),
{
    if symbols.len() > 0 {
        let (next, out) = encoded(context, symbols.last(), state, bits);
        let (end, all) = encoded_all(context, symbols, state, bits);
        lemma_encoded_is_state(context, symbols.last(), state, bits);
        lemma_decode_inverts_encode(context, symbols.last(), state, bits);
        lemma_round_trip(context, symbols.drop_last(), next, out);
        lemma_decoded_all_extends(context, (symbols.len() - 1) as nat, end, all);
        assert(symbols.drop_last().push(symbols.last()) =~= symbols);
    }
}

/// The state and the bit sequence after `symbols` are encoded from `state`,
/// the last of them first, each with the context that `select` gives for
/// the symbols before it.
pub open spec fn encoded_under(
    select: spec_fn(Seq<u32>) -> ContextView,
    symbols: Seq<u32>,
    state: u32,
    bits: Seq<bool>,
) -> (u32, Seq<bool>)
    decreases symbols.len(),
{
    if symbols.len() == 0 {
        (state, bits)
    } else {
        let (next, out) = encoded(select(symbols.drop_last()), symbols.last(), state, bits);
        encoded_under(select, symbols.drop_last(), next, out)
    }
}

/// `known` followed by the `count` symbols decoded from `state` one after
/// the other, each with the context that `select` gives for the symbols
/// known by then, with the state and the bit sequence after them. `None`
/// where the bits run out.
pub open spec fn decoded_under(
    select: spec_fn(Seq<u32>) -> ContextView,
    known: Seq<u32>,
    count: nat,
    state: u32,
    bits: Seq<bool>,
) -> Option<(Seq<u32>, u32, Seq<bool>)>
    decreases count,
{
    if count == 0 {
        Some((known, state, bits))
    } else {
        match decoded(select(known), state, bits) {
            Some((symbol, next, rest)) => decoded_under(
                select,
                known.push(symbol),
                (count - 1) as nat,
                next,
                rest,
            ),
            None => None,
        }
    }
}

/// Each of `symbols` can be encoded with the context that `select` gives
/// for the symbols before it, and these contexts are well formed and share
/// the precision.
pub open spec fn encodable_under(
    select: spec_fn(Seq<u32>) -> ContextView,
    symbols: Seq<u32>,
    precision: nat,
) -> bool {
    forall|i: int|
        0 <= i < symbols.len() ==> {
            &&& (#[trigger] select(symbols.take(i))).wf()
            &&& select(symbols.take(i)).precision == precision
            &&& select(symbols.take(i)).encodable(symbols[i])
        }
}

/// Decoding one symbol more, after `count` symbols, continues from where
/// those have led.
proof fn lemma_decoded_under_extends(
    select: spec_fn(Seq<u32>) -> ContextView,
    known: Seq<u32>,
    count: nat,
    state: u32,
    bits: Seq<bool>,
)
    requires
        decoded_under(select, known, count, state, bits) is Some,
    ensures
        ({
            let (symbols, last, left) = decoded_under(select, known, count, state, bits).unwrap();
            decoded_under(select, known, count + 1, state, bits) == decoded_under(
                select,
                symbols,
                1,
                last,
                left,
            )
        }),
    decreases count,
{
    if count > 0 {
        let (symbol, next, rest) = decoded(select(known), state, bits).unwrap();
        lemma_decoded_under_extends(select, known.push(symbol), (count - 1) as nat, next, rest);
        assert(decoded_under(select, known, count + 1, state, bits) == decoded_under(
            select,
            known.push(symbol),
            count,
            next,
            rest,
        ));
    }
}

/// The round trip with changing contexts: where the context of each symbol
/// is chosen by the symbols before it, as in a model of order one or more,
/// decoding gives back the sequence and ends on the state and the bits that
/// the encoding began with. The decoder finds each context from what it has
/// decoded so far.
pub proof fn lemma_round_trip_under(
    select: spec_fn(Seq<u32>) -> ContextView,
    symbols: Seq<u32>,
    precision: nat,
    state: u32,
    bits: Seq<bool>,
)
    requires
        encodable_under(select, symbols, precision),
        precision <= state < 2 * precision,
    ensures
        precision <= encoded_under(select, symbols, state, bits).0 < 2 * precision,
        decoded_under(
            select,
            Seq::empty(),
            symbols.len(),
            encoded_under(select, symbols, state, bits).0,
            encoded_under(select, symbols, state, bits).1,
        ) == Some((symbols, state, bits)),
    decreases symbols.len(),
{
    if symbols.len() > 0 {
        let before = symbols.drop_last();
        let context = select(before);
        assert(before =~= symbols.take(symbols.len() - 1));
        let (next, out) = encoded(context, symbols.last(), state, bits);
        let (end, all) = encoded_under(select, symbols, state, bits);
        lemma_encoded_is_state(context, symbols.last(), state, bits);
        lemma_decode_inverts_encode(context, symbols.last(), state, bits);
        assert forall|i: int| 0 <= i < before.len() implies {
            &&& (#[trigger] select(before.take(i))).wf()
            &&& select(before.take(i)).precision == precision
            &&& select(before.take(i)).encodable(before[i])
        } by {
            assert(before.take(i) =~= symbols.take(i));
        }
        lemma_round_trip_under(select, before, precision, next, out);
        lemma_decoded_under_extends(select, Seq::empty(), before.len(), end, all);
        assert(decoded_under(select, before.push(symbols.last()), 0, state, bits) == Some(
            (before.push(symbols.last()), state, bits),
        ));
        assert(decoded_under(select, before, 1, next, out) == Some(
            (before.push(symbols.last()), state, bits),
        ));
        assert(before.push(symbols.last()) =~= symbols);
    }
}

/// Encodes `symbol` from `state`: pushes the bits that the state gives up to
/// the end of `encoded_string`, and returns the state that follows.
pub fn encode(symbol: u32, state: u32, context: &Context, encoded_string: &mut Vec<bool>) -> (next:
    u32)
    requires
        context.wf(),
        context@.encodable(symbol),
        context@.is_state(state),
    ensures
        (next, final(encoded_string)@) == encoded(context@, symbol, state, old(encoded_string)@),
        context@.is_state(next),
{
    let precursor_range_end = context.symbol_precursor_ranges()[symbol as usize].1;
    let ghost low = context@.probability(symbol as int) as nat;
    proof {
        context@.lemma_bounds();
        lemma_encoded_is_state(context@, symbol, state, encoded_string@);
        assert(context@.ranges[symbol as int].1 == 2 * low - 1);
    }
    let mut current = state;
    while current > precursor_range_end
        invariant
            1 <= low <= current <= state,
            precursor_range_end == 2 * low - 1,
            drained(current as nat, precursor_range_end as nat, encoded_string@) == drained(
                state as nat,
                precursor_range_end as nat,
                old(encoded_string)@,
            ),
        decreases current,
    {
        proof {
            lemma_shift_down(current);
        }
        encoded_string.push(current & 1 == 1);
        current = current >> 1;
    }
    let alphabet = context.alphabet_size();
    proof {
        let a = alphabet as int;
        let l = context@.precision as int;
        assert(0 <= current * a + symbol < 2 * (l * a)) by (nonlinear_arith)
            requires
                0 <= symbol < a,
                0 <= current <= 2 * l - 1,
        ;
    }
    context.encoding_table()[current as usize * alphabet + symbol as usize]
}

/// Decodes one symbol from `state`: returns the symbol and the state that
/// follows, popping the bits that the state takes in from the end of
/// `encoded_string`. Fails where the bits run out, with none left.
pub fn decode(state: u32, context: &Context, encoded_string: &mut Vec<bool>) -> (r: Result<
    (u32, u32),
    DecodeError,
>)
    requires
        context.wf(),
        context@.is_state(state),
    ensures
        match decoded(context@, state, old(encoded_string)@) {
            Some((symbol, next, rest)) => {
                &&& r == Ok::<(u32, u32), DecodeError>((symbol, next))
                &&& final(encoded_string)@ == rest
                &&& context@.encodable(symbol)
                &&& context@.is_state(next)
            },
            None => {
                &&& r == Err::<(u32, u32), DecodeError>(DecodeError::OutOfBits)
                &&& final(encoded_string)@.len() == 0
            },
        },
{
    let (symbol, next_state_base) = context.decoding_table()[state as usize];
    let precision = context.precision();
    proof {
        context@.lemma_bounds();
        lemma_decoded_is_state(context@, state, encoded_string@);
        assert(context@.is_precursor(next_state_base as int, symbol as int));
        assert(context@.probability(symbol as int) <= precision);
    }
    let mut current = next_state_base;
    while current < precision
        invariant
            precision == context@.precision,
            context@.decoding[state as int] == (symbol, next_state_base),
            1 <= current < 2 * precision,
            2 * precision <= u32::MAX,
            refilled(current as nat, precision as nat, encoded_string@) == refilled(
                next_state_base as nat,
                precision as nat,
                old(encoded_string)@,
            ),
        decreases encoded_string@.len(),
    {
        match encoded_string.pop() {
            Some(bit) => {
                let input_bit: u32 = if bit {
                    1
                } else {
                    0
                };
                proof {
                    lemma_shift_up(current, input_bit);
                }
                current = (current << 1) | input_bit;
            },
            None => {
                return Err(DecodeError::OutOfBits);
            },
        }
    }
    Ok((symbol, current))
}

} // verus!
