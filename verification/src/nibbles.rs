//! Bytes as pairs of four-bit symbols, coded with a model of order one.
//!
//! Each byte is two symbols: its high nibble, coded with one context for all
//! bytes, and its low nibble, coded with the context that belongs to the
//! high nibble before it.

use crate::coder::{decode, decoded_under, encode, encoded_under, lemma_round_trip_under};
use crate::context::{Context, ContextView};
use crate::error::DecodeError;
use crate::sums::{count, lemma_count_take, lemma_take_all};
use vstd::prelude::*;

verus! {

/// The number of values of a nibble.
pub const NIBBLE_VALUES: usize = 16;

/// The high four bits of `byte`.
pub open spec fn high_nibble(byte: u8) -> u32 {
    (byte / 16) as u32
}

/// The low four bits of `byte`.
pub open spec fn low_nibble(byte: u8) -> u32 {
    (byte % 16) as u32
}

/// The high nibble of each byte.
pub open spec fn high_nibbles(bytes: Seq<u8>) -> Seq<u32> {
    Seq::new(bytes.len(), |i: int| high_nibble(bytes[i]))
}

/// Each byte as a `u32`.
pub open spec fn byte_values(bytes: Seq<u8>) -> Seq<u32> {
    Seq::new(bytes.len(), |i: int| bytes[i] as u32)
}

/// The symbols of `bytes`: of each byte its high nibble, then its low one.
pub open spec fn nibbles(bytes: Seq<u8>) -> Seq<u32> {
    Seq::new(
        2 * bytes.len(),
        |i: int|
            if i % 2 == 0 {
                high_nibble(bytes[i / 2])
            } else {
                low_nibble(bytes[i / 2])
            },
    )
}

/// The bytes that `symbols` are the nibbles of, two by two.
pub open spec fn bytes_of(symbols: Seq<u32>) -> Seq<u8> {
    Seq::new(symbols.len() / 2, |i: int| (16 * symbols[2 * i] + symbols[2 * i + 1]) as u8)
}

/// A byte's nibbles are its quotient and remainder by sixteen.
proof fn lemma_nibble_bits(byte: u8)
    ensures
        byte >> 4 == byte / 16,
        byte & 0x0f == byte % 16,
{
    assert(byte >> 4 == byte / 16) by (bit_vector);
    assert(byte & 0x0f == byte % 16) by (bit_vector);
}

/// Counts the high nibbles of `input`, and for each high nibble the low
/// nibbles that follow it.
///
/// The first vector holds, for each of the sixteen values, the number of
/// bytes with that high nibble. The second holds one vector for each high
/// nibble, with the number of bytes of that high nibble for each low one.
pub fn nibble_frequencies(input: &[u8]) -> (r: (Vec<u32>, Vec<Vec<u32>>))
    requires
        input@.len() <= u32::MAX,
    ensures
        r.0@.len() == NIBBLE_VALUES,
        r.1@.len() == NIBBLE_VALUES,
        forall|high: int|
            0 <= high < NIBBLE_VALUES ==> #[trigger] r.0@[high] == count(
                high_nibbles(input@),
                high as u32,
            ),
        forall|high: int| 0 <= high < NIBBLE_VALUES ==> (#[trigger] r.1@[high])@.len() == NIBBLE_VALUES,
        forall|high: int, low: int|
            0 <= high < NIBBLE_VALUES && 0 <= low < NIBBLE_VALUES ==> #[trigger] r.1@[high]@[low]
                == count(byte_values(input@), (16 * high + low) as u32),
{
    let ghost highs = high_nibbles(input@);
    let ghost values = byte_values(input@);
    let mut first: Vec<u32> = vec![0u32; NIBBLE_VALUES];
    let mut pairs: Vec<u32> = vec![0u32; 256];
    let mut i: usize = 0;
    proof {
        assert forall|v: u32| count(highs.take(0), v) == 0 && count(values.take(0), v) == 0 by {
            assert(highs.take(0) =~= Seq::<u32>::empty());
            assert(values.take(0) =~= Seq::<u32>::empty());
        }
    }
    while i < input.len()
        invariant
            highs == high_nibbles(input@),
            values == byte_values(input@),
            input@.len() <= u32::MAX,
            i <= input@.len(),
            first@.len() == NIBBLE_VALUES,
            pairs@.len() == 256,
            forall|v: int| 0 <= v < 16 ==> #[trigger] first@[v] == count(highs.take(i as int), v as u32),
            forall|v: int|
                0 <= v < 256 ==> #[trigger] pairs@[v] == count(values.take(i as int), v as u32),
            forall|v: u32| #[trigger] count(highs.take(i as int), v) <= i,
            forall|v: u32| #[trigger] count(values.take(i as int), v) <= i,
        decreases input@.len() - i,
    {
        let byte = input[i];
        let high = (byte >> 4) as usize;
        proof {
            lemma_nibble_bits(byte);
            assert forall|v: u32| #[trigger]
                count(highs.take(i + 1), v) == count(highs.take(i as int), v) + if highs[i as int]
                    == v {
                    1nat
                } else {
                    0nat
                } by {
                lemma_count_take(highs, i as int, v);
            }
            assert forall|v: u32| #[trigger]
                count(values.take(i + 1), v) == count(values.take(i as int), v)
                    + if values[i as int] == v {
                    1nat
                } else {
                    0nat
                } by {
                lemma_count_take(values, i as int, v);
            }
        }
        let seen = first[high];
        first.set(high, seen + 1);
        let seen = pairs[byte as usize];
        pairs.set(byte as usize, seen + 1);
        i = i + 1;
    }
    proof {
        lemma_take_all(highs);
        lemma_take_all(values);
    }
    let mut second: Vec<Vec<u32>> = Vec::new();
    let mut high: usize = 0;
    while high < NIBBLE_VALUES
        invariant
            high <= NIBBLE_VALUES,
            pairs@.len() == 256,
            second@.len() == high,
            forall|h: int| 0 <= h < high ==> (#[trigger] second@[h])@.len() == NIBBLE_VALUES,
            forall|h: int, l: int|
                0 <= h < high && 0 <= l < NIBBLE_VALUES ==> #[trigger] second@[h]@[l] == pairs@[16 * h
                    + l],
        decreases NIBBLE_VALUES - high,
    {
        let mut row: Vec<u32> = Vec::new();
        let mut low: usize = 0;
        while low < NIBBLE_VALUES
            invariant
                high < NIBBLE_VALUES,
                low <= NIBBLE_VALUES,
                pairs@.len() == 256,
                row@.len() == low,
                forall|l: int| 0 <= l < low ==> #[trigger] row@[l] == pairs@[16 * high + l],
            decreases NIBBLE_VALUES - low,
        {
            row.push(pairs[16 * high + low]);
            low = low + 1;
        }
        second.push(row);
        high = high + 1;
    }
    (first, second)
}

/// What a [`NibbleModel`] stands for.
pub struct NibbleModelView {
    /// The context of the high nibbles.
    pub first: ContextView,
    /// For each high nibble, the context of the low nibbles that follow it,
    /// if any do.
    pub second: Seq<Option<ContextView>>,
}

impl NibbleModelView {
    /// The contexts are well formed, each for sixteen symbols and all of one
    /// precision, and every high nibble that can be encoded has a context
    /// for the low nibble after it.
    pub open spec fn wf(self) -> bool {
        &&& self.first.wf()
        &&& self.first.alphabet_size() == NIBBLE_VALUES
        &&& self.second.len() == NIBBLE_VALUES
        &&& forall|high: int|
            0 <= high < NIBBLE_VALUES ==> match #[trigger] self.second[high] {
                Some(context) => {
                    &&& context.wf()
                    &&& context.alphabet_size() == NIBBLE_VALUES
                    &&& context.precision == self.first.precision
                },
                None => !self.first.encodable(high as u32),
            }
    }

    /// Both nibbles of `byte` can be encoded.
    pub open spec fn encodable(self, byte: u8) -> bool {
        &&& self.first.encodable(high_nibble(byte))
        &&& self.second[high_nibble(byte) as int] is Some
        &&& self.second[high_nibble(byte) as int].unwrap().encodable(low_nibble(byte))
    }

    /// The context of the symbol that follows the symbols `known`: that of
    /// the high nibbles after whole bytes, and else that of the high nibble
    /// just before.
    pub open spec fn context_after(self) -> spec_fn(Seq<u32>) -> ContextView {
        |known: Seq<u32>|
            if known.len() % 2 == 0 {
                self.first
            } else {
                self.second[known.last() as int].unwrap()
            }
    }

    /// The state and the bit sequence after `bytes` are encoded from
    /// `state`, the last byte first and of each byte the low nibble first.
    pub open spec fn encoded(self, bytes: Seq<u8>, state: u32, bits: Seq<bool>) -> (
        u32,
        Seq<bool>,
    ) {
        encoded_under(self.context_after(), nibbles(bytes), state, bits)
    }

    /// The `count` bytes decoded from `state`, with the state and the bit
    /// sequence after them. `None` where the bits run out.
    pub open spec fn decoded(self, count: nat, state: u32, bits: Seq<bool>) -> Option<
        (Seq<u8>, u32, Seq<bool>),
    > {
        match decoded_under(self.context_after(), Seq::empty(), 2 * count, state, bits) {
            Some((symbols, last, rest)) => Some((bytes_of(symbols), last, rest)),
            None => None,
        }
    }
}

/// The contexts of an order-one model of bytes: one for the high nibbles,
/// and one for the low nibbles after each high nibble that occurs.
#[derive(Debug)]
pub struct NibbleModel {
    first: Context,
    second: Vec<Option<Context>>,
}

impl View for NibbleModel {
    type V = NibbleModelView;

    closed spec fn view(&self) -> NibbleModelView {
        NibbleModelView { first: self.first@, second: context_views(self.second@) }
    }
}

/// What each context stands for.
pub open spec fn context_views(contexts: Seq<Option<Context>>) -> Seq<Option<ContextView>> {
    Seq::new(
        contexts.len(),
        |i: int|
            match contexts[i] {
                Some(context) => Some(context@),
                None => None,
            },
    )
}

/// Bytes are what their nibbles join to.
pub proof fn lemma_bytes_of_nibbles(bytes: Seq<u8>)
    ensures
        bytes_of(nibbles(bytes)) == bytes,
{
    assert(bytes_of(nibbles(bytes)) =~= bytes);
}

/// The round trip of bytes: from the state and the bits that encoding
/// `bytes` leaves, decoding as many bytes gives them back and ends on the
/// state and the bits that the encoding began with.
pub proof fn lemma_bytes_round_trip(
    model: NibbleModelView,
    bytes: Seq<u8>,
    state: u32,
    bits: Seq<bool>,
)
    requires
        model.wf(),
        forall|i: int| 0 <= i < bytes.len() ==> model.encodable(#[trigger] bytes[i]),
        model.first.is_state(state),
    ensures
        model.first.is_state(model.encoded(bytes, state, bits).0),
        model.decoded(
            bytes.len(),
            model.encoded(bytes, state, bits).0,
            model.encoded(bytes, state, bits).1,
        ) == Some((bytes, state, bits)),
{
    let select = model.context_after();
    let symbols = nibbles(bytes);
    assert forall|i: int| 0 <= i < symbols.len() implies {
        &&& (#[trigger] select(symbols.take(i))).wf()
        &&& select(symbols.take(i)).precision == model.first.precision
        &&& select(symbols.take(i)).encodable(symbols[i])
    } by {
        let byte = bytes[i / 2];
        assert(model.encodable(byte));
        if i % 2 == 1 {
            assert(symbols.take(i).last() == symbols[i - 1]);
            assert((i - 1) / 2 == i / 2);
        }
    }
    lemma_round_trip_under(select, symbols, model.first.precision, state, bits);
    lemma_bytes_of_nibbles(bytes);
}

impl NibbleModel {
    /// The model satisfies [`NibbleModelView::wf`].
    pub open spec fn wf(&self) -> bool {
        self@.wf()
    }

    /// Joins the contexts to a model, if they fit: each is for sixteen
    /// symbols, all share the precision of `first`, and `second` holds one
    /// entry for each high nibble, a context wherever `first` can encode
    /// that high nibble.
    pub fn new(first: Context, second: Vec<Option<Context>>) -> (r: Option<NibbleModel>)
        requires
            first.wf(),
            forall|i: int|
                0 <= i < second@.len() ==> match #[trigger] second@[i] {
                    Some(context) => context.wf(),
                    None => true,
                },
        ensures
            match r {
                Some(model) => {
                    &&& model.wf()
                    &&& model@.first == first@
                    &&& model@.second == context_views(second@)
                },
                None => !(NibbleModelView {
                    first: first@,
                    second: context_views(second@),
                }).wf(),
            },
    {
        if first.alphabet_size() != NIBBLE_VALUES || second.len() != NIBBLE_VALUES {
            return None;
        }
        let ghost views = context_views(second@);
        let mut high: usize = 0;
        while high < NIBBLE_VALUES
            invariant
                high <= NIBBLE_VALUES,
                second@.len() == NIBBLE_VALUES,
                views == context_views(second@),
                forall|i: int|
                    0 <= i < high ==> match #[trigger] views[i] {
                        Some(context) => {
                            &&& context.alphabet_size() == NIBBLE_VALUES
                            &&& context.precision == first@.precision
                        },
                        None => !first@.encodable(i as u32),
                    },
            decreases NIBBLE_VALUES - high,
        {
            let fits = match &second[high] {
                Some(context) => context.alphabet_size() == NIBBLE_VALUES && context.precision()
                    == first.precision(),
                None => !first.is_encodable(high as u32),
            };
            if !fits {
                assert(views[high as int] == match second@[high as int] {
                    Some(context) => Some(context@),
                    None => None,
                });
                return None;
            }
            high = high + 1;
        }
        Some(NibbleModel { first, second })
    }

    /// The precision that the contexts share. Encoding starts from it.
    pub fn precision(&self) -> (r: u32)
        ensures
            r == self@.first.precision,
    {
        self.first.precision()
    }

    /// Tells whether both nibbles of `byte` can be encoded.
    pub fn can_encode(&self, byte: u8) -> (r: bool)
        requires
            self.wf(),
        ensures
            r == self@.encodable(byte),
    {
        let high = (byte >> 4) as u32;
        let low = (byte & 0x0f) as u32;
        proof {
            lemma_nibble_bits(byte);
        }
        match &self.second[high as usize] {
            Some(context) => self.first.is_encodable(high) && context.is_encodable(low),
            None => false,
        }
    }

    /// Encodes `input` from the precision as the first state, the last byte
    /// first and of each byte the low nibble first, and returns the last
    /// state.
    pub fn encode_bytes(&self, input: &[u8], encoded_string: &mut Vec<bool>) -> (state: u32)
        requires
            self.wf(),
            forall|i: int| 0 <= i < input@.len() ==> self@.encodable(#[trigger] input@[i]),
        ensures
            (state, final(encoded_string)@) == self@.encoded(
                input@,
                self@.first.precision as u32,
                old(encoded_string)@,
            ),
            self@.first.is_state(state),
    {
        let ghost select = self@.context_after();
        let ghost symbols = nibbles(input@);
        let ghost precision = self@.first.precision;
        proof {
            self@.first.lemma_bounds();
        }
        let start = self.first.precision();
        let mut state = start;
        let mut left: usize = input.len();
        proof {
            assert(symbols.take(2 * left) =~= symbols);
        }
        while left > 0
            invariant
                self.wf(),
                select == self@.context_after(),
                symbols == nibbles(input@),
                precision == self@.first.precision,
                forall|i: int| 0 <= i < input@.len() ==> self@.encodable(#[trigger] input@[i]),
                left <= input@.len(),
                precision <= state < 2 * precision,
                encoded_under(select, symbols.take(2 * left), state, encoded_string@)
                    == encoded_under(select, symbols, start, old(encoded_string)@),
            decreases left,
        {
            let byte = input[left - 1];
            let first_nibble = (byte >> 4) as u32;
            let second_nibble = (byte & 0x0f) as u32;
            let ghost whole = symbols.take(2 * left);
            let ghost half = symbols.take(2 * left - 1);
            let ghost rest = symbols.take(2 * left - 2);
            let ghost lower = self@.second[first_nibble as int].unwrap();
            let ghost before = (state, encoded_string@);
            proof {
                lemma_nibble_bits(byte);
                assert(self@.encodable(byte));
                assert(whole.drop_last() =~= half);
                assert(half.drop_last() =~= rest);
                assert(whole.last() == second_nibble);
                assert(half.last() == first_nibble);
                assert(select(half) == lower);
                assert(select(rest) == self@.first);
                assert(self@.second[first_nibble as int] == match self.second@[first_nibble as int] {
                    Some(context) => Some(context@),
                    None => None,
                });
                crate::coder::lemma_encoded_is_state(lower, second_nibble, state, encoded_string@);
                assert(encoded_under(select, whole, before.0, before.1) == encoded_under(
                    select,
                    half,
                    crate::coder::encoded(lower, second_nibble, before.0, before.1).0,
                    crate::coder::encoded(lower, second_nibble, before.0, before.1).1,
                ));
            }
            let context = self.second[first_nibble as usize].as_ref().unwrap();
            state = encode(second_nibble, state, context, encoded_string);
            proof {
                assert(encoded_under(select, half, state, encoded_string@) == encoded_under(
                    select,
                    rest,
                    crate::coder::encoded(self@.first, first_nibble, state, encoded_string@).0,
                    crate::coder::encoded(self@.first, first_nibble, state, encoded_string@).1,
                ));
            }
            state = encode(first_nibble, state, &self.first, encoded_string);
            left = left - 1;
        }
        state
    }

    /// Decodes `count` bytes from `state`, and returns them with the state
    /// that follows. Fails where the bits run out, with none left.
    pub fn decode_bytes(&self, count: usize, state: u32, encoded_string: &mut Vec<bool>) -> (r:
        Result<(Vec<u8>, u32), DecodeError>)
        requires
            self.wf(),
            self@.first.is_state(state),
        ensures
            match self@.decoded(count as nat, state, old(encoded_string)@) {
                Some((bytes, last, rest)) => {
                    &&& r matches Ok((output, end))
                    &&& output@ == bytes
                    &&& end == last
                    &&& final(encoded_string)@ == rest
                    &&& self@.first.is_state(last)
                },
                None => {
                    &&& r matches Err(DecodeError::OutOfBits)
                    &&& final(encoded_string)@.len() == 0
                },
            },
    {
        let ghost select = self@.context_after();
        let ghost precision = self@.first.precision;
        let ghost mut known: Seq<u32> = Seq::empty();
        let mut output: Vec<u8> = Vec::new();
        let mut current = state;
        let mut done: usize = 0;
        while done < count
            invariant
                self.wf(),
                select == self@.context_after(),
                precision == self@.first.precision,
                done <= count,
                known.len() == 2 * done,
                output@ == bytes_of(known),
                precision <= current < 2 * precision,
                decoded_under(
                    select,
                    known,
                    (2 * (count - done)) as nat,
                    current,
                    encoded_string@,
                ) == decoded_under(
                    select,
                    Seq::empty(),
                    (2 * count) as nat,
                    state,
                    old(encoded_string)@,
                ),
            decreases count - done,
        {
            let ghost steps = (2 * (count - done)) as nat;
            let ghost bits = encoded_string@;
            proof {
                assert(select(known) == self@.first);
                assert(decoded_under(select, known, steps, current, bits) == match crate::coder::decoded(
                    self@.first,
                    current,
                    bits,
                ) {
                    Some((symbol, next, rest)) => decoded_under(
                        select,
                        known.push(symbol),
                        (steps - 1) as nat,
                        next,
                        rest,
                    ),
                    None => None,
                });
            }
            let (first_nibble, next) = match decode(current, &self.first, encoded_string) {
                Ok(pair) => pair,
                Err(e) => {
                    return Err(e);
                },
            };
            let ghost lower = self@.second[first_nibble as int].unwrap();
            let ghost bits = encoded_string@;
            proof {
                assert(select(known.push(first_nibble)) == lower);
                assert(self@.second[first_nibble as int] == match self.second@[first_nibble as int] {
                    Some(context) => Some(context@),
                    None => None,
                });
                assert(decoded_under(
                    select,
                    known.push(first_nibble),
                    (steps - 1) as nat,
                    next,
                    bits,
                ) == match crate::coder::decoded(lower, next, bits) {
                    Some((symbol, after, rest)) => decoded_under(
                        select,
                        known.push(first_nibble).push(symbol),
                        (steps - 2) as nat,
                        after,
                        rest,
                    ),
                    None => None,
                });
            }
            let context = self.second[first_nibble as usize].as_ref().unwrap();
            let (second_nibble, next) = match decode(next, context, encoded_string) {
                Ok(pair) => pair,
                Err(e) => {
                    return Err(e);
                },
            };
            proof {
                let before = known;
                known = known.push(first_nibble).push(second_nibble);
                assert(bytes_of(known) =~= bytes_of(before).push(
                    (16 * first_nibble + second_nibble) as u8,
                ));
                assert((first_nibble << 4) | second_nibble == 16 * first_nibble + second_nibble)
                    by (bit_vector)
                    requires
                        first_nibble < 16,
                        second_nibble < 16,
                ;
            }
            output.push(((first_nibble << 4) | second_nibble) as u8);
            current = next;
            done = done + 1;
        }
        Ok((output, current))
    }
}

} // verus!
