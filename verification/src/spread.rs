//! Symbol spreading: which symbol owns which of the `L` state slots.

use crate::power::{is_power_of_two, lemma_mask_is_mod};
use crate::quantize::valid_configuration;
use crate::sums::{
    count, lemma_count_constant, lemma_count_update, lemma_count_witness, lemma_take_all,
    lemma_total_prefix, lemma_total_take, total,
};
use vstd::arithmetic::div_mod::{lemma_add_mod_noop, lemma_mod_self_0, lemma_small_mod};
use vstd::prelude::*;

verus! {

/// The first slot that holds `free`, looking at `fuel` slots from `slot`
/// onward and going round from the last slot to the first. Where none of
/// them is free, the slot after the last one looked at.
pub open spec fn first_free(slots: Seq<u32>, free: u32, slot: nat, fuel: nat) -> nat
    decreases fuel,
{
    if fuel == 0 || slots[slot as int] == free {
        slot
    } else {
        first_free(slots, free, (slot + 1) % slots.len(), (fuel - 1) as nat)
    }
}

/// The slots once every symbol below `symbol` has all its slots and `symbol`
/// has `placed` of them.
///
/// Symbols take their slots in ascending order, each as many as its
/// probability. The cursor starts at `start` and moves on by `step` after
/// each placement, modulo the number of slots; a placement takes the first
/// free slot from the cursor onward. A free slot holds the alphabet size.
pub open spec fn spread_partial(
    probabilities: Seq<u32>,
    precision: nat,
    start: nat,
    step: nat,
    symbol: nat,
    placed: nat,
) -> Seq<u32>
    decreases symbol, placed,
{
    if placed > 0 {
        let before = spread_partial(
            probabilities,
            precision,
            start,
            step,
            symbol,
            (placed - 1) as nat,
        );
        let n = total(probabilities.take(symbol as int)) + placed - 1;
        let cursor = ((start + n * step) % (precision as int)) as nat;
        before.update(
            first_free(before, probabilities.len() as u32, cursor, precision) as int,
            symbol as u32,
        )
    } else if symbol > 0 {
        spread_partial(
            probabilities,
            precision,
            start,
            step,
            (symbol - 1) as nat,
            probabilities[symbol - 1] as nat,
        )
    } else {
        Seq::new(precision, |i: int| probabilities.len() as u32)
    }
}

/// The symbol of each slot once every symbol is placed.
pub open spec fn spread(probabilities: Seq<u32>, precision: nat, start: nat, step: nat) -> Seq<
    u32,
> {
    spread_partial(probabilities, precision, start, step, probabilities.len(), 0)
}

/// `slots` gives each of `precision` slots to a symbol, and each symbol as
/// many slots as its probability.
pub open spec fn is_assignment(slots: Seq<u32>, probabilities: Seq<u32>, precision: nat) -> bool {
    &&& slots.len() == precision
    &&& forall|i: int| 0 <= i < slots.len() ==> #[trigger] slots[i] < probabilities.len()
    &&& forall|s: int|
        0 <= s < probabilities.len() ==> #[trigger] count(slots, s as u32) == probabilities[s]
}

/// The distance from `slot` forward to `goal`, going round.
spec fn ahead(slot: nat, goal: nat, len: nat) -> nat {
    if goal >= slot {
        (goal - slot) as nat
    } else {
        (goal + len - slot) as nat
    }
}

/// Assigns the slots to the symbols.
///
/// `start` is the slot at which the cursor begins; `step` is how far it moves
/// after each placement, taken modulo the precision.
pub fn spread_symbols(probabilities: &Vec<u32>, precision: u32, start: u32, step: u32) -> (slots:
    Vec<u32>)
    requires
        valid_configuration(probabilities@.len(), precision as nat),
        total(probabilities@) == precision,
        start < precision,
    ensures
        slots@ == spread(probabilities@, precision as nat, start as nat, step as nat),
        is_assignment(slots@, probabilities@, precision as nat),
{
    let ghost q = probabilities@;
    let ghost len = precision as nat;
    let alphabet = probabilities.len();
    assert(precision <= precision * alphabet) by (nonlinear_arith)
        requires
            alphabet >= 1,
    ;
    let free: u32 = alphabet as u32;
    let mask: u32 = precision - 1;
    let stride: u32 = step & mask;
    let mut slots: Vec<u32> = vec![free; precision as usize];
    let mut cursor: u32 = start;
    let ghost mut n: nat = 0;
    let mut symbol: usize = 0;
    proof {
        assert(slots@ =~= Seq::new(len, |i: int| free));
        assert forall|v: u32| count(slots@, v) == if v == free {
            len
        } else {
            0
        } by {
            lemma_count_constant(len, free, v);
        }
        lemma_mask_is_mod(step, precision);
        lemma_small_mod(start as nat, len);
        assert(q.take(0) =~= Seq::<u32>::empty());
        assert(0 * step == 0) by (nonlinear_arith);
    }
    while symbol < alphabet
        invariant
            q == probabilities@,
            alphabet == q.len(),
            free == alphabet,
            len == precision,
            is_power_of_two(precision as int),
            mask == precision - 1,
            stride == step % precision,
            2 * (precision * alphabet) <= u32::MAX,
            precision <= precision * alphabet,
            total(q) == len,
            symbol <= alphabet,
            slots@.len() == len,
            n == total(q.take(symbol as int)),
            slots@ == spread_partial(q, len, start as nat, step as nat, symbol as nat, 0),
            cursor == (start + n * step) % (len as int),
            forall|i: int| 0 <= i < len ==> #[trigger] slots@[i] <= free,
            count(slots@, free) == len - n,
            forall|v: u32| v < symbol ==> #[trigger] count(slots@, v) == q[v as int],
            forall|v: u32| symbol <= v < free ==> #[trigger] count(slots@, v) == 0,
        decreases alphabet - symbol,
    {
        let units = probabilities[symbol];
        let mut placed: u32 = 0;
        proof {
            lemma_total_take(q, symbol as int);
            lemma_total_prefix(q, symbol + 1);
        }
        while placed < units
            invariant
                q == probabilities@,
                alphabet == q.len(),
                free == alphabet,
                len == precision,
                is_power_of_two(precision as int),
                mask == precision - 1,
                stride == step % precision,
                2 * (precision * alphabet) <= u32::MAX,
                precision <= precision * alphabet,
                symbol < alphabet,
                units == q[symbol as int],
                placed <= units,
                total(q.take(symbol as int)) + units <= len,
                slots@.len() == len,
                n == total(q.take(symbol as int)) + placed,
                slots@ == spread_partial(
                    q,
                    len,
                    start as nat,
                    step as nat,
                    symbol as nat,
                    placed as nat,
                ),
                cursor == (start + n * step) % (len as int),
                forall|i: int| 0 <= i < len ==> #[trigger] slots@[i] <= free,
                count(slots@, free) == len - n,
                forall|v: u32| v < symbol ==> #[trigger] count(slots@, v) == q[v as int],
                count(slots@, symbol as u32) == placed,
                forall|v: u32| symbol < v < free ==> #[trigger] count(slots@, v) == 0,
            decreases units - placed,
        {
            let ghost goal = lemma_count_witness(slots@, free) as nat;
            let ghost mut fuel: nat = len;
            let mut target: u32 = cursor;
            while slots[target as usize] != free
                invariant
                    len == precision,
                    is_power_of_two(precision as int),
                    mask == precision - 1,
                    slots@.len() == len,
                    2 * len <= u32::MAX,
                    target < len,
                    goal < len,
                    slots@[goal as int] == free,
                    fuel > ahead(target as nat, goal, len),
                    first_free(slots@, free, target as nat, fuel) == first_free(
                        slots@,
                        free,
                        cursor as nat,
                        len,
                    ),
                decreases fuel,
            {
                proof {
                    lemma_mask_is_mod((target + 1) as u32, precision);
                    if target + 1 < len {
                        lemma_small_mod((target + 1) as nat, len);
                    } else {
                        lemma_mod_self_0(len as int);
                    }
                    fuel = (fuel - 1) as nat;
                }
                target = (target + 1) & mask;
            }
            let ghost before = slots@;
            slots.set(target as usize, symbol as u32);
            proof {
                assert forall|v: u32| #[trigger]
                    count(slots@, v) + (if free == v {
                        1nat
                    } else {
                        0nat
                    }) == count(before, v) + (if symbol as u32 == v {
                        1nat
                    } else {
                        0nat
                    }) by {
                    lemma_count_update(before, target as int, symbol as u32, v);
                }
                lemma_mask_is_mod((cursor + stride) as u32, precision);
                lemma_add_mod_noop(start + n * step, step as int, len as int);
                assert(start + n * step + step == start + (n + 1) * step) by (nonlinear_arith);
                n = n + 1;
            }
            cursor = (cursor + stride) & mask;
            placed = placed + 1;
        }
        symbol = symbol + 1;
    }
    proof {
        lemma_take_all(q);
        assert forall|i: int| 0 <= i < slots@.len() implies #[trigger] slots@[i] < q.len() by {
            if slots@[i] == free {
                crate::sums::lemma_count_positive(slots@, i);
            }
        }
    }
    slots
}

} // verus!
