use tans::spread::spread_symbols;

#[test]
fn unit_step_fills_in_order() {
    assert_eq!(spread_symbols(&vec![3, 1], 4, 0, 1), vec![0, 0, 0, 1]);
}

#[test]
fn occupied_slot_sends_the_symbol_onward() {
    // cursor: 0, 2, 0, 2
    assert_eq!(spread_symbols(&vec![3, 1], 4, 0, 2), vec![0, 0, 0, 1]);
    // cursor: 0, 2, 0, 2 with two symbols of two slots
    assert_eq!(spread_symbols(&vec![2, 2], 4, 0, 2), vec![0, 1, 0, 1]);
}

#[test]
fn cursor_wraps_modulo_precision() {
    // cursor: 3, 2, 1, 0
    assert_eq!(spread_symbols(&vec![2, 2], 4, 3, 3), vec![1, 1, 0, 0]);
}

#[test]
fn probing_wraps_past_the_last_slot() {
    // cursor stays at 3
    assert_eq!(spread_symbols(&vec![2, 2], 4, 3, 0), vec![0, 1, 1, 0]);
}

#[test]
fn step_is_taken_modulo_precision() {
    let probabilities = vec![5, 0, 7, 4];
    assert_eq!(
        spread_symbols(&probabilities, 16, 2, 49),
        spread_symbols(&probabilities, 16, 2, 1)
    );
    assert_eq!(
        spread_symbols(&probabilities, 16, 2, u32::MAX),
        spread_symbols(&probabilities, 16, 2, 15)
    );
}

#[test]
fn stride_of_five_over_eight_slots() {
    // cursor: 1, 6, 3, 0, 5, 2, 7, 4
    assert_eq!(spread_symbols(&vec![3, 2, 3], 8, 1, 5), vec![1, 0, 2, 0, 2, 1, 0, 2]);
}

#[test]
fn every_symbol_gets_its_slots() {
    let probabilities = vec![5u32, 0, 7, 4];
    for start in 0..16 {
        for step in 0..16 {
            let slots = spread_symbols(&probabilities, 16, start, step);
            assert_eq!(slots.len(), 16);
            for (symbol, p) in probabilities.iter().enumerate() {
                let owned = slots.iter().filter(|s| **s == symbol as u32).count();
                assert_eq!(owned, *p as usize);
            }
        }
    }
}
