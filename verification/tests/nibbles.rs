use tans::context::Context;
use tans::error::{BuildError, DecodeError};
use tans::nibbles::{nibble_frequencies, NibbleModel, NIBBLE_VALUES};
use tans::quantize::Quantization;

fn float_costs(quantization: &Quantization) -> Vec<u64> {
    let frequencies = quantization.frequencies();
    let total: u64 = frequencies.iter().map(|f| *f as u64).sum();
    quantization
        .probabilities()
        .iter()
        .zip(frequencies.iter())
        .map(|(p, f)| {
            if *p <= 1 {
                0
            } else {
                let share = (*f as f64) / (total as f64);
                (((*p as f64) / ((*p - 1) as f64)).log2() * share).to_bits()
            }
        })
        .collect()
}

fn context_for(frequencies: &[u32], precision: u32, start: u32, step: u32) -> Option<Context> {
    let mut quantization = match Quantization::new(frequencies, precision) {
        Ok(q) => q,
        Err(BuildError::ZeroTotal) => return None,
        Err(e) => panic!("{:?}", e),
    };
    while quantization.excess() > 0 {
        let c = float_costs(&quantization);
        quantization.reduce(&c);
    }
    Some(Context::new(&quantization, Some(start), Some(step)).unwrap())
}

fn model_for(input: &[u8], precision: u32, start: u32, step: u32) -> NibbleModel {
    let (first, second) = nibble_frequencies(input);
    let first_context = context_for(&first, precision, start, step).unwrap();
    let second_contexts = second.iter().map(|f| context_for(f, precision, start, step)).collect();
    NibbleModel::new(first_context, second_contexts).unwrap()
}

#[test]
fn nibbles_are_counted() {
    assert_eq!(NIBBLE_VALUES, 16);
    let (first, second) = nibble_frequencies(&[0x12, 0x12, 0x1f, 0xf0, 0x00, 0x12]);
    let mut expected_first = vec![0u32; 16];
    expected_first[0x1] = 4;
    expected_first[0xf] = 1;
    expected_first[0x0] = 1;
    assert_eq!(first, expected_first);
    assert_eq!(second.len(), 16);
    for (high, row) in second.iter().enumerate() {
        let mut expected = vec![0u32; 16];
        match high {
            0x0 => expected[0x0] = 1,
            0x1 => {
                expected[0x2] = 3;
                expected[0xf] = 1;
            }
            0xf => expected[0x0] = 1,
            _ => {}
        }
        assert_eq!(row, &expected);
    }
}

#[test]
fn no_bytes_give_no_counts() {
    let (first, second) = nibble_frequencies(&[]);
    assert_eq!(first, vec![0u32; 16]);
    assert_eq!(second, vec![vec![0u32; 16]; 16]);
}

#[test]
fn text_round_trips_through_the_model() {
    let text = b"abracadabra, abracadabra, abracadabra";
    let model = model_for(text, 128, 3, 49);
    assert_eq!(model.precision(), 128);
    for byte in text.iter() {
        assert!(model.can_encode(*byte));
    }
    assert!(!model.can_encode(b'z'));
    assert!(!model.can_encode(0xff));
    let mut bits = Vec::new();
    let state = model.encode_bytes(text, &mut bits);
    assert!(128 <= state && state < 256);
    assert!(bits.len() < text.len() * 8);
    let (output, end) = model.decode_bytes(text.len(), state, &mut bits).unwrap();
    assert_eq!(output, text.to_vec());
    assert_eq!(end, 128);
    assert!(bits.is_empty());
}

#[test]
fn every_byte_value_round_trips() {
    let mut input: Vec<u8> = (0..=255u8).collect();
    input.extend_from_slice(&[7, 7, 7, 7, 200, 200, 13]);
    for (start, step) in [(0u32, 1u32), (5, 49), (127, 127), (64, 0)] {
        let model = model_for(&input, 128, start, step);
        let mut bits = vec![true, true, false];
        let state = model.encode_bytes(&input, &mut bits);
        let (output, end) = model.decode_bytes(input.len(), state, &mut bits).unwrap();
        assert_eq!(output, input);
        assert_eq!(end, 128);
        assert_eq!(bits, vec![true, true, false]);
    }
}

#[test]
fn bytes_are_encoded_last_first_and_low_nibble_first() {
    let input = [0x12u8, 0x34, 0x12];
    let model = model_for(&input, 16, 0, 1);
    let (first, second) = nibble_frequencies(&input);
    let first_context = context_for(&first, 16, 0, 1).unwrap();
    let low_of_1 = context_for(&second[1], 16, 0, 1).unwrap();
    let low_of_3 = context_for(&second[3], 16, 0, 1).unwrap();
    let mut expected_bits = Vec::new();
    let mut state = 16;
    state = tans::encode(2, state, &low_of_1, &mut expected_bits);
    state = tans::encode(1, state, &first_context, &mut expected_bits);
    state = tans::encode(4, state, &low_of_3, &mut expected_bits);
    state = tans::encode(3, state, &first_context, &mut expected_bits);
    state = tans::encode(2, state, &low_of_1, &mut expected_bits);
    state = tans::encode(1, state, &first_context, &mut expected_bits);
    let mut bits = Vec::new();
    assert_eq!(model.encode_bytes(&input, &mut bits), state);
    assert_eq!(bits, expected_bits);
}

#[test]
fn decoding_bytes_reports_missing_bits() {
    let text = b"some bytes to be cut short";
    let model = model_for(text, 64, 0, 49);
    let mut bits = Vec::new();
    let state = model.encode_bytes(text, &mut bits);
    bits.truncate(bits.len() / 2);
    assert_eq!(model.decode_bytes(text.len(), state, &mut bits).err(), Some(DecodeError::OutOfBits));
    assert!(bits.is_empty());
}

#[test]
fn decoding_no_bytes_takes_no_bits() {
    let model = model_for(b"xyz", 16, 0, 1);
    let mut bits = vec![true];
    assert_eq!(model.decode_bytes(0, 20, &mut bits), Ok((vec![], 20)));
    assert_eq!(bits, vec![true]);
}

#[test]
fn contexts_must_fit_together() {
    let input = b"abracadabra";
    let (first, second) = nibble_frequencies(input);
    let build_second = |precision: u32| -> Vec<Option<Context>> {
        second.iter().map(|f| context_for(f, precision, 0, 1)).collect()
    };
    // all as they should be
    assert!(NibbleModel::new(context_for(&first, 32, 0, 1).unwrap(), build_second(32)).is_some());
    // a context of another precision
    assert!(NibbleModel::new(context_for(&first, 64, 0, 1).unwrap(), build_second(32)).is_none());
    // a high nibble without its context
    let mut missing = build_second(32);
    missing[6] = None;
    assert!(NibbleModel::new(context_for(&first, 32, 0, 1).unwrap(), missing).is_none());
    // too few contexts
    let mut short = build_second(32);
    short.pop();
    assert!(NibbleModel::new(context_for(&first, 32, 0, 1).unwrap(), short).is_none());
    // a context for another alphabet
    let small = context_for(&[3, 1], 32, 0, 1).unwrap();
    assert!(NibbleModel::new(small, build_second(32)).is_none());
    let mut odd = build_second(32);
    odd[6] = context_for(&[3, 1], 32, 0, 1);
    assert!(NibbleModel::new(context_for(&first, 32, 0, 1).unwrap(), odd).is_none());
    // a spare context for a high nibble that never occurs does no harm
    let mut spare = build_second(32);
    assert!(spare[0].is_none());
    spare[0] = context_for(&[1; 16], 32, 0, 1);
    assert!(NibbleModel::new(context_for(&first, 32, 0, 1).unwrap(), spare).is_some());
}
