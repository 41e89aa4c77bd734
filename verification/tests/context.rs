use tans::context::{Context, DEFAULT_START, DEFAULT_STEP};
use tans::error::BuildError;
use tans::quantize::Quantization;

#[test]
fn tables_of_a_small_context() {
    let q = Quantization::new(&[6, 2], 4).unwrap();
    assert_eq!(q.probabilities(), &vec![3u32, 1]);
    let context = Context::new(&q, Some(0), Some(1)).unwrap();
    assert_eq!(context.precision(), 4);
    assert_eq!(context.alphabet_size(), 2);
    assert_eq!(context.symbol_precursor_ranges(), &vec![(3u32, 5u32), (1, 1)]);
    // slots: 0 0 0 1
    assert_eq!(
        context.decoding_table(),
        &vec![(0u32, 0u32), (0, 0), (0, 0), (0, 0), (0, 3), (0, 4), (0, 5), (1, 1)]
    );
    let mut encoding = vec![0u32; 16];
    encoding[3 * 2] = 4;
    encoding[4 * 2] = 5;
    encoding[5 * 2] = 6;
    encoding[1 * 2 + 1] = 7;
    assert_eq!(context.encoding_table(), &encoding);
}

#[test]
fn tables_follow_the_spread() {
    let q = Quantization::new(&[1, 1], 4).unwrap();
    assert_eq!(q.probabilities(), &vec![2u32, 2]);
    let context = Context::new(&q, Some(3), Some(0)).unwrap();
    // slots: 0 1 1 0
    assert_eq!(
        context.decoding_table(),
        &vec![(0u32, 0u32), (0, 0), (0, 0), (0, 0), (0, 2), (1, 2), (1, 3), (0, 3)]
    );
    let mut encoding = vec![0u32; 16];
    encoding[2 * 2] = 4;
    encoding[3 * 2] = 7;
    encoding[2 * 2 + 1] = 5;
    encoding[3 * 2 + 1] = 6;
    assert_eq!(context.encoding_table(), &encoding);
}

#[test]
fn tables_invert_each_other() {
    let mut q = Quantization::new(&[9, 0, 30, 4, 1], 32).unwrap();
    while q.excess() > 0 {
        q.reduce(&[3, 0, 1, 2, 0]);
    }
    let context = Context::new(&q, Some(5), Some(11)).unwrap();
    let alphabet = context.alphabet_size();
    let encoding = context.encoding_table();
    let decoding = context.decoding_table();
    let ranges = context.symbol_precursor_ranges();
    assert_eq!(encoding.len(), 64 * alphabet);
    assert_eq!(decoding.len(), 64);
    assert_eq!(ranges.iter().map(|r| r.0).sum::<u32>(), 32);
    for state in 32..64usize {
        let (symbol, from) = decoding[state];
        assert!(ranges[symbol as usize].0 <= from && from <= ranges[symbol as usize].1);
        assert_eq!(encoding[from as usize * alphabet + symbol as usize], state as u32);
    }
    let used = encoding.iter().filter(|e| **e != 0).count();
    assert_eq!(used, 32);
}

#[test]
fn missing_parameters_take_the_defaults() {
    assert_eq!(DEFAULT_START, 0);
    assert_eq!(DEFAULT_STEP, 49);
    let q = Quantization::new(&[3, 5, 8], 16).unwrap();
    let by_default = Context::new(&q, None, None).unwrap();
    let spelled_out = Context::new(&q, Some(0), Some(49)).unwrap();
    assert_eq!(by_default.decoding_table(), spelled_out.decoding_table());
    assert_eq!(by_default.encoding_table(), spelled_out.encoding_table());
}

#[test]
fn excess_probability_is_refused() {
    let q = Quantization::new(&[16, 5], 16).unwrap();
    assert_eq!(q.excess(), 1);
    assert_eq!(Context::new(&q, None, None).err(), Some(BuildError::ExcessProbability));
    // reported before a start that is out of range
    assert_eq!(Context::new(&q, Some(16), None).err(), Some(BuildError::ExcessProbability));
}

#[test]
fn start_beyond_the_slots_is_refused() {
    let q = Quantization::new(&[6, 2], 4).unwrap();
    assert_eq!(Context::new(&q, Some(4), Some(1)).err(), Some(BuildError::StartOutOfRange));
    assert_eq!(Context::new(&q, Some(u32::MAX), None).err(), Some(BuildError::StartOutOfRange));
    assert!(Context::new(&q, Some(3), Some(u32::MAX)).is_ok());
}

#[test]
fn symbols_without_frequency_cannot_be_encoded() {
    let q = Quantization::new(&[6, 0, 2], 4).unwrap();
    let context = Context::new(&q, None, None).unwrap();
    assert!(context.is_encodable(0));
    assert!(!context.is_encodable(1));
    assert!(context.is_encodable(2));
    assert!(!context.is_encodable(3));
    assert_eq!(context.symbol_precursor_ranges(), &vec![(3u32, 5u32), (0, 0), (1, 1)]);
}

#[test]
fn probabilities_sum_to_the_precision() {
    for precision in [4u32, 8, 16, 64, 256] {
        let mut q = Quantization::new(&[7, 1, 13, 2], precision).unwrap();
        while q.excess() > 0 {
            q.reduce(&[4, 3, 2, 1]);
        }
        let context = Context::new(&q, None, None).unwrap();
        let sum: u32 = context.symbol_precursor_ranges().iter().map(|r| r.0).sum();
        assert_eq!(sum, precision);
        for range in context.symbol_precursor_ranges() {
            assert!(range.0 >= 1);
            assert_eq!(range.1, 2 * range.0 - 1);
        }
    }
}
