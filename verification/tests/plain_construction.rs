use tans::coder::{decode, encode};
use tans::context::Context;
use tans::quantize::Quantization;

/// The tables written out in the plainest way, with floats throughout, to
/// hold the library's tables against: probabilities, precursor ranges, encode
/// table and decode table.
fn plain_tables(
    frequencies: &[u32],
    precision: u32,
    start: u32,
    step: u32,
) -> (Vec<u32>, Vec<(u32, u32)>, Vec<u32>, Vec<(u32, u32)>) {
    let alphabet = frequencies.len() as u32;
    let total: u64 = frequencies.iter().map(|f| *f as u64).sum();
    let shares: Vec<f64> = frequencies.iter().map(|f| (*f as f64) / (total as f64)).collect();
    let mut scaled: Vec<u32> =
        shares.iter().map(|p| (*p * (precision as f64)).ceil() as u32).collect();
    while scaled.iter().sum::<u32>() > precision {
        let mut best: Option<(usize, f64)> = None;
        for (index, x) in scaled.iter().enumerate() {
            if *x > 1 {
                let error = ((*x as f64) / ((*x - 1) as f64)).log2() * shares[index];
                let better = match best {
                    Some((_, least)) => error < least,
                    None => true,
                };
                if better {
                    best = Some((index, error));
                }
            }
        }
        scaled[best.unwrap().0] -= 1;
    }
    let ranges: Vec<(u32, u32)> =
        scaled.iter().map(|p| if *p == 0 { (0, 0) } else { (*p, *p * 2 - 1) }).collect();
    let mut slots = vec![alphabet; precision as usize];
    let mut cursor = start as u64;
    for (symbol, p) in scaled.iter().enumerate() {
        for _ in 0..*p {
            let mut target = cursor;
            while slots[target as usize] != alphabet {
                target = (target + 1) % (precision as u64);
            }
            slots[target as usize] = symbol as u32;
            cursor = (cursor + step as u64) % (precision as u64);
        }
    }
    let mut encoding = vec![0u32; (2 * precision * alphabet) as usize];
    let mut decoding = vec![(0u32, 0u32); (2 * precision) as usize];
    let mut next: Vec<u32> = scaled.clone();
    for to_state in precision..2 * precision {
        let symbol = slots[(to_state - precision) as usize];
        let from_state = next[symbol as usize];
        next[symbol as usize] += 1;
        encoding[(from_state * alphabet + symbol) as usize] = to_state;
        decoding[to_state as usize] = (symbol, from_state);
    }
    (scaled, ranges, encoding, decoding)
}

fn float_costs(quantization: &Quantization) -> Vec<u64> {
    let frequencies = quantization.frequencies();
    let total: u64 = frequencies.iter().map(|f| *f as u64).sum();
    quantization
        .probabilities()
        .iter()
        .zip(frequencies.iter())
        .map(|(p, f)| {
            if *p <= 1 {
                0
            } else {
                let share = (*f as f64) / (total as f64);
                (((*p as f64) / ((*p - 1) as f64)).log2() * share).to_bits()
            }
        })
        .collect()
}

fn library_context(frequencies: &[u32], precision: u32, start: u32, step: u32) -> Context {
    let mut quantization = Quantization::new(frequencies, precision).unwrap();
    while quantization.excess() > 0 {
        let c = float_costs(&quantization);
        quantization.reduce(&c);
    }
    Context::new(&quantization, Some(start), Some(step)).unwrap()
}

struct Random(u64);

impl Random {
    fn next(&mut self) -> u32 {
        self.0 = self.0.wrapping_mul(6364136223846793005).wrapping_add(1442695040888963407);
        (self.0 >> 33) as u32
    }
}

fn compare(frequencies: &[u32], precision: u32, start: u32, step: u32) {
    let (scaled, ranges, encoding, decoding) = plain_tables(frequencies, precision, start, step);
    let context = library_context(frequencies, precision, start, step);
    let probabilities: Vec<u32> = context.symbol_precursor_ranges().iter().map(|r| r.0).collect();
    assert_eq!(probabilities, scaled);
    assert_eq!(context.symbol_precursor_ranges(), &ranges);
    assert_eq!(context.encoding_table(), &encoding);
    assert_eq!(context.decoding_table(), &decoding);
}

#[test]
fn tables_agree_with_the_plain_construction() {
    let mut random = Random(7);
    for _ in 0..40 {
        let frequencies: Vec<u32> = (0..16).map(|_| 1 + random.next() % 1000).collect();
        let start = random.next() % 128;
        let step = random.next() % 128;
        compare(&frequencies, 128, start, step);
    }
}

#[test]
fn sparse_tables_agree_with_the_plain_construction() {
    let mut random = Random(11);
    for _ in 0..40 {
        let mut frequencies: Vec<u32> =
            (0..16).map(|_| if random.next() % 3 == 0 { 0 } else { random.next() % 50 }).collect();
        frequencies[(random.next() % 16) as usize] = 1 + random.next() % 100_000;
        let start = random.next() % 64;
        let step = random.next() % 64;
        compare(&frequencies, 64, start, step);
    }
}

#[test]
fn skewed_tables_agree_with_the_plain_construction() {
    compare(&[16, 5], 16, 0, 49);
    compare(&[1, 1_000_000], 2, 1, 1);
    compare(&[1, 1, 1, 1, 1, 1, 1, 1_000_000_000], 8, 3, 5);
    compare(&[3, 3, 3, 3, 3], 8, 7, 3);
    compare(&[100, 1, 1, 1], 256, 255, 254);
}

#[test]
fn random_symbols_round_trip() {
    let mut random = Random(3);
    for round in 0..20 {
        let alphabet = 2 + (random.next() % 30) as usize;
        let precision = 32u32 << (round % 4);
        let symbols: Vec<u32> = (0..500)
            .map(|_| {
                let a = random.next() % alphabet as u32;
                let b = random.next() % alphabet as u32;
                a.min(b)
            })
            .collect();
        let mut frequencies = vec![0u32; alphabet];
        for symbol in symbols.iter() {
            frequencies[*symbol as usize] += 1;
        }
        let context =
            library_context(&frequencies, precision, random.next() % precision, random.next());
        let mut bits = Vec::new();
        let mut state = context.precision();
        for symbol in symbols.iter().rev() {
            state = encode(*symbol, state, &context, &mut bits);
        }
        let mut output = Vec::new();
        for _ in 0..symbols.len() {
            let (symbol, next) = decode(state, &context, &mut bits).unwrap();
            output.push(symbol);
            state = next;
        }
        assert_eq!(output, symbols);
        assert_eq!(state, precision);
        assert!(bits.is_empty());
    }
}
