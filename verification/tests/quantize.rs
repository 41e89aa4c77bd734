use tans::error::BuildError;
use tans::power::check_power_of_two;
use tans::quantize::Quantization;

#[test]
fn powers_of_two_are_recognised() {
    assert!(check_power_of_two(1));
    assert!(check_power_of_two(2));
    assert!(check_power_of_two(128));
    assert!(check_power_of_two(0x8000_0000));
    assert!(!check_power_of_two(0));
    assert!(!check_power_of_two(3));
    assert!(!check_power_of_two(12));
    assert!(!check_power_of_two(u32::MAX));
}

#[test]
fn shares_are_rounded_up() {
    let q = Quantization::new(&[16, 5], 16).unwrap();
    assert_eq!(q.probabilities(), &vec![13u32, 4]);
    assert_eq!(q.frequencies(), &vec![16u32, 5]);
    assert_eq!(q.precision(), 16);
    assert_eq!(q.excess(), 1);

    let q = Quantization::new(&[1, 1, 1], 4).unwrap();
    assert_eq!(q.probabilities(), &vec![2u32, 2, 2]);
    assert_eq!(q.excess(), 2);
}

#[test]
fn exact_shares_leave_no_excess() {
    let q = Quantization::new(&[6, 0, 2], 4).unwrap();
    assert_eq!(q.probabilities(), &vec![3u32, 0, 1]);
    assert_eq!(q.excess(), 0);
}

#[test]
fn rare_symbols_keep_one_unit() {
    let q = Quantization::new(&[1_000_000, 1, 0, 1], 8).unwrap();
    assert_eq!(q.probabilities(), &vec![8u32, 1, 0, 1]);
    assert_eq!(q.excess(), 2);
}

#[test]
fn largest_frequencies_do_not_overflow() {
    let q = Quantization::new(&[u32::MAX, u32::MAX], 2).unwrap();
    assert_eq!(q.probabilities(), &vec![1u32, 1]);
    assert_eq!(q.excess(), 0);
    let q = Quantization::new(&[u32::MAX, 1], 0x4000).unwrap();
    assert_eq!(q.probabilities(), &vec![0x4000u32, 1]);
}

#[test]
fn precision_must_be_a_power_of_two() {
    assert_eq!(Quantization::new(&[1, 1], 0).err(), Some(BuildError::PrecisionNotPowerOfTwo));
    assert_eq!(Quantization::new(&[1, 1], 12).err(), Some(BuildError::PrecisionNotPowerOfTwo));
    // reported before any other fault
    assert_eq!(Quantization::new(&[0, 0, 0, 0], 3).err(), Some(BuildError::PrecisionNotPowerOfTwo));
}

#[test]
fn precision_must_cover_the_alphabet() {
    assert_eq!(Quantization::new(&[1, 1, 1], 2).err(), Some(BuildError::PrecisionBelowAlphabet));
    assert_eq!(Quantization::new(&[0, 0], 1).err(), Some(BuildError::PrecisionBelowAlphabet));
    assert!(Quantization::new(&[1, 1], 2).is_ok());
}

#[test]
fn tables_must_fit() {
    assert_eq!(Quantization::new(&[1], 0x8000_0000).err(), Some(BuildError::TablesTooLarge));
    assert_eq!(Quantization::new(&[1, 1], 0x4000_0000).err(), Some(BuildError::TablesTooLarge));
    assert!(Quantization::new(&[1], 0x4000_0000).is_ok());
}

#[test]
fn frequencies_must_not_sum_to_zero() {
    assert_eq!(Quantization::new(&[0, 0], 4).err(), Some(BuildError::ZeroTotal));
    assert_eq!(Quantization::new(&[], 4).err(), Some(BuildError::ZeroTotal));
}

#[test]
fn reduce_takes_from_the_least_cost() {
    let mut q = Quantization::new(&[1, 1, 1], 4).unwrap();
    assert_eq!(q.reduce(&[5, 3, 4]), 1);
    assert_eq!(q.probabilities(), &vec![2u32, 1, 2]);
    assert_eq!(q.excess(), 1);
    // symbol 1 is down to one unit: its cost no longer counts
    assert_eq!(q.reduce(&[5, 0, 4]), 2);
    assert_eq!(q.probabilities(), &vec![2u32, 1, 1]);
    assert_eq!(q.excess(), 0);
    assert_eq!(q.frequencies(), &vec![1u32, 1, 1]);
}

#[test]
fn reduce_breaks_ties_by_symbol_order() {
    let mut q = Quantization::new(&[1, 1, 1], 4).unwrap();
    assert_eq!(q.reduce(&[7, 7, 7]), 0);
    assert_eq!(q.reduce(&[9, 7, 7]), 1);
    assert_eq!(q.probabilities(), &vec![1u32, 1, 2]);
}

#[test]
fn reduce_never_empties_a_symbol() {
    let mut q = Quantization::new(&[1_000_000, 1, 0, 1], 8).unwrap();
    while q.excess() > 0 {
        q.reduce(&[u64::MAX, 0, 0, 0]);
    }
    assert_eq!(q.probabilities(), &vec![6u32, 1, 0, 1]);
    assert_eq!(q.probabilities().iter().sum::<u32>(), 8);
}
