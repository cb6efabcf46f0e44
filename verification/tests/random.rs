use command_recommender::random::{
    compute_relevant_bits, compute_timestamp, RandomNumberGenerator,
};

#[test]
fn bit_conversion() {
    let value: u64 = 0b1011111010001001110010110111111111100000000001110110111110001101;
    let bits = compute_relevant_bits(value);
    assert_eq!(bits, 0b1001011011111111110000000000111);
}

#[test]
fn generator_follows_the_recurrence() {
    let mut generator = RandomNumberGenerator::new(0);
    // (0x5DEECE66D * 0 + 11) mod 2^48 = 11, whose bits above the lowest 16 are 0.
    assert_eq!(generator.next(), 0);
    // (0x5DEECE66D * 11 + 11) mod 2^48 = 277363943098; shifted right by 16: 4232237.
    assert_eq!(generator.next(), 4232237);
}

#[test]
fn generator_stays_in_range() {
    let mut generator = RandomNumberGenerator::new(42);
    for _ in 0..1000 {
        let value = generator.next_in_range(3, 10);
        assert!(3 <= value && value < 10);
    }
}

#[test]
fn equal_seeds_give_equal_numbers() {
    let mut first = RandomNumberGenerator::new(2024);
    let mut second = RandomNumberGenerator::new(2024);
    for _ in 0..50 {
        assert_eq!(first.next_in_range(0, 1000), second.next_in_range(0, 1000));
    }
}

#[test]
fn time_stamps_are_decimal_numerals() {
    assert_eq!(compute_timestamp(0), "0");
    assert_eq!(compute_timestamp(1761685200), "1761685200");
    assert_eq!(compute_timestamp(u64::MAX), "18446744073709551615");
}
