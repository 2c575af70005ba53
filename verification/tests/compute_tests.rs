use query_relay::compute::add_words;
use query_relay::compute::fibonacci;
use query_relay::compute::one_word;

fn word(v: u64) -> Vec<u8> {
    let mut w = vec![0u8; 32];
    w[24..32].copy_from_slice(&v.to_be_bytes());
    w
}

#[test]
fn one_word_is_one() {
    assert_eq!(one_word(), word(1));
}

#[test]
fn add_words_small_values() {
    assert_eq!(add_words(&word(2), &word(3)), word(5));
    assert_eq!(add_words(&word(0), &word(0)), word(0));
}

#[test]
fn add_words_carries_across_bytes() {
    assert_eq!(add_words(&word(255), &word(1)), word(256));
    assert_eq!(add_words(&word(0xffff_ffff), &word(1)), word(0x1_0000_0000));
}

#[test]
fn add_words_carries_across_limbs() {
    let mut a = vec![0u8; 32];
    for i in 8..32 {
        a[i] = 0xff;
    }
    let mut expected = vec![0u8; 32];
    expected[7] = 1;
    assert_eq!(add_words(&a, &word(1)), expected);
}

#[test]
fn fibonacci_small_values() {
    assert_eq!(fibonacci(0), word(1));
    assert_eq!(fibonacci(1), word(1));
    assert_eq!(fibonacci(2), word(2));
    assert_eq!(fibonacci(10), word(89));
}

#[test]
fn fibonacci_large_value() {
    // the ninety-third value is the largest that fits in sixty-four bits
    assert_eq!(fibonacci(92), word(12200160415121876738));
}
