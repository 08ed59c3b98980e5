use engine_core::sampler::{Sampler, XorShift64};

#[test]
fn test_stop_sequence_detection() {
    let stop_tokens = vec![151645, 151643]; // <|im_end|>, <|endoftext|>
    let stop_strings = vec!["<|im_end|>".to_string(), "Human:".to_string()];

    assert!(Sampler::is_stop_sequence(151645, "", &stop_tokens, &stop_strings));
    assert!(Sampler::is_stop_sequence(100, "<|im_end|>", &stop_tokens, &stop_strings));
    assert!(Sampler::is_stop_sequence(100, "Hello Human: how are you", &stop_tokens, &stop_strings));
    assert!(!Sampler::is_stop_sequence(100, "Hello world", &stop_tokens, &stop_strings));
}

#[test]
fn empty_stop_strings_never_match() {
    let stop_strings = vec![String::new()];
    assert!(!Sampler::is_stop_sequence(1, "anything", &[], &stop_strings));
    assert!(!Sampler::is_stop_sequence(1, "", &[], &stop_strings));
}

#[test]
fn xorshift_first_value_and_reproducibility() {
    // One xorshift64 step of state 1: x ^= x << 13; x ^= x >> 7; x ^= x << 17.
    let mut rng = XorShift64::new(1);
    let mut x: u64 = 1;
    x ^= x << 13;
    x ^= x >> 7;
    x ^= x << 17;
    assert_eq!(rng.next_u64(), x);
    assert_eq!(x, 1082269761);

    let mut a = XorShift64::new(12345);
    let mut b = XorShift64::new(12345);
    for _ in 0..100 {
        let va = a.next_u64();
        assert_eq!(va, b.next_u64());
        assert_ne!(va, 0);
    }
}

#[test]
fn zero_seed_is_replaced() {
    let mut zero = XorShift64::new(0);
    let mut replaced = XorShift64::new(0x853c49e6748fea9b);
    assert_eq!(zero.next_u64(), replaced.next_u64());
}

#[test]
fn sampler_seed_resets_the_stream() {
    let mut s = Sampler::new(7);
    let first = s.next_u64();
    s.next_u64();
    s.set_seed(7);
    assert_eq!(s.next_u64(), first);
}
