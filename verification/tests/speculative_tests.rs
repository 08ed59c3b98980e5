use engine_core::speculative::SpeculativeVerifier;

#[test]
fn greedy_accepts_all_and_adds_bonus() {
    let r = SpeculativeVerifier::verify_greedy_tokens(&[5, 6, 7], &[5, 6, 7, 8]);
    assert_eq!(r.emitted_tokens, vec![5, 6, 7, 8]);
    assert_eq!(r.n_accepted, 3);
    assert_eq!(r.bonus_token, 8);
    assert_eq!(r.total_emitted, 4);
}

#[test]
fn greedy_stops_at_first_mismatch() {
    let r = SpeculativeVerifier::verify_greedy_tokens(&[5, 9, 7], &[5, 6, 7, 8]);
    assert_eq!(r.emitted_tokens, vec![5, 6]);
    assert_eq!(r.n_accepted, 1);
    assert_eq!(r.bonus_token, 6);
    assert_eq!(r.total_emitted, 2);
    let r = SpeculativeVerifier::verify_greedy_tokens(&[1], &[2, 3]);
    assert_eq!(r.emitted_tokens, vec![2]);
    assert_eq!(r.n_accepted, 0);
}

#[test]
fn greedy_without_candidates() {
    let r = SpeculativeVerifier::verify_greedy_tokens(&[], &[42]);
    assert_eq!(r.emitted_tokens, vec![42]);
    assert_eq!(r.n_accepted, 0);
    assert_eq!(r.total_emitted, 1);
}
