use engine_core::ngram_draft::NgramDraftProposer;

#[test]
fn test_ngram_proposer_exact_phrase_match() {
    let proposer = NgramDraftProposer::new(3, 4, 2);

    // Sequence where "10, 20, 30" was previously followed by "40, 50, 60"
    let history = vec![1, 2, 10, 20, 30, 40, 50, 60, 99, 100, 10, 20, 30];

    let draft = proposer.propose(&history);
    assert_eq!(draft, vec![40, 50, 60]);
}

#[test]
fn test_ngram_proposer_recency_preference() {
    let proposer = NgramDraftProposer::new(2, 3, 2);

    // "10, 20" occurred twice:
    // First time followed by 30, 40
    // Second time followed by 80, 90
    let history = vec![1, 10, 20, 30, 40, 2, 10, 20, 80, 90, 3, 10, 20];

    let draft = proposer.propose(&history);
    // Most recent match is 80, 90
    assert_eq!(draft, vec![80, 90]);
}

#[test]
fn test_ngram_proposer_no_match() {
    let proposer = NgramDraftProposer::new(3, 4, 2);
    let history = vec![1, 2, 3, 4, 5, 6, 7];

    let draft = proposer.propose(&history);
    assert!(draft.is_empty(), "No recurring suffix should propose nothing");
}

#[test]
fn test_ngram_proposer_short_history() {
    let proposer = NgramDraftProposer::new(3, 4, 2);
    let history = vec![1];

    let draft = proposer.propose(&history);
    assert!(draft.is_empty(), "Single token history should propose nothing");
}

#[test]
fn ngram_longer_match_wins_and_draft_is_capped() {
    // The 3-gram [7, 8, 9] recurs once; the 2-gram [8, 9] recurs more recently.
    let proposer = NgramDraftProposer::new(2, 3, 2);
    let history = vec![7, 8, 9, 1, 2, 3, 8, 9, 5, 6, 7, 8, 9];
    assert_eq!(proposer.propose(&history), vec![1, 2]);
    let proposer = NgramDraftProposer::new(5, 3, 2);
    assert_eq!(proposer.propose(&history), vec![1, 2, 3, 8, 9]);
}

#[test]
fn ngram_default_settings() {
    let p = NgramDraftProposer::default();
    assert_eq!((p.max_draft_k, p.max_ngram_size, p.min_ngram_size), (3, 4, 2));
    let history = vec![4, 5, 6, 4, 5];
    assert_eq!(p.propose(&history), vec![6, 4, 5]);
}
