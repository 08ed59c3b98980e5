use engine_core::tokenizer::{build_byte_to_char_table, build_gpt2_byte_map, pre_split, BpeTokenizer};
use engine_core::EngineError;

fn strings(v: &[&str]) -> Vec<String> {
    v.iter().map(|s| s.to_string()).collect()
}

fn sample_tokenizer() -> BpeTokenizer {
    let tokens = strings(&[
        "H", "e", "l", "o", "Ġ", "w", "r", "d", "He", "ll", "llo", "Hello", "Ġw", "x", "y", "a", "aa",
        "ÿ", "€", "!", "Ċ",
    ]);
    let merges = strings(&["H e", "l l", "ll o", "He llo", "Ġ w", "x y", "a a"]);
    BpeTokenizer::new(tokens, merges, false, 7)
}

fn id(t: &BpeTokenizer, s: &str) -> u32 {
    // Token ids used below, looked up by position in the sample vocabulary.
    let all = [
        "H", "e", "l", "o", "Ġ", "w", "r", "d", "He", "ll", "llo", "Hello", "Ġw", "x", "y", "a", "aa",
        "ÿ", "€", "!", "Ċ",
    ];
    assert_eq!(t.vocab_size(), all.len());
    all.iter().position(|x| *x == s).unwrap() as u32
}

#[test]
fn pre_split_words() {
    assert_eq!(pre_split("Hello world").unwrap(), strings(&["Hello", " world"]));
    assert_eq!(
        pre_split("I'm 42!!\n\nok").unwrap(),
        strings(&["I", "'m", " ", "4", "2", "!!\n\n", "ok"])
    );
    assert_eq!(pre_split("a  ").unwrap(), strings(&["a", "  "]));
    assert_eq!(pre_split("a  b").unwrap(), strings(&["a", " ", " b"]));
    assert_eq!(pre_split("they'RE").unwrap(), strings(&["they", "'RE"]));
    assert_eq!(pre_split("x\n\n  y").unwrap(), strings(&["x", "\n\n", " ", " y"]));
    assert_eq!(pre_split("").unwrap(), Vec::<String>::new());
}

#[test]
fn pre_split_space_runs_leave_last_space_to_next_word() {
    assert_eq!(pre_split("a   b").unwrap(), strings(&["a", "  ", " b"]));
    assert_eq!(pre_split("a \t 5").unwrap(), strings(&["a", " \t", " ", "5"]));
    assert_eq!(pre_split("x\n\n  ").unwrap(), strings(&["x", "\n\n", "  "]));
}

#[test]
fn pre_split_first_matching_alternative_wins() {
    // The contraction comes before the letters that follow it.
    assert_eq!(pre_split("'sabc").unwrap(), strings(&["'s", "abc"]));
    assert_eq!(pre_split("!abc!!").unwrap(), strings(&["!abc", "!!"]));
}

#[test]
fn pre_split_words_cover_text() {
    for text in ["Hello world", "I'm 42!!\n\nok", "  a\tb\r\n c's", "(x)=[1,2];"] {
        let words = pre_split(text).unwrap();
        assert!(words.iter().all(|w| !w.is_empty()));
        assert_eq!(words.concat(), text);
    }
}

#[test]
fn pre_split_rejects_non_ascii() {
    assert_eq!(pre_split("ab©d"), Err(2));
    assert_eq!(pre_split("é"), Err(0));
}

#[test]
fn gpt2_byte_tables() {
    let map = build_gpt2_byte_map();
    assert_eq!(map.len(), 256);
    assert_eq!(map[&0x120], 0x20);
    assert_eq!(map[&(b'!' as u32)], b'!');
    assert_eq!(map[&0x143], 0xAD);
    assert_eq!(map[&0x121], 0x7F);
    assert!(map.get(&0xAD).is_none());
    let table = build_byte_to_char_table();
    assert_eq!(table[0x20], 'Ġ');
    assert_eq!(table[0x0A], 'Ċ');
    assert_eq!(table[0xAD], '\u{143}');
    assert_eq!(table[0x7F], '\u{121}');
    assert_eq!(table[b'A' as usize], 'A');
    for b in 0..=255u8 {
        assert_eq!(map[&(table[b as usize] as u32)], b);
    }
}

#[test]
fn encode_merges_by_rank() {
    let t = sample_tokenizer();
    let ids = t.encode("Hello world").unwrap();
    assert_eq!(
        ids,
        vec![id(&t, "Hello"), id(&t, "Ġw"), id(&t, "o"), id(&t, "r"), id(&t, "l"), id(&t, "d")]
    );
    assert!(!t.add_bos);
    assert_eq!(t.eos_token_id, 7);
}

#[test]
fn encode_leftmost_pair_first_and_byte_fallback() {
    let t = sample_tokenizer();
    // "a a" applies to both pairs; the leftmost is merged first.
    assert_eq!(t.encode("aaa").unwrap(), vec![id(&t, "aa"), id(&t, "a")]);
    // "xy" is merged but is not a token: its bytes fall back to single pieces.
    assert_eq!(t.encode("xy").unwrap(), vec![id(&t, "x"), id(&t, "y")]);
}

#[test]
fn encode_rejects_non_ascii() {
    let t = sample_tokenizer();
    match t.encode("He€") {
        Err(EngineError::NonAsciiInput(i)) => assert_eq!(i, 2),
        other => panic!("unexpected {:?}", other),
    }
}

#[test]
fn decode_gives_back_encoded_text() {
    let t = sample_tokenizer();
    let ids = t.encode("Hello world").unwrap();
    assert_eq!(t.decode(&ids).unwrap(), "Hello world");
    let ids = t.encode("Hello\n").unwrap();
    assert_eq!(t.decode(&ids).unwrap(), "Hello\n");
}

#[test]
fn decode_maps_alphabet_and_keeps_other_characters() {
    let t = sample_tokenizer();
    assert_eq!(t.decode(&[id(&t, "Ġ"), id(&t, "€"), id(&t, "!")]).unwrap(), " €!");
    assert_eq!(t.decode(&[]).unwrap(), "");
}

#[test]
fn decode_errors() {
    let t = sample_tokenizer();
    match t.decode(&[id(&t, "H"), 999, 1000]) {
        Err(EngineError::UnknownToken(x)) => assert_eq!(x, 999),
        other => panic!("unexpected {:?}", other),
    }
    // U+00FF stands for byte 0xFF, which is not UTF-8 on its own.
    assert!(matches!(t.decode(&[id(&t, "ÿ")]), Err(EngineError::InvalidUtf8)));
}

#[test]
fn bpe_word_directly() {
    let t = sample_tokenizer();
    let table = build_byte_to_char_table();
    assert_eq!(t.bpe_tokenize_word("Hello", &table), vec![id(&t, "Hello")]);
    assert_eq!(t.bpe_tokenize_word("", &table), Vec::<u32>::new());
    // A byte whose piece is missing from the vocabulary is dropped.
    assert_eq!(t.bpe_tokenize_word("Hz", &table), vec![id(&t, "H")]);
}

#[test]
fn decode_after_encode_with_only_the_text_bytes_as_tokens() {
    // Every byte of the text has its own token; the merge "a b" yields "ab",
    // which is no token but printable ASCII, so it falls back to "a" and "b".
    let tokens = strings(&["a", "b", "Ġ"]);
    let merges = strings(&["a b"]);
    let t = BpeTokenizer::new(tokens, merges, false, 0);
    for text in ["ab ab", "ba", " a b", ""] {
        let ids = t.encode(text).unwrap();
        assert_eq!(t.decode(&ids).unwrap(), text);
    }
    assert_eq!(t.encode("ab").unwrap(), vec![0, 1]);
}
