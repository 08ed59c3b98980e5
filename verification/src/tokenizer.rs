//! Byte-level BPE tokenizer of the Qwen2/Qwen3 family (`gpt2` vocabulary,
//! `qwen2` pre-tokenizer).
//!
//! Two layers:
//!   1. Pre-tokenization splits ASCII input into words by the Qwen2 pattern
//!      `'s|'t|'re|'ve|'m|'ll|'d` (any case) `|[^\r\n\p{L}\p{N}]?\p{L}+|\p{N}|
//!       ?[^\s\p{L}\p{N}]+[\r\n]*|\s*[\r\n]+|\s+(?!\S)|\s+`: at each position
//!      the first alternative that matches decides, as in ECMAScript regular
//!      expressions.
//!      Non-ASCII input is rejected with the index of its first non-ASCII
//!      character.
//!   2. Each word is mapped byte by byte onto the GPT-2 byte alphabet and its
//!      symbols are merged greedily: the adjacent pair whose merge rule has the
//!      lowest rank is merged first (ties: the pair spanning more emptied
//!      positions, then the leftmost one). Token ids are looked up by text; a
//!      symbol outside the vocabulary falls back to the byte pieces of its text.

use vstd::prelude::*;
use std::collections::HashMap;
use crate::error::EngineError;
use crate::text::{chars_of, push_char};
use vstd::string::StringSliceAdditionalSpecFns;

verus! {

broadcast use vstd::std_specs::hash::group_hash_axioms;

// ---------------------------------------------------------------------------
// The GPT-2 byte alphabet
// ---------------------------------------------------------------------------

/// Bytes that the GPT-2 alphabet keeps as their own code point: `!..=~`,
/// `¡..=¬` and `®..=ÿ`.
pub open spec fn is_printable_byte(b: u8) -> bool {
    (0x21 <= b <= 0x7E) || (0xA1 <= b <= 0xAC) || 0xAE <= b
}

/// The code point that stands for byte `b`: printable bytes stand for
/// themselves, the other 68 bytes, in increasing order, for `256..324`.
pub open spec fn gpt2_code(b: u8) -> u32 {
    if is_printable_byte(b) {
        b as u32
    } else if b <= 0x20 {
        (256 + b) as u32
    } else if b <= 0xA0 {
        (256 + 33 + (b - 0x7F)) as u32
    } else {
        (256 + 67) as u32
    }
}

/// The code points of the GPT-2 byte alphabet.
pub open spec fn is_gpt2_code(cp: u32) -> bool {
    (cp < 256 && is_printable_byte(cp as u8)) || (256 <= cp < 324)
}

/// The byte that code point `cp` of the alphabet stands for.
pub open spec fn gpt2_byte(cp: u32) -> u8 {
    if cp < 256 {
        cp as u8
    } else if cp < 256 + 33 {
        (cp - 256) as u8
    } else if cp < 256 + 67 {
        (cp - 256 - 33 + 0x7F) as u8
    } else {
        0xAD
    }
}

/// The map from the alphabet's code points back to bytes.
pub open spec fn gpt2_byte_map() -> Map<u32, u8> {
    Map::new(|cp: u32| is_gpt2_code(cp), |cp: u32| gpt2_byte(cp))
}

/// The character that stands for byte `b`.
pub open spec fn byte_char(b: u8) -> char {
    gpt2_code(b) as char
}

/// The table of [`byte_char`] for every byte.
pub open spec fn byte_char_table() -> Seq<char> {
    Seq::new(256, |i: int| byte_char(i as u8))
}

/// Each byte has its own code point, and the code point gives the byte back.
pub proof fn lemma_gpt2_code_roundtrip(b: u8)
    ensures
        is_gpt2_code(gpt2_code(b)),
        gpt2_byte(gpt2_code(b)) == b,
        gpt2_code(b) < 324,
{
}

/// Each code point of the alphabet is the code point of its byte.
pub proof fn lemma_gpt2_byte_roundtrip(cp: u32)
    requires
        is_gpt2_code(cp),
    ensures
        gpt2_code(gpt2_byte(cp)) == cp,
{
}

/// Computes [`gpt2_code`].
fn gpt2_code_of(b: u8) -> (cp: u32)
    ensures
        cp == gpt2_code(b),
{
    if (0x21 <= b && b <= 0x7E) || (0xA1 <= b && b <= 0xAC) || 0xAE <= b {
        b as u32
    } else if b <= 0x20 {
        256 + b as u32
    } else if b <= 0xA0 {
        256 + 33 + (b - 0x7F) as u32
    } else {
        256 + 67
    }
}

/// Calls `char::from_u32`, which gives the character with code point `u` when
/// `u` is a Unicode scalar value (not a surrogate, at most `0x10FFFF`).
#[verifier::external_body]
fn char_from_u32(u: u32) -> (r: Option<char>)
    ensures
        r is Some <==> (u < 0xD800 || (0xE000 <= u && u <= 0x10FFFF)),
        r matches Some(c) ==> c as u32 == u,
{
    char::from_u32(u)
}

/// The character standing for byte `b`.
fn byte_char_of(b: u8) -> (c: char)
    ensures
        c == byte_char(b),
{
    let cp = gpt2_code_of(b);
    match char_from_u32(cp) {
        Some(c) => {
            proof {
                vstd::utf8::char_u32_cast(c, cp);
            }
            c
        },
        None => {
            proof {
                assert(false);
            }
            '\0'
        },
    }
}

/// Builds the GPT-2 byte mapping: code point -> original byte.
pub fn build_gpt2_byte_map() -> (m: HashMap<u32, u8>)
    ensures
        m@ == gpt2_byte_map(),
{
    let mut map: HashMap<u32, u8> = HashMap::with_capacity(256);
    let mut b: u32 = 0;
    while b < 256
        invariant
            b <= 256,
            map@ == Map::new(
                |cp: u32| is_gpt2_code(cp) && (gpt2_byte(cp) as u32) < b,
                |cp: u32| gpt2_byte(cp),
            ),
        decreases 256 - b,
    {
        let byte = b as u8;
        let cp = gpt2_code_of(byte);
        map.insert(cp, byte);
        proof {
            lemma_gpt2_code_roundtrip(byte);
            assert forall|c: u32|
                (is_gpt2_code(c) && (gpt2_byte(c) as u32) < b + 1) <==> ((is_gpt2_code(c)
                    && (gpt2_byte(c) as u32) < b) || c == cp) by {
                if is_gpt2_code(c) && gpt2_byte(c) as u32 == b {
                    lemma_gpt2_byte_roundtrip(c);
                }
            }
            assert(map@ =~= Map::new(
                |cp: u32| is_gpt2_code(cp) && (gpt2_byte(cp) as u32) < b + 1,
                |cp: u32| gpt2_byte(cp),
            ));
        }
        b = b + 1;
    }
    proof {
        assert(map@ =~= gpt2_byte_map());
    }
    map
}

/// Builds the byte (0..=255) -> character lookup table.
pub fn build_byte_to_char_table() -> (t: [char; 256])
    ensures
        t@ == byte_char_table(),
{
    let mut table = ['\0'; 256];
    let mut b: usize = 0;
    while b < 256
        invariant
            b <= 256,
            table@.len() == 256,
            forall|i: int| 0 <= i < b ==> table@[i] == byte_char(i as u8),
        decreases 256 - b,
    {
        table[b] = byte_char_of(b as u8);
        b = b + 1;
    }
    proof {
        assert(table@ =~= byte_char_table());
    }
    table
}

// ---------------------------------------------------------------------------
// Pre-tokenization
// ---------------------------------------------------------------------------

/// An ASCII letter.
pub open spec fn is_letter(c: char) -> bool {
    ('a' as u32 <= c as u32 <= 'z' as u32) || ('A' as u32 <= c as u32 <= 'Z' as u32)
}

/// An ASCII decimal digit.
pub open spec fn is_number(c: char) -> bool {
    '0' as u32 <= c as u32 <= '9' as u32
}

/// The whitespace of the split rules: space, tab, CR, LF, vertical tab, form feed.
pub open spec fn is_split_space(c: char) -> bool {
    c == ' ' || c == '\t' || c == '\r' || c == '\n' || c as u32 == 0x0B || c as u32 == 0x0C
}

/// A carriage return or a line feed.
pub open spec fn is_line_break(c: char) -> bool {
    c == '\r' || c == '\n'
}

/// Neither whitespace, nor a letter, nor a digit.
pub open spec fn is_symbol(c: char) -> bool {
    !is_split_space(c) && !is_letter(c) && !is_number(c)
}

/// What may stand before a run of letters: neither a line break, nor a letter,
/// nor a digit.
pub open spec fn is_letter_prefix(c: char) -> bool {
    !is_line_break(c) && !is_letter(c) && !is_number(c)
}

/// The character classes whose runs the split rules measure.
#[derive(Clone, Copy, PartialEq, Eq, Debug)]
pub enum CharClass {
    Letter,
    Symbol,
    LineBreak,
    Space,
}

/// Whether `c` belongs to class `cls`.
pub open spec fn in_class(c: char, cls: CharClass) -> bool {
    match cls {
        CharClass::Letter => is_letter(c),
        CharClass::Symbol => is_symbol(c),
        CharClass::LineBreak => is_line_break(c),
        CharClass::Space => is_split_space(c),
    }
}

/// The length of the run of class `cls` that starts at `i`.
pub open spec fn class_run(s: Seq<char>, i: int, cls: CharClass) -> int
    decreases s.len() - i,
{
    if 0 <= i < s.len() && in_class(s[i], cls) {
        1 + class_run(s, i + 1, cls)
    } else {
        0
    }
}

/// The end of the last line break in `s[i..k]`, or `k` itself when `s[k - 1]`
/// is one; `i` when there is none.
pub open spec fn line_break_end(s: Seq<char>, i: int, k: int) -> int
    decreases k - i,
{
    if i < k && !is_line_break(s[k - 1]) {
        line_break_end(s, i, k - 1)
    } else {
        k
    }
}

/// `c` is `lower` or `upper`.
pub open spec fn is_either(c: char, lower: char, upper: char) -> bool {
    c == lower || c == upper
}

/// Alternative 1: the contractions `'s 't 'm 'd 're 've 'll` (any case).
pub open spec fn contraction_len(s: Seq<char>, i: int) -> int {
    if s[i] != '\'' {
        0
    } else if i + 3 <= s.len() && ((is_either(s[i + 1], 'r', 'R') && is_either(s[i + 2], 'e', 'E'))
        || (is_either(s[i + 1], 'v', 'V') && is_either(s[i + 2], 'e', 'E')) || (is_either(
        s[i + 1],
        'l',
        'L',
    ) && is_either(s[i + 2], 'l', 'L'))) {
        3
    } else if i + 2 <= s.len() && (is_either(s[i + 1], 's', 'S') || is_either(s[i + 1], 't', 'T')
        || is_either(s[i + 1], 'm', 'M') || is_either(s[i + 1], 'd', 'D')) {
        2
    } else {
        0
    }
}

/// Alternative 2: an optional character that is no line break, letter or
/// digit, then one or more letters.
pub open spec fn letters_len(s: Seq<char>, i: int) -> int {
    if is_letter_prefix(s[i]) {
        if i + 1 < s.len() && is_letter(s[i + 1]) {
            1 + class_run(s, i + 1, CharClass::Letter)
        } else {
            0
        }
    } else if is_letter(s[i]) {
        class_run(s, i, CharClass::Letter)
    } else {
        0
    }
}

/// Alternative 3: one digit.
pub open spec fn number_len(s: Seq<char>, i: int) -> int {
    if is_number(s[i]) {
        1
    } else {
        0
    }
}

/// Alternative 4: an optional space, one or more symbols, then any line breaks.
pub open spec fn symbol_len(s: Seq<char>, i: int) -> int {
    let j = if s[i] == ' ' {
        i + 1
    } else {
        i
    };
    if j < s.len() && is_symbol(s[j]) {
        let k = j + class_run(s, j, CharClass::Symbol);
        k + class_run(s, k, CharClass::LineBreak) - i
    } else {
        0
    }
}

/// Alternative 5: whitespace up to and including its last line break.
pub open spec fn line_break_len(s: Seq<char>, i: int) -> int {
    line_break_end(s, i, i + class_run(s, i, CharClass::Space)) - i
}

/// Alternative 6: whitespace not followed by a non-whitespace character
/// (`\s+(?!\S)`): a run that reaches the end of the text is taken whole,
/// any other run without its last character (which is then left to lead the
/// next word).
pub open spec fn space_run_len(s: Seq<char>, i: int) -> int {
    let r = class_run(s, i, CharClass::Space);
    if r > 0 && i + r == s.len() {
        r
    } else if r > 1 {
        r - 1
    } else {
        0
    }
}

/// Alternative 7: one whitespace character.
pub open spec fn single_space_len(s: Seq<char>, i: int) -> int {
    if is_split_space(s[i]) {
        1
    } else {
        0
    }
}

/// The length of the word that starts at `i`: the alternatives are tried in
/// order and the first that matches decides (as a regular expression with
/// ordered alternation does); one character where none matches.
pub open spec fn word_len(s: Seq<char>, i: int) -> int {
    if contraction_len(s, i) > 0 {
        contraction_len(s, i)
    } else if letters_len(s, i) > 0 {
        letters_len(s, i)
    } else if number_len(s, i) > 0 {
        number_len(s, i)
    } else if symbol_len(s, i) > 0 {
        symbol_len(s, i)
    } else if line_break_len(s, i) > 0 {
        line_break_len(s, i)
    } else if space_run_len(s, i) > 0 {
        space_run_len(s, i)
    } else if single_space_len(s, i) > 0 {
        single_space_len(s, i)
    } else {
        1
    }
}

/// Runs stay inside the text, and the last line break ends between its bounds.
proof fn lemma_runs_bounded(s: Seq<char>, i: int, cls: CharClass)
    requires
        0 <= i <= s.len(),
    ensures
        0 <= class_run(s, i, cls) <= s.len() - i,
    decreases s.len() - i,
{
    if i < s.len() {
        lemma_runs_bounded(s, i + 1, cls);
    }
}

/// `line_break_end(s, i, k)` lies in `[i, k]`.
proof fn lemma_line_break_end_bounded(s: Seq<char>, i: int, k: int)
    requires
        i <= k,
    ensures
        i <= line_break_end(s, i, k) <= k,
    decreases k - i,
{
    if i < k && !is_line_break(s[k - 1]) {
        lemma_line_break_end_bounded(s, i, k - 1);
    }
}

/// A word is at least one character long and ends inside the text.
pub proof fn lemma_word_len_bounded(s: Seq<char>, i: int)
    requires
        0 <= i < s.len(),
    ensures
        1 <= word_len(s, i) <= s.len() - i,
{
    lemma_runs_bounded(s, i, CharClass::Letter);
    lemma_runs_bounded(s, i, CharClass::Space);
    lemma_runs_bounded(s, i + 1, CharClass::Letter);
    lemma_line_break_end_bounded(s, i, i + class_run(s, i, CharClass::Space));
    let j = if s[i] == ' ' {
        i + 1
    } else {
        i
    };
    if j < s.len() {
        lemma_runs_bounded(s, j, CharClass::Symbol);
        let k = j + class_run(s, j, CharClass::Symbol);
        lemma_runs_bounded(s, k, CharClass::LineBreak);
    }
}

/// A space followed by a symbol (neither whitespace, letter nor digit) starts
/// a word made of the space, the whole run of symbols after it, and the line
/// breaks that follow that run: after the space the word holds only symbols
/// and line breaks, symbols first; it is not followed by a line break, nor by
/// a symbol unless it ends with a line break.
pub proof fn lemma_space_joins_symbol_run(s: Seq<char>, i: int)
    requires
        0 <= i,
        i + 1 < s.len(),
        s[i] == ' ',
        is_symbol(s[i + 1]),
    ensures
        i + 2 <= i + word_len(s, i) <= s.len(),
        forall|k: int|
            i < k < i + word_len(s, i) ==> is_symbol(#[trigger] s[k]) || is_line_break(s[k]),
        forall|k1: int, k2: int|
            i < k1 < k2 < i + word_len(s, i) && is_line_break(#[trigger] s[k1]) ==> is_line_break(
                #[trigger] s[k2],
            ),
        i + word_len(s, i) < s.len() ==> !is_line_break(s[i + word_len(s, i)]),
        i + word_len(s, i) < s.len() && is_symbol(s[i + word_len(s, i)]) ==> is_line_break(
            s[i + word_len(s, i) - 1],
        ),
{
    let a = class_run(s, i + 1, CharClass::Symbol);
    let j = i + 1 + a;
    lemma_class_run_facts(s, i + 1, CharClass::Symbol);
    lemma_class_run_facts(s, j, CharClass::LineBreak);
    let b = class_run(s, j, CharClass::LineBreak);
    let m = word_len(s, i);
    assert(a >= 1);
    assert(m == 1 + a + b);
    assert forall|k: int| i + 1 <= k < j implies is_symbol(#[trigger] s[k]) by {
        assert(in_class(s[k], CharClass::Symbol));
    }
    assert forall|k: int| j <= k < i + m implies is_line_break(#[trigger] s[k]) by {
        assert(in_class(s[k], CharClass::LineBreak));
    }
    if j < s.len() {
        assert(!in_class(s[j], CharClass::Symbol));
    }
    if i + m < s.len() {
        assert(!in_class(s[i + m], CharClass::LineBreak));
        if b == 0 {
            assert(!is_symbol(s[j]));
        } else {
            assert(is_line_break(s[i + m - 1]));
        }
    }
}

/// A class run covers exactly the characters of the class from `i` on.
proof fn lemma_class_run_facts(s: Seq<char>, i: int, cls: CharClass)
    requires
        0 <= i <= s.len(),
    ensures
        0 <= class_run(s, i, cls) <= s.len() - i,
        forall|k: int| i <= k < i + class_run(s, i, cls) ==> in_class(#[trigger] s[k], cls),
        i + class_run(s, i, cls) < s.len() ==> !in_class(s[i + class_run(s, i, cls)], cls),
    decreases s.len() - i,
{
    if i < s.len() && in_class(s[i], cls) {
        lemma_class_run_facts(s, i + 1, cls);
    }
}

/// The words of `s[i..]`, in order.
pub open spec fn words_from(s: Seq<char>, i: int) -> Seq<Seq<char>>
    decreases s.len() - i,
{
    if i < 0 || i >= s.len() {
        seq![]
    } else {
        let m = word_len(s, i);
        proof {
            lemma_word_len_bounded(s, i);
        }
        seq![s.subrange(i, i + m)] + words_from(s, i + m)
    }
}

/// The words of `s`.
pub open spec fn split_words(s: Seq<char>) -> Seq<Seq<char>> {
    words_from(s, 0)
}

/// A character outside ASCII (above U+007F).
pub open spec fn is_non_ascii(c: char) -> bool {
    !('\0' <= c <= '\u{7f}')
}

/// The words of `s[i..]` are non-empty and put back together give `s[i..]`.
proof fn lemma_words_from_cover(s: Seq<char>, i: int)
    requires
        0 <= i <= s.len(),
    ensures
        words_from(s, i).flatten() == s.subrange(i, s.len() as int),
        forall|k: int| 0 <= k < words_from(s, i).len() ==> #[trigger] words_from(s, i)[k].len() > 0,
    decreases s.len() - i,
{
    if i < s.len() {
        let m = word_len(s, i);
        lemma_word_len_bounded(s, i);
        lemma_words_from_cover(s, i + m);
        let w = words_from(s, i);
        assert(w.first() == s.subrange(i, i + m));
        assert(w.drop_first() =~= words_from(s, i + m));
        assert(s.subrange(i, s.len() as int) =~= s.subrange(i, i + m) + s.subrange(
            i + m,
            s.len() as int,
        ));
        assert forall|k: int| 0 <= k < w.len() implies #[trigger] w[k].len() > 0 by {
            if k > 0 {
                assert(w[k] == words_from(s, i + m)[k - 1]);
            }
        }
    } else {
        assert(s.subrange(i, s.len() as int) =~= Seq::<char>::empty());
    }
}

/// Splitting loses and adds nothing: the words, concatenated, are the text,
/// and no word is empty.
pub proof fn lemma_split_words_cover(s: Seq<char>)
    ensures
        split_words(s).flatten() == s,
        forall|k: int| 0 <= k < split_words(s).len() ==> #[trigger] split_words(s)[k].len() > 0,
{
    lemma_words_from_cover(s, 0);
    assert(s.subrange(0, s.len() as int) =~= s);
}

/// Whether `c` is in class `cls`.
fn in_class_char(c: char, cls: CharClass) -> (b: bool)
    ensures
        b == in_class(c, cls),
{
    let u = c as u32;
    let letter = (97 <= u && u <= 122) || (65 <= u && u <= 90);
    let number = 48 <= u && u <= 57;
    let space = u == 32 || u == 9 || u == 13 || u == 10 || u == 0x0B || u == 0x0C;
    match cls {
        CharClass::Letter => letter,
        CharClass::Symbol => !space && !letter && !number,
        CharClass::LineBreak => u == 13 || u == 10,
        CharClass::Space => space,
    }
}

/// Computes [`class_run`].
fn class_run_at(v: &Vec<char>, i: usize, cls: CharClass) -> (r: usize)
    requires
        i <= v@.len(),
    ensures
        r == class_run(v@, i as int, cls),
{
    let mut k = i;
    while k < v.len() && in_class_char(v[k], cls)
        invariant
            i <= k <= v@.len(),
            class_run(v@, i as int, cls) == (k - i) + class_run(v@, k as int, cls),
        decreases v@.len() - k,
    {
        k = k + 1;
    }
    k - i
}

/// Computes [`word_len`].
fn word_len_at(v: &Vec<char>, i: usize) -> (m: usize)
    requires
        i < v@.len(),
    ensures
        m == word_len(v@, i as int),
{
    let ghost s = v@;
    let n = v.len();
    proof {
        lemma_word_len_bounded(s, i as int);
        lemma_runs_bounded(s, i as int, CharClass::Space);
        lemma_runs_bounded(s, i + 1, CharClass::Letter);
    }
    // Alternative 1: contractions.
    let mut contraction: usize = 0;
    if v[i] == '\'' {
        if n - i >= 3 {
            let a = v[i + 1];
            let b = v[i + 2];
            if ((a == 'r' || a == 'R') && (b == 'e' || b == 'E')) || ((a == 'v' || a == 'V') && (b
                == 'e' || b == 'E')) || ((a == 'l' || a == 'L') && (b == 'l' || b == 'L')) {
                contraction = 3;
            }
        }
        if contraction == 0 && n - i >= 2 {
            let a = v[i + 1];
            if a == 's' || a == 'S' || a == 't' || a == 'T' || a == 'm' || a == 'M' || a == 'd' || a
                == 'D' {
                contraction = 2;
            }
        }
    }
    assert(contraction == contraction_len(s, i as int));
    // Alternative 2: letters with an optional prefix.
    let c = v[i];
    let letter = in_class_char(c, CharClass::Letter);
    let number = 48 <= c as u32 && c as u32 <= 57;
    let line_break = c == '\r' || c == '\n';
    let mut letters: usize = 0;
    if !line_break && !letter && !number {
        if i + 1 < n && in_class_char(v[i + 1], CharClass::Letter) {
            letters = 1 + class_run_at(v, i + 1, CharClass::Letter);
        }
    } else if letter {
        letters = class_run_at(v, i, CharClass::Letter);
    }
    assert(letters == letters_len(s, i as int));
    // Alternative 3: one digit.
    let digit: usize = if number {
        1
    } else {
        0
    };
    // Alternative 4: symbols.
    let j = if c == ' ' {
        i + 1
    } else {
        i
    };
    let mut symbols: usize = 0;
    if j < n && in_class_char(v[j], CharClass::Symbol) {
        proof {
            lemma_runs_bounded(s, j as int, CharClass::Symbol);
        }
        let k = j + class_run_at(v, j, CharClass::Symbol);
        proof {
            lemma_runs_bounded(s, k as int, CharClass::LineBreak);
        }
        symbols = k + class_run_at(v, k, CharClass::LineBreak) - i;
    }
    assert(symbols == symbol_len(s, i as int));
    // Alternatives 5 and 6: whitespace.
    let spaces = class_run_at(v, i, CharClass::Space);
    let mut e = i + spaces;
    while e > i && v[e - 1] != '\r' && v[e - 1] != '\n'
        invariant
            i <= e <= i + spaces <= n,
            n == s.len(),
            s == v@,
            line_break_end(s, i as int, i + spaces) == line_break_end(s, i as int, e as int),
        decreases e - i,
    {
        e = e - 1;
    }
    let breaks = e - i;
    let space_run: usize = if spaces > 0 && i + spaces == n {
        spaces
    } else if spaces > 1 {
        spaces - 1
    } else {
        0
    };
    // Alternative 7: one whitespace character.
    let single: usize = if in_class_char(c, CharClass::Space) {
        1
    } else {
        0
    };
    if contraction > 0 {
        contraction
    } else if letters > 0 {
        letters
    } else if digit > 0 {
        digit
    } else if symbols > 0 {
        symbols
    } else if breaks > 0 {
        breaks
    } else if space_run > 0 {
        space_run
    } else if single > 0 {
        single
    } else {
        1
    }
}

/// Splits ASCII text into words using the Qwen2 rules.
///
/// Fails with the index of the first non-ASCII character, which is also its
/// byte offset (every character before it is one byte long).
pub fn pre_split(text: &str) -> (r: Result<Vec<String>, usize>)
    ensures
        match r {
            Err(j) => first_non_ascii_at(text@, j as int),
            Ok(words) => all_ascii(text@) && words@.map_values(|w: String| w@) == split_words(text@),
        },
{
    let v = chars_of(text);
    let ghost s = v@;
    let n = v.len();
    let mut a: usize = 0;
    while a < n
        invariant
            s == text@,
            s == v@,
            n == s.len(),
            a <= n,
            forall|k: int| 0 <= k < a ==> !is_non_ascii(#[trigger] s[k]),
        decreases n - a,
    {
        if !('\0' <= v[a] && v[a] <= '\u{7f}') {
            return Err(a);
        }
        a = a + 1;
    }
    let mut words: Vec<String> = Vec::new();
    let mut i: usize = 0;
    while i < n
        invariant
            s == v@,
            n == s.len(),
            i <= n,
            words@.map_values(|w: String| w@) + words_from(s, i as int) == words_from(s, 0),
        decreases n - i,
    {
        let m = word_len_at(&v, i);
        proof {
            lemma_word_len_bounded(s, i as int);
        }
        let mut w = String::new();
        let mut k = i;
        while k < i + m
            invariant
                s == v@,
                n == s.len(),
                i + m <= n,
                i <= k <= i + m,
                w@ == s.subrange(i as int, k as int),
            decreases i + m - k,
        {
            push_char(&mut w, v[k]);
            proof {
                assert(s.subrange(i as int, k + 1) =~= s.subrange(i as int, k as int).push(s[k as int]));
            }
            k = k + 1;
        }
        let ghost before = words@;
        words.push(w);
        proof {
            let rest = words_from(s, i as int);
            assert(rest == seq![s.subrange(i as int, i + m)] + words_from(s, i + m));
            assert(words@.map_values(|w: String| w@) =~= before.map_values(|w: String| w@).push(
                s.subrange(i as int, i + m),
            ));
            assert(words@.map_values(|w: String| w@) + words_from(s, i + m) =~= before.map_values(
                |w: String| w@,
            ) + rest);
        }
        i = i + m;
    }
    proof {
        assert(words_from(s, n as int) =~= Seq::<Seq<char>>::empty());
        assert(words@.map_values(|w: String| w@) + words_from(s, n as int) =~= words@.map_values(
            |w: String| w@,
        ));
    }
    Ok(words)
}

// ---------------------------------------------------------------------------
// Greedy BPE merging: the model
// ---------------------------------------------------------------------------

/// The views of a list of strings.
pub open spec fn texts(v: Seq<String>) -> Seq<Seq<char>> {
    v.map_values(|t: String| t@)
}

/// The last index at which `t` occurs in `s` (later entries win over earlier
/// ones, as when a map is filled in order).
pub open spec fn last_index_of(s: Seq<Seq<char>>, t: Seq<char>) -> Option<int>
    decreases s.len(),
{
    if s.len() == 0 {
        None
    } else if s.last() == t {
        Some(s.len() - 1)
    } else {
        last_index_of(s.drop_last(), t)
    }
}

/// An index found by [`last_index_of`] lies inside the list and holds `t`.
proof fn lemma_last_index_of(s: Seq<Seq<char>>, t: Seq<char>)
    ensures
        last_index_of(s, t) matches Some(i) ==> 0 <= i < s.len() && s[i] == t,
        last_index_of(s, t) is None ==> forall|i: int| 0 <= i < s.len() ==> s[i] != t,
    decreases s.len(),
{
    if s.len() > 0 && s.last() != t {
        lemma_last_index_of(s.drop_last(), t);
        assert forall|i: int| 0 <= i < s.len() - 1 implies s[i] == s.drop_last()[i] by {}
    }
}

/// The text of the merge rule that joins `a` and `b`: `"a b"`.
pub open spec fn rule_text(a: Seq<char>, b: Seq<char>) -> Seq<char> {
    a + seq![' '] + b
}

/// The rank of the rule merging `a` and `b`: its index among the rules.
pub open spec fn merge_rank(merges: Seq<Seq<char>>, a: Seq<char>, b: Seq<char>) -> Option<int> {
    last_index_of(merges, rule_text(a, b))
}

/// The symbols strictly between `l` and `r` are all empty (merged away).
pub open spec fn between_empty(syms: Seq<Seq<char>>, l: int, r: int) -> bool {
    forall|k: int| l < k < r ==> #[trigger] syms[k].len() == 0
}

/// `l` and `r` hold adjacent non-empty symbols that a rule merges.
pub open spec fn is_merge_pair(merges: Seq<Seq<char>>, syms: Seq<Seq<char>>, l: int, r: int) -> bool {
    &&& 0 <= l < r < syms.len()
    &&& syms[l].len() > 0
    &&& syms[r].len() > 0
    &&& between_empty(syms, l, r)
    &&& merge_rank(merges, syms[l], syms[r]) is Some
}

/// The rank of the rule merging the symbols at `l` and `r`.
pub open spec fn pair_rank(merges: Seq<Seq<char>>, syms: Seq<Seq<char>>, l: int, r: int) -> int {
    merge_rank(merges, syms[l], syms[r])->0
}

/// Merge order: a lower rank first; on equal ranks the pair spanning more
/// positions, then the leftmost one.
pub open spec fn merge_order_le(rank1: int, l1: int, r1: int, rank2: int, l2: int, r2: int) -> bool {
    rank1 < rank2 || (rank1 == rank2 && (r1 - l1 > r2 - l2 || (r1 - l1 == r2 - l2 && l1 <= l2)))
}

/// `(l, r)` is the pair merged next: no merge pair comes before it.
pub open spec fn is_next_merge(merges: Seq<Seq<char>>, syms: Seq<Seq<char>>, l: int, r: int) -> bool {
    &&& is_merge_pair(merges, syms, l, r)
    &&& forall|l2: int, r2: int|
        #[trigger] is_merge_pair(merges, syms, l2, r2) ==> merge_order_le(
            pair_rank(merges, syms, l, r),
            l,
            r,
            pair_rank(merges, syms, l2, r2),
            l2,
            r2,
        )
}

/// The pair merged next has the lowest rank among all adjacent pairs that a
/// rule merges.
pub proof fn lemma_next_merge_lowest_rank(
    merges: Seq<Seq<char>>,
    syms: Seq<Seq<char>>,
    l: int,
    r: int,
    l2: int,
    r2: int,
)
    requires
        is_next_merge(merges, syms, l, r),
        is_merge_pair(merges, syms, l2, r2),
    ensures
        merge_rank(merges, syms[l], syms[r]) is Some,
        merge_rank(merges, syms[l2], syms[r2]) is Some,
        merge_rank(merges, syms[l], syms[r])->0 <= merge_rank(merges, syms[l2], syms[r2])->0,
{
}

/// A symbol has at most one right neighbour it can be merged with.
proof fn lemma_merge_pair_unique(merges: Seq<Seq<char>>, syms: Seq<Seq<char>>, l: int, r1: int, r2: int)
    requires
        is_merge_pair(merges, syms, l, r1),
        is_merge_pair(merges, syms, l, r2),
    ensures
        r1 == r2,
{
    if r1 < r2 {
        assert(syms[r1].len() == 0);
    } else if r2 < r1 {
        assert(syms[r2].len() == 0);
    }
}

/// The pair `(l1, r1)` comes no later than `(l2, r2)` in merge order.
spec fn pair_le(merges: Seq<Seq<char>>, syms: Seq<Seq<char>>, l1: int, r1: int, l2: int, r2: int) -> bool {
    merge_order_le(pair_rank(merges, syms, l1, r1), l1, r1, pair_rank(merges, syms, l2, r2), l2, r2)
}

/// `(l, r)` is a merge pair with left symbol below `k` that comes first in
/// merge order among all such pairs.
spec fn best_below(merges: Seq<Seq<char>>, syms: Seq<Seq<char>>, l: int, r: int, k: int) -> bool {
    &&& l < k
    &&& is_merge_pair(merges, syms, l, r)
    &&& forall|l2: int, r2: int|
        l2 < k && #[trigger] is_merge_pair(merges, syms, l2, r2) ==> pair_le(merges, syms, l, r, l2, r2)
}

/// Merge order is transitive.
proof fn lemma_pair_le_trans(
    merges: Seq<Seq<char>>,
    syms: Seq<Seq<char>>,
    l1: int,
    r1: int,
    l2: int,
    r2: int,
    l3: int,
    r3: int,
)
    requires
        pair_le(merges, syms, l1, r1, l2, r2),
        pair_le(merges, syms, l2, r2, l3, r3),
    ensures
        pair_le(merges, syms, l1, r1, l3, r3),
{
}

/// Extending the bound from `k - 1` to `k` keeps a first pair.
proof fn lemma_best_step(merges: Seq<Seq<char>>, syms: Seq<Seq<char>>, k: int, bl: int, br: int)
    requires
        best_below(merges, syms, bl, br, k - 1),
    ensures
        exists|l: int, r: int| #[trigger] best_below(merges, syms, l, r, k),
{
    if exists|r: int| #[trigger] is_merge_pair(merges, syms, k - 1, r) {
        let rk = choose|r: int| #[trigger] is_merge_pair(merges, syms, k - 1, r);
        if pair_le(merges, syms, bl, br, k - 1, rk) {
            assert forall|l2: int, r2: int| l2 < k && #[trigger] is_merge_pair(merges, syms, l2, r2) implies pair_le(
                merges,
                syms,
                bl,
                br,
                l2,
                r2,
            ) by {
                if l2 == k - 1 {
                    lemma_merge_pair_unique(merges, syms, k - 1, rk, r2);
                }
            }
            assert(best_below(merges, syms, bl, br, k));
        } else {
            assert forall|l2: int, r2: int| l2 < k && #[trigger] is_merge_pair(merges, syms, l2, r2) implies pair_le(
                merges,
                syms,
                k - 1,
                rk,
                l2,
                r2,
            ) by {
                if l2 == k - 1 {
                    lemma_merge_pair_unique(merges, syms, k - 1, rk, r2);
                } else {
                    assert(pair_le(merges, syms, bl, br, l2, r2));
                    lemma_pair_le_trans(merges, syms, k - 1, rk, bl, br, l2, r2);
                }
            }
            assert(best_below(merges, syms, k - 1, rk, k));
        }
    } else {
        assert forall|l2: int, r2: int| l2 < k && #[trigger] is_merge_pair(merges, syms, l2, r2) implies pair_le(
            merges,
            syms,
            bl,
            br,
            l2,
            r2,
        ) by {
            if l2 == k - 1 {
                assert(is_merge_pair(merges, syms, k - 1, r2));
            }
        }
        assert(best_below(merges, syms, bl, br, k));
    }
}

/// Among the merge pairs whose left symbol lies below `k`, if there is one,
/// one comes first in merge order.
proof fn lemma_first_pair_below(merges: Seq<Seq<char>>, syms: Seq<Seq<char>>, k: int, l0: int, r0: int)
    requires
        l0 < k,
        is_merge_pair(merges, syms, l0, r0),
    ensures
        exists|l: int, r: int| #[trigger] best_below(merges, syms, l, r, k),
    decreases k,
{
    if exists|l: int, r: int| l < k - 1 && #[trigger] is_merge_pair(merges, syms, l, r) {
        let (l1, r1) = choose|l: int, r: int| l < k - 1 && #[trigger] is_merge_pair(merges, syms, l, r);
        assert(0 <= l1);
        lemma_first_pair_below(merges, syms, k - 1, l1, r1);
        let (bl, br) = choose|l: int, r: int| #[trigger] best_below(merges, syms, l, r, k - 1);
        lemma_best_step(merges, syms, k, bl, br);
    } else {
        assert(l0 == k - 1);
        assert forall|l2: int, r2: int| l2 < k && #[trigger] is_merge_pair(merges, syms, l2, r2) implies pair_le(
            merges,
            syms,
            l0,
            r0,
            l2,
            r2,
        ) by {
            lemma_merge_pair_unique(merges, syms, l0, r0, r2);
        }
        assert(best_below(merges, syms, l0, r0, k));
    }
}

/// Whenever some adjacent pair can be merged, a pair to merge next exists:
/// greedy merging stops only when no rule applies.
pub proof fn lemma_next_merge_exists(merges: Seq<Seq<char>>, syms: Seq<Seq<char>>, l: int, r: int)
    requires
        is_merge_pair(merges, syms, l, r),
    ensures
        exists|l1: int, r1: int| is_next_merge(merges, syms, l1, r1),
{
    lemma_first_pair_below(merges, syms, syms.len() as int, l, r);
    let (bl, br) = choose|l1: int, r1: int| #[trigger] best_below(merges, syms, l1, r1, syms.len() as int);
    assert forall|l2: int, r2: int| #[trigger] is_merge_pair(merges, syms, l2, r2) implies merge_order_le(
        pair_rank(merges, syms, bl, br),
        bl,
        br,
        pair_rank(merges, syms, l2, r2),
        l2,
        r2,
    ) by {
        assert(pair_le(merges, syms, bl, br, l2, r2));
    }
    assert(is_next_merge(merges, syms, bl, br));
}

/// The symbols after merging the symbol at `r` into the one at `l`.
pub open spec fn merged(syms: Seq<Seq<char>>, l: int, r: int) -> Seq<Seq<char>> {
    syms.update(l, syms[l] + syms[r]).update(r, seq![])
}

/// The symbols after at most `fuel` greedy merges.
pub open spec fn bpe_steps(merges: Seq<Seq<char>>, syms: Seq<Seq<char>>, fuel: nat) -> Seq<Seq<char>>
    decreases fuel,
{
    if fuel > 0 && exists|l: int, r: int| is_next_merge(merges, syms, l, r) {
        let (l, r) = choose|l: int, r: int| is_next_merge(merges, syms, l, r);
        bpe_steps(merges, merged(syms, l, r), (fuel - 1) as nat)
    } else {
        syms
    }
}

/// One symbol per byte, each the byte's character.
pub open spec fn initial_symbols(bytes: Seq<u8>) -> Seq<Seq<char>> {
    Seq::new(bytes.len(), |i: int| seq![byte_char(bytes[i])])
}

/// The symbols of a word once no rule applies any more (a word of `n` bytes
/// takes at most `n - 1` merges).
pub open spec fn merged_symbols(merges: Seq<Seq<char>>, bytes: Seq<u8>) -> Seq<Seq<char>> {
    bpe_steps(merges, initial_symbols(bytes), bytes.len())
}

/// The id of token text `t`, if the vocabulary holds it.
pub open spec fn token_id(vocab: Seq<Seq<char>>, t: Seq<char>) -> Option<int> {
    last_index_of(vocab, t)
}

/// The ids of the single-byte pieces of `bytes` that the vocabulary holds.
pub open spec fn byte_pieces(vocab: Seq<Seq<char>>, bytes: Seq<u8>) -> Seq<u32>
    decreases bytes.len(),
{
    if bytes.len() == 0 {
        seq![]
    } else {
        byte_pieces(vocab, bytes.drop_last()) + match token_id(vocab, seq![byte_char(bytes.last())]) {
            Some(id) => seq![id as u32],
            None => seq![],
        }
    }
}

/// The ids of one symbol: its own id, or else the byte pieces of its UTF-8 text.
pub open spec fn symbol_ids(vocab: Seq<Seq<char>>, sym: Seq<char>) -> Seq<u32> {
    if sym.len() == 0 {
        seq![]
    } else {
        match token_id(vocab, sym) {
            Some(id) => seq![id as u32],
            None => byte_pieces(vocab, vstd::utf8::encode_utf8(sym)),
        }
    }
}

/// The ids of a list of symbols, in order.
pub open spec fn symbols_ids(vocab: Seq<Seq<char>>, syms: Seq<Seq<char>>) -> Seq<u32>
    decreases syms.len(),
{
    if syms.len() == 0 {
        seq![]
    } else {
        symbols_ids(vocab, syms.drop_last()) + symbol_ids(vocab, syms.last())
    }
}

/// The ids of a word given by its bytes.
pub open spec fn word_ids(vocab: Seq<Seq<char>>, merges: Seq<Seq<char>>, bytes: Seq<u8>) -> Seq<u32> {
    symbols_ids(vocab, merged_symbols(merges, bytes))
}

/// The ids of a list of words, in order.
pub open spec fn words_ids(
    vocab: Seq<Seq<char>>,
    merges: Seq<Seq<char>>,
    words: Seq<Seq<char>>,
) -> Seq<u32>
    decreases words.len(),
{
    if words.len() == 0 {
        seq![]
    } else {
        words_ids(vocab, merges, words.drop_last()) + word_ids(
            vocab,
            merges,
            vstd::utf8::encode_utf8(words.last()),
        )
    }
}

/// The number of non-empty symbols.
pub open spec fn count_nonempty(syms: Seq<Seq<char>>) -> nat
    decreases syms.len(),
{
    if syms.len() == 0 {
        0
    } else {
        count_nonempty(syms.drop_last()) + if syms.last().len() > 0 {
            1nat
        } else {
            0nat
        }
    }
}

/// The number of characters over all symbols.
pub open spec fn char_total(syms: Seq<Seq<char>>) -> nat
    decreases syms.len(),
{
    if syms.len() == 0 {
        0
    } else {
        char_total(syms.drop_last()) + syms.last().len()
    }
}

/// How replacing one symbol changes [`count_nonempty`] and [`char_total`].
proof fn lemma_update_counts(syms: Seq<Seq<char>>, i: int, v: Seq<char>)
    requires
        0 <= i < syms.len(),
    ensures
        count_nonempty(syms.update(i, v)) + (if syms[i].len() > 0 {
            1int
        } else {
            0
        }) == count_nonempty(syms) + (if v.len() > 0 {
            1int
        } else {
            0
        }),
        char_total(syms.update(i, v)) + syms[i].len() == char_total(syms) + v.len(),
    decreases syms.len(),
{
    let u = syms.update(i, v);
    if i < syms.len() - 1 {
        lemma_update_counts(syms.drop_last(), i, v);
        assert(u.drop_last() =~= syms.drop_last().update(i, v));
    } else {
        assert(u.drop_last() =~= syms.drop_last());
    }
}

/// Two different symbols together have at most [`char_total`] characters.
proof fn lemma_two_symbols_within_total(syms: Seq<Seq<char>>, i: int, j: int)
    requires
        0 <= i < syms.len(),
        0 <= j < syms.len(),
        i != j,
    ensures
        syms[i].len() + syms[j].len() <= char_total(syms),
    decreases syms.len(),
{
    let n = syms.len() as int;
    if i < n - 1 && j < n - 1 {
        lemma_two_symbols_within_total(syms.drop_last(), i, j);
    } else {
        let k = if i == n - 1 {
            j
        } else {
            i
        };
        lemma_one_symbol_within_total(syms.drop_last(), k);
    }
}

/// One symbol has at most [`char_total`] characters.
proof fn lemma_one_symbol_within_total(syms: Seq<Seq<char>>, i: int)
    requires
        0 <= i < syms.len(),
    ensures
        syms[i].len() <= char_total(syms),
    decreases syms.len(),
{
    if i < syms.len() - 1 {
        lemma_one_symbol_within_total(syms.drop_last(), i);
    }
}

/// Text of code points below `0x800` takes at most two UTF-8 bytes a character.
proof fn lemma_utf8_len_two_byte_chars(s: Seq<char>)
    requires
        forall|k: int| 0 <= k < s.len() ==> (#[trigger] s[k] as u32) < 0x800,
    ensures
        vstd::utf8::encode_utf8(s).len() <= 2 * s.len(),
    decreases s.len(),
{
    if s.len() > 0 {
        assert forall|k: int| 0 <= k < s.drop_first().len() implies (#[trigger] s.drop_first()[k]
            as u32) < 0x800 by {
            assert(s.drop_first()[k] == s[k + 1]);
        }
        lemma_utf8_len_two_byte_chars(s.drop_first());
        assert((s[0] as u32) < 0x800);
    }
}

/// The merge pair that comes first is unique.
proof fn lemma_next_merge_unique(
    merges: Seq<Seq<char>>,
    syms: Seq<Seq<char>>,
    l: int,
    r: int,
    l2: int,
    r2: int,
)
    requires
        is_next_merge(merges, syms, l, r),
        is_next_merge(merges, syms, l2, r2),
    ensures
        l == l2 && r == r2,
{
    assert(is_merge_pair(merges, syms, l2, r2));
    assert(is_merge_pair(merges, syms, l, r));
}

/// When `(l, r)` is the next merge, one greedy step merges it.
proof fn lemma_bpe_step(
    merges: Seq<Seq<char>>,
    syms: Seq<Seq<char>>,
    l: int,
    r: int,
    fuel: nat,
)
    requires
        is_next_merge(merges, syms, l, r),
        fuel > 0,
    ensures
        bpe_steps(merges, syms, fuel) == bpe_steps(merges, merged(syms, l, r), (fuel - 1) as nat),
{
    let (l2, r2) = choose|l2: int, r2: int| is_next_merge(merges, syms, l2, r2);
    lemma_next_merge_unique(merges, syms, l, r, l2, r2);
}

/// When no rule applies, merging stops.
proof fn lemma_bpe_done(merges: Seq<Seq<char>>, syms: Seq<Seq<char>>, fuel: nat)
    requires
        forall|l: int, r: int| !is_merge_pair(merges, syms, l, r),
    ensures
        bpe_steps(merges, syms, fuel) == syms,
{
    if exists|l: int, r: int| is_next_merge(merges, syms, l, r) {
        let (l, r) = choose|l: int, r: int| is_next_merge(merges, syms, l, r);
        assert(is_merge_pair(merges, syms, l, r));
    }
}

/// After merging `(l, r)`, every merge pair away from `l` was a merge pair
/// before, over the same symbols.
proof fn lemma_pair_after_merge(
    merges: Seq<Seq<char>>,
    syms: Seq<Seq<char>>,
    l: int,
    r: int,
    a: int,
    b: int,
)
    requires
        is_merge_pair(merges, syms, l, r),
        is_merge_pair(merges, merged(syms, l, r), a, b),
        a != l,
        b != l,
    ensures
        is_merge_pair(merges, syms, a, b),
        merged(syms, l, r)[a] == syms[a],
        merged(syms, l, r)[b] == syms[b],
        a != r,
        b != r,
{
    let s2 = merged(syms, l, r);
    assert(s2[r].len() == 0);
    assert(a != r && b != r);
    assert(s2[l].len() > 0);
    assert forall|k: int| a < k < b implies #[trigger] syms[k].len() == 0 by {
        assert(s2[k].len() == 0);
        assert(k != l);
        if k == r {
            if a < l {
                assert(s2[l].len() == 0);
            } else {
                assert(syms[a].len() == 0);
            }
        }
    }
}

// ---------------------------------------------------------------------------
// The tokenizer
// ---------------------------------------------------------------------------

/// An `Option<int>` index as the `u32` the tokenizer hands out.
pub open spec fn as_u32_index(o: Option<int>) -> Option<u32> {
    match o {
        Some(i) => Some(i as u32),
        None => None,
    }
}

/// Tokenizer for the Qwen3 BPE model family.
pub struct BpeTokenizer {
    /// Token id -> raw (escaped) token text.
    tokens: Vec<String>,
    /// Merge rules `"A B"`, in rank order.
    merges: Vec<String>,
    /// GPT-2 byte mapping: code point -> original byte.
    byte_map: HashMap<u32, u8>,
    /// Whether the model prepends a BOS token.
    pub add_bos: bool,
    /// End-of-sequence token id.
    pub eos_token_id: u32,
}

impl BpeTokenizer {
    /// The token texts, indexed by id.
    pub closed spec fn vocab(&self) -> Seq<Seq<char>> {
        texts(self.tokens@)
    }

    /// The merge rules, indexed by rank.
    pub closed spec fn merge_rules(&self) -> Seq<Seq<char>> {
        texts(self.merges@)
    }

    /// Whether the model prepends a BOS token.
    pub closed spec fn adds_bos(&self) -> bool {
        self.add_bos
    }

    /// The end-of-sequence token id.
    pub closed spec fn eos_id(&self) -> u32 {
        self.eos_token_id
    }

    /// Ids and ranks fit in `u32`, and the byte map is the GPT-2 one.
    pub closed spec fn wf(&self) -> bool {
        &&& self.tokens@.len() <= u32::MAX
        &&& self.merges@.len() <= u32::MAX
        &&& self.byte_map@ == gpt2_byte_map()
    }

    /// Builds a tokenizer from its token texts (indexed by id) and merge rules
    /// (indexed by rank). A text or rule listed twice resolves to its last index.
    pub fn new(tokens: Vec<String>, merges: Vec<String>, add_bos: bool, eos_token_id: u32) -> (t: Self)
        requires
            tokens@.len() <= u32::MAX,
            merges@.len() <= u32::MAX,
        ensures
            t.wf(),
            t.vocab() == texts(tokens@),
            t.merge_rules() == texts(merges@),
            t.adds_bos() == add_bos,
            t.eos_id() == eos_token_id,
    {
        BpeTokenizer { tokens, merges, byte_map: build_gpt2_byte_map(), add_bos, eos_token_id }
    }

    /// Number of tokens in the vocabulary.
    pub fn vocab_size(&self) -> (n: usize)
        ensures
            n == self.vocab().len(),
    {
        self.tokens.len()
    }

    /// The id of token text `t`.
    fn lookup_token(&self, t: &String) -> (r: Option<u32>)
        requires
            self.wf(),
        ensures
            r == as_u32_index(token_id(self.vocab(), t@)),
    {
        find_last(&self.tokens, t)
    }

    /// The rank of the rule merging `a` and `b`.
    fn rank_of(&self, a: &String, b: &String) -> (r: Option<u32>)
        requires
            self.wf(),
        ensures
            r == as_u32_index(merge_rank(self.merge_rules(), a@, b@)),
    {
        let rule = rule_of(a, b);
        find_last(&self.merges, &rule)
    }
}

/// The last index of `t` in `list`.
fn find_last(list: &Vec<String>, t: &String) -> (r: Option<u32>)
    requires
        list@.len() <= u32::MAX,
    ensures
        r == as_u32_index(last_index_of(texts(list@), t@)),
{
    let ghost all = texts(list@);
    let mut i = list.len();
    proof {
        assert(all.subrange(0, i as int) =~= all);
    }
    while i > 0
        invariant
            i <= list@.len() <= u32::MAX,
            all == texts(list@),
            last_index_of(all, t@) == last_index_of(all.subrange(0, i as int), t@),
        decreases i,
    {
        let ghost prefix = all.subrange(0, i as int);
        assert(prefix.drop_last() =~= all.subrange(0, i - 1));
        if list[i - 1] == *t {
            assert(prefix.last() == t@);
            return Some((i - 1) as u32);
        }
        i = i - 1;
    }
    None
}

/// The merge rule text `"a b"`.
fn rule_of(a: &String, b: &String) -> (r: String)
    ensures
        r@ == rule_text(a@, b@),
{
    let mut r = a.clone();
    let sep = " ";
    proof {
        reveal_strlit(" ");
    }
    r.append(sep);
    r.append(b.as_str());
    r
}

/// The UTF-8 length of `s`.
fn byte_len(s: &String) -> (n: usize)
    requires
        vstd::utf8::encode_utf8(s@).len() <= usize::MAX,
    ensures
        n == vstd::utf8::encode_utf8(s@).len(),
{
    s.as_str().len()
}

// ---------------------------------------------------------------------------
// Greedy BPE merging: the implementation
// ---------------------------------------------------------------------------

/// A pending merge of the symbols at `left` and `right`, recorded with the
/// rule's rank and the symbols' combined UTF-8 length at the time.
#[derive(Clone, Copy, Debug)]
struct MergeCandidate {
    rank: u32,
    left: usize,
    right: usize,
    size: usize,
}

/// The UTF-8 length of a symbol.
pub open spec fn utf8_len(s: Seq<char>) -> int {
    vstd::utf8::encode_utf8(s).len() as int
}

/// `a` is extracted no later than `b`.
spec fn cand_le(a: MergeCandidate, b: MergeCandidate) -> bool {
    merge_order_le(a.rank as int, a.left as int, a.right as int, b.rank as int, b.left as int, b.right as int)
}

/// The candidate that records the merge pair `(l, r)` as it stands.
spec fn cand_of(merges: Seq<Seq<char>>, syms: Seq<Seq<char>>, l: int, r: int) -> MergeCandidate {
    MergeCandidate {
        rank: pair_rank(merges, syms, l, r) as u32,
        left: l as usize,
        right: r as usize,
        size: (utf8_len(syms[l]) + utf8_len(syms[r])) as usize,
    }
}

/// Every character of every symbol is below `0x800` (the GPT-2 alphabet is).
pub open spec fn small_chars(syms: Seq<Seq<char>>) -> bool {
    forall|i: int, k: int|
        0 <= i < syms.len() && 0 <= k < syms[i].len() ==> (#[trigger] syms[i][k] as u32) < 0x800
}

/// Candidates name ordered positions with only empty symbols between them.
spec fn cands_well_placed(cands: Seq<MergeCandidate>, syms: Seq<Seq<char>>) -> bool {
    forall|j: int|
        0 <= j < cands.len() ==> {
            let c = #[trigger] cands[j];
            &&& c.left < c.right < syms.len()
            &&& between_empty(syms, c.left as int, c.right as int)
        }
}

/// Every merge pair is recorded, with its current rank and size.
spec fn cands_cover(merges: Seq<Seq<char>>, cands: Seq<MergeCandidate>, syms: Seq<Seq<char>>) -> bool {
    forall|l: int, r: int|
        #[trigger] is_merge_pair(merges, syms, l, r) ==> cands.contains(cand_of(merges, syms, l, r))
}

proof fn lemma_contains_remove(s: Seq<MergeCandidate>, idx: int, x: MergeCandidate)
    requires
        0 <= idx < s.len(),
        s.contains(x),
        s[idx] != x,
    ensures
        s.remove(idx).contains(x),
{
    let j = choose|j: int| 0 <= j < s.len() && s[j] == x;
    if j < idx {
        assert(s.remove(idx)[j] == x);
    } else {
        assert(s.remove(idx)[j - 1] == x);
    }
}

proof fn lemma_contains_push(s: Seq<MergeCandidate>, y: MergeCandidate, x: MergeCandidate)
    requires
        s.contains(x),
    ensures
        s.push(y).contains(x),
{
    let j = choose|j: int| 0 <= j < s.len() && s[j] == x;
    assert(s.push(y)[j] == x);
}

/// Two different symbols of a word of at most `isize::MAX` bytes have a
/// combined UTF-8 length that fits in `usize`.
proof fn lemma_pair_size_fits(syms: Seq<Seq<char>>, l: int, r: int)
    requires
        small_chars(syms),
        char_total(syms) <= isize::MAX,
        0 <= l < syms.len(),
        0 <= r < syms.len(),
        l != r,
    ensures
        utf8_len(syms[l]) + utf8_len(syms[r]) <= usize::MAX,
{
    lemma_two_symbols_within_total(syms, l, r);
    assert forall|k: int| 0 <= k < syms[l].len() implies (#[trigger] syms[l][k] as u32) < 0x800 by {}
    assert forall|k: int| 0 <= k < syms[r].len() implies (#[trigger] syms[r][k] as u32) < 0x800 by {}
    lemma_utf8_len_two_byte_chars(syms[l]);
    lemma_utf8_len_two_byte_chars(syms[r]);
}

/// A merge keeps the alphabet and the character total, and leaves one
/// non-empty symbol fewer.
proof fn lemma_merge_counts(syms: Seq<Seq<char>>, l: int, r: int)
    requires
        0 <= l < r < syms.len(),
        syms[l].len() > 0,
        syms[r].len() > 0,
        small_chars(syms),
    ensures
        small_chars(merged(syms, l, r)),
        char_total(merged(syms, l, r)) == char_total(syms),
        count_nonempty(merged(syms, l, r)) + 1 == count_nonempty(syms),
{
    let s1 = syms.update(l, syms[l] + syms[r]);
    lemma_update_counts(syms, l, syms[l] + syms[r]);
    lemma_update_counts(s1, r, seq![]);
    let s2 = merged(syms, l, r);
    assert forall|i: int, k: int| 0 <= i < s2.len() && 0 <= k < s2[i].len() implies (#[trigger] s2[i][k]
        as u32) < 0x800 by {
        if i == l {
            if k < syms[l].len() {
                assert(s2[i][k] == syms[l][k]);
            } else {
                assert(s2[i][k] == syms[r][k - syms[l].len()]);
            }
        }
    }
}

/// Candidates placed before a merge stay well placed after it.
proof fn lemma_between_after_merge(syms: Seq<Seq<char>>, l: int, r: int, a: int, b: int)
    requires
        0 <= l < r < syms.len(),
        syms[l].len() > 0,
        0 <= a,
        b <= syms.len(),
        between_empty(syms, a, b),
    ensures
        between_empty(merged(syms, l, r), a, b),
{
    let s2 = merged(syms, l, r);
    assert forall|k: int| a < k < b implies #[trigger] s2[k].len() == 0 by {
        assert(syms[k].len() == 0);
        assert(k != l);
    }
}

/// The position of the candidate extracted first.
fn first_candidate(cands: &Vec<MergeCandidate>) -> (idx: usize)
    requires
        cands@.len() > 0,
        forall|j: int| 0 <= j < cands@.len() ==> (#[trigger] cands@[j]).left < cands@[j].right,
    ensures
        idx < cands@.len(),
        forall|j: int| 0 <= j < cands@.len() ==> cand_le(cands@[idx as int], #[trigger] cands@[j]),
{
    let mut best: usize = 0;
    let mut j: usize = 1;
    while j < cands.len()
        invariant
            best < j <= cands@.len(),
            forall|k: int| 0 <= k < cands@.len() ==> (#[trigger] cands@[k]).left < cands@[k].right,
            forall|k: int| 0 <= k < j ==> cand_le(cands@[best as int], #[trigger] cands@[k]),
        decreases cands@.len() - j,
    {
        let a = cands[j];
        let b = cands[best];
        let gap_a = a.right - a.left;
        let gap_b = b.right - b.left;
        if a.rank < b.rank || (a.rank == b.rank && (gap_a > gap_b || (gap_a == gap_b && a.left
            < b.left))) {
            best = j;
        }
        j = j + 1;
    }
    best
}

/// After merging `(l, r)`, the candidates cover every merge pair: the pairs
/// away from `l` were covered before, and the two new neighbours of `l` were
/// just recorded.
proof fn lemma_cover_after_merge(
    merges: Seq<Seq<char>>,
    s0: Seq<Seq<char>>,
    l: int,
    r: int,
    p: int,
    nx: int,
    removed: Seq<MergeCandidate>,
    cands: Seq<MergeCandidate>,
)
    requires
        is_merge_pair(merges, s0, l, r),
        0 <= p <= l,
        forall|k: int| p <= k < l ==> #[trigger] merged(s0, l, r)[k].len() == 0,
        p == 0 || merged(s0, l, r)[p - 1].len() > 0,
        r < nx <= s0.len(),
        forall|k: int| r < k < nx ==> #[trigger] merged(s0, l, r)[k].len() == 0,
        nx == s0.len() || merged(s0, l, r)[nx].len() > 0,
        forall|a: int, b: int|
            is_merge_pair(merges, s0, a, b) && a != l ==> #[trigger] removed.contains(
                cand_of(merges, s0, a, b),
            ),
        forall|x: MergeCandidate| removed.contains(x) ==> #[trigger] cands.contains(x),
        p > 0 && merge_rank(merges, merged(s0, l, r)[p - 1], merged(s0, l, r)[l]) is Some
            ==> cands.contains(cand_of(merges, merged(s0, l, r), p - 1, l)),
        nx < s0.len() && merge_rank(merges, merged(s0, l, r)[l], merged(s0, l, r)[nx]) is Some
            ==> cands.contains(cand_of(merges, merged(s0, l, r), l, nx)),
    ensures
        cands_cover(merges, cands, merged(s0, l, r)),
{
    let s1 = merged(s0, l, r);
    assert forall|a: int, b: int| #[trigger] is_merge_pair(merges, s1, a, b) implies cands.contains(
        cand_of(merges, s1, a, b),
    ) by {
        if a == l {
            if b < nx {
                if b < r {
                    assert(s0[b].len() == 0);
                }
                assert(s1[b].len() == 0);
            } else if b > nx {
                assert(s1[nx].len() == 0);
            }
        } else if b == l {
            if p == 0 || a > p - 1 {
                assert(s1[a].len() == 0);
            } else if a < p - 1 {
                assert(s1[p - 1].len() == 0);
            }
        } else {
            lemma_pair_after_merge(merges, s0, l, r, a, b);
            assert(cand_of(merges, s1, a, b) == cand_of(merges, s0, a, b));
        }
    }
}

impl BpeTokenizer {
    /// Merges the symbol at `r` into the one at `l` and records the merges that
    /// the new symbol takes part in with its nearest non-empty neighbours.
    fn apply_merge(
        &self,
        symbols: &mut Vec<String>,
        cands: &mut Vec<MergeCandidate>,
        l: usize,
        r: usize,
    )
        requires
            self.wf(),
            is_merge_pair(self.merge_rules(), texts(old(symbols)@), l as int, r as int),
            small_chars(texts(old(symbols)@)),
            char_total(texts(old(symbols)@)) <= isize::MAX,
            cands_well_placed(old(cands)@, texts(old(symbols)@)),
            forall|a: int, b: int|
                is_merge_pair(self.merge_rules(), texts(old(symbols)@), a, b) && a != l
                    ==> #[trigger] old(cands)@.contains(
                    cand_of(self.merge_rules(), texts(old(symbols)@), a, b),
                ),
        ensures
            texts(final(symbols)@) == merged(texts(old(symbols)@), l as int, r as int),
            cands_well_placed(final(cands)@, texts(final(symbols)@)),
            cands_cover(self.merge_rules(), final(cands)@, texts(final(symbols)@)),
            final(cands)@.len() <= old(cands)@.len() + 2,
    {
        let ghost merges = self.merge_rules();
        let ghost s0 = texts(symbols@);
        let ghost removed = cands@;
        let n = symbols.len();
        proof {
            lemma_merge_counts(s0, l as int, r as int);
        }
        let r_text = symbols[r].clone();
        let mut joined = symbols[l].clone();
        joined.append(r_text.as_str());
        symbols.set(l, joined);
        symbols.set(r, String::new());
        let ghost s1 = texts(symbols@);
        proof {
            assert(s1 =~= merged(s0, l as int, r as int));
            assert forall|j: int| 0 <= j < removed.len() implies {
                let c = #[trigger] removed[j];
                &&& c.left < c.right < s1.len()
                &&& between_empty(s1, c.left as int, c.right as int)
            } by {
                lemma_between_after_merge(
                    s0,
                    l as int,
                    r as int,
                    removed[j].left as int,
                    removed[j].right as int,
                );
            }
        }
        // The nearest non-empty symbol before `l`.
        let mut p = l;
        while p > 0 && symbols[p - 1].as_str().is_empty()
            invariant
                p <= l < r < n,
                texts(symbols@) == s1,
                s1.len() == n,
                forall|k: int| p <= k < l ==> #[trigger] s1[k].len() == 0,
            decreases p,
        {
            p = p - 1;
        }
        if p > 0 {
            let pv = p - 1;
            match self.rank_of(&symbols[pv], &symbols[l]) {
                Some(rank) => {
                    proof {
                        lemma_pair_size_fits(s1, pv as int, l as int);
                    }
                    let size = byte_len(&symbols[pv]) + byte_len(&symbols[l]);
                    let ghost before_push = cands@;
                    cands.push(MergeCandidate { rank, left: pv, right: l, size });
                    proof {
                        lemma_last_index_of(merges, rule_text(s1[pv as int], s1[l as int]));
                        assert(cands@.last() == cand_of(merges, s1, pv as int, l as int));
                        assert forall|x: MergeCandidate| removed.contains(x) implies #[trigger] cands@.contains(
                            x,
                        ) by {
                            assert(cands@ == before_push.push(cands@.last()));
                            lemma_contains_push(before_push, cands@.last(), x);
                        }
                    }
                },
                None => {},
            }
        }
        let ghost after_prev = cands@;
        // The nearest non-empty symbol after `r`.
        let mut nx = r + 1;
        while nx < n && symbols[nx].as_str().is_empty()
            invariant
                l < r < nx <= n,
                texts(symbols@) == s1,
                s1.len() == n,
                forall|k: int| r < k < nx ==> #[trigger] s1[k].len() == 0,
            decreases n - nx,
        {
            nx = nx + 1;
        }
        if nx < n {
            match self.rank_of(&symbols[l], &symbols[nx]) {
                Some(rank) => {
                    proof {
                        lemma_pair_size_fits(s1, l as int, nx as int);
                    }
                    let size = byte_len(&symbols[l]) + byte_len(&symbols[nx]);
                    cands.push(MergeCandidate { rank, left: l, right: nx, size });
                    proof {
                        lemma_last_index_of(merges, rule_text(s1[l as int], s1[nx as int]));
                        assert(cands@.last() == cand_of(merges, s1, l as int, nx as int));
                        assert forall|x: MergeCandidate| after_prev.contains(x) implies #[trigger] cands@.contains(
                            x,
                        ) by {
                            assert(cands@ == after_prev.push(cands@.last()));
                            lemma_contains_push(after_prev, cands@.last(), x);
                        }
                    }
                },
                None => {},
            }
        }
        proof {
            assert forall|j: int| 0 <= j < cands@.len() implies {
                let c = #[trigger] cands@[j];
                &&& c.left < c.right < s1.len()
                &&& between_empty(s1, c.left as int, c.right as int)
            } by {
                if j < removed.len() {
                    assert(cands@[j] == removed[j]);
                } else if j < after_prev.len() {
                    assert(cands@[j] == after_prev[j]);
                }
            }
            lemma_cover_after_merge(
                merges,
                s0,
                l as int,
                r as int,
                p as int,
                nx as int,
                removed,
                cands@,
            );
        }
    }
}

impl BpeTokenizer {
    /// Maps a word's bytes onto single-character symbols and merges them
    /// greedily (lowest rank first; ties: the wider pair, then the leftmost);
    /// returns the ids of the resulting symbols.
    pub fn bpe_tokenize_word(&self, word: &str, byte_to_char: &[char; 256]) -> (ids: Vec<u32>)
        requires
            self.wf(),
            byte_to_char@ == byte_char_table(),
            word.spec_bytes().len() <= isize::MAX,
        ensures
            ids@ == word_ids(self.vocab(), self.merge_rules(), word.spec_bytes()),
    {
        let bytes = word.as_bytes();
        let n = bytes.len();
        let ghost merges = self.merge_rules();
        let ghost vocab = self.vocab();
        let ghost init = initial_symbols(bytes@);
        let mut symbols: Vec<String> = Vec::new();
        let mut i: usize = 0;
        while i < n
            invariant
                i <= n,
                n == bytes@.len(),
                n <= isize::MAX,
                byte_to_char@ == byte_char_table(),
                init == initial_symbols(bytes@),
                texts(symbols@) == init.subrange(0, i as int),
                char_total(texts(symbols@)) == i,
                count_nonempty(texts(symbols@)) == i,
            decreases n - i,
        {
            let ghost before = texts(symbols@);
            let mut sym = String::new();
            push_char(&mut sym, byte_to_char[bytes[i] as usize]);
            symbols.push(sym);
            proof {
                assert(texts(symbols@) =~= before.push(seq![byte_char(bytes@[i as int])]));
                assert(texts(symbols@).drop_last() =~= before);
                assert(init.subrange(0, i + 1) =~= init.subrange(0, i as int).push(init[i as int]));
            }
            i = i + 1;
        }
        proof {
            assert(init.subrange(0, n as int) =~= init);
            assert forall|a: int, k: int| 0 <= a < init.len() && 0 <= k < init[a].len() implies (
            #[trigger] init[a][k] as u32) < 0x800 by {
                lemma_gpt2_code_roundtrip(bytes@[a]);
            }
        }
        // Candidates for every adjacent pair that a rule merges.
        let mut cands: Vec<MergeCandidate> = Vec::new();
        let mut i: usize = 0;
        while i + 1 < n
            invariant
                self.wf(),
                merges == self.merge_rules(),
                n == bytes@.len(),
                n <= isize::MAX,
                texts(symbols@) == init,
                init.len() == n,
                forall|a: int| 0 <= a < n ==> (#[trigger] init[a]).len() == 1,
                small_chars(init),
                char_total(init) == n,
                i <= n,
                cands_well_placed(cands@, init),
                forall|l: int, r: int|
                    #[trigger] is_merge_pair(merges, init, l, r) && l < i ==> cands@.contains(
                        cand_of(merges, init, l, r),
                    ),
            decreases n - i,
        {
            let ghost old_cands = cands@;
            match self.rank_of(&symbols[i], &symbols[i + 1]) {
                Some(rank) => {
                    proof {
                        lemma_pair_size_fits(init, i as int, i + 1);
                    }
                    let size = byte_len(&symbols[i]) + byte_len(&symbols[i + 1]);
                    cands.push(MergeCandidate { rank, left: i, right: i + 1, size });
                    proof {
                        lemma_last_index_of(merges, rule_text(init[i as int], init[i + 1]));
                        assert(cands@.last() == cand_of(merges, init, i as int, i + 1));
                    }
                },
                None => {},
            }
            proof {
                assert forall|l: int, r: int|
                    #[trigger] is_merge_pair(merges, init, l, r) && l < i + 1 implies cands@.contains(
                        cand_of(merges, init, l, r),
                    ) by {
                    if r > l + 1 {
                        assert(init[l + 1].len() == 0);
                    }
                    if l < i {
                        if cands@.len() > old_cands.len() {
                            assert(cands@ == old_cands.push(cands@.last()));
                            lemma_contains_push(old_cands, cands@.last(), cand_of(merges, init, l, r));
                        }
                    } else {
                        assert(cands@[cands@.len() - 1] == cand_of(merges, init, l, r));
                    }
                }
            }
            i = i + 1;
        }
        proof {
            assert forall|l: int, r: int| #[trigger] is_merge_pair(merges, init, l, r) implies l < i by {}
        }
        // Greedy merging: extract the first candidate; merge it when it still
        // describes the symbols as they stand.
        let ghost mut done: nat = 0;
        while cands.len() > 0
            invariant
                self.wf(),
                merges == self.merge_rules(),
                n == bytes@.len(),
                n <= isize::MAX,
                init == initial_symbols(bytes@),
                texts(symbols@).len() == n,
                small_chars(texts(symbols@)),
                char_total(texts(symbols@)) == n,
                count_nonempty(texts(symbols@)) + done == n,
                bpe_steps(merges, init, n as nat) == bpe_steps(
                    merges,
                    texts(symbols@),
                    (n - done) as nat,
                ),
                cands_well_placed(cands@, texts(symbols@)),
                cands_cover(merges, cands@, texts(symbols@)),
            decreases cands@.len() + 2 * count_nonempty(texts(symbols@)),
        {
            let ghost s0 = texts(symbols@);
            let ghost c0 = cands@;
            let idx = first_candidate(&cands);
            let cand = cands.remove(idx);
            let l = cand.left;
            let r = cand.right;
            let mut valid = false;
            if !symbols[l].as_str().is_empty() && !symbols[r].as_str().is_empty() {
                proof {
                    lemma_pair_size_fits(s0, l as int, r as int);
                }
                let current_size = byte_len(&symbols[l]) + byte_len(&symbols[r]);
                if current_size == cand.size {
                    match self.rank_of(&symbols[l], &symbols[r]) {
                        Some(rank) => {
                            valid = rank == cand.rank;
                        },
                        None => {},
                    }
                }
            }
            if !valid {
                proof {
                    assert forall|a: int, b: int| #[trigger]
                        is_merge_pair(merges, s0, a, b) implies cands@.contains(
                        cand_of(merges, s0, a, b),
                    ) by {
                        lemma_last_index_of(merges, rule_text(s0[a], s0[b]));
                        lemma_contains_remove(c0, idx as int, cand_of(merges, s0, a, b));
                    }
                }
            } else {
                proof {
                    lemma_last_index_of(merges, rule_text(s0[l as int], s0[r as int]));
                    assert(is_merge_pair(merges, s0, l as int, r as int));
                    assert forall|a: int, b: int| #[trigger]
                        is_merge_pair(merges, s0, a, b) implies merge_order_le(
                        pair_rank(merges, s0, l as int, r as int),
                        l as int,
                        r as int,
                        pair_rank(merges, s0, a, b),
                        a,
                        b,
                    ) by {
                        lemma_last_index_of(merges, rule_text(s0[a], s0[b]));
                        let w = cand_of(merges, s0, a, b);
                        let j = choose|j: int| 0 <= j < c0.len() && c0[j] == w;
                        assert(cand_le(c0[idx as int], c0[j]));
                    }
                    assert(is_next_merge(merges, s0, l as int, r as int));
                    lemma_merge_counts(s0, l as int, r as int);
                    lemma_bpe_step(merges, s0, l as int, r as int, (n - done) as nat);
                }
                proof {
                    assert forall|a: int, b: int|
                        is_merge_pair(merges, s0, a, b) && a != l implies #[trigger] cands@.contains(
                        cand_of(merges, s0, a, b),
                    ) by {
                        lemma_last_index_of(merges, rule_text(s0[a], s0[b]));
                        lemma_contains_remove(c0, idx as int, cand_of(merges, s0, a, b));
                    }
                    assert forall|j: int| 0 <= j < cands@.len() implies {
                        let c = #[trigger] cands@[j];
                        &&& c.left < c.right < s0.len()
                        &&& between_empty(s0, c.left as int, c.right as int)
                    } by {
                        if j < idx {
                            assert(cands@[j] == c0[j]);
                        } else {
                            assert(cands@[j] == c0[j + 1]);
                        }
                    }
                }
                self.apply_merge(&mut symbols, &mut cands, l, r);
                proof {
                    done = done + 1;
                }
            }
        }
        proof {
            lemma_bpe_done(merges, texts(symbols@), (n - done) as nat);
        }
        // The ids of the merged symbols.
        let ghost syms = texts(symbols@);
        let mut out: Vec<u32> = Vec::new();
        let mut i: usize = 0;
        while i < n
            invariant
                self.wf(),
                vocab == self.vocab(),
                byte_to_char@ == byte_char_table(),
                syms == texts(symbols@),
                syms.len() == n,
                i <= n,
                out@ == symbols_ids(vocab, syms.subrange(0, i as int)),
            decreases n - i,
        {
            let ghost base = out@;
            if !symbols[i].as_str().is_empty() {
                match self.lookup_token(&symbols[i]) {
                    Some(id) => {
                        out.push(id);
                    },
                    None => {
                        let sb = symbols[i].as_str().as_bytes();
                        let mut k: usize = 0;
                        while k < sb.len()
                            invariant
                                self.wf(),
                                vocab == self.vocab(),
                                byte_to_char@ == byte_char_table(),
                                k <= sb@.len(),
                                out@ == base + byte_pieces(vocab, sb@.subrange(0, k as int)),
                            decreases sb@.len() - k,
                        {
                            let mut piece = String::new();
                            push_char(&mut piece, byte_to_char[sb[k] as usize]);
                            match self.lookup_token(&piece) {
                                Some(id) => {
                                    out.push(id);
                                },
                                None => {},
                            }
                            proof {
                                let pre = sb@.subrange(0, k as int);
                                let ext = sb@.subrange(0, k + 1);
                                assert(ext.drop_last() =~= pre);
                                assert(piece@ =~= seq![byte_char(ext.last())]);
                                assert(out@ =~= base + byte_pieces(vocab, ext));
                            }
                            k = k + 1;
                        }
                        proof {
                            assert(sb@.subrange(0, sb@.len() as int) =~= sb@);
                        }
                    },
                }
            }
            proof {
                let pre = syms.subrange(0, i as int);
                let ext = syms.subrange(0, i + 1);
                assert(ext.drop_last() =~= pre);
                assert(ext.last() == syms[i as int]);
                assert(out@ =~= symbols_ids(vocab, pre) + symbol_ids(vocab, syms[i as int]));
            }
            i = i + 1;
        }
        proof {
            assert(syms.subrange(0, n as int) =~= syms);
        }
        out
    }
}

// ---------------------------------------------------------------------------
// Encoding and decoding
// ---------------------------------------------------------------------------

/// `j` is the index of the first non-ASCII character of `s`.
pub open spec fn first_non_ascii_at(s: Seq<char>, j: int) -> bool {
    &&& 0 <= j < s.len()
    &&& is_non_ascii(s[j])
    &&& forall|k: int| 0 <= k < j ==> !is_non_ascii(#[trigger] s[k])
}

/// Every character of `s` is ASCII.
pub open spec fn all_ascii(s: Seq<char>) -> bool {
    forall|k: int| 0 <= k < s.len() ==> !is_non_ascii(#[trigger] s[k])
}

/// The ids of ASCII text: the ids of its words, in order.
pub open spec fn text_ids(vocab: Seq<Seq<char>>, merges: Seq<Seq<char>>, s: Seq<char>) -> Seq<u32> {
    words_ids(vocab, merges, split_words(s))
}

/// The words of ASCII text are ASCII and no longer than the text.
proof fn lemma_words_from_ascii(s: Seq<char>, i: int)
    requires
        all_ascii(s),
        0 <= i <= s.len(),
    ensures
        forall|k: int|
            0 <= k < words_from(s, i).len() ==> all_ascii(#[trigger] words_from(s, i)[k])
                && words_from(s, i)[k].len() <= s.len(),
    decreases s.len() - i,
{
    if i < s.len() {
        let m = word_len(s, i);
        lemma_word_len_bounded(s, i);
        lemma_words_from_ascii(s, i + m);
        let w = words_from(s, i);
        assert forall|k: int| 0 <= k < w.len() implies all_ascii(#[trigger] w[k]) && w[k].len()
            <= s.len() by {
            if k == 0 {
                assert(w[k] == s.subrange(i, i + m));
                assert forall|c: int| 0 <= c < w[k].len() implies !is_non_ascii(#[trigger] w[k][c]) by {
                    assert(w[k][c] == s[i + c]);
                }
            } else {
                assert(w[k] == words_from(s, i + m)[k - 1]);
            }
        }
    }
}

/// The UTF-8 bytes of an ASCII text are its characters, one byte each.
proof fn lemma_ascii_utf8_len(s: Seq<char>)
    requires
        all_ascii(s),
    ensures
        vstd::utf8::encode_utf8(s).len() == s.len(),
{
    assert(vstd::utf8::is_ascii_chars(s)) by {
        assert forall|i: int| 0 <= i < s.len() implies '\0' <= #[trigger] s[i] <= '\u{7f}' by {
            assert(!is_non_ascii(s[i]));
        }
    }
    vstd::utf8::is_ascii_chars_encode_utf8(s);
}

/// The bytes that one character of a token text stands for: a character of
/// the GPT-2 alphabet gives its byte, any other its own UTF-8 bytes.
pub open spec fn char_bytes(c: char) -> Seq<u8> {
    if is_gpt2_code(c as u32) {
        seq![gpt2_byte(c as u32)]
    } else {
        vstd::utf8::encode_utf8(seq![c])
    }
}

/// The bytes that a token text stands for.
pub open spec fn token_bytes(t: Seq<char>) -> Seq<u8>
    decreases t.len(),
{
    if t.len() == 0 {
        seq![]
    } else {
        token_bytes(t.drop_last()) + char_bytes(t.last())
    }
}

/// The bytes that a list of known ids stands for.
pub open spec fn ids_bytes(vocab: Seq<Seq<char>>, ids: Seq<u32>) -> Seq<u8>
    decreases ids.len(),
{
    if ids.len() == 0 {
        seq![]
    } else {
        ids_bytes(vocab, ids.drop_last()) + token_bytes(vocab[ids.last() as int])
    }
}

/// Every id names a token of the vocabulary.
pub open spec fn all_known(vocab: Seq<Seq<char>>, ids: Seq<u32>) -> bool {
    forall|k: int| 0 <= k < ids.len() ==> (#[trigger] ids[k] as int) < vocab.len()
}

/// `j` is the index of the first id outside the vocabulary.
pub open spec fn first_unknown_at(vocab: Seq<Seq<char>>, ids: Seq<u32>, j: int) -> bool {
    &&& 0 <= j < ids.len()
    &&& ids[j] as int >= vocab.len()
    &&& forall|k: int| 0 <= k < j ==> (#[trigger] ids[k] as int) < vocab.len()
}

/// The UTF-8 encoding of `c`: one byte below U+0080, then two, three or
/// four bytes, a leading byte followed by continuation bytes of six bits each.
fn utf8_of_char(c: char) -> (b: Vec<u8>)
    ensures
        b@ == vstd::utf8::encode_utf8(seq![c]),
{
    let u = c as u32;
    proof {
        vstd::utf8::char_is_scalar(c);
    }
    let mut v: Vec<u8> = Vec::new();
    if u <= 0x7F {
        v.push((u & 0x7F) as u8);
    } else if u <= 0x7FF {
        v.push(0xC0 | ((u >> 6) & 0x1F) as u8);
        v.push(0x80 | (u & 0x3F) as u8);
    } else if u <= 0xFFFF {
        v.push(0xE0 | ((u >> 12) & 0x0F) as u8);
        v.push(0x80 | ((u >> 6) & 0x3F) as u8);
        v.push(0x80 | (u & 0x3F) as u8);
    } else {
        v.push(0xF0 | ((u >> 18) & 0x7) as u8);
        v.push(0x80 | ((u >> 12) & 0x3F) as u8);
        v.push(0x80 | ((u >> 6) & 0x3F) as u8);
        v.push(0x80 | (u & 0x3F) as u8);
    }
    proof {
        let s = seq![c];
        assert(s.drop_first() =~= Seq::<char>::empty());
        assert(vstd::utf8::encode_utf8(s.drop_first()) =~= Seq::<u8>::empty());
        assert(vstd::utf8::encode_utf8(s) == vstd::utf8::encode_scalar(u) + vstd::utf8::encode_utf8(
            s.drop_first(),
        ));
        assert(v@ =~= vstd::utf8::encode_utf8(s));
    }
    v
}

/// Calls `String::from_utf8`, which succeeds exactly on valid UTF-8 and then
/// holds the decoded characters.
#[verifier::external_body]
fn string_from_utf8(bytes: Vec<u8>) -> (r: Option<String>)
    ensures
        r is Some <==> vstd::utf8::valid_utf8(bytes@),
        r matches Some(s) ==> s@ == vstd::utf8::decode_utf8(bytes@),
{
    String::from_utf8(bytes).ok()
}

impl BpeTokenizer {
    /// Encodes ASCII text into token ids.
    ///
    /// Fails with `NonAsciiInput` and the index of the first non-ASCII
    /// character.
    pub fn encode(&self, text: &str) -> (r: Result<Vec<u32>, EngineError>)
        requires
            self.wf(),
            text.spec_bytes().len() <= isize::MAX,
        ensures
            match r {
                Err(e) => e matches EngineError::NonAsciiInput(j) && first_non_ascii_at(
                    text@,
                    j as int,
                ),
                Ok(ids) => all_ascii(text@) && ids@ == text_ids(
                    self.vocab(),
                    self.merge_rules(),
                    text@,
                ),
            },
    {
        let words = match pre_split(text) {
            Ok(w) => w,
            Err(i) => {
                return Err(EngineError::NonAsciiInput(i));
            },
        };
        let ghost ws = texts(words@);
        proof {
            assert(ws =~= words@.map_values(|w: String| w@));
            lemma_words_from_ascii(text@, 0);
            lemma_ascii_utf8_len(text@);
            vstd::string::is_ascii_spec_bytes(text);
        }
        let table = build_byte_to_char_table();
        let mut out: Vec<u32> = Vec::new();
        let mut i: usize = 0;
        while i < words.len()
            invariant
                self.wf(),
                table@ == byte_char_table(),
                ws == texts(words@),
                ws == split_words(text@),
                text@.len() <= isize::MAX,
                forall|k: int|
                    0 <= k < ws.len() ==> all_ascii(#[trigger] ws[k]) && ws[k].len() <= text@.len(),
                i <= ws.len(),
                out@ == words_ids(self.vocab(), self.merge_rules(), ws.subrange(0, i as int)),
            decreases ws.len() - i,
        {
            proof {
                assert(ws[i as int] == words@[i as int]@);
                lemma_ascii_utf8_len(ws[i as int]);
            }
            let mut ids = self.bpe_tokenize_word(words[i].as_str(), &table);
            out.append(&mut ids);
            proof {
                let pre = ws.subrange(0, i as int);
                let ext = ws.subrange(0, i + 1);
                assert(ext.drop_last() =~= pre);
                assert(ext.last() == ws[i as int]);
            }
            i = i + 1;
        }
        proof {
            assert(ws.subrange(0, ws.len() as int) =~= ws);
        }
        Ok(out)
    }

    /// Decodes token ids back into a string.
    ///
    /// Fails with `UnknownToken` at the first id outside the vocabulary, and
    /// with `InvalidUtf8` when the bytes the tokens stand for are not UTF-8.
    pub fn decode(&self, ids: &[u32]) -> (r: Result<String, EngineError>)
        requires
            self.wf(),
        ensures
            forall|j: int|
                first_unknown_at(self.vocab(), ids@, j) ==> (r matches Err(
                    EngineError::UnknownToken(id),
                ) && id == ids@[j]),
            all_known(self.vocab(), ids@) ==> {
                let bytes = ids_bytes(self.vocab(), ids@);
                &&& vstd::utf8::valid_utf8(bytes) ==> (r matches Ok(s) && s@
                    == vstd::utf8::decode_utf8(bytes))
                &&& !vstd::utf8::valid_utf8(bytes) ==> r matches Err(EngineError::InvalidUtf8)
            },
    {
        let ghost vocab = self.vocab();
        let mut bytes: Vec<u8> = Vec::new();
        let mut i: usize = 0;
        while i < ids.len()
            invariant
                self.wf(),
                vocab == self.vocab(),
                i <= ids@.len(),
                all_known(vocab, ids@.subrange(0, i as int)),
                bytes@ == ids_bytes(vocab, ids@.subrange(0, i as int)),
            decreases ids@.len() - i,
        {
            let id = ids[i];
            if id as usize >= self.tokens.len() {
                proof {
                    assert forall|j: int| first_unknown_at(vocab, ids@, j) implies j == i by {
                        if j < i {
                            assert(ids@.subrange(0, i as int)[j] == ids@[j]);
                        }
                    }
                }
                return Err(EngineError::UnknownToken(id));
            }
            let tok = chars_of(self.tokens[id as usize].as_str());
            let ghost base = bytes@;
            let ghost t = vocab[id as int];
            let mut k: usize = 0;
            while k < tok.len()
                invariant
                    self.wf(),
                    k <= tok@.len(),
                    tok@ == t,
                    bytes@ == base + token_bytes(t.subrange(0, k as int)),
                decreases tok@.len() - k,
            {
                let c = tok[k];
                let cp = c as u32;
                match self.byte_map.get(&cp) {
                    Some(b) => {
                        bytes.push(*b);
                    },
                    None => {
                        let mut enc = utf8_of_char(c);
                        bytes.append(&mut enc);
                    },
                }
                proof {
                    let pre = t.subrange(0, k as int);
                    let ext = t.subrange(0, k + 1);
                    assert(ext.drop_last() =~= pre);
                    assert(ext.last() == c);
                    assert(bytes@ =~= base + token_bytes(ext));
                }
                k = k + 1;
            }
            proof {
                assert(t.subrange(0, t.len() as int) =~= t);
                let pre = ids@.subrange(0, i as int);
                let ext = ids@.subrange(0, i + 1);
                assert(ext.drop_last() =~= pre);
                assert(ext.last() == id);
                assert(bytes@ =~= ids_bytes(vocab, ext));
                assert forall|k: int| 0 <= k < ext.len() implies (#[trigger] ext[k] as int) < vocab.len() by {
                    if k < i {
                        assert(ext[k] == pre[k]);
                    }
                }
            }
            i = i + 1;
        }
        proof {
            assert(ids@.subrange(0, ids@.len() as int) =~= ids@);
            assert forall|j: int| !first_unknown_at(vocab, ids@, j) by {}
        }
        match string_from_utf8(bytes) {
            Some(s) => Ok(s),
            None => Err(EngineError::InvalidUtf8),
        }
    }
}

// ---------------------------------------------------------------------------
// Decoding what was encoded gives the text back
// ---------------------------------------------------------------------------

/// Every byte's character is a token of the vocabulary.
pub open spec fn has_byte_tokens(vocab: Seq<Seq<char>>) -> bool {
    forall|b: u8| #[trigger] token_id(vocab, seq![byte_char(b)]) is Some
}

/// What every merge rule produces is a token of the vocabulary.
pub open spec fn has_merge_results(vocab: Seq<Seq<char>>, merges: Seq<Seq<char>>) -> bool {
    forall|a: Seq<char>, b: Seq<char>|
        #[trigger] merge_rank(merges, a, b) is Some ==> token_id(vocab, a + b) is Some
}

/// Every non-empty symbol is a token of the vocabulary.
pub open spec fn symbols_in_vocab(vocab: Seq<Seq<char>>, syms: Seq<Seq<char>>) -> bool {
    forall|i: int| 0 <= i < syms.len() && (#[trigger] syms[i]).len() > 0 ==> token_id(vocab, syms[i]) is Some
}

proof fn lemma_flatten_all_empty(s: Seq<Seq<char>>)
    requires
        forall|i: int| 0 <= i < s.len() ==> (#[trigger] s[i]).len() == 0,
    ensures
        s.flatten() =~= Seq::<char>::empty(),
    decreases s.len(),
{
    if s.len() > 0 {
        assert forall|i: int| 0 <= i < s.drop_first().len() implies (#[trigger] s.drop_first()[i]).len() == 0 by {
            assert(s.drop_first()[i] == s[i + 1]);
        }
        lemma_flatten_all_empty(s.drop_first());
        assert(s[0].len() == 0);
    }
}

/// A merge does not change the text that the symbols spell.
proof fn lemma_merged_flatten(syms: Seq<Seq<char>>, l: int, r: int)
    requires
        0 <= l < r < syms.len(),
        between_empty(syms, l, r),
    ensures
        merged(syms, l, r).flatten() == syms.flatten(),
{
    let m = merged(syms, l, r);
    let n = syms.len() as int;
    let a = syms.subrange(0, l);
    let mid = syms.subrange(l + 1, r);
    let z = syms.subrange(r + 1, n);
    assert(syms =~= a + seq![syms[l]] + mid + seq![syms[r]] + z);
    assert(m =~= a + seq![syms[l] + syms[r]] + mid + seq![Seq::<char>::empty()] + z);
    assert forall|i: int| 0 <= i < mid.len() implies (#[trigger] mid[i]).len() == 0 by {
        assert(mid[i] == syms[l + 1 + i]);
    }
    lemma_flatten_all_empty(mid);
    let one = seq![syms[l]];
    let two = seq![syms[r]];
    let joined = seq![syms[l] + syms[r]];
    let none = seq![Seq::<char>::empty()];
    one.lemma_flatten_singleton();
    two.lemma_flatten_singleton();
    joined.lemma_flatten_singleton();
    none.lemma_flatten_singleton();
    vstd::seq_lib::lemma_flatten_concat(a + one + mid + two, z);
    vstd::seq_lib::lemma_flatten_concat(a + one + mid, two);
    vstd::seq_lib::lemma_flatten_concat(a + one, mid);
    vstd::seq_lib::lemma_flatten_concat(a, one);
    vstd::seq_lib::lemma_flatten_concat(a + joined + mid + none, z);
    vstd::seq_lib::lemma_flatten_concat(a + joined + mid, none);
    vstd::seq_lib::lemma_flatten_concat(a + joined, mid);
    vstd::seq_lib::lemma_flatten_concat(a, joined);
    assert(m.flatten() =~= syms.flatten());
}

/// Greedy merging keeps the spelled text and, when every merge result is a
/// token, keeps every symbol a token.
proof fn lemma_bpe_steps_keep(
    vocab: Seq<Seq<char>>,
    merges: Seq<Seq<char>>,
    syms: Seq<Seq<char>>,
    fuel: nat,
)
    requires
        has_merge_results(vocab, merges),
        symbols_in_vocab(vocab, syms),
    ensures
        bpe_steps(merges, syms, fuel).flatten() == syms.flatten(),
        symbols_in_vocab(vocab, bpe_steps(merges, syms, fuel)),
    decreases fuel,
{
    if fuel > 0 && exists|l: int, r: int| is_next_merge(merges, syms, l, r) {
        let (l, r) = choose|l: int, r: int| is_next_merge(merges, syms, l, r);
        let m = merged(syms, l, r);
        lemma_merged_flatten(syms, l, r);
        assert(merge_rank(merges, syms[l], syms[r]) is Some);
        assert forall|i: int| 0 <= i < m.len() && (#[trigger] m[i]).len() > 0 implies token_id(
            vocab,
            m[i],
        ) is Some by {
            if i != l && i != r {
                assert(m[i] == syms[i]);
            }
        }
        lemma_bpe_steps_keep(vocab, merges, m, (fuel - 1) as nat);
    }
}

proof fn lemma_token_bytes_concat(a: Seq<char>, b: Seq<char>)
    ensures
        token_bytes(a + b) == token_bytes(a) + token_bytes(b),
    decreases b.len(),
{
    if b.len() == 0 {
        assert(a + b =~= a);
        assert(token_bytes(a) + token_bytes(b) =~= token_bytes(a));
    } else {
        lemma_token_bytes_concat(a, b.drop_last());
        assert((a + b).drop_last() =~= a + b.drop_last());
        assert((a + b).last() == b.last());
        assert(token_bytes(a) + token_bytes(b) =~= token_bytes(a) + token_bytes(b.drop_last())
            + char_bytes(b.last()));
    }
}

proof fn lemma_ids_bytes_concat(vocab: Seq<Seq<char>>, a: Seq<u32>, b: Seq<u32>)
    ensures
        ids_bytes(vocab, a + b) == ids_bytes(vocab, a) + ids_bytes(vocab, b),
        all_known(vocab, a) && all_known(vocab, b) ==> all_known(vocab, a + b),
    decreases b.len(),
{
    if b.len() == 0 {
        assert(a + b =~= a);
        assert(ids_bytes(vocab, a) + ids_bytes(vocab, b) =~= ids_bytes(vocab, a));
    } else {
        lemma_ids_bytes_concat(vocab, a, b.drop_last());
        assert((a + b).drop_last() =~= a + b.drop_last());
        assert((a + b).last() == b.last());
        assert(ids_bytes(vocab, a) + ids_bytes(vocab, b) =~= ids_bytes(vocab, a) + ids_bytes(
            vocab,
            b.drop_last(),
        ) + token_bytes(vocab[b.last() as int]));
    }
    if all_known(vocab, a) && all_known(vocab, b) {
        assert forall|k: int| 0 <= k < (a + b).len() implies ((#[trigger] (a + b)[k]) as int) < vocab.len() by {
            if k >= a.len() {
                assert((a + b)[k] == b[k - a.len()]);
            }
        }
    }
}

/// The ids of symbols that are all tokens stand for the bytes of the text
/// they spell.
proof fn lemma_symbols_ids_bytes(vocab: Seq<Seq<char>>, syms: Seq<Seq<char>>)
    requires
        vocab.len() <= u32::MAX,
        symbols_in_vocab(vocab, syms),
    ensures
        all_known(vocab, symbols_ids(vocab, syms)),
        ids_bytes(vocab, symbols_ids(vocab, syms)) == token_bytes(syms.flatten()),
    decreases syms.len(),
{
    if syms.len() > 0 {
        let init = syms.drop_last();
        let x = syms.last();
        assert forall|i: int| 0 <= i < init.len() && (#[trigger] init[i]).len() > 0 implies token_id(
            vocab,
            init[i],
        ) is Some by {
            assert(init[i] == syms[i]);
        }
        lemma_symbols_ids_bytes(vocab, init);
        assert(init.push(x) =~= syms);
        init.lemma_flatten_push(x);
        lemma_token_bytes_concat(init.flatten(), x);
        let own = symbol_ids(vocab, x);
        if x.len() > 0 {
            assert(syms[syms.len() - 1] == x);
            let id = token_id(vocab, x)->0;
            lemma_last_index_of(vocab, x);
            assert(own == seq![id as u32]);
            assert(own.drop_last() =~= Seq::<u32>::empty());
            assert(ids_bytes(vocab, own.drop_last()) =~= Seq::<u8>::empty());
            assert(own.last() as int == id);
            assert(vocab[own.last() as int] == x);
            assert(ids_bytes(vocab, own) =~= token_bytes(x));
        } else {
            assert(x =~= Seq::<char>::empty());
            assert(token_bytes(x) =~= Seq::<u8>::empty());
        }
        lemma_ids_bytes_concat(vocab, symbols_ids(vocab, init), own);
    }
}

/// The characters of a word's bytes stand for those bytes.
proof fn lemma_initial_symbols_flatten(bytes: Seq<u8>)
    ensures
        token_bytes(initial_symbols(bytes).flatten()) == bytes,
    decreases bytes.len(),
{
    let init = initial_symbols(bytes);
    if bytes.len() > 0 {
        let b = bytes.last();
        lemma_initial_symbols_flatten(bytes.drop_last());
        assert(initial_symbols(bytes.drop_last()).push(seq![byte_char(b)]) =~= init);
        initial_symbols(bytes.drop_last()).lemma_flatten_push(seq![byte_char(b)]);
        lemma_token_bytes_concat(initial_symbols(bytes.drop_last()).flatten(), seq![byte_char(b)]);
        lemma_gpt2_code_roundtrip(b);
        let one = seq![byte_char(b)];
        assert((byte_char(b) as u32) == gpt2_code(b));
        assert(char_bytes(byte_char(b)) =~= seq![b]);
        assert(one.drop_last() =~= Seq::<char>::empty());
        assert(token_bytes(one.drop_last()) =~= Seq::<u8>::empty());
        assert(one.last() == byte_char(b));
        assert(token_bytes(one) =~= seq![b]);
        assert(bytes.drop_last().push(b) =~= bytes);
    } else {
        assert(init.flatten() =~= Seq::<char>::empty());
        assert(token_bytes(init.flatten()) =~= bytes);
    }
}

/// When every byte's character is a token, so is every initial symbol.
proof fn lemma_initial_symbols_bytes(vocab: Seq<Seq<char>>, bytes: Seq<u8>)
    requires
        has_byte_tokens(vocab),
    ensures
        symbols_in_vocab(vocab, initial_symbols(bytes)),
        token_bytes(initial_symbols(bytes).flatten()) == bytes,
{
    let init = initial_symbols(bytes);
    assert forall|i: int| 0 <= i < init.len() && (#[trigger] init[i]).len() > 0 implies token_id(
        vocab,
        init[i],
    ) is Some by {
        assert(token_id(vocab, seq![byte_char(bytes[i])]) is Some);
    }
    lemma_initial_symbols_flatten(bytes);
}

/// The ids of a word stand for the word's bytes.
proof fn lemma_word_ids_bytes(vocab: Seq<Seq<char>>, merges: Seq<Seq<char>>, bytes: Seq<u8>)
    requires
        vocab.len() <= u32::MAX,
        has_byte_tokens(vocab),
        has_merge_results(vocab, merges),
    ensures
        all_known(vocab, word_ids(vocab, merges, bytes)),
        ids_bytes(vocab, word_ids(vocab, merges, bytes)) == bytes,
{
    lemma_initial_symbols_bytes(vocab, bytes);
    lemma_bpe_steps_keep(vocab, merges, initial_symbols(bytes), bytes.len());
    lemma_symbols_ids_bytes(vocab, merged_symbols(merges, bytes));
}

proof fn lemma_encode_utf8_concat(a: Seq<char>, b: Seq<char>)
    ensures
        vstd::utf8::encode_utf8(a + b) == vstd::utf8::encode_utf8(a) + vstd::utf8::encode_utf8(b),
    decreases a.len(),
{
    if a.len() == 0 {
        assert(a + b =~= b);
        assert(vstd::utf8::encode_utf8(a) =~= Seq::<u8>::empty());
        assert(vstd::utf8::encode_utf8(a) + vstd::utf8::encode_utf8(b) =~= vstd::utf8::encode_utf8(b));
    } else {
        lemma_encode_utf8_concat(a.drop_first(), b);
        assert((a + b).drop_first() =~= a.drop_first() + b);
        assert((a + b)[0] == a[0]);
        assert(vstd::utf8::encode_utf8(a + b) =~= vstd::utf8::encode_scalar(a[0] as u32)
            + vstd::utf8::encode_utf8(a.drop_first()) + vstd::utf8::encode_utf8(b));
    }
}

/// The ids of a list of words stand for the UTF-8 bytes of the words put together.
proof fn lemma_words_ids_bytes(vocab: Seq<Seq<char>>, merges: Seq<Seq<char>>, ws: Seq<Seq<char>>)
    requires
        vocab.len() <= u32::MAX,
        has_byte_tokens(vocab),
        has_merge_results(vocab, merges),
    ensures
        all_known(vocab, words_ids(vocab, merges, ws)),
        ids_bytes(vocab, words_ids(vocab, merges, ws)) == vstd::utf8::encode_utf8(ws.flatten()),
    decreases ws.len(),
{
    if ws.len() == 0 {
        assert(ws.flatten() =~= Seq::<char>::empty());
        assert(vstd::utf8::encode_utf8(ws.flatten()) =~= Seq::<u8>::empty());
    } else {
        let init = ws.drop_last();
        let w = ws.last();
        lemma_words_ids_bytes(vocab, merges, init);
        lemma_word_ids_bytes(vocab, merges, vstd::utf8::encode_utf8(w));
        lemma_ids_bytes_concat(
            vocab,
            words_ids(vocab, merges, init),
            word_ids(vocab, merges, vstd::utf8::encode_utf8(w)),
        );
        assert(init.push(w) =~= ws);
        init.lemma_flatten_push(w);
        lemma_encode_utf8_concat(init.flatten(), w);
    }
}

/// Decoding what encoding produced gives the text back: when every byte's
/// character and every merge result is a token, the ids of a text name
/// tokens of the vocabulary and stand for exactly the text's UTF-8 bytes,
/// which decode to the text.
pub proof fn lemma_decode_after_encode(vocab: Seq<Seq<char>>, merges: Seq<Seq<char>>, text: Seq<char>)
    requires
        vocab.len() <= u32::MAX,
        has_byte_tokens(vocab),
        has_merge_results(vocab, merges),
    ensures
        all_known(vocab, text_ids(vocab, merges, text)),
        ids_bytes(vocab, text_ids(vocab, merges, text)) == vstd::utf8::encode_utf8(text),
        vstd::utf8::valid_utf8(ids_bytes(vocab, text_ids(vocab, merges, text))),
        vstd::utf8::decode_utf8(ids_bytes(vocab, text_ids(vocab, merges, text))) == text,
{
    lemma_split_words_cover(text);
    lemma_words_ids_bytes(vocab, merges, split_words(text));
    vstd::utf8::encode_utf8_valid_utf8(text);
    vstd::utf8::encode_utf8_decode_utf8(text);
}

/// Every character of `t` is printable ASCII (`!` to `~`), which the GPT-2
/// alphabet keeps as itself.
pub open spec fn printable_ascii(t: Seq<char>) -> bool {
    forall|i: int| 0 <= i < t.len() ==> 0x21 <= (#[trigger] t[i]) as u32 <= 0x7E
}

/// The characters that stand for the bytes of ASCII text `text`, in order.
pub open spec fn byte_alphabet(text: Seq<char>) -> Seq<char> {
    text.map_values(|c: char| byte_char(c as u8))
}

/// Every character of `t` occurs in `alpha`.
pub open spec fn spelled_from(t: Seq<char>, alpha: Seq<char>) -> bool {
    forall|i: int| 0 <= i < t.len() ==> alpha.contains(#[trigger] t[i])
}

/// Every character of `alpha` is, on its own, a token of the vocabulary.
pub open spec fn has_alphabet_tokens(vocab: Seq<Seq<char>>, alpha: Seq<char>) -> bool {
    forall|i: int| 0 <= i < alpha.len() ==> token_id(vocab, seq![#[trigger] alpha[i]]) is Some
}

/// Every non-empty symbol is a token of the vocabulary or printable ASCII
/// text (whose byte fallback gives back its own bytes).
pub open spec fn symbols_recoverable(vocab: Seq<Seq<char>>, syms: Seq<Seq<char>>) -> bool {
    forall|i: int|
        0 <= i < syms.len() && (#[trigger] syms[i]).len() > 0 ==> token_id(vocab, syms[i]) is Some
            || printable_ascii(syms[i])
}

/// No merge that fires on a word of `text` leaves a symbol that is neither a
/// token nor printable ASCII: every symbol that greedy merging leaves in a
/// word is recoverable.
pub open spec fn fired_merges_recoverable(
    vocab: Seq<Seq<char>>,
    merges: Seq<Seq<char>>,
    text: Seq<char>,
) -> bool {
    forall|k: int|
        0 <= k < split_words(text).len() ==> symbols_recoverable(
            vocab,
            merged_symbols(merges, vstd::utf8::encode_utf8(#[trigger] split_words(text)[k])),
        )
}

/// A symbol spelled from `alpha` that is empty, a token, or printable ASCII.
spec fn recoverable(vocab: Seq<Seq<char>>, alpha: Seq<char>, sym: Seq<char>) -> bool {
    spelled_from(sym, alpha) && (sym.len() > 0 ==> token_id(vocab, sym) is Some || printable_ascii(
        sym,
    ))
}

spec fn all_recoverable(vocab: Seq<Seq<char>>, alpha: Seq<char>, syms: Seq<Seq<char>>) -> bool {
    forall|i: int| 0 <= i < syms.len() ==> recoverable(vocab, alpha, #[trigger] syms[i])
}

/// Greedy merging keeps the spelled text, and keeps every symbol spelled
/// from `alpha`.
proof fn lemma_bpe_steps_spelled(
    merges: Seq<Seq<char>>,
    alpha: Seq<char>,
    syms: Seq<Seq<char>>,
    fuel: nat,
)
    requires
        forall|i: int| 0 <= i < syms.len() ==> spelled_from(#[trigger] syms[i], alpha),
    ensures
        bpe_steps(merges, syms, fuel).flatten() == syms.flatten(),
        forall|i: int|
            0 <= i < bpe_steps(merges, syms, fuel).len() ==> spelled_from(
                #[trigger] bpe_steps(merges, syms, fuel)[i],
                alpha,
            ),
    decreases fuel,
{
    if fuel > 0 && exists|l: int, r: int| is_next_merge(merges, syms, l, r) {
        let (l, r) = choose|l: int, r: int| is_next_merge(merges, syms, l, r);
        let m = merged(syms, l, r);
        lemma_merged_flatten(syms, l, r);
        let a = syms[l];
        let b = syms[r];
        assert(spelled_from(a, alpha));
        assert(spelled_from(b, alpha));
        assert forall|i: int| 0 <= i < m.len() implies spelled_from(#[trigger] m[i], alpha) by {
            if i == r {
                assert(m[i] =~= Seq::<char>::empty());
            } else if i == l {
                assert(m[i] == a + b);
                assert forall|j: int| 0 <= j < (a + b).len() implies alpha.contains(#[trigger] (a + b)[j]) by {
                    if j < a.len() {
                        assert((a + b)[j] == a[j]);
                    } else {
                        assert((a + b)[j] == b[j - a.len()]);
                    }
                }
            } else {
                assert(m[i] == syms[i]);
            }
        }
        lemma_bpe_steps_spelled(merges, alpha, m, (fuel - 1) as nat);
    }
}

/// A printable ASCII character stands for its own byte.
proof fn lemma_printable_char(c: char)
    requires
        0x21 <= c as u32 <= 0x7E,
    ensures
        byte_char(c as u8) == c,
        char_bytes(c) == seq![c as u8],
        vstd::utf8::encode_utf8(seq![c]) == seq![c as u8],
{
    let b = c as u8;
    assert(b as u32 == c as u32);
    assert(gpt2_code(b) == c as u32);
    vstd::utf8::char_u32_cast(c, c as u32);
    assert(vstd::utf8::is_ascii_chars(seq![c]));
    vstd::utf8::is_ascii_chars_encode_utf8(seq![c]);
    assert(vstd::utf8::encode_utf8(seq![c]) =~= seq![c as u8]);
    assert(is_gpt2_code(c as u32));
    assert(gpt2_byte(c as u32) == b);
}

/// A character of `alpha` is a token of the vocabulary on its own.
proof fn lemma_alphabet_token(vocab: Seq<Seq<char>>, alpha: Seq<char>, c: char)
    requires
        has_alphabet_tokens(vocab, alpha),
        alpha.contains(c),
    ensures
        token_id(vocab, seq![c]) is Some,
{
    let j = choose|j: int| 0 <= j < alpha.len() && alpha[j] == c;
    assert(token_id(vocab, seq![alpha[j]]) is Some);
}

/// A printable ASCII symbol spelled from `alpha` falls back to the tokens of
/// its characters, which stand for its bytes.
proof fn lemma_printable_byte_pieces(vocab: Seq<Seq<char>>, alpha: Seq<char>, sym: Seq<char>)
    requires
        vocab.len() <= u32::MAX,
        has_alphabet_tokens(vocab, alpha),
        spelled_from(sym, alpha),
        printable_ascii(sym),
    ensures
        all_known(vocab, byte_pieces(vocab, vstd::utf8::encode_utf8(sym))),
        ids_bytes(vocab, byte_pieces(vocab, vstd::utf8::encode_utf8(sym))) == token_bytes(sym),
    decreases sym.len(),
{
    if sym.len() == 0 {
        assert(vstd::utf8::encode_utf8(sym) =~= Seq::<u8>::empty());
        assert(byte_pieces(vocab, vstd::utf8::encode_utf8(sym)) =~= Seq::<u32>::empty());
    } else {
        let init = sym.drop_last();
        let c = sym.last();
        assert(sym[sym.len() - 1] == c);
        assert forall|i: int| 0 <= i < init.len() implies alpha.contains(#[trigger] init[i]) by {
            assert(init[i] == sym[i]);
        }
        assert forall|i: int| 0 <= i < init.len() implies 0x21 <= (#[trigger] init[i]) as u32 <= 0x7E by {
            assert(init[i] == sym[i]);
        }
        lemma_printable_byte_pieces(vocab, alpha, init);
        lemma_printable_char(c);
        assert(init + seq![c] =~= sym);
        lemma_encode_utf8_concat(init, seq![c]);
        let bytes = vstd::utf8::encode_utf8(sym);
        let pre = vstd::utf8::encode_utf8(init);
        assert(bytes == pre + seq![c as u8]);
        assert(bytes.drop_last() =~= pre);
        assert(bytes.last() == c as u8);
        lemma_alphabet_token(vocab, alpha, c);
        let id = token_id(vocab, seq![c])->0;
        lemma_last_index_of(vocab, seq![c]);
        let own = seq![id as u32];
        assert(byte_pieces(vocab, bytes) == byte_pieces(vocab, pre) + own);
        assert(own.drop_last() =~= Seq::<u32>::empty());
        assert(ids_bytes(vocab, own.drop_last()) =~= Seq::<u8>::empty());
        assert(vocab[own.last() as int] == seq![c]);
        let one = seq![c];
        assert(one.drop_last() =~= Seq::<char>::empty());
        assert(token_bytes(one.drop_last()) =~= Seq::<u8>::empty());
        assert(one.last() == c);
        assert(token_bytes(one) =~= char_bytes(c));
        assert(ids_bytes(vocab, own) =~= char_bytes(c));
        lemma_ids_bytes_concat(vocab, byte_pieces(vocab, pre), own);
        assert(all_known(vocab, own));
    }
}

/// The ids of recoverable symbols stand for the bytes of the text they spell.
proof fn lemma_recoverable_symbols_ids_bytes(
    vocab: Seq<Seq<char>>,
    alpha: Seq<char>,
    syms: Seq<Seq<char>>,
)
    requires
        vocab.len() <= u32::MAX,
        has_alphabet_tokens(vocab, alpha),
        all_recoverable(vocab, alpha, syms),
    ensures
        all_known(vocab, symbols_ids(vocab, syms)),
        ids_bytes(vocab, symbols_ids(vocab, syms)) == token_bytes(syms.flatten()),
    decreases syms.len(),
{
    if syms.len() > 0 {
        let init = syms.drop_last();
        let x = syms.last();
        assert(syms[syms.len() - 1] == x);
        assert forall|i: int| 0 <= i < init.len() implies recoverable(vocab, alpha, #[trigger] init[i]) by {
            assert(init[i] == syms[i]);
        }
        lemma_recoverable_symbols_ids_bytes(vocab, alpha, init);
        assert(init.push(x) =~= syms);
        init.lemma_flatten_push(x);
        lemma_token_bytes_concat(init.flatten(), x);
        let own = symbol_ids(vocab, x);
        if x.len() > 0 {
            if token_id(vocab, x) is Some {
                let id = token_id(vocab, x)->0;
                lemma_last_index_of(vocab, x);
                assert(own == seq![id as u32]);
                assert(own.drop_last() =~= Seq::<u32>::empty());
                assert(ids_bytes(vocab, own.drop_last()) =~= Seq::<u8>::empty());
                assert(own.last() as int == id);
                assert(vocab[own.last() as int] == x);
                assert(ids_bytes(vocab, own) =~= token_bytes(x));
            } else {
                assert(recoverable(vocab, alpha, x));
                lemma_printable_byte_pieces(vocab, alpha, x);
            }
        } else {
            assert(x =~= Seq::<char>::empty());
            assert(token_bytes(x) =~= Seq::<u8>::empty());
        }
        lemma_ids_bytes_concat(vocab, symbols_ids(vocab, init), own);
    }
}

/// The ids of an ASCII word spelled from the text stand for the word's bytes.
proof fn lemma_ascii_word_ids_bytes(
    vocab: Seq<Seq<char>>,
    merges: Seq<Seq<char>>,
    text: Seq<char>,
    w: Seq<char>,
)
    requires
        vocab.len() <= u32::MAX,
        all_ascii(w),
        forall|k: int| 0 <= k < w.len() ==> text.contains(#[trigger] w[k]),
        has_alphabet_tokens(vocab, byte_alphabet(text)),
        symbols_recoverable(vocab, merged_symbols(merges, vstd::utf8::encode_utf8(w))),
    ensures
        all_known(vocab, word_ids(vocab, merges, vstd::utf8::encode_utf8(w))),
        ids_bytes(vocab, word_ids(vocab, merges, vstd::utf8::encode_utf8(w)))
            == vstd::utf8::encode_utf8(w),
{
    let alpha = byte_alphabet(text);
    let bytes = vstd::utf8::encode_utf8(w);
    let init = initial_symbols(bytes);
    assert(vstd::utf8::is_ascii_chars(w)) by {
        assert forall|i: int| 0 <= i < w.len() implies '\0' <= #[trigger] w[i] <= '\u{7f}' by {
            assert(!is_non_ascii(w[i]));
        }
    }
    vstd::utf8::is_ascii_chars_encode_utf8(w);
    assert forall|i: int| 0 <= i < init.len() implies spelled_from(#[trigger] init[i], alpha) by {
        let j = choose|j: int| 0 <= j < text.len() && text[j] == w[i];
        assert(text.contains(w[i]));
        assert(bytes[i] == w[i] as u8);
        assert(alpha[j] == byte_char(text[j] as u8));
        assert(init[i] == seq![byte_char(bytes[i])]);
        assert(alpha.contains(byte_char(bytes[i])));
        assert forall|k: int| 0 <= k < init[i].len() implies alpha.contains(#[trigger] init[i][k]) by {
            assert(k == 0);
        }
    }
    lemma_initial_symbols_flatten(bytes);
    lemma_bpe_steps_spelled(merges, alpha, init, bytes.len());
    let fin = merged_symbols(merges, bytes);
    assert forall|i: int| 0 <= i < fin.len() implies recoverable(vocab, alpha, #[trigger] fin[i]) by {
        assert(spelled_from(fin[i], alpha));
    }
    lemma_recoverable_symbols_ids_bytes(vocab, alpha, fin);
}

/// Every character of every word of `s[i..]` is a character of `s`.
proof fn lemma_words_from_chars(s: Seq<char>, i: int)
    requires
        0 <= i <= s.len(),
    ensures
        forall|k: int, c: int|
            0 <= k < words_from(s, i).len() && 0 <= c < words_from(s, i)[k].len() ==> s.contains(
                #[trigger] words_from(s, i)[k][c],
            ),
    decreases s.len() - i,
{
    if i < s.len() {
        let m = word_len(s, i);
        lemma_word_len_bounded(s, i);
        lemma_words_from_chars(s, i + m);
        let w = words_from(s, i);
        assert forall|k: int, c: int| 0 <= k < w.len() && 0 <= c < w[k].len() implies s.contains(
            #[trigger] w[k][c],
        ) by {
            if k == 0 {
                assert(w[k] == s.subrange(i, i + m));
                assert(w[k][c] == s[i + c]);
            } else {
                assert(w[k] == words_from(s, i + m)[k - 1]);
            }
        }
    }
}

/// The ids of the words of ASCII text stand for the UTF-8 bytes of the words
/// put together.
proof fn lemma_ascii_words_ids_bytes(
    vocab: Seq<Seq<char>>,
    merges: Seq<Seq<char>>,
    text: Seq<char>,
    ws: Seq<Seq<char>>,
)
    requires
        vocab.len() <= u32::MAX,
        forall|k: int| 0 <= k < ws.len() ==> all_ascii(#[trigger] ws[k]),
        forall|k: int, c: int| 0 <= k < ws.len() && 0 <= c < ws[k].len() ==> text.contains(#[trigger] ws[k][c]),
        has_alphabet_tokens(vocab, byte_alphabet(text)),
        forall|k: int|
            0 <= k < ws.len() ==> symbols_recoverable(
                vocab,
                merged_symbols(merges, vstd::utf8::encode_utf8(#[trigger] ws[k])),
            ),
    ensures
        all_known(vocab, words_ids(vocab, merges, ws)),
        ids_bytes(vocab, words_ids(vocab, merges, ws)) == vstd::utf8::encode_utf8(ws.flatten()),
    decreases ws.len(),
{
    if ws.len() == 0 {
        assert(ws.flatten() =~= Seq::<char>::empty());
        assert(vstd::utf8::encode_utf8(ws.flatten()) =~= Seq::<u8>::empty());
    } else {
        let init = ws.drop_last();
        let w = ws.last();
        assert(ws[ws.len() - 1] == w);
        assert forall|k: int| 0 <= k < init.len() implies all_ascii(#[trigger] init[k]) by {
            assert(init[k] == ws[k]);
        }
        assert forall|k: int, c: int| 0 <= k < init.len() && 0 <= c < init[k].len() implies text.contains(
            #[trigger] init[k][c],
        ) by {
            assert(init[k] == ws[k]);
        }
        assert forall|c: int| 0 <= c < w.len() implies text.contains(#[trigger] w[c]) by {
            assert(ws[ws.len() - 1][c] == w[c]);
        }
        assert forall|k: int| 0 <= k < init.len() implies symbols_recoverable(
            vocab,
            merged_symbols(merges, vstd::utf8::encode_utf8(#[trigger] init[k])),
        ) by {
            assert(init[k] == ws[k]);
        }
        lemma_ascii_words_ids_bytes(vocab, merges, text, init);
        lemma_ascii_word_ids_bytes(vocab, merges, text, w);
        lemma_ids_bytes_concat(
            vocab,
            words_ids(vocab, merges, init),
            word_ids(vocab, merges, vstd::utf8::encode_utf8(w)),
        );
        assert(init.push(w) =~= ws);
        init.lemma_flatten_push(w);
        lemma_encode_utf8_concat(init.flatten(), w);
    }
}

/// Decoding what encoding produced gives ASCII text back as soon as every
/// byte of the text has its own one-character token and no merge that fires
/// on the text leaves a symbol that is neither a token nor printable ASCII
/// (so that a merged symbol outside the vocabulary still falls back to tokens
/// of its own bytes; a symbol that is neither loses bytes in that fallback).
pub proof fn lemma_decode_after_encode_ascii(
    vocab: Seq<Seq<char>>,
    merges: Seq<Seq<char>>,
    text: Seq<char>,
)
    requires
        vocab.len() <= u32::MAX,
        all_ascii(text),
        has_alphabet_tokens(vocab, byte_alphabet(text)),
        fired_merges_recoverable(vocab, merges, text),
    ensures
        all_known(vocab, text_ids(vocab, merges, text)),
        ids_bytes(vocab, text_ids(vocab, merges, text)) == vstd::utf8::encode_utf8(text),
        vstd::utf8::valid_utf8(ids_bytes(vocab, text_ids(vocab, merges, text))),
        vstd::utf8::decode_utf8(ids_bytes(vocab, text_ids(vocab, merges, text))) == text,
{
    lemma_split_words_cover(text);
    lemma_words_from_ascii(text, 0);
    lemma_words_from_chars(text, 0);
    lemma_ascii_words_ids_bytes(vocab, merges, text, split_words(text));
    vstd::utf8::encode_utf8_valid_utf8(text);
    vstd::utf8::encode_utf8_decode_utf8(text);
}

impl BpeTokenizer {
    /// For a tokenizer whose vocabulary holds every byte's character and every
    /// merge result, decoding the ids that `encode` gives for a text yields
    /// the text.
    pub proof fn lemma_decode_after_encode_tokenizer(&self, text: Seq<char>)
        requires
            self.wf(),
            has_byte_tokens(self.vocab()),
            has_merge_results(self.vocab(), self.merge_rules()),
        ensures
            all_known(self.vocab(), text_ids(self.vocab(), self.merge_rules(), text)),
            vstd::utf8::valid_utf8(
                ids_bytes(self.vocab(), text_ids(self.vocab(), self.merge_rules(), text)),
            ),
            vstd::utf8::decode_utf8(
                ids_bytes(self.vocab(), text_ids(self.vocab(), self.merge_rules(), text)),
            ) == text,
    {
        assert(self.vocab().len() == self.tokens@.len());
        lemma_decode_after_encode(self.vocab(), self.merge_rules(), text);
    }

    /// For ASCII text whose bytes each have a one-character token, and on
    /// which no merge that fires leaves a symbol that is neither a token nor
    /// printable ASCII, decoding the ids that `encode` gives yields the text.
    pub proof fn lemma_decode_after_encode_ascii_tokenizer(&self, text: Seq<char>)
        requires
            self.wf(),
            all_ascii(text),
            has_alphabet_tokens(self.vocab(), byte_alphabet(text)),
            fired_merges_recoverable(self.vocab(), self.merge_rules(), text),
        ensures
            all_known(self.vocab(), text_ids(self.vocab(), self.merge_rules(), text)),
            vstd::utf8::valid_utf8(
                ids_bytes(self.vocab(), text_ids(self.vocab(), self.merge_rules(), text)),
            ),
            vstd::utf8::decode_utf8(
                ids_bytes(self.vocab(), text_ids(self.vocab(), self.merge_rules(), text)),
            ) == text,
    {
        assert(self.vocab().len() == self.tokens@.len());
        lemma_decode_after_encode_ascii(self.vocab(), self.merge_rules(), text);
    }
}

} // verus!
