//! Grammar-guided constrained decoding: a character-level JSON state machine
//! that decides, token piece by token piece, whether generated text can still
//! be completed into a JSON value in the syntax of RFC 8259 (optionally
//! restricting object keys). It is strict where JSON is: one value at the top
//! level, no trailing commas, JSON number syntax, escapes `\" \\ \/ \b \f \n
//! \r \t \uXXXX` only, no raw control characters in strings, and only space,
//! tab, line feed and carriage return as whitespace. Object keys take the
//! same escapes as string values; allowed keys are compared with the raw key
//! text between the quotes.

use vstd::prelude::*;
use crate::text::{
    all_white_space, chars_of, debug_format_str, debug_repr, is_alphabetic_char, is_blank,
    is_digit, is_digit_char, is_whitespace_char, push_char, trim_start, alphabetic,
};

verus! {

broadcast use vstd::string::group_string_axioms;

/// Parser states of the JSON grammar.
#[derive(Debug, Clone, Copy, PartialEq, Eq, Structural)]
pub enum JsonParserState {
    Start,
    InObject,
    ExpectKey,
    InKeyString,
    ExpectColon,
    ExpectValue,
    InValueString,
    InNumber,
    InBooleanOrNull,
    ExpectCommaOrClose,
    InArray,
    Complete,
    Error,
}

/// Dynamic stack-based JSON grammar validator for token-by-token logit filtering.
///
/// `stack` holds the closing brackets of the open containers and `depth`
/// their number (see `wf`); `buffer` is the text read so far; `current_key`
/// the key being read; `current_literal` the scalar being read: a `true`,
/// `false` or `null` literal, a number, or, inside a string, the `u` and hex
/// digits of a pending `\u` escape.
#[derive(Debug, Clone)]
pub struct JsonGrammar {
    pub state: JsonParserState,
    pub stack: Vec<char>,
    pub buffer: String,
    pub depth: usize,
    pub in_escape: bool,
    pub allowed_keys: Option<Vec<String>>,
    pub current_key: String,
    pub current_literal: String,
}

/// Mathematical model of a `JsonGrammar`.
pub struct GrammarView {
    pub state: JsonParserState,
    pub stack: Seq<char>,
    pub buffer: Seq<char>,
    pub depth: int,
    pub in_escape: bool,
    pub allowed_keys: Option<Seq<Seq<char>>>,
    pub current_key: Seq<char>,
    pub current_literal: Seq<char>,
}

/// The model of an optional list of allowed keys.
pub open spec fn keys_view(keys: Option<Vec<String>>) -> Option<Seq<Seq<char>>> {
    match keys {
        Some(v) => Some(v@.map_values(|s: String| s@)),
        None => None,
    }
}

impl View for JsonGrammar {
    type V = GrammarView;

    open spec fn view(&self) -> GrammarView {
        GrammarView {
            state: self.state,
            stack: self.stack@,
            buffer: self.buffer@,
            depth: self.depth as int,
            in_escape: self.in_escape,
            allowed_keys: keys_view(self.allowed_keys),
            current_key: self.current_key@,
            current_literal: self.current_literal@,
        }
    }
}

/// Some key in `keys` starts with `p`.
pub open spec fn some_key_extends(keys: Seq<Seq<char>>, p: Seq<char>) -> bool {
    exists|i: int| 0 <= i < keys.len() && p.is_prefix_of(#[trigger] keys[i])
}

/// JSON whitespace (RFC 8259 `ws`): space, tab, line feed and carriage return.
pub open spec fn is_json_space(c: char) -> bool {
    c == ' ' || c == '\t' || c == '\n' || c == '\r'
}

/// Characters accepted right after a backslash inside a string value
/// (`\u` is then followed by four hexadecimal digits).
pub open spec fn is_escape_char(c: char) -> bool {
    c == '"' || c == '\\' || c == '/' || c == 'b' || c == 'f' || c == 'n' || c == 'r' || c == 't'
        || c == 'u'
}

/// A hexadecimal digit.
pub open spec fn is_hex_digit(c: char) -> bool {
    let u = c as u32;
    ||| '0' as u32 <= u <= '9' as u32
    ||| 'a' as u32 <= u <= 'f' as u32
    ||| 'A' as u32 <= u <= 'F' as u32
}

/// Control characters (below U+0020), which a JSON string holds only escaped.
pub open spec fn is_string_breaker(c: char) -> bool {
    (c as u32) < 32
}

/// The last character of `s` that is not JSON whitespace, if any.
pub open spec fn last_token_char(s: Seq<char>) -> Option<char>
    decreases s.len(),
{
    if s.len() == 0 {
        None
    } else if is_json_space(s.last()) {
        last_token_char(s.drop_last())
    } else {
        Some(s.last())
    }
}

/// A character that may start a `true`, `false` or `null` literal.
pub open spec fn is_literal_start(c: char) -> bool {
    c == 't' || c == 'f' || c == 'n'
}

/// A character that may continue a number.
pub open spec fn is_number_char(c: char) -> bool {
    is_digit(c) || c == '.' || c == 'e' || c == 'E' || c == '+' || c == '-'
}

pub open spec fn word_true() -> Seq<char> {
    seq!['t', 'r', 'u', 'e']
}

pub open spec fn word_false() -> Seq<char> {
    seq!['f', 'a', 'l', 's', 'e']
}

pub open spec fn word_null() -> Seq<char> {
    seq!['n', 'u', 'l', 'l']
}

/// `lit` can still grow into `true`, `false` or `null`.
pub open spec fn literal_prefix_ok(lit: Seq<char>) -> bool {
    lit.is_prefix_of(word_true()) || lit.is_prefix_of(word_false()) || lit.is_prefix_of(
        word_null(),
    )
}

/// `lit` is exactly `true`, `false` or `null`.
pub open spec fn literal_exact(lit: Seq<char>) -> bool {
    lit == word_true() || lit == word_false() || lit == word_null()
}

/// One step of the automaton for the JSON number syntax of RFC 8259,
/// `-? (0 | [1-9][0-9]*) (. [0-9]+)? ([eE] [+-]? [0-9]+)?`. States: 0 nothing
/// read, 1 after the minus sign, 2 after a leading zero, 3 in the integer
/// digits, 4 after the decimal point, 5 in the fraction digits, 6 after the
/// exponent mark, 7 after the exponent sign, 8 in the exponent digits, 9 no
/// number can follow.
pub open spec fn number_step(st: int, c: char) -> int {
    if st == 0 {
        if c == '-' {
            1
        } else if c == '0' {
            2
        } else if is_digit(c) {
            3
        } else {
            9
        }
    } else if st == 1 {
        if c == '0' {
            2
        } else if is_digit(c) {
            3
        } else {
            9
        }
    } else if st == 2 {
        if c == '.' {
            4
        } else if c == 'e' || c == 'E' {
            6
        } else {
            9
        }
    } else if st == 3 {
        if is_digit(c) {
            3
        } else if c == '.' {
            4
        } else if c == 'e' || c == 'E' {
            6
        } else {
            9
        }
    } else if st == 4 {
        if is_digit(c) {
            5
        } else {
            9
        }
    } else if st == 5 {
        if is_digit(c) {
            5
        } else if c == 'e' || c == 'E' {
            6
        } else {
            9
        }
    } else if st == 6 {
        if c == '+' || c == '-' {
            7
        } else if is_digit(c) {
            8
        } else {
            9
        }
    } else if st == 7 || st == 8 {
        if is_digit(c) {
            8
        } else {
            9
        }
    } else {
        9
    }
}

/// The automaton state after reading `s`.
pub open spec fn number_state(s: Seq<char>) -> int
    decreases s.len(),
{
    if s.len() == 0 {
        0
    } else {
        number_step(number_state(s.drop_last()), s.last())
    }
}

/// `s` is a JSON number (the automaton ends in an accepting state).
pub open spec fn json_number(s: Seq<char>) -> bool {
    let st = number_state(s);
    st == 2 || st == 3 || st == 5 || st == 8
}

impl GrammarView {
    /// The depth counter matches the bracket stack, the stack holds only
    /// closing braces and brackets, a completed value is at the top level,
    /// and the `Error` state carries no pending escape.
    pub open spec fn wf(self) -> bool {
        &&& self.depth == self.stack.len()
        &&& forall|i: int| 0 <= i < self.stack.len() ==> #[trigger] self.stack[i] == '}' || self.stack[i] == ']'
        &&& self.state == JsonParserState::Complete ==> self.depth == 0
        &&& self.state == JsonParserState::Error ==> !self.in_escape
    }

    /// The innermost open bracket is closed by `c`.
    pub open spec fn top_is(self, c: char) -> bool {
        self.stack.len() > 0 && self.stack.last() == c
    }

    pub open spec fn with_state(self, s: JsonParserState) -> GrammarView {
        GrammarView { state: s, ..self }
    }

    /// Opens a bracket closed later by `closer`, moving to `next`.
    pub open spec fn opened(self, closer: char, next: JsonParserState) -> GrammarView {
        GrammarView { stack: self.stack.push(closer), depth: self.depth + 1, state: next, ..self }
    }

    /// Closes the innermost bracket.
    pub open spec fn closed(self) -> GrammarView {
        GrammarView {
            stack: self.stack.drop_last(),
            depth: self.depth - 1,
            state: if self.depth - 1 == 0 {
                JsonParserState::Complete
            } else {
                JsonParserState::ExpectCommaOrClose
            },
            ..self
        }
    }

    /// Starts reading a string value (no `\u` escape is pending).
    pub open spec fn began_string(self) -> GrammarView {
        GrammarView {
            current_literal: Seq::empty(),
            state: JsonParserState::InValueString,
            ..self
        }
    }

    /// Starts reading a number with `ch`; its text is kept in `current_literal`.
    pub open spec fn began_number(self, ch: char) -> GrammarView {
        GrammarView { current_literal: seq![ch], state: JsonParserState::InNumber, ..self }
    }

    /// Starts reading a `true`, `false` or `null` literal with `ch`.
    pub open spec fn began_literal(self, ch: char) -> GrammarView {
        GrammarView {
            current_literal: seq![ch],
            state: JsonParserState::InBooleanOrNull,
            ..self
        }
    }

    /// After a `,`: a key inside an object, a value inside an array.
    pub open spec fn after_comma(self) -> GrammarView {
        self.with_state(
            if self.top_is('}') {
                JsonParserState::ExpectKey
            } else {
                JsonParserState::ExpectValue
            },
        )
    }

    /// The completed key is one of the allowed keys (or keys are unrestricted).
    pub open spec fn key_allowed(self) -> bool {
        match self.allowed_keys {
            Some(keys) => keys.contains(self.current_key),
            None => true,
        }
    }

    /// The partial key is a prefix of some allowed key (or keys are unrestricted).
    pub open spec fn key_prefix_allowed(self) -> bool {
        match self.allowed_keys {
            Some(keys) => some_key_extends(keys, self.current_key),
            None => true,
        }
    }

    /// The top-level value starts here, after optional whitespace.
    pub open spec fn step_start(self, ch: char) -> (GrammarView, bool) {
        if is_json_space(ch) {
            (self, true)
        } else if ch == '{' {
            (self.opened('}', JsonParserState::ExpectKey), true)
        } else if ch == '[' {
            (self.opened(']', JsonParserState::InArray), true)
        } else if ch == '"' {
            (self.began_string(), true)
        } else if is_digit(ch) || ch == '-' {
            (self.began_number(ch), true)
        } else if is_literal_start(ch) {
            (self.began_literal(ch), true)
        } else {
            (self, false)
        }
    }

    /// A key starts with `"`; `}` closes only an empty object (the text
    /// before it ends with `{`), so a trailing comma is refused.
    pub open spec fn step_expect_key(self, ch: char) -> (GrammarView, bool) {
        if is_json_space(ch) {
            (self, true)
        } else if ch == '"' {
            (
                GrammarView {
                    current_key: Seq::empty(),
                    current_literal: Seq::empty(),
                    state: JsonParserState::InKeyString,
                    ..self
                },
                true,
            )
        } else if ch == '}' && self.top_is('}') && self.buffer.len() > 0 && last_token_char(
            self.buffer.drop_last(),
        ) == Some('{') {
            (self.closed(), true)
        } else {
            (self, false)
        }
    }

    /// Appends `ch` to the key being read (its raw text between the quotes,
    /// escapes included); accepted while some allowed key starts with it.
    pub open spec fn key_extended(self, ch: char) -> (GrammarView, bool) {
        let g = GrammarView { current_key: self.current_key.push(ch), ..self };
        (g, g.key_prefix_allowed())
    }

    /// Inside a key, as inside a string value, control characters are refused
    /// and a pending `\u` escape takes four hexadecimal digits; the closing
    /// quote ends the key, which must then be allowed.
    pub open spec fn step_key_string(self, ch: char) -> (GrammarView, bool) {
        if self.current_literal.len() > 0 {
            if is_hex_digit(ch) {
                let lit = self.current_literal.push(ch);
                GrammarView {
                    current_literal: if lit.len() >= 5 {
                        Seq::empty()
                    } else {
                        lit
                    },
                    ..self
                }.key_extended(ch)
            } else {
                (self, false)
            }
        } else if is_string_breaker(ch) {
            (self, false)
        } else if ch == '"' {
            if !self.key_allowed() {
                (self, false)
            } else {
                (self.with_state(JsonParserState::ExpectColon), true)
            }
        } else {
            self.key_extended(ch)
        }
    }

    pub open spec fn step_expect_colon(self, ch: char) -> (GrammarView, bool) {
        if is_json_space(ch) {
            (self, true)
        } else if ch == ':' {
            (self.with_state(JsonParserState::ExpectValue), true)
        } else {
            (self, false)
        }
    }

    pub open spec fn step_expect_value(self, ch: char) -> (GrammarView, bool) {
        if is_json_space(ch) {
            (self, true)
        } else if ch == '{' {
            (self.opened('}', JsonParserState::ExpectKey), true)
        } else if ch == '[' {
            (self.opened(']', JsonParserState::InArray), true)
        } else if ch == '"' {
            (self.began_string(), true)
        } else if is_digit(ch) || ch == '-' {
            (self.began_number(ch), true)
        } else if is_literal_start(ch) {
            (self.began_literal(ch), true)
        } else {
            (self, false)
        }
    }

    /// While a `\u` escape is pending, `current_literal` holds `u` and the
    /// hexadecimal digits read so far; four digits end the escape.
    pub open spec fn step_value_string(self, ch: char) -> (GrammarView, bool) {
        if self.current_literal.len() > 0 {
            if is_hex_digit(ch) {
                let lit = self.current_literal.push(ch);
                (
                    GrammarView {
                        current_literal: if lit.len() >= 5 {
                            Seq::empty()
                        } else {
                            lit
                        },
                        ..self
                    },
                    true,
                )
            } else {
                (self, false)
            }
        } else if is_string_breaker(ch) {
            (self, false)
        } else if ch == '"' {
            (self.with_state(JsonParserState::ExpectCommaOrClose), true)
        } else {
            (self, true)
        }
    }

    /// The number's text grows in `current_literal` while it can still become
    /// a JSON number; it must be one when the number ends.
    pub open spec fn step_number(self, ch: char) -> (GrammarView, bool) {
        if is_number_char(ch) {
            let lit = self.current_literal.push(ch);
            (GrammarView { current_literal: lit, ..self }, number_state(lit) != 9)
        } else if !json_number(self.current_literal) {
            (self, false)
        } else if ch == ',' && self.stack.len() > 0 {
            (self.after_comma(), true)
        } else if ch == '}' && self.top_is('}') {
            (self.closed(), true)
        } else if ch == ']' && self.top_is(']') {
            (self.closed(), true)
        } else if is_json_space(ch) {
            (self.with_state(JsonParserState::ExpectCommaOrClose), true)
        } else {
            (self, false)
        }
    }

    /// Letters extend the literal while it can still become `true`, `false`
    /// or `null`; anything else ends it, and it must then be exact. A comma
    /// separates values only inside a container.
    pub open spec fn step_literal(self, ch: char) -> (GrammarView, bool) {
        if alphabetic(ch) {
            let g = GrammarView { current_literal: self.current_literal.push(ch), ..self };
            (g, literal_prefix_ok(g.current_literal))
        } else if !literal_exact(self.current_literal) {
            (self, false)
        } else if ch == ',' && self.stack.len() > 0 {
            (self.after_comma(), true)
        } else if (ch == '}' && self.top_is('}')) || (ch == ']' && self.top_is(']')) {
            (self.closed(), true)
        } else if is_json_space(ch) {
            (self.with_state(JsonParserState::ExpectCommaOrClose), true)
        } else {
            (self, false)
        }
    }

    /// After a value: a comma inside a container, or the closing bracket of
    /// the innermost one.
    pub open spec fn step_comma_or_close(self, ch: char) -> (GrammarView, bool) {
        if is_json_space(ch) {
            (self, true)
        } else if ch == ',' && self.stack.len() > 0 {
            (self.after_comma(), true)
        } else if ch == '}' && self.top_is('}') {
            (self.closed(), true)
        } else if ch == ']' && self.top_is(']') {
            (self.closed(), true)
        } else {
            (self, false)
        }
    }

    /// Inside an array, anything but whitespace or `]` is read as the start
    /// of a value.
    pub open spec fn step_array(self, ch: char) -> (GrammarView, bool) {
        if is_json_space(ch) {
            (self, true)
        } else if ch == ']' && self.top_is(']') {
            (self.closed(), true)
        } else {
            self.with_state(JsonParserState::ExpectValue).step_expect_value(ch)
        }
    }

    /// `InObject` reads the character as the start of a key.
    pub open spec fn step_object(self, ch: char) -> (GrammarView, bool) {
        self.with_state(JsonParserState::ExpectKey).step_expect_key(ch)
    }

    /// The state-specific part of consuming `ch` (after it was appended to `buffer`).
    pub open spec fn dispatch(self, ch: char) -> (GrammarView, bool) {
        match self.state {
            JsonParserState::Start => self.step_start(ch),
            JsonParserState::ExpectKey => self.step_expect_key(ch),
            JsonParserState::InKeyString => self.step_key_string(ch),
            JsonParserState::ExpectColon => self.step_expect_colon(ch),
            JsonParserState::ExpectValue => self.step_expect_value(ch),
            JsonParserState::InValueString => self.step_value_string(ch),
            JsonParserState::InNumber => self.step_number(ch),
            JsonParserState::InBooleanOrNull => self.step_literal(ch),
            JsonParserState::ExpectCommaOrClose => self.step_comma_or_close(ch),
            JsonParserState::InArray => self.step_array(ch),
            JsonParserState::InObject => self.step_object(ch),
            JsonParserState::Complete => (self, is_json_space(ch)),
            JsonParserState::Error => (self, false),
        }
    }

    /// Consumes one character: appends it to `buffer`, handles a pending
    /// escape, then applies the state transition. The flag tells whether the
    /// character was accepted.
    pub open spec fn step(self, ch: char) -> (GrammarView, bool) {
        let g = GrammarView { buffer: self.buffer.push(ch), ..self };
        if g.in_escape {
            let h = if ch == 'u' {
                GrammarView { in_escape: false, current_literal: seq!['u'], ..g }
            } else {
                GrammarView { in_escape: false, ..g }
            };
            if g.state == JsonParserState::InKeyString && is_escape_char(ch) {
                h.key_extended(ch)
            } else {
                (h, is_escape_char(ch))
            }
        } else if ch == '\\' && (g.state == JsonParserState::InValueString || g.state
            == JsonParserState::InKeyString) && g.current_literal.len() == 0 {
            if g.state == JsonParserState::InKeyString {
                let (h, ok) = g.key_extended(ch);
                (GrammarView { in_escape: ok, ..h }, ok)
            } else {
                (GrammarView { in_escape: true, ..g }, true)
            }
        } else {
            g.dispatch(ch)
        }
    }

    /// Consumes `s` character by character, stopping at the first rejected one.
    /// The flag tells whether every character was accepted.
    pub open spec fn run(self, s: Seq<char>) -> (GrammarView, bool)
        decreases s.len(),
    {
        if s.len() == 0 {
            (self, true)
        } else {
            let (g, ok) = self.run(s.drop_last());
            if !ok {
                (g, false)
            } else {
                g.step(s.last())
            }
        }
    }

    /// The last character of `buffer` is a space, newline or tab.
    pub open spec fn buffer_ends_blank(self) -> bool {
        self.buffer.len() > 0 && (self.buffer.last() == ' ' || self.buffer.last() == '\n'
            || self.buffer.last() == '\t')
    }

    /// The structural pre-check of `is_token_valid`: in states that wait for a
    /// specific structural character the piece must start (after leading
    /// whitespace) with one, and a whitespace-only piece is refused right
    /// after whitespace.
    pub open spec fn structural_ok(self, tok: Seq<char>) -> bool {
        let trimmed = trim_start(tok);
        match self.state {
            JsonParserState::ExpectKey => if trimmed.len() == 0 {
                !self.buffer_ends_blank()
            } else {
                trimmed[0] == '"' || trimmed[0] == '}'
            },
            JsonParserState::ExpectColon => if trimmed.len() == 0 {
                !self.buffer_ends_blank()
            } else {
                trimmed[0] == ':'
            },
            JsonParserState::ExpectValue => trimmed.len() == 0 ==> !self.buffer_ends_blank(),
            JsonParserState::ExpectCommaOrClose => if trimmed.len() == 0 {
                !self.buffer_ends_blank()
            } else {
                trimmed[0] == ',' || trimmed[0] == '}' || trimmed[0] == ']'
            },
            _ => true,
        }
    }

    /// What `is_token_valid` decides for the piece `tok`.
    pub open spec fn token_valid(self, tok: Seq<char>) -> bool {
        &&& tok.len() > 0
        &&& self.structural_ok(tok)
        &&& self.run(tok).1
        &&& self.run(tok).0.state != JsonParserState::Error
    }

    /// The state `advance` leaves after consuming `tok`.
    pub open spec fn advanced(self, tok: Seq<char>) -> GrammarView {
        let (g, ok) = self.run(tok);
        if ok {
            g
        } else {
            g.with_state(JsonParserState::Error)
        }
    }

    /// What `is_complete` reports: the text is one whole JSON value, either a
    /// closed top-level object or array, or a top-level scalar that has ended
    /// (a closed string, or a number or literal followed by whitespace), or a
    /// top-level number of JSON number syntax, or an exact `true`, `false` or
    /// `null`, that nothing has followed yet.
    pub open spec fn complete(self) -> bool {
        ||| self.state == JsonParserState::Complete
        ||| self.depth == 0 && match self.state {
            JsonParserState::ExpectCommaOrClose => true,
            JsonParserState::InNumber => json_number(self.current_literal),
            JsonParserState::InBooleanOrNull => literal_exact(self.current_literal),
            _ => false,
        }
    }
}

impl JsonGrammar {
    /// The well-formedness invariant: `depth` equals the bracket stack length.
    pub open spec fn wf(&self) -> bool {
        self@.wf()
    }

    /// Creates a new JSON grammar validator starting from root.
    pub fn new() -> (g: Self)
        ensures
            g.wf(),
            g@.state == JsonParserState::Start,
            g@.stack.len() == 0,
            g@.buffer.len() == 0,
            g@.depth == 0,
            !g@.in_escape,
            g@.allowed_keys is None,
            g@.current_key.len() == 0,
            g@.current_literal.len() == 0,
    {
        JsonGrammar {
            state: JsonParserState::Start,
            stack: Vec::new(),
            buffer: String::new(),
            depth: 0,
            in_escape: false,
            allowed_keys: None,
            current_key: String::new(),
            current_literal: String::new(),
        }
    }

    /// Sets explicit allowed JSON keys for schema-guided tool calling.
    pub fn with_keys(self, keys: &[&str]) -> (g: Self)
        ensures
            g@ == (GrammarView {
                allowed_keys: Some(keys@.map_values(|k: &str| k@)),
                ..self@
            }),
    {
        let mut v: Vec<String> = Vec::new();
        let mut i: usize = 0;
        while i < keys.len()
            invariant
                i <= keys@.len(),
                v@.map_values(|s: String| s@) =~= keys@.subrange(0, i as int).map_values(
                    |k: &str| k@,
                ),
            decreases keys@.len() - i,
        {
            let s = String::from_str(keys[i]);
            let ghost old_v = v@;
            v.push(s);
            proof {
                assert(keys@.subrange(0, i + 1) =~= keys@.subrange(0, i as int).push(keys@[i as int]));
                assert(v@.map_values(|s: String| s@) =~= old_v.map_values(|s: String| s@).push(s@));
                assert(keys@.subrange(0, i + 1).map_values(|k: &str| k@) =~= keys@.subrange(
                    0,
                    i as int,
                ).map_values(|k: &str| k@).push(keys@[i as int]@));
            }
            i = i + 1;
        }
        proof {
            assert(keys@.subrange(0, keys@.len() as int) =~= keys@);
        }
        let mut g = self;
        g.allowed_keys = Some(v);
        g
    }

    /// Creates a JSON grammar validator starting from an already-opened root object `{`.
    pub fn inside_object() -> (g: Self)
        ensures
            g.wf(),
            g@.state == JsonParserState::ExpectKey,
            g@.stack == seq!['}'],
            g@.buffer == seq!['{'],
            g@.depth == 1,
            !g@.in_escape,
            g@.allowed_keys is None,
            g@.current_key.len() == 0,
            g@.current_literal.len() == 0,
    {
        let mut g = Self::new();
        g.stack.push('}');
        g.depth = 1;
        g.state = JsonParserState::ExpectKey;
        push_char(&mut g.buffer, '{');
        g
    }

    /// Returns true if the accumulated output is complete and valid JSON.
    pub fn is_complete(&self) -> (b: bool)
        ensures
            b == self@.complete(),
    {
        if self.state == JsonParserState::Complete {
            return true;
        }
        if self.depth != 0 {
            return false;
        }
        match self.state {
            JsonParserState::ExpectCommaOrClose => true,
            JsonParserState::InNumber => is_json_number(&chars_of(self.current_literal.as_str())),
            JsonParserState::InBooleanOrNull => {
                let lit = chars_of(self.current_literal.as_str());
                same_chars(&lit, &vec!['t', 'r', 'u', 'e']) || same_chars(
                    &lit,
                    &vec!['f', 'a', 'l', 's', 'e'],
                ) || same_chars(&lit, &vec!['n', 'u', 'l', 'l'])
            },
            _ => false,
        }
    }

    /// A field-by-field copy of the grammar.
    fn duplicate(&self) -> (g: Self)
        ensures
            g@ == self@,
    {
        let keys = match &self.allowed_keys {
            Some(v) => Some(v.clone()),
            None => None,
        };
        proof {
            if let Some(v) = &self.allowed_keys {
                let w = keys->0;
                assert(w@.map_values(|s: String| s@) =~= v@.map_values(|s: String| s@));
            }
        }
        JsonGrammar {
            state: self.state,
            stack: self.stack.clone(),
            buffer: self.buffer.clone(),
            depth: self.depth,
            in_escape: self.in_escape,
            allowed_keys: keys,
            current_key: self.current_key.clone(),
            current_literal: self.current_literal.clone(),
        }
    }

    /// Whether the innermost open bracket is closed by `c`.
    fn top_is(&self, c: char) -> (b: bool)
        ensures
            b == self@.top_is(c),
    {
        let n = self.stack.len();
        n > 0 && self.stack[n - 1] == c
    }

    /// Opens a bracket closed later by `closer`.
    fn open_bracket(&mut self, closer: char, next: JsonParserState)
        requires
            old(self).wf(),
            closer == '}' || closer == ']',
            next != JsonParserState::Complete,
            next != JsonParserState::Error,
        ensures
            final(self).wf(),
            final(self)@ == old(self)@.opened(closer, next),
    {
        self.stack.push(closer);
        let n = self.stack.len();
        assert(self.depth + 1 == n);
        self.depth = self.depth + 1;
        self.state = next;
    }

    /// Closes the innermost open bracket.
    fn close_bracket(&mut self)
        requires
            old(self).wf(),
            old(self)@.stack.len() > 0,
        ensures
            final(self).wf(),
            final(self)@ == old(self)@.closed(),
    {
        self.stack.pop();
        self.depth = self.depth - 1;
        self.state = if self.depth == 0 {
            JsonParserState::Complete
        } else {
            JsonParserState::ExpectCommaOrClose
        };
    }

    /// Starts reading a number with `ch`.
    fn begin_number(&mut self, ch: char)
        ensures
            final(self)@ == old(self)@.began_number(ch),
    {
        let mut lit = String::new();
        push_char(&mut lit, ch);
        proof {
            assert(lit@ =~= seq![ch]);
        }
        self.current_literal = lit;
        self.state = JsonParserState::InNumber;
    }

    /// Whether the text before the character just read ends with `{` (leading
    /// JSON whitespace aside), so that a `}` closes an empty object.
    fn follows_open_brace(&self) -> (b: bool)
        ensures
            b == (self@.buffer.len() > 0 && last_token_char(self@.buffer.drop_last()) == Some('{')),
    {
        let v = chars_of(self.buffer.as_str());
        let n = v.len();
        if n == 0 {
            return false;
        }
        let mut e = n - 1;
        proof {
            assert(v@.subrange(0, e as int) =~= self@.buffer.drop_last());
        }
        while e > 0 && is_json_space_char(v[e - 1])
            invariant
                e < n,
                n == v@.len(),
                v@ == self@.buffer,
                last_token_char(self@.buffer.drop_last()) == last_token_char(v@.subrange(0, e as int)),
            decreases e,
        {
            proof {
                let r = v@.subrange(0, e as int);
                assert(r.drop_last() =~= v@.subrange(0, e - 1));
                assert(r.last() == v@[e - 1]);
            }
            e = e - 1;
        }
        if e == 0 {
            return false;
        }
        proof {
            let r = v@.subrange(0, e as int);
            assert(r.last() == v@[e - 1]);
        }
        v[e - 1] == '{'
    }

    /// Starts reading a `true`, `false` or `null` literal with `ch`.
    fn begin_literal(&mut self, ch: char)
        ensures
            final(self)@ == old(self)@.began_literal(ch),
    {
        let mut lit = String::new();
        push_char(&mut lit, ch);
        proof {
            assert(lit@ =~= seq![ch]);
        }
        self.current_literal = lit;
        self.state = JsonParserState::InBooleanOrNull;
    }

    fn go_after_comma(&mut self)
        ensures
            final(self)@ == old(self)@.after_comma(),
    {
        self.state = if self.top_is('}') {
            JsonParserState::ExpectKey
        } else {
            JsonParserState::ExpectValue
        };
    }

    /// Whether the completed key is allowed.
    fn key_allowed(&self) -> (b: bool)
        ensures
            b == self@.key_allowed(),
    {
        match &self.allowed_keys {
            None => true,
            Some(keys) => {
                let ghost ks = keys@.map_values(|s: String| s@);
                assert(self@.allowed_keys == Some(ks));
                let mut i: usize = 0;
                while i < keys.len()
                    invariant
                        ks == keys@.map_values(|s: String| s@),
                        self@.allowed_keys == Some(ks),
                        i <= keys@.len(),
                        forall|j: int| 0 <= j < i ==> ks[j] != self.current_key@,
                    decreases keys@.len() - i,
                {
                    if keys[i] == self.current_key {
                        proof {
                            assert(ks[i as int] == self.current_key@);
                            assert(ks.contains(self.current_key@));
                        }
                        return true;
                    }
                    i = i + 1;
                }
                false
            },
        }
    }

    /// Whether the partial key is a prefix of some allowed key.
    fn key_prefix_allowed(&self) -> (b: bool)
        ensures
            b == self@.key_prefix_allowed(),
    {
        match &self.allowed_keys {
            None => true,
            Some(keys) => {
                let ghost ks = keys@.map_values(|s: String| s@);
                let key = chars_of(self.current_key.as_str());
                assert(self@.allowed_keys == Some(ks));
                let mut i: usize = 0;
                while i < keys.len()
                    invariant
                        ks == keys@.map_values(|s: String| s@),
                        self@.allowed_keys == Some(ks),
                        key@ == self.current_key@,
                        i <= keys@.len(),
                        forall|j: int| 0 <= j < i ==> !self.current_key@.is_prefix_of(#[trigger] ks[j]),
                    decreases keys@.len() - i,
                {
                    let k = chars_of(keys[i].as_str());
                    if is_prefix(&key, &k) {
                        proof {
                            assert(ks.len() == keys@.len());
                            assert(ks[i as int] == k@);
                            assert(self.current_key@.is_prefix_of(ks[i as int]));
                            assert(0 <= i < ks.len() && self.current_key@.is_prefix_of(ks[i as int]));
                            assert(some_key_extends(ks, self.current_key@));
                        }
                        return true;
                    }
                    i = i + 1;
                }
                false
            },
        }
    }

    fn on_start(&mut self, ch: char) -> (ok: bool)
        requires
            old(self).wf(),
        ensures
            final(self).wf(),
            (final(self)@, ok) == old(self)@.step_start(ch),
    {
        if is_json_space_char(ch) {
            true
        } else if ch == '{' {
            self.open_bracket('}', JsonParserState::ExpectKey);
            true
        } else if ch == '[' {
            self.open_bracket(']', JsonParserState::InArray);
            true
        } else if ch == '"' {
            self.current_literal = String::new();
            self.state = JsonParserState::InValueString;
            true
        } else if is_digit_char(ch) || ch == '-' {
            self.begin_number(ch);
            true
        } else if ch == 't' || ch == 'f' || ch == 'n' {
            self.begin_literal(ch);
            true
        } else {
            false
        }
    }

    fn on_expect_key(&mut self, ch: char) -> (ok: bool)
        requires
            old(self).wf(),
        ensures
            final(self).wf(),
            (final(self)@, ok) == old(self)@.step_expect_key(ch),
    {
        if is_json_space_char(ch) {
            true
        } else if ch == '"' {
            self.current_key = String::new();
            self.current_literal = String::new();
            self.state = JsonParserState::InKeyString;
            true
        } else if ch == '}' && self.top_is('}') && self.follows_open_brace() {
            self.close_bracket();
            true
        } else {
            false
        }
    }

    fn on_key_string(&mut self, ch: char) -> (ok: bool)
        requires
            old(self).wf(),
        ensures
            final(self).wf(),
            (final(self)@, ok) == old(self)@.step_key_string(ch),
    {
        if self.current_literal.as_str().unicode_len() > 0 {
            if !is_hex_digit_char(ch) {
                return false;
            }
            push_char(&mut self.current_literal, ch);
            if self.current_literal.as_str().unicode_len() >= 5 {
                self.current_literal = String::new();
            }
            push_char(&mut self.current_key, ch);
            return self.key_prefix_allowed();
        }
        if (ch as u32) < 32 {
            return false;
        }
        if ch == '"' {
            if !self.key_allowed() {
                return false;
            }
            self.state = JsonParserState::ExpectColon;
            true
        } else {
            push_char(&mut self.current_key, ch);
            self.key_prefix_allowed()
        }
    }

    fn on_expect_colon(&mut self, ch: char) -> (ok: bool)
        requires
            old(self).wf(),
        ensures
            final(self).wf(),
            (final(self)@, ok) == old(self)@.step_expect_colon(ch),
    {
        if is_json_space_char(ch) {
            true
        } else if ch == ':' {
            self.state = JsonParserState::ExpectValue;
            true
        } else {
            false
        }
    }

    fn on_expect_value(&mut self, ch: char) -> (ok: bool)
        requires
            old(self).wf(),
        ensures
            final(self).wf(),
            (final(self)@, ok) == old(self)@.step_expect_value(ch),
    {
        if is_json_space_char(ch) {
            true
        } else if ch == '{' {
            self.open_bracket('}', JsonParserState::ExpectKey);
            true
        } else if ch == '[' {
            self.open_bracket(']', JsonParserState::InArray);
            true
        } else if ch == '"' {
            self.current_literal = String::new();
            self.state = JsonParserState::InValueString;
            true
        } else if is_digit_char(ch) || ch == '-' {
            self.begin_number(ch);
            true
        } else if ch == 't' || ch == 'f' || ch == 'n' {
            self.begin_literal(ch);
            true
        } else {
            false
        }
    }

    fn on_value_string(&mut self, ch: char) -> (ok: bool)
        requires
            old(self).wf(),
        ensures
            final(self).wf(),
            (final(self)@, ok) == old(self)@.step_value_string(ch),
    {
        if self.current_literal.as_str().unicode_len() > 0 {
            if !is_hex_digit_char(ch) {
                return false;
            }
            push_char(&mut self.current_literal, ch);
            if self.current_literal.as_str().unicode_len() >= 5 {
                self.current_literal = String::new();
            }
            return true;
        }
        if (ch as u32) < 32 {
            return false;
        }
        if ch == '"' {
            self.state = JsonParserState::ExpectCommaOrClose;
        }
        true
    }

    fn on_number(&mut self, ch: char) -> (ok: bool)
        requires
            old(self).wf(),
        ensures
            final(self).wf(),
            (final(self)@, ok) == old(self)@.step_number(ch),
    {
        if is_digit_char(ch) || ch == '.' || ch == 'e' || ch == 'E' || ch == '+' || ch == '-' {
            push_char(&mut self.current_literal, ch);
            let lit = chars_of(self.current_literal.as_str());
            number_state_of(&lit) != 9
        } else if !is_json_number(&chars_of(self.current_literal.as_str())) {
            false
        } else if ch == ',' && self.stack.len() > 0 {
            self.go_after_comma();
            true
        } else if ch == '}' && self.top_is('}') {
            self.close_bracket();
            true
        } else if ch == ']' && self.top_is(']') {
            self.close_bracket();
            true
        } else if is_json_space_char(ch) {
            self.state = JsonParserState::ExpectCommaOrClose;
            true
        } else {
            false
        }
    }

    fn on_literal(&mut self, ch: char) -> (ok: bool)
        requires
            old(self).wf(),
        ensures
            final(self).wf(),
            (final(self)@, ok) == old(self)@.step_literal(ch),
    {
        if is_alphabetic_char(ch) {
            push_char(&mut self.current_literal, ch);
            let lit = chars_of(self.current_literal.as_str());
            is_prefix(&lit, &vec!['t', 'r', 'u', 'e']) || is_prefix(&lit, &vec!['f', 'a', 'l', 's', 'e'])
                || is_prefix(&lit, &vec!['n', 'u', 'l', 'l'])
        } else {
            let lit = chars_of(self.current_literal.as_str());
            let exact = same_chars(&lit, &vec!['t', 'r', 'u', 'e']) || same_chars(
                &lit,
                &vec!['f', 'a', 'l', 's', 'e'],
            ) || same_chars(&lit, &vec!['n', 'u', 'l', 'l']);
            if !exact {
                return false;
            }
            if ch == ',' && self.stack.len() > 0 {
                self.go_after_comma();
                true
            } else if (ch == '}' && self.top_is('}')) || (ch == ']' && self.top_is(']')) {
                self.close_bracket();
                true
            } else if is_json_space_char(ch) {
                self.state = JsonParserState::ExpectCommaOrClose;
                true
            } else {
                false
            }
        }
    }

    fn on_comma_or_close(&mut self, ch: char) -> (ok: bool)
        requires
            old(self).wf(),
        ensures
            final(self).wf(),
            (final(self)@, ok) == old(self)@.step_comma_or_close(ch),
    {
        if is_json_space_char(ch) {
            true
        } else if ch == ',' && self.stack.len() > 0 {
            self.go_after_comma();
            true
        } else if ch == '}' && self.top_is('}') {
            self.close_bracket();
            true
        } else if ch == ']' && self.top_is(']') {
            self.close_bracket();
            true
        } else {
            false
        }
    }

    fn on_array(&mut self, ch: char) -> (ok: bool)
        requires
            old(self).wf(),
        ensures
            final(self).wf(),
            (final(self)@, ok) == old(self)@.step_array(ch),
    {
        if is_json_space_char(ch) {
            true
        } else if ch == ']' && self.top_is(']') {
            self.close_bracket();
            true
        } else {
            self.state = JsonParserState::ExpectValue;
            self.on_expect_value(ch)
        }
    }

    fn on_object(&mut self, ch: char) -> (ok: bool)
        requires
            old(self).wf(),
        ensures
            final(self).wf(),
            (final(self)@, ok) == old(self)@.step_object(ch),
    {
        self.state = JsonParserState::ExpectKey;
        self.on_expect_key(ch)
    }

    /// Consumes one character and reports whether it was accepted.
    fn consume_char(&mut self, ch: char) -> (ok: bool)
        requires
            old(self).wf(),
        ensures
            final(self).wf(),
            (final(self)@, ok) == old(self)@.step(ch),
    {
        push_char(&mut self.buffer, ch);
        if self.in_escape {
            self.in_escape = false;
            let ok = is_escape_char_exec(ch);
            if ch == 'u' {
                let mut lit = String::new();
                push_char(&mut lit, 'u');
                proof {
                    assert(lit@ =~= seq!['u']);
                }
                self.current_literal = lit;
            }
            if self.state == JsonParserState::InKeyString && ok {
                push_char(&mut self.current_key, ch);
                return self.key_prefix_allowed();
            }
            return ok;
        }
        if ch == '\\' && (self.state == JsonParserState::InValueString || self.state
            == JsonParserState::InKeyString) && self.current_literal.as_str().unicode_len() == 0 {
            if self.state == JsonParserState::InKeyString {
                push_char(&mut self.current_key, ch);
                let ok = self.key_prefix_allowed();
                self.in_escape = ok;
                return ok;
            }
            self.in_escape = true;
            return true;
        }
        match self.state {
            JsonParserState::Start => self.on_start(ch),
            JsonParserState::ExpectKey => self.on_expect_key(ch),
            JsonParserState::InKeyString => self.on_key_string(ch),
            JsonParserState::ExpectColon => self.on_expect_colon(ch),
            JsonParserState::ExpectValue => self.on_expect_value(ch),
            JsonParserState::InValueString => self.on_value_string(ch),
            JsonParserState::InNumber => self.on_number(ch),
            JsonParserState::InBooleanOrNull => self.on_literal(ch),
            JsonParserState::ExpectCommaOrClose => self.on_comma_or_close(ch),
            JsonParserState::InArray => self.on_array(ch),
            JsonParserState::InObject => self.on_object(ch),
            JsonParserState::Complete => is_json_space_char(ch),
            JsonParserState::Error => false,
        }
    }

    /// Consumes the characters of `chars`, stopping at the first rejected one.
    fn consume_all(&mut self, chars: &Vec<char>) -> (ok: bool)
        requires
            old(self).wf(),
        ensures
            final(self).wf(),
            (final(self)@, ok) == old(self)@.run(chars@),
    {
        let ghost g0 = self@;
        let mut i: usize = 0;
        while i < chars.len()
            invariant
                self.wf(),
                g0 == old(self)@,
                i <= chars@.len(),
                g0.run(chars@.subrange(0, i as int)) == (self@, true),
            decreases chars@.len() - i,
        {
            proof {
                assert(chars@.subrange(0, i + 1).drop_last() =~= chars@.subrange(0, i as int));
                assert(chars@.subrange(0, i + 1).last() == chars@[i as int]);
            }
            let ghost before = self@;
            if !self.consume_char(chars[i]) {
                proof {
                    assert(g0.run(chars@.subrange(0, i + 1)) == before.step(chars@[i as int]));
                    lemma_run_stops(g0, chars@, i as int);
                }
                return false;
            }
            i = i + 1;
        }
        proof {
            assert(chars@.subrange(0, chars@.len() as int) =~= chars@);
        }
        true
    }

    /// Returns true if `token_str` is allowed at the current parser state.
    pub fn is_token_valid(&self, token_str: &str) -> (valid: bool)
        requires
            self.wf(),
        ensures
            valid == self@.token_valid(token_str@),
    {
        if token_str.is_empty() {
            return false;
        }
        let chars = chars_of(token_str);
        if !self.structural_ok(&chars) {
            return false;
        }
        let mut test_grammar = self.duplicate();
        if !test_grammar.consume_all(&chars) {
            return false;
        }
        test_grammar.state != JsonParserState::Error
    }

    /// The structural pre-check of `is_token_valid`.
    fn structural_ok(&self, tok: &Vec<char>) -> (ok: bool)
        ensures
            ok == self@.structural_ok(tok@),
    {
        match self.state {
            JsonParserState::ExpectKey => {
                let k = skip_whitespace(tok);
                if k == tok.len() {
                    !self.buffer_ends_blank()
                } else {
                    tok[k] == '"' || tok[k] == '}'
                }
            },
            JsonParserState::ExpectColon => {
                let k = skip_whitespace(tok);
                if k == tok.len() {
                    !self.buffer_ends_blank()
                } else {
                    tok[k] == ':'
                }
            },
            JsonParserState::ExpectValue => {
                let k = skip_whitespace(tok);
                if k == tok.len() {
                    !self.buffer_ends_blank()
                } else {
                    true
                }
            },
            JsonParserState::ExpectCommaOrClose => {
                let k = skip_whitespace(tok);
                if k == tok.len() {
                    !self.buffer_ends_blank()
                } else {
                    tok[k] == ',' || tok[k] == '}' || tok[k] == ']'
                }
            },
            _ => true,
        }
    }

    /// Whether the text generated so far ends in a space, newline or tab.
    fn buffer_ends_blank(&self) -> (b: bool)
        ensures
            b == self@.buffer_ends_blank(),
    {
        let s = self.buffer.as_str();
        let n = s.unicode_len();
        if n == 0 {
            return false;
        }
        let c = s.get_char(n - 1);
        c == ' ' || c == '\n' || c == '\t'
    }

    /// Advances the grammar parser state by consuming `token_str`; on the
    /// first rejected character the grammar enters the `Error` state.
    pub fn advance(&mut self, token_str: &str) -> (accepted: bool)
        requires
            old(self).wf(),
        ensures
            final(self).wf(),
            accepted == old(self)@.run(token_str@).1,
            final(self)@ == old(self)@.advanced(token_str@),
    {
        let chars = chars_of(token_str);
        let ghost g0 = self@;
        if !self.consume_all(&chars) {
            proof {
                lemma_rejected_run_clears_escape(g0, chars@);
            }
            self.state = JsonParserState::Error;
            return false;
        }
        true
    }
}

/// Running `s[..i+1]` stops with a rejection when `s[..i]` ran cleanly and
/// its last character is rejected; then the whole of `s` stops there too.
proof fn lemma_run_stops(g: GrammarView, s: Seq<char>, i: int)
    requires
        0 <= i < s.len(),
        g.run(s.subrange(0, i)).1,
        !g.run(s.subrange(0, i)).0.step(s[i]).1,
    ensures
        g.run(s) == g.run(s.subrange(0, i + 1)),
        !g.run(s).1,
    decreases s.len() - i,
{
    assert(s.subrange(0, i + 1).drop_last() =~= s.subrange(0, i));
    if i + 1 < s.len() {
        lemma_run_prefix_failed(g, s, i + 1);
    } else {
        assert(s.subrange(0, i + 1) =~= s);
    }
}

/// Once a prefix of `s` is rejected, running the whole of `s` gives the same result.
proof fn lemma_run_prefix_failed(g: GrammarView, s: Seq<char>, j: int)
    requires
        0 <= j <= s.len(),
        !g.run(s.subrange(0, j)).1,
    ensures
        g.run(s) == g.run(s.subrange(0, j)),
    decreases s.len() - j,
{
    if j == s.len() {
        assert(s.subrange(0, j) =~= s);
    } else {
        assert(s.subrange(0, j + 1).drop_last() =~= s.subrange(0, j));
        lemma_run_prefix_failed(g, s, j + 1);
    }
}

/// One character keeps the grammar well formed.
pub proof fn lemma_step_keeps_wf(g: GrammarView, ch: char)
    requires
        g.wf(),
    ensures
        g.step(ch).0.wf(),
{
}

/// Consuming any text keeps the grammar well formed.
pub proof fn lemma_run_keeps_wf(g: GrammarView, s: Seq<char>)
    requires
        g.wf(),
    ensures
        g.run(s).0.wf(),
    decreases s.len(),
{
    if s.len() > 0 {
        lemma_run_keeps_wf(g, s.drop_last());
        let (h, ok) = g.run(s.drop_last());
        if ok {
            lemma_step_keeps_wf(h, s.last());
        }
    }
}

/// Whatever pieces `advance` is given, accepted or not, the grammar stays
/// well formed: the depth is the number of open brackets, the bracket stack
/// holds only `}` and `]`, and the `Complete` state is only reached at the
/// top level.
pub proof fn lemma_advance_keeps_wf(g: GrammarView, s: Seq<char>)
    requires
        g.wf(),
    ensures
        g.advanced(s).wf(),
        g.advanced(s).depth == g.advanced(s).stack.len(),
        forall|i: int|
            0 <= i < g.advanced(s).stack.len() ==> #[trigger] g.advanced(s).stack[i] == '}'
                || g.advanced(s).stack[i] == ']',
        g.advanced(s).state == JsonParserState::Complete ==> g.advanced(s).depth == 0,
{
    lemma_run_keeps_wf(g, s);
    if !g.run(s).1 {
        lemma_rejected_run_clears_escape(g, s);
    }
}

/// One character is appended to the recorded text exactly once.
pub proof fn lemma_step_records_char(g: GrammarView, ch: char)
    ensures
        g.step(ch).0.buffer == g.buffer.push(ch),
{
}

/// The recorded text grows by exactly what was read: after a piece is
/// accepted, `buffer` is the old text followed by the whole piece.
pub proof fn lemma_run_records_text(g: GrammarView, s: Seq<char>)
    ensures
        g.run(s).1 ==> g.run(s).0.buffer == g.buffer + s,
    decreases s.len(),
{
    if s.len() == 0 {
        assert(g.buffer + s =~= g.buffer);
    } else {
        lemma_run_records_text(g, s.drop_last());
        let (h, ok) = g.run(s.drop_last());
        if ok {
            lemma_step_records_char(h, s.last());
            assert(g.buffer + s.drop_last() + seq![s.last()] =~= g.buffer + s);
            assert((g.buffer + s.drop_last()).push(s.last()) =~= g.buffer + s);
        }
    }
}

/// A grammar at the start of the text, before any value.
pub open spec fn at_start(g: GrammarView) -> bool {
    &&& g.state == JsonParserState::Start
    &&& g.stack.len() == 0
    &&& g.depth == 0
    &&& !g.in_escape
}

/// Reading number characters from the start: the text is accepted as long as
/// it can still become a JSON number, and is then the number being read.
proof fn lemma_run_number_text(g: GrammarView, s: Seq<char>)
    requires
        at_start(g),
        s.len() > 0,
        forall|i: int| 0 <= i < s.len() ==> is_number_char(#[trigger] s[i]),
    ensures
        g.run(s).1 <==> number_state(s) != 9,
        g.run(s).1 ==> g.run(s).0.state == JsonParserState::InNumber && g.run(s).0.depth == 0
            && g.run(s).0.current_literal == s,
    decreases s.len(),
{
    let init = s.drop_last();
    let c = s.last();
    assert(is_number_char(s[s.len() - 1]));
    if init.len() == 0 {
        assert(g.run(init) == (g, true));
        assert(number_state(init) == 0);
        assert(seq![c] =~= s);
    } else {
        assert forall|i: int| 0 <= i < init.len() implies is_number_char(#[trigger] init[i]) by {
            assert(init[i] == s[i]);
        }
        lemma_run_number_text(g, init);
        if g.run(init).1 {
            assert(init.push(c) =~= s);
        }
    }
}

/// A top-level number is accepted while its text can still become a JSON
/// number, and the grammar reports it complete exactly when the text is a
/// JSON number (RFC 8259 `number`).
pub proof fn lemma_top_level_number(g: GrammarView, s: Seq<char>)
    requires
        at_start(g),
        s.len() > 0,
        forall|i: int| 0 <= i < s.len() ==> is_number_char(#[trigger] s[i]),
    ensures
        g.run(s).1 <==> number_state(s) != 9,
        g.advanced(s).complete() <==> json_number(s),
{
    lemma_run_number_text(g, s);
}

/// String content that needs no escape: no quote, backslash or control character.
pub open spec fn plain_text(body: Seq<char>) -> bool {
    forall|i: int|
        0 <= i < body.len() ==> #[trigger] body[i] != '"' && body[i] != '\\' && !is_string_breaker(
            body[i],
        )
}

/// Reading a quote and plain content from the start leaves an open string.
proof fn lemma_run_open_string(g: GrammarView, body: Seq<char>)
    requires
        at_start(g),
        plain_text(body),
    ensures
        g.run(seq!['"'] + body).1,
        g.run(seq!['"'] + body).0.state == JsonParserState::InValueString,
        g.run(seq!['"'] + body).0.depth == 0,
        g.run(seq!['"'] + body).0.current_literal.len() == 0,
        !g.run(seq!['"'] + body).0.in_escape,
    decreases body.len(),
{
    let t = seq!['"'] + body;
    if body.len() == 0 {
        assert(t =~= seq!['"']);
        assert(t.drop_last() =~= Seq::<char>::empty());
        assert(g.run(t.drop_last()) == (g, true));
    } else {
        let init = body.drop_last();
        assert forall|i: int| 0 <= i < init.len() implies #[trigger] init[i] != '"' && init[i] != '\\'
            && !is_string_breaker(init[i]) by {
            assert(init[i] == body[i]);
        }
        lemma_run_open_string(g, init);
        assert(t.drop_last() =~= seq!['"'] + init);
        assert(t.last() == body[body.len() - 1]);
    }
}

/// A top-level string of plain content is accepted; it is not complete while
/// open and complete once its closing quote is read.
pub proof fn lemma_top_level_string(g: GrammarView, body: Seq<char>)
    requires
        at_start(g),
        plain_text(body),
    ensures
        g.run(seq!['"'] + body).1,
        !g.advanced(seq!['"'] + body).complete(),
        g.run(seq!['"'] + body + seq!['"']).1,
        g.advanced(seq!['"'] + body + seq!['"']).complete(),
{
    lemma_run_open_string(g, body);
    let t = seq!['"'] + body + seq!['"'];
    assert(t.drop_last() =~= seq!['"'] + body);
    assert(t.last() == '"');
}

/// A literal that cannot grow into `true`, `false` or `null` stays so when it grows.
proof fn lemma_literal_prefix_closed(s: Seq<char>)
    requires
        s.len() > 0,
        literal_prefix_ok(s),
    ensures
        literal_prefix_ok(s.drop_last()),
{
    let p = s.drop_last();
    if s.is_prefix_of(word_true()) {
        assert(p =~= word_true().subrange(0, p.len() as int));
    } else if s.is_prefix_of(word_false()) {
        assert(p =~= word_false().subrange(0, p.len() as int));
    } else {
        assert(p =~= word_null().subrange(0, p.len() as int));
    }
}

/// Reading letters of a literal from the start: accepted as long as the text
/// can still grow into `true`, `false` or `null`, and then it is the literal
/// being read.
proof fn lemma_run_literal_text(g: GrammarView, s: Seq<char>)
    requires
        at_start(g),
        s.len() > 0,
        is_literal_start(s[0]),
        forall|i: int| 0 < i < s.len() ==> alphabetic(#[trigger] s[i]),
    ensures
        g.run(s).1 <==> literal_prefix_ok(s),
        g.run(s).1 ==> g.run(s).0.state == JsonParserState::InBooleanOrNull && g.run(s).0.depth == 0
            && g.run(s).0.current_literal == s,
    decreases s.len(),
{
    let init = s.drop_last();
    let c = s.last();
    if init.len() == 0 {
        assert(g.run(init) == (g, true));
        assert(s =~= seq![s[0]]);
        assert(c == s[0]);
        assert(seq![c].is_prefix_of(word_true()) || seq![c].is_prefix_of(word_false())
            || seq![c].is_prefix_of(word_null())) by {
            if c == 't' {
                assert(word_true().subrange(0, 1) =~= seq![c]);
            } else if c == 'f' {
                assert(word_false().subrange(0, 1) =~= seq![c]);
            } else {
                assert(word_null().subrange(0, 1) =~= seq![c]);
            }
        }
    } else {
        assert(init[0] == s[0]);
        assert forall|i: int| 0 < i < init.len() implies alphabetic(#[trigger] init[i]) by {
            assert(init[i] == s[i]);
        }
        assert(alphabetic(s[s.len() - 1]));
        lemma_run_literal_text(g, init);
        if g.run(init).1 {
            assert(init.push(c) =~= s);
        } else if literal_prefix_ok(s) {
            lemma_literal_prefix_closed(s);
        }
    }
}

/// A top-level literal (letters after `t`, `f` or `n`) is accepted while it
/// can still grow into `true`, `false` or `null`, and the grammar reports it
/// complete exactly when it is one of them.
pub proof fn lemma_top_level_literal(g: GrammarView, s: Seq<char>)
    requires
        at_start(g),
        s.len() > 0,
        is_literal_start(s[0]),
        forall|i: int| 0 < i < s.len() ==> alphabetic(#[trigger] s[i]),
    ensures
        g.run(s).1 <==> literal_prefix_ok(s),
        g.advanced(s).complete() <==> literal_exact(s),
{
    lemma_run_literal_text(g, s);
    if literal_exact(s) {
        assert(s.is_prefix_of(s));
    }
}

/// Brackets must match: outside a string, a `]` or `}` is accepted only when
/// it closes the innermost open bracket, which is then removed from the stack.
pub proof fn lemma_closer_matches_innermost(g: GrammarView, ch: char)
    requires
        ch == ']' || ch == '}',
        !g.in_escape,
        g.state != JsonParserState::InValueString,
        g.state != JsonParserState::InKeyString,
        g.step(ch).1,
    ensures
        g.stack.len() > 0,
        g.stack.last() == ch,
        g.step(ch).0.stack == g.stack.drop_last(),
{
}

/// A piece that `is_token_valid` accepts is consumed by `advance` in full,
/// and the grammar is not left in the `Error` state.
pub proof fn lemma_valid_token_advances(g: GrammarView, tok: Seq<char>)
    requires
        g.token_valid(tok),
    ensures
        g.run(tok).1,
        g.advanced(tok) == g.run(tok).0,
        g.advanced(tok).state != JsonParserState::Error,
{
}

/// A rejected character never leaves an escape pending.
pub proof fn lemma_rejected_step_clears_escape(g: GrammarView, ch: char)
    requires
        !g.step(ch).1,
    ensures
        !g.step(ch).0.in_escape,
{
}

/// When a piece is rejected, no escape is left pending.
pub proof fn lemma_rejected_run_clears_escape(g: GrammarView, s: Seq<char>)
    requires
        !g.run(s).1,
    ensures
        !g.run(s).0.in_escape,
    decreases s.len(),
{
    if s.len() > 0 {
        let (h, ok) = g.run(s.drop_last());
        if !ok {
            lemma_rejected_run_clears_escape(g, s.drop_last());
        } else {
            lemma_rejected_step_clears_escape(h, s.last());
        }
    }
}

/// In the `Error` state with no pending escape every non-empty piece is rejected.
pub proof fn lemma_error_rejects(g: GrammarView, t: Seq<char>)
    requires
        g.state == JsonParserState::Error,
        !g.in_escape,
        t.len() > 0,
    ensures
        !g.run(t).1,
        g.run(t).0.state == JsonParserState::Error,
    decreases t.len(),
{
    if t.drop_last().len() > 0 {
        lemma_error_rejects(g, t.drop_last());
    } else {
        assert(g.run(t.drop_last()) == (g, true));
    }
}

/// What `advance` does to a well-formed grammar at its edges: a rejected
/// piece leaves it in the `Error` state; in the `Error` state every non-empty
/// piece is rejected and the grammar stays there; the empty piece is accepted
/// and changes nothing.
pub proof fn lemma_advance_error_absorbs(g: GrammarView, s: Seq<char>)
    requires
        g.wf(),
    ensures
        !g.run(s).1 ==> g.advanced(s).state == JsonParserState::Error,
        g.state == JsonParserState::Error && s.len() > 0 ==> !g.run(s).1 && g.advanced(s).state
            == JsonParserState::Error,
        s.len() == 0 ==> g.run(s).1 && g.advanced(s) == g,
{
    if g.state == JsonParserState::Error && s.len() > 0 {
        lemma_error_rejects(g, s);
    }
}

/// The error is sticky: once `advance` rejects a piece, every later
/// non-empty piece is rejected as well.
pub proof fn lemma_rejection_is_final(g: GrammarView, s: Seq<char>, t: Seq<char>)
    requires
        !g.run(s).1,
        t.len() > 0,
    ensures
        g.advanced(s).state == JsonParserState::Error,
        !g.advanced(s).run(t).1,
        !g.advanced(s).token_valid(t),
{
    lemma_rejected_run_clears_escape(g, s);
    lemma_error_rejects(g.advanced(s), t);
}

/// Computes [`number_step`].
fn number_step_exec(st: u8, c: char) -> (r: u8)
    requires
        st <= 9,
    ensures
        r as int == number_step(st as int, c),
        r <= 9,
{
    let digit = is_digit_char(c);
    let exp = c == 'e' || c == 'E';
    if st == 0 {
        if c == '-' {
            1
        } else if c == '0' {
            2
        } else if digit {
            3
        } else {
            9
        }
    } else if st == 1 {
        if c == '0' {
            2
        } else if digit {
            3
        } else {
            9
        }
    } else if st == 2 {
        if c == '.' {
            4
        } else if exp {
            6
        } else {
            9
        }
    } else if st == 3 {
        if digit {
            3
        } else if c == '.' {
            4
        } else if exp {
            6
        } else {
            9
        }
    } else if st == 4 {
        if digit {
            5
        } else {
            9
        }
    } else if st == 5 {
        if digit {
            5
        } else if exp {
            6
        } else {
            9
        }
    } else if st == 6 {
        if c == '+' || c == '-' {
            7
        } else if digit {
            8
        } else {
            9
        }
    } else if st == 7 || st == 8 {
        if digit {
            8
        } else {
            9
        }
    } else {
        9
    }
}

/// Computes [`number_state`].
fn number_state_of(t: &Vec<char>) -> (st: u8)
    ensures
        st as int == number_state(t@),
        st <= 9,
{
    let mut st: u8 = 0;
    let mut i: usize = 0;
    while i < t.len()
        invariant
            i <= t@.len(),
            st <= 9,
            st as int == number_state(t@.subrange(0, i as int)),
        decreases t@.len() - i,
    {
        proof {
            assert(t@.subrange(0, i + 1).drop_last() =~= t@.subrange(0, i as int));
            assert(t@.subrange(0, i + 1).last() == t@[i as int]);
        }
        st = number_step_exec(st, t[i]);
        i = i + 1;
    }
    proof {
        assert(t@.subrange(0, t@.len() as int) =~= t@);
    }
    st
}

/// Whether `t` is a JSON number.
fn is_json_number(t: &Vec<char>) -> (b: bool)
    ensures
        b == json_number(t@),
{
    let st = number_state_of(t);
    st == 2 || st == 3 || st == 5 || st == 8
}

/// Whether `c` may follow a backslash inside a string value.
fn is_escape_char_exec(c: char) -> (b: bool)
    ensures
        b == is_escape_char(c),
{
    c == '"' || c == '\\' || c == '/' || c == 'b' || c == 'f' || c == 'n' || c == 'r' || c == 't'
        || c == 'u'
}

/// Whether `c` is a hexadecimal digit.
fn is_hex_digit_char(c: char) -> (b: bool)
    ensures
        b == is_hex_digit(c),
{
    let u = c as u32;
    (48 <= u && u <= 57) || (97 <= u && u <= 102) || (65 <= u && u <= 70)
}

/// Whether `c` is JSON whitespace.
fn is_json_space_char(c: char) -> (b: bool)
    ensures
        b == is_json_space(c),
{
    c == ' ' || c == '\t' || c == '\n' || c == '\r'
}

/// Whether `p` is a prefix of `w`.
fn is_prefix(p: &Vec<char>, w: &Vec<char>) -> (b: bool)
    ensures
        b == p@.is_prefix_of(w@),
{
    if p.len() > w.len() {
        return false;
    }
    let mut i: usize = 0;
    while i < p.len()
        invariant
            p@.len() <= w@.len(),
            i <= p@.len(),
            forall|j: int| 0 <= j < i ==> p@[j] == w@[j],
        decreases p@.len() - i,
    {
        if p[i] != w[i] {
            proof {
                assert(w@.subrange(0, p@.len() as int)[i as int] != p@[i as int]);
            }
            return false;
        }
        i = i + 1;
    }
    proof {
        assert(p@ =~= w@.subrange(0, p@.len() as int));
    }
    true
}

/// Whether `a` and `b` hold the same characters.
fn same_chars(a: &Vec<char>, b: &Vec<char>) -> (eq: bool)
    ensures
        eq == (a@ == b@),
{
    if a.len() != b.len() {
        return false;
    }
    let r = is_prefix(a, b);
    proof {
        if r {
            assert(a@ =~= b@.subrange(0, a@.len() as int));
            assert(b@.subrange(0, b@.len() as int) =~= b@);
        }
    }
    r
}

/// The index of the first non-whitespace character of `tok` (or its length).
fn skip_whitespace(tok: &Vec<char>) -> (k: usize)
    ensures
        k <= tok@.len(),
        trim_start(tok@) == tok@.subrange(k as int, tok@.len() as int),
{
    let mut k: usize = 0;
    assert(tok@.subrange(0, tok@.len() as int) =~= tok@);
    while k < tok.len() && is_whitespace_char(tok[k])
        invariant
            k <= tok@.len(),
            trim_start(tok@) == trim_start(tok@.subrange(k as int, tok@.len() as int)),
        decreases tok@.len() - k,
    {
        proof {
            let rest = tok@.subrange(k as int, tok@.len() as int);
            assert(rest.drop_first() =~= tok@.subrange(k + 1, tok@.len() as int));
        }
        k = k + 1;
    }
    proof {
        assert(tok@.subrange(0, tok@.len() as int) =~= tok@);
    }
    k
}

/// Abstract grammar parser interface for token-by-token validation.
pub trait GrammarParser {
    fn is_accepted(&self) -> bool;

    fn advance(&mut self, token_id: u32, piece: &str) -> Result<(), String>;
}

/// JSON object-specific grammar parser compatible with `GrammarParser`.
#[derive(Debug)]
pub struct JsonObjectGrammar {
    inner: JsonGrammar,
}

impl JsonObjectGrammar {
    /// The grammar that this parser drives.
    pub closed spec fn grammar(&self) -> GrammarView {
        self.inner@
    }

    /// The driven grammar stays well-formed.
    #[verifier::type_invariant]
    spec fn inv(self) -> bool {
        self.inner.wf()
    }

    /// A parser over a fresh JSON grammar.
    pub fn new() -> (p: Self)
        ensures
            p.grammar().state == JsonParserState::Start,
            p.grammar().stack.len() == 0,
            p.grammar().depth == 0,
            p.grammar().buffer.len() == 0,
            !p.grammar().in_escape,
            p.grammar().allowed_keys is None,
            p.grammar().current_key.len() == 0,
            p.grammar().current_literal.len() == 0,
    {
        JsonObjectGrammar { inner: JsonGrammar::new() }
    }
}

/// The error text reported when a piece is refused by the grammar.
pub open spec fn syntax_error_text(piece: Seq<char>) -> Seq<char> {
    "Syntax error advancing grammar with piece "@ + debug_repr(piece)
}

/// The error text reported for a non-blank piece after the JSON value is complete.
pub open spec fn completed_error_text() -> Seq<char> {
    "Cannot append tokens after JSON completion"@
}

impl GrammarParser for JsonObjectGrammar {
    fn is_accepted(&self) -> (b: bool)
        ensures
            b == self.grammar().complete(),
    {
        self.inner.is_complete()
    }

    /// Once the JSON value is complete only whitespace pieces are accepted
    /// (and change nothing); otherwise the piece is fed to the grammar and is
    /// accepted when every character was.
    fn advance(&mut self, token_id: u32, piece: &str) -> (r: Result<(), String>)
        ensures
            old(self).grammar().complete() ==> {
                &&& final(self).grammar() == old(self).grammar()
                &&& r is Ok <==> all_white_space(piece@)
                &&& r matches Err(e) ==> e@ == completed_error_text()
            },
            !old(self).grammar().complete() ==> {
                &&& final(self).grammar() == old(self).grammar().advanced(piece@)
                &&& r is Ok <==> (old(self).grammar().run(piece@).1 && old(self).grammar().run(
                    piece@,
                ).0.state != JsonParserState::Error)
                &&& r matches Err(e) ==> e@ == syntax_error_text(piece@)
            },
    {
        proof {
            use_type_invariant(&*self);
        }
        if self.inner.is_complete() {
            if is_blank(piece) {
                return Ok(());
            }
            return Err(String::from_str("Cannot append tokens after JSON completion"));
        }
        let mut g = JsonGrammar::new();
        std::mem::swap(&mut g, &mut self.inner);
        let accepted = g.advance(piece);
        self.inner = g;
        if accepted && self.inner.state != JsonParserState::Error {
            Ok(())
        } else {
            let prefix = String::from_str("Syntax error advancing grammar with piece ");
            let shown = debug_format_str(piece);
            Err(prefix.concat(shown.as_str()))
        }
    }
}

impl Default for JsonGrammar {
    fn default() -> (g: Self)
        ensures
            g.wf(),
            g@.state == JsonParserState::Start,
            g@.stack.len() == 0,
            g@.buffer.len() == 0,
            g@.depth == 0,
            !g@.in_escape,
            g@.allowed_keys is None,
            g@.current_key.len() == 0,
            g@.current_literal.len() == 0,
    {
        Self::new()
    }
}

impl Clone for JsonObjectGrammar {
    fn clone(&self) -> (p: Self)
        ensures
            p.grammar() == self.grammar(),
    {
        proof {
            use_type_invariant(self);
        }
        JsonObjectGrammar { inner: self.inner.duplicate() }
    }
}

impl Default for JsonObjectGrammar {
    fn default() -> (p: Self)
        ensures
            p.grammar().state == JsonParserState::Start,
            p.grammar().stack.len() == 0,
            p.grammar().depth == 0,
            p.grammar().buffer.len() == 0,
            !p.grammar().in_escape,
            p.grammar().allowed_keys is None,
            p.grammar().current_key.len() == 0,
            p.grammar().current_literal.len() == 0,
    {
        Self::new()
    }
}

} // verus!
