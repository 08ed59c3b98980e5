//! Character and string helpers shared by the grammar, the stop-sequence check
//! and the tokenizer.

use vstd::prelude::*;
use vstd::std_specs::iter::IteratorSpec;

verus! {

broadcast use vstd::string::group_string_axioms;

/// The Unicode `White_Space` property, which `char::is_whitespace` reports:
/// U+0009..U+000D, U+0020, U+0085, U+00A0, U+1680, U+2000..U+200A, U+2028,
/// U+2029, U+202F, U+205F and U+3000.
pub open spec fn is_white_space(c: char) -> bool {
    let u = c as u32;
    ||| 0x09 <= u <= 0x0D
    ||| u == 0x20
    ||| u == 0x85
    ||| u == 0xA0
    ||| u == 0x1680
    ||| 0x2000 <= u <= 0x200A
    ||| u == 0x2028
    ||| u == 0x2029
    ||| u == 0x202F
    ||| u == 0x205F
    ||| u == 0x3000
}

/// Whether `c` is whitespace in the sense of `char::is_whitespace`.
pub(crate) fn is_whitespace_char(c: char) -> (b: bool)
    ensures
        b == is_white_space(c),
{
    let u = c as u32;
    (0x09 <= u && u <= 0x0D) || u == 0x20 || u == 0x85 || u == 0xA0 || u == 0x1680 || (0x2000
        <= u && u <= 0x200A) || u == 0x2028 || u == 0x2029 || u == 0x202F || u == 0x205F || u
        == 0x3000
}

/// An ASCII decimal digit `0..=9`.
pub open spec fn is_digit(c: char) -> bool {
    '0' as u32 <= c as u32 <= '9' as u32
}

/// Whether `c` is an ASCII decimal digit.
pub(crate) fn is_digit_char(c: char) -> (b: bool)
    ensures
        b == is_digit(c),
{
    let u = c as u32;
    48 <= u && u <= 57
}

/// What `char::is_alphabetic` reports for `c` (the Unicode `Alphabetic` property).
pub uninterp spec fn unicode_alphabetic(c: char) -> bool;

/// What `char::is_alphabetic` reports: on ASCII exactly the letters `A..=Z`
/// and `a..=z`; beyond ASCII the Unicode `Alphabetic` property.
pub open spec fn alphabetic(c: char) -> bool {
    if (c as u32) < 128 {
        ('a' as u32 <= c as u32 <= 'z' as u32) || ('A' as u32 <= c as u32 <= 'Z' as u32)
    } else {
        unicode_alphabetic(c)
    }
}

/// Calls `char::is_alphabetic`; the result is the Unicode `Alphabetic`
/// property of `c`, which is only named here, not spelled out beyond ASCII,
/// where exactly the letters `A..=Z` and `a..=z` have it.
#[verifier::external_body]
pub(crate) fn is_alphabetic_char(c: char) -> (b: bool)
    ensures
        b == unicode_alphabetic(c),
        b == alphabetic(c),
{
    c.is_alphabetic()
}

/// Calls `String::push`, which appends one character to the end of the string.
#[verifier::external_body]
pub(crate) fn push_char(s: &mut String, c: char)
    ensures
        final(s)@ == old(s)@.push(c),
{
    s.push(c)
}

/// The text that `{:?}` prints for a string slice.
pub uninterp spec fn debug_repr(s: Seq<char>) -> Seq<char>;

/// Formats a string slice with `{:?}` (its quoted, escaped form); the result is
/// only named, not spelled out.
#[verifier::external_body]
pub(crate) fn debug_format_str(s: &str) -> (r: String)
    ensures
        r@ == debug_repr(s@),
{
    format!("{:?}", s)
}

/// The characters of `s`, in order.
pub(crate) fn chars_of(s: &str) -> (v: Vec<char>)
    ensures
        v@ == s@,
{
    let mut it = s.chars();
    let mut v: Vec<char> = Vec::new();
    loop
        invariant_except_break
            v@ + it.remaining() == s@,
            it.obeys_prophetic_iter_laws(),
            it.decrease() is Some,
        ensures
            v@ == s@,
        decreases it.decrease()->0,
    {
        match it.next() {
            Some(c) => {
                proof {
                    assert(v@.push(c) + it.remaining() =~= s@);
                }
                v.push(c);
            },
            None => {
                proof {
                    assert(v@ =~= s@);
                }
                break;
            },
        }
    }
    v
}

/// Every character of `s` is whitespace (`s.trim().is_empty()`).
pub open spec fn all_white_space(s: Seq<char>) -> bool {
    forall|i: int| 0 <= i < s.len() ==> is_white_space(#[trigger] s[i])
}

/// Whether every character of `s` is whitespace.
pub(crate) fn is_blank(s: &str) -> (b: bool)
    ensures
        b == all_white_space(s@),
{
    let v = chars_of(s);
    let mut i: usize = 0;
    while i < v.len()
        invariant
            v@ == s@,
            i <= v@.len(),
            forall|j: int| 0 <= j < i ==> is_white_space(#[trigger] s@[j]),
        decreases v@.len() - i,
    {
        if !is_whitespace_char(v[i]) {
            return false;
        }
        i = i + 1;
    }
    true
}

/// The suffix of `s` that starts at its first non-whitespace character.
pub open spec fn trim_start(s: Seq<char>) -> Seq<char>
    decreases s.len(),
{
    if s.len() == 0 {
        s
    } else if is_white_space(s[0]) {
        trim_start(s.drop_first())
    } else {
        s
    }
}

/// `s` occurs in `t` as a contiguous run of characters.
pub open spec fn occurs_in(s: Seq<char>, t: Seq<char>) -> bool {
    exists|i: int| 0 <= i && i + s.len() <= t.len() && #[trigger] t.subrange(i, i + s.len()) == s
}

/// Whether `needle` occurs in `hay` as a contiguous run of characters.
pub(crate) fn contains_chars(hay: &Vec<char>, needle: &Vec<char>) -> (b: bool)
    ensures
        b == occurs_in(needle@, hay@),
{
    let n = needle.len();
    let m = hay.len();
    if n > m {
        proof {
            assert forall|i: int| !(0 <= i && i + n <= m && #[trigger] hay@.subrange(i, i + n) == needle@) by {}
        }
        return false;
    }
    let mut i: usize = 0;
    while i <= m - n
        invariant
            n == needle@.len(),
            m == hay@.len(),
            n <= m,
            i <= m - n + 1,
            forall|k: int| 0 <= k < i ==> #[trigger] hay@.subrange(k, k + n) != needle@,
        decreases m - i,
    {
        let mut j: usize = 0;
        let mut same = true;
        while j < n
            invariant
                n == needle@.len(),
                m == hay@.len(),
                i + n <= m,
                j <= n,
                same == (hay@.subrange(i as int, i + j) =~= needle@.subrange(0, j as int)),
            decreases n - j,
        {
            if hay[i + j] != needle[j] {
                same = false;
            }
            proof {
                let a0 = hay@.subrange(i as int, i + j);
                let b0 = needle@.subrange(0, j as int);
                let a1 = hay@.subrange(i as int, i + j + 1);
                let b1 = needle@.subrange(0, j + 1);
                assert(a1 =~= a0.push(hay@[i + j]));
                assert(b1 =~= b0.push(needle@[j as int]));
                assert(a1.drop_last() =~= a0);
                assert(b1.drop_last() =~= b0);
                if a1 =~= b1 {
                    assert(a1.last() == b1.last());
                }
                assert((a1 =~= b1) == ((a0 =~= b0) && hay@[i + j] == needle@[j as int]));
            }
            j = j + 1;
        }
        proof {
            assert(needle@.subrange(0, n as int) =~= needle@);
        }
        if same {
            return true;
        }
        i = i + 1;
    }
    false
}

/// The decimal digit characters.
pub open spec fn digit_chars() -> Seq<char> {
    seq!['0', '1', '2', '3', '4', '5', '6', '7', '8', '9']
}

/// The decimal representation of `n` (as `{}` prints an unsigned integer).
pub open spec fn decimal(n: nat) -> Seq<char>
    decreases n,
{
    if n < 10 {
        seq![digit_chars()[n as int]]
    } else {
        decimal(n / 10).push(digit_chars()[(n % 10) as int])
    }
}

/// Appends the decimal representation of `n` to `s`.
pub(crate) fn push_decimal(s: &mut String, n: usize)
    ensures
        final(s)@ == old(s)@ + decimal(n as nat),
    decreases n,
{
    let digits = ['0', '1', '2', '3', '4', '5', '6', '7', '8', '9'];
    assert(digits@ =~= digit_chars());
    if n >= 10 {
        push_decimal(s, n / 10);
    }
    push_char(s, digits[n % 10]);
    proof {
        if n < 10 {
            assert(decimal(n as nat) =~= seq![digit_chars()[n as int]]);
        }
        assert(old(s)@ + decimal(n as nat) =~= if n >= 10 {
            (old(s)@ + decimal((n / 10) as nat)).push(digit_chars()[(n % 10) as int])
        } else {
            old(s)@.push(digit_chars()[n as int])
        });
    }
}

/// Appends a string slice to `s`.
pub(crate) fn push_str(s: &mut String, t: &str)
    ensures
        final(s)@ == old(s)@ + t@,
{
    s.append(t);
}

/// Whether two string slices hold the same characters.
pub(crate) fn str_eq(a: &str, b: &str) -> (eq: bool)
    ensures
        eq == (a@ == b@),
{
    let x = chars_of(a);
    let y = chars_of(b);
    if x.len() != y.len() {
        return false;
    }
    let mut k: usize = 0;
    while k < x.len()
        invariant
            x@ == a@,
            y@ == b@,
            x@.len() == y@.len(),
            k <= x@.len(),
            forall|j: int| 0 <= j < k ==> x@[j] == y@[j],
        decreases x@.len() - k,
    {
        if x[k] != y[k] {
            return false;
        }
        k = k + 1;
    }
    proof {
        assert(x@ =~= y@);
    }
    true
}

} // verus!
