//! Character classes of the language.

use vstd::prelude::*;

verus! {

/// What `char::is_alphanumeric` answers for a character: whether Unicode
/// classes it as alphabetic or numeric.
pub uninterp spec fn unicode_alphanumeric(c: char) -> bool;

/// `char::is_alphanumeric` of the standard library. Nothing is claimed of it
/// but that its answer depends on the character alone.
pub assume_specification[ char::is_alphanumeric ](c: char) -> (r: bool)
    ensures
        r == unicode_alphanumeric(c),
;

/// `String::push` of the standard library appends the character to the end of
/// the string.
pub assume_specification[ String::push ](s: &mut String, ch: char)
    ensures
        final(s)@ == old(s)@.push(ch),
;

/// The characters that are a token by themselves.
pub open spec fn is_single(c: char) -> bool {
    c == ';' || c == '\n' || c == ' ' || c == '(' || c == ')'
}

/// The double quote, which opens and closes a string literal.
pub open spec fn is_quote(c: char) -> bool {
    c == '"'
}

/// The characters that end a run of text: the single-character tokens and the
/// double quote.
pub open spec fn ends_run(c: char) -> bool {
    is_single(c) || is_quote(c)
}

/// The ten decimal digits.
pub open spec fn is_digit(c: char) -> bool {
    '0' <= c && c <= '9'
}

/// Letters and digits of the ASCII range.
pub open spec fn is_ascii_letter_or_digit(c: char) -> bool {
    is_digit(c) || ('a' <= c && c <= 'z') || ('A' <= c && c <= 'Z')
}

/// The alphanumeric characters, of which identifiers are made. Within ASCII
/// these are the letters and digits; beyond it, what Unicode classes as
/// alphabetic or numeric.
pub open spec fn is_letter_or_digit(c: char) -> bool {
    if c <= '\x7f' {
        is_ascii_letter_or_digit(c)
    } else {
        unicode_alphanumeric(c)
    }
}

/// Every character of `s` is alphanumeric.
pub open spec fn all_alphanumeric(s: Seq<char>) -> bool {
    forall|i: int| 0 <= i < s.len() ==> is_letter_or_digit(#[trigger] s[i])
}

/// Whether `c` is a token by itself.
pub fn single(c: char) -> (r: bool)
    ensures
        r == is_single(c),
{
    c == ';' || c == '\n' || c == ' ' || c == '(' || c == ')'
}

/// Whether `c` ends a run of text.
pub fn run_ender(c: char) -> (r: bool)
    ensures
        r == ends_run(c),
{
    single(c) || c == '"'
}

/// Whether `c` is a decimal digit.
pub fn digit(c: char) -> (r: bool)
    ensures
        r == is_digit(c),
{
    '0' <= c && c <= '9'
}

/// Whether `c` is alphanumeric. Within ASCII the answer is worked out here,
/// so that it is known of every separator; beyond it the standard library
/// is asked.
pub fn alphanumeric(c: char) -> (r: bool)
    ensures
        r == is_letter_or_digit(c),
{
    if c <= '\x7f' {
        digit(c) || ('a' <= c && c <= 'z') || ('A' <= c && c <= 'Z')
    } else {
        c.is_alphanumeric()
    }
}

/// Whether every character of `text` is alphanumeric.
pub fn is_all_alphanumeric(text: &Vec<char>) -> (r: bool)
    ensures
        r == all_alphanumeric(text@),
{
    let mut i: usize = 0;
    while i < text.len()
        invariant
            i <= text.len(),
            all_alphanumeric(text@.take(i as int)),
        decreases text.len() - i,
    {
        if !alphanumeric(text[i]) {
            return false;
        }
        i += 1;
    }
    assert(text@.take(i as int) == text@);
    true
}

/// The string made of the characters of `text`, in order.
pub fn string_of(text: &Vec<char>) -> (r: String)
    ensures
        r@ == text@,
{
    let mut s = String::new();
    let mut i: usize = 0;
    while i < text.len()
        invariant
            i <= text.len(),
            s@ == text@.take(i as int),
        decreases text.len() - i,
    {
        s.push(text[i]);
        i += 1;
    }
    s
}

/// The characters of `s`, in order.
pub fn chars_of(s: &str) -> (r: Vec<char>)
    ensures
        r@ == s@,
{
    let mut v: Vec<char> = Vec::new();
    for c in it: s.chars()
        invariant
            v@ == it.seq().take(it.index()),
    {
        v.push(c);
    }
    v
}

} // verus!
