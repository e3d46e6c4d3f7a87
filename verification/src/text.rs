//! Text carried as bytes: decoding, and conversions between strings and
//! character vectors.

use vstd::prelude::*;
use vstd::string::*;
use vstd::utf8::*;

verus! {

/// Why an operation produced no output.
#[derive(Debug, Clone, Copy, PartialEq, Eq, Structural)]
pub enum TemplateError {
    /// The input bytes are not valid UTF-8 text.
    Encoding,
    /// A text is longer than the parser takes.
    Size,
    /// The document nests its nodes deeper than the library writes out.
    Nesting,
}

impl TemplateError {
    /// What went wrong, in words.
    pub fn message(&self) -> (text: String)
        ensures
            text@ == match self {
                TemplateError::Encoding => "the input is not valid UTF-8 text"@,
                TemplateError::Size => "the text is too long to be parsed"@,
                TemplateError::Nesting => "the document is nested too deep to be written"@,
            },
    {
        match self {
            TemplateError::Encoding => "the input is not valid UTF-8 text".to_owned(),
            TemplateError::Size => "the text is too long to be parsed".to_owned(),
            TemplateError::Nesting => "the document is nested too deep to be written".to_owned(),
        }
    }
}

/// `std::str::from_utf8`: the bytes as a string slice when they are valid
/// UTF-8, whose characters are then the decoded bytes; nothing otherwise.
#[verifier::external_body]
fn utf8_text(bytes: &[u8]) -> (text: Option<&str>)
    ensures
        text is Some <==> valid_utf8(bytes@),
        text matches Some(s) ==> s@ == decode_utf8(bytes@),
{
    match std::str::from_utf8(bytes) {
        Ok(s) => Some(s),
        Err(_) => None,
    }
}

/// `String::push`: appends one character.
#[verifier::external_body]
fn push_char(s: &mut String, c: char)
    ensures
        final(s)@ == old(s)@.push(c),
{
    s.push(c)
}

/// The characters of a string, in order.
pub fn chars_of(s: &str) -> (chars: Vec<char>)
    ensures
        chars@ == s@,
{
    let mut chars: Vec<char> = Vec::new();
    for c in it: s.chars()
        invariant
            chars@ == it.seq().take(it.index() as int),
            it.seq() == s@,
    {
        chars.push(c);
    }
    chars
}

/// The string made of the given characters.
pub fn string_of(chars: &Vec<char>) -> (s: String)
    ensures
        s@ == chars@,
{
    let mut s = String::new();
    let mut i: usize = 0;
    while i < chars.len()
        invariant
            i <= chars.len(),
            s@ == chars@.take(i as int),
        decreases chars.len() - i,
    {
        push_char(&mut s, chars[i]);
        i += 1;
        assert(chars@.take(i as int) == chars@.take(i - 1).push(chars@[i - 1]));
    }
    assert(chars@.take(chars.len() as int) == chars@);
    s
}

/// Reads bytes as text: they must be valid UTF-8.
pub fn as_text(bytes: &[u8]) -> (text: Result<&str, TemplateError>)
    ensures
        valid_utf8(bytes@) ==> (text matches Ok(s) && s@ == decode_utf8(bytes@)),
        !valid_utf8(bytes@) ==> text == Err::<&str, TemplateError>(TemplateError::Encoding),
{
    match utf8_text(bytes) {
        Some(s) => Ok(s),
        None => Err(TemplateError::Encoding),
    }
}

/// Decodes UTF-8 bytes into characters.
pub fn decode(bytes: &Vec<u8>) -> (text: Result<Vec<char>, TemplateError>)
    ensures
        valid_utf8(bytes@) ==> (text matches Ok(chars) && chars@ == decode_utf8(bytes@)),
        !valid_utf8(bytes@) ==> text == Err::<Vec<char>, TemplateError>(TemplateError::Encoding),
{
    match utf8_text(bytes.as_slice()) {
        Some(s) => Ok(chars_of(s)),
        None => Err(TemplateError::Encoding),
    }
}

/// Encodes characters as UTF-8 bytes.
pub fn encode(chars: &Vec<char>) -> (bytes: Vec<u8>)
    ensures
        bytes@ == encode_utf8(chars@),
{
    let s = string_of(chars);
    s.as_str().as_bytes_vec()
}

/// Whether `a` and `b` hold the same characters.
pub fn same_chars(a: &Vec<char>, b: &Vec<char>) -> (same: bool)
    ensures
        same == (a@ == b@),
{
    if a.len() != b.len() {
        return false;
    }
    let mut i: usize = 0;
    while i < a.len()
        invariant
            i <= a.len(),
            a.len() == b.len(),
            forall|k: int| 0 <= k < i ==> a@[k] == b@[k],
        decreases a.len() - i,
    {
        if a[i] != b[i] {
            return false;
        }
        i += 1;
    }
    assert(a@ =~= b@);
    true
}

/// The characters of `s` from `from` up to `to`; none where these are no
/// range inside `s`.
pub fn slice_chars(s: &Vec<char>, from: usize, to: usize) -> (part: Vec<char>)
    ensures
        part@ == if from <= to <= s.len() {
            s@.subrange(from as int, to as int)
        } else {
            Seq::empty()
        },
{
    let mut part: Vec<char> = Vec::new();
    if from > to || to > s.len() {
        return part;
    }
    let mut k: usize = from;
    while k < to
        invariant
            from <= k <= to <= s.len(),
            part@ == s@.subrange(from as int, k as int),
        decreases to - k,
    {
        part.push(s[k]);
        k += 1;
    }
    part
}

/// Appends the characters of `more` to `out`.
pub fn append_chars(out: &mut Vec<char>, more: &Vec<char>)
    ensures
        final(out)@ == old(out)@ + more@,
{
    let mut k: usize = 0;
    while k < more.len()
        invariant
            k <= more.len(),
            out@ == old(out)@ + more@.take(k as int),
        decreases more.len() - k,
    {
        out.push(more[k]);
        k += 1;
    }
    assert(more@.take(more.len() as int) == more@);
}

} // verus!
