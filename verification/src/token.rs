//! The placeholder grammar: `{{`, optional whitespace, a path, optional
//! whitespace, `}}`.

use vstd::prelude::*;
use crate::context::{Binding, BindingView, bindings_view, value_of, find_binding};
use crate::text::{append_chars, slice_chars};

verus! {

/// Whether `c` is whitespace: a character with the Unicode property
/// `White_Space`.
pub open spec fn is_space(c: char) -> bool {
    let u = c as u32;
    ||| 0x09 <= u <= 0x0D
    ||| u == 0x20
    ||| u == 0x85
    ||| u == 0xA0
    ||| u == 0x1680
    ||| 0x2000 <= u <= 0x200A
    ||| u == 0x2028
    ||| u == 0x2029
    ||| u == 0x202F
    ||| u == 0x205F
    ||| u == 0x3000
}

/// Whether `c` may stand in a path: anything but whitespace and `}`.
pub open spec fn is_path_char(c: char) -> bool {
    !is_space(c) && c != '}'
}

/// The first position at or after `i` that holds no whitespace.
pub open spec fn spaces_end(s: Seq<char>, i: int) -> int
    decreases s.len() - i,
{
    if 0 <= i < s.len() && is_space(s[i]) {
        spaces_end(s, i + 1)
    } else {
        i
    }
}

/// The first position at or after `i` that holds no path character.
pub open spec fn path_end(s: Seq<char>, i: int) -> int
    decreases s.len() - i,
{
    if 0 <= i < s.len() && is_path_char(s[i]) {
        path_end(s, i + 1)
    } else {
        i
    }
}

/// Where a placeholder lies in a text: its path occupies
/// `path_start..path_end`, and the placeholder stops before `end`.
#[derive(Debug, Clone, Copy, PartialEq, Eq, Structural)]
pub struct TokenSpan {
    pub path_start: usize,
    pub path_end: usize,
    pub end: usize,
}

/// Whether `c` is whitespace.
pub fn is_space_char(c: char) -> (b: bool)
    ensures
        b == is_space(c),
{
    let u: u32 = c as u32;
    (0x09 <= u && u <= 0x0D) || u == 0x20 || u == 0x85 || u == 0xA0 || u == 0x1680 || (0x2000 <= u
        && u <= 0x200A) || u == 0x2028 || u == 0x2029 || u == 0x202F || u == 0x205F || u == 0x3000
}

/// A placeholder found in a text, by positions: the path occupies
/// `path_start..path_end`, and the placeholder stops before `end`.
pub struct Token {
    pub path_start: int,
    pub path_end: int,
    pub end: int,
}

impl View for TokenSpan {
    type V = Token;

    open spec fn view(&self) -> Token {
        Token {
            path_start: self.path_start as int,
            path_end: self.path_end as int,
            end: self.end as int,
        }
    }
}

/// The placeholder that starts at position `i` of `s`, if one starts there.
///
/// After `{{` comes the longest run of whitespace, then the longest run of
/// path characters, which must not be empty, then the longest run of
/// whitespace, then `}}`.
pub open spec fn token_at(s: Seq<char>, i: int) -> Option<Token> {
    if 0 <= i && i + 1 < s.len() && s[i] == '{' && s[i + 1] == '{' {
        let a = spaces_end(s, i + 2);
        let b = path_end(s, a);
        let c = spaces_end(s, b);
        if a < b && c + 1 < s.len() && s[c] == '}' && s[c + 1] == '}' {
            Some(Token { path_start: a, path_end: b, end: c + 2 })
        } else {
            None
        }
    } else {
        None
    }
}

/// `spaces_end` stops at the end of the run of whitespace that starts at `i`.
pub proof fn lemma_spaces_end(s: Seq<char>, i: int)
    requires
        0 <= i <= s.len(),
    ensures
        i <= spaces_end(s, i) <= s.len(),
        forall|k: int| i <= k < spaces_end(s, i) ==> is_space(#[trigger] s[k]),
        spaces_end(s, i) < s.len() ==> !is_space(s[spaces_end(s, i)]),
    decreases s.len() - i,
{
    if i < s.len() && is_space(s[i]) {
        lemma_spaces_end(s, i + 1);
    }
}

/// `path_end` stops at the end of the run of path characters that starts at
/// `i`.
pub proof fn lemma_path_end(s: Seq<char>, i: int)
    requires
        0 <= i <= s.len(),
    ensures
        i <= path_end(s, i) <= s.len(),
        forall|k: int| i <= k < path_end(s, i) ==> is_path_char(#[trigger] s[k]),
        path_end(s, i) < s.len() ==> !is_path_char(s[path_end(s, i)]),
    decreases s.len() - i,
{
    if i < s.len() && is_path_char(s[i]) {
        lemma_path_end(s, i + 1);
    }
}

/// A placeholder lies inside the text, is at least five characters long, and
/// its path is not empty.
pub proof fn lemma_token_at_bounds(s: Seq<char>, i: int)
    ensures
        token_at(s, i) matches Some(t) ==> 0 <= i && i + 2 <= t.path_start < t.path_end
            && t.path_end + 2 <= t.end <= s.len(),
{
    if 0 <= i && i + 1 < s.len() {
        lemma_spaces_end(s, i + 2);
        let a = spaces_end(s, i + 2);
        lemma_path_end(s, a);
        let b = path_end(s, a);
        lemma_spaces_end(s, b);
    }
}

/// The text from position `i` on, with each placeholder replaced by the value
/// bound to its path, or by nothing where the path is not bound. The text is
/// read once from left to right: where a placeholder starts, it is replaced
/// and reading goes on behind it; any other character is kept.
pub open spec fn substituted_from(s: Seq<char>, i: int, map: Seq<BindingView>) -> Seq<char>
    decreases s.len() - i,
{
    if i < 0 || i >= s.len() {
        Seq::empty()
    } else {
        match token_at(s, i) {
            Some(t) => {
                proof {
                    lemma_token_at_bounds(s, i);
                }
                value_of(map, s.subrange(t.path_start, t.path_end)) + substituted_from(s, t.end, map)
            },
            None => seq![s[i]] + substituted_from(s, i + 1, map),
        }
    }
}

/// The text with every placeholder replaced.
pub open spec fn substituted(s: Seq<char>, map: Seq<BindingView>) -> Seq<char> {
    substituted_from(s, 0, map)
}

/// The text with every placeholder removed.
pub open spec fn stripped(s: Seq<char>) -> Seq<char> {
    substituted_from(s, 0, Seq::empty())
}

/// The paths of the placeholders from position `i` on, in the order in which
/// they stand in the text.
pub open spec fn paths_from(s: Seq<char>, i: int) -> Seq<Seq<char>>
    decreases s.len() - i,
{
    if i < 0 || i >= s.len() {
        Seq::empty()
    } else {
        match token_at(s, i) {
            Some(t) => {
                proof {
                    lemma_token_at_bounds(s, i);
                }
                seq![s.subrange(t.path_start, t.path_end)] + paths_from(s, t.end)
            },
            None => paths_from(s, i + 1),
        }
    }
}

/// The paths of all placeholders of the text, duplicates included.
pub open spec fn token_paths(s: Seq<char>) -> Seq<Seq<char>> {
    paths_from(s, 0)
}

/// Reads the placeholder that starts at position `i`, if one starts there.
pub fn scan_token(s: &Vec<char>, i: usize) -> (found: Option<TokenSpan>)
    ensures
        match found {
            Some(span) => token_at(s@, i as int) == Some(span@),
            None => token_at(s@, i as int) is None,
        },
{
    let n = s.len();
    if n < 2 || i > n - 2 {
        return None;
    }
    if s[i] != '{' || s[i + 1] != '{' {
        return None;
    }
    let mut a: usize = i + 2;
    while a < n && is_space_char(s[a])
        invariant
            i + 2 <= a <= n,
            n == s.len(),
            spaces_end(s@, i + 2) == spaces_end(s@, a as int),
        decreases n - a,
    {
        a += 1;
    }
    let mut b: usize = a;
    while b < n && !is_space_char(s[b]) && s[b] != '}'
        invariant
            a <= b <= n,
            n == s.len(),
            path_end(s@, a as int) == path_end(s@, b as int),
        decreases n - b,
    {
        b += 1;
    }
    let mut c: usize = b;
    while c < n && is_space_char(s[c])
        invariant
            b <= c <= n,
            n == s.len(),
            spaces_end(s@, b as int) == spaces_end(s@, c as int),
        decreases n - c,
    {
        c += 1;
    }
    if a < b && c < n - 1 && s[c] == '}' && s[c + 1] == '}' {
        Some(TokenSpan { path_start: a, path_end: b, end: c + 2 })
    } else {
        None
    }
}

/// The paths of all placeholders of `text`, in the order in which they stand,
/// duplicates included.
pub fn find_tokens(text: &Vec<char>) -> (paths: Vec<Vec<char>>)
    ensures
        paths.len() == token_paths(text@).len(),
        forall|k: int| 0 <= k < paths.len() ==> (#[trigger] paths@[k])@ == token_paths(text@)[k],
{
    let mut paths: Vec<Vec<char>> = Vec::new();
    let ghost mut found: Seq<Seq<char>> = Seq::empty();
    let mut i: usize = 0;
    while i < text.len()
        invariant
            i <= text.len(),
            found + paths_from(text@, i as int) == token_paths(text@),
            paths.len() == found.len(),
            forall|k: int| 0 <= k < paths.len() ==> (#[trigger] paths@[k])@ == found[k],
        decreases text.len() - i,
    {
        proof {
            lemma_token_at_bounds(text@, i as int);
        }
        match scan_token(text, i) {
            Some(span) => {
                let path = slice_chars(text, span.path_start, span.path_end);
                proof {
                    let rest = paths_from(text@, span.end as int);
                    assert(found.push(path@) + rest == found + (seq![path@] + rest));
                    found = found.push(path@);
                }
                paths.push(path);
                i = span.end;
            },
            None => {
                i += 1;
            },
        }
    }
    assert(found + Seq::<Seq<char>>::empty() == found);
    paths
}

/// Replaces every placeholder of `text` by the value that `map` binds to its
/// path, or by nothing where `map` does not bind it.
pub fn substitute(text: &Vec<char>, map: &Vec<Binding>) -> (out: Vec<char>)
    ensures
        out@ == substituted(text@, bindings_view(map@)),
{
    let ghost m = bindings_view(map@);
    let mut out: Vec<char> = Vec::new();
    let mut i: usize = 0;
    while i < text.len()
        invariant
            i <= text.len(),
            m == bindings_view(map@),
            out@ + substituted_from(text@, i as int, m) == substituted(text@, m),
        decreases text.len() - i,
    {
        proof {
            lemma_token_at_bounds(text@, i as int);
        }
        match scan_token(text, i) {
            Some(span) => {
                let path = slice_chars(text, span.path_start, span.path_end);
                let ghost rest = substituted_from(text@, span.end as int, m);
                let ghost before = out@;
                match find_binding(map, &path) {
                    Some(k) => {
                        append_chars(&mut out, &map[k].value);
                    },
                    None => {},
                }
                assert(out@ == before + value_of(m, path@));
                assert(out@ + rest == before + (value_of(m, path@) + rest));
                i = span.end;
            },
            None => {
                let ghost rest = substituted_from(text@, i + 1, m);
                assert(out@.push(text@[i as int]) + rest == out@ + (seq![text@[i as int]] + rest));
                out.push(text[i]);
                i += 1;
            },
        }
    }
    assert(out@ + Seq::<char>::empty() == out@);
    out
}

} // verus!
