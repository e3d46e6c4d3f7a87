//! What holds of the placeholder grammar and of replacing placeholders.

use vstd::prelude::*;
use crate::context::{BindingView, DataContext, flattened, lookup, value_of};
use crate::context_laws::{dotted, is_segment, lemma_flattened_resolves, resolved, well_keyed};
use crate::context::MAX_NESTING;
use crate::token::{
    Token, is_path_char, is_space, lemma_path_end, lemma_spaces_end, lemma_token_at_bounds, path_end,
    paths_from, substituted_from, substituted, spaces_end, stripped, token_at, token_paths,
};

verus! {

/// Whether every character of `w` is whitespace.
pub open spec fn all_spaces(w: Seq<char>) -> bool {
    forall|k: int| 0 <= k < w.len() ==> is_space(#[trigger] w[k])
}

/// Whether `p` is a path: not empty, and made of path characters only.
pub open spec fn is_path(p: Seq<char>) -> bool {
    p.len() > 0 && forall|k: int| 0 <= k < p.len() ==> is_path_char(#[trigger] p[k])
}

/// The placeholder for `path` with the whitespace `w1` before the path and
/// `w2` behind it.
pub open spec fn placeholder(w1: Seq<char>, path: Seq<char>, w2: Seq<char>) -> Seq<char> {
    seq!['{', '{'] + w1 + path + w2 + seq!['}', '}']
}

/// Whether no placeholder starts at a position before `n`.
pub open spec fn none_before(s: Seq<char>, n: int) -> bool {
    forall|i: int| 0 <= i < n ==> (#[trigger] token_at(s, i)) is None
}

/// A run of whitespace from `i` up to `j` that ends at `j` is what
/// `spaces_end` finds.
pub proof fn lemma_spaces_end_at(s: Seq<char>, i: int, j: int)
    requires
        0 <= i <= j <= s.len(),
        forall|k: int| i <= k < j ==> is_space(#[trigger] s[k]),
        j < s.len() ==> !is_space(s[j]),
    ensures
        spaces_end(s, i) == j,
    decreases j - i,
{
    if i < j {
        lemma_spaces_end_at(s, i + 1, j);
    }
}

/// A run of path characters from `i` up to `j` that ends at `j` is what
/// `path_end` finds.
pub proof fn lemma_path_end_at(s: Seq<char>, i: int, j: int)
    requires
        0 <= i <= j <= s.len(),
        forall|k: int| i <= k < j ==> is_path_char(#[trigger] s[k]),
        j < s.len() ==> !is_path_char(s[j]),
    ensures
        path_end(s, i) == j,
    decreases j - i,
{
    if i < j {
        lemma_path_end_at(s, i + 1, j);
    }
}

/// What the scanner takes for a placeholder is one: `{{`, whitespace, a path,
/// whitespace, `}}`.
pub proof fn lemma_token_is_placeholder(s: Seq<char>, i: int)
    requires
        token_at(s, i) is Some,
    ensures
        ({
            let t = token_at(s, i)->Some_0;
            let w1 = s.subrange(i + 2, t.path_start);
            let path = s.subrange(t.path_start, t.path_end);
            let w2 = s.subrange(t.path_end, t.end - 2);
            &&& all_spaces(w1)
            &&& is_path(path)
            &&& all_spaces(w2)
            &&& s.subrange(i, t.end) == placeholder(w1, path, w2)
        }),
{
    let t = token_at(s, i)->Some_0;
    lemma_token_at_bounds(s, i);
    lemma_spaces_end(s, i + 2);
    lemma_path_end(s, t.path_start);
    lemma_spaces_end(s, t.path_end);
    let w1 = s.subrange(i + 2, t.path_start);
    let path = s.subrange(t.path_start, t.path_end);
    let w2 = s.subrange(t.path_end, t.end - 2);
    assert(s.subrange(i, t.end) =~= placeholder(w1, path, w2));
}

/// Wherever a placeholder stands in a text, the scanner takes exactly it for
/// one, with exactly its path.
pub proof fn lemma_placeholder_is_token(
    before: Seq<char>,
    w1: Seq<char>,
    path: Seq<char>,
    w2: Seq<char>,
    after: Seq<char>,
)
    requires
        all_spaces(w1),
        is_path(path),
        all_spaces(w2),
    ensures
        ({
            let s = before + placeholder(w1, path, w2) + after;
            let n = before.len() as int;
            let a = n + 2 + w1.len();
            let b = a + path.len();
            &&& token_at(s, n) == Some(Token { path_start: a, path_end: b, end: b + w2.len() + 2 })
            &&& s.subrange(a, b) == path
        }),
{
    let s = before + placeholder(w1, path, w2) + after;
    let n = before.len() as int;
    let a = n + 2 + w1.len();
    let b = a + path.len();
    let c = b + w2.len();
    assert(s.len() == c + 2 + after.len());
    assert(s[n] == '{');
    assert(s[n + 1] == '{');
    assert forall|k: int| n + 2 <= k < a implies is_space(#[trigger] s[k]) by {
        assert(s[k] == w1[k - n - 2]);
    }
    assert forall|k: int| a <= k < b implies is_path_char(#[trigger] s[k]) by {
        assert(s[k] == path[k - a]);
    }
    assert forall|k: int| b <= k < c implies is_space(#[trigger] s[k]) by {
        assert(s[k] == w2[k - b]);
    }
    assert(s[c] == '}');
    assert(s[c + 1] == '}');
    assert(s[a] == path[0]);
    assert(!is_space(s[a]));
    lemma_spaces_end_at(s, n + 2, a);
    assert(!is_path_char(s[b])) by {
        if b < c {
            assert(s[b] == w2[0]);
        }
    }
    lemma_path_end_at(s, a, b);
    assert(!is_space('}'));
    lemma_spaces_end_at(s, b, c);
    assert(s.subrange(a, b) =~= path);
}

/// Where whitespace ends in the back part of a text does not depend on the
/// front part.
pub proof fn lemma_spaces_end_suffix(x: Seq<char>, y: Seq<char>, i: int)
    requires
        0 <= i <= y.len(),
    ensures
        spaces_end(x + y, x.len() + i) == x.len() + spaces_end(y, i),
    decreases y.len() - i,
{
    if i < y.len() {
        assert((x + y)[x.len() + i] == y[i]);
        if is_space(y[i]) {
            lemma_spaces_end_suffix(x, y, i + 1);
        }
    }
}

/// Where a path ends in the back part of a text does not depend on the front
/// part.
pub proof fn lemma_path_end_suffix(x: Seq<char>, y: Seq<char>, i: int)
    requires
        0 <= i <= y.len(),
    ensures
        path_end(x + y, x.len() + i) == x.len() + path_end(y, i),
    decreases y.len() - i,
{
    if i < y.len() {
        assert((x + y)[x.len() + i] == y[i]);
        if is_path_char(y[i]) {
            lemma_path_end_suffix(x, y, i + 1);
        }
    }
}

/// The placeholders of the back part of a text do not depend on the front
/// part: they are those of the back part alone, moved by the length of the
/// front part.
pub proof fn lemma_token_at_suffix(x: Seq<char>, y: Seq<char>, i: int)
    requires
        0 <= i <= y.len(),
    ensures
        match token_at(y, i) {
            Some(t) => token_at(x + y, x.len() + i) == Some(
                Token {
                    path_start: x.len() + t.path_start,
                    path_end: x.len() + t.path_end,
                    end: x.len() + t.end,
                },
            ) && (x + y).subrange(x.len() + t.path_start, x.len() + t.path_end) == y.subrange(
                t.path_start,
                t.path_end,
            ),
            None => token_at(x + y, x.len() + i) is None,
        },
{
    let s = x + y;
    let n = x.len() as int;
    if i + 1 < y.len() {
        assert(s[n + i] == y[i]);
        assert(s[n + i + 1] == y[i + 1]);
        if y[i] == '{' && y[i + 1] == '{' {
            lemma_spaces_end(y, i + 2);
            lemma_spaces_end_suffix(x, y, i + 2);
            let a = spaces_end(y, i + 2);
            lemma_path_end(y, a);
            lemma_path_end_suffix(x, y, a);
            let b = path_end(y, a);
            lemma_spaces_end(y, b);
            lemma_spaces_end_suffix(x, y, b);
            let c = spaces_end(y, b);
            if c + 1 < y.len() {
                assert(s[n + c] == y[c]);
                assert(s[n + c + 1] == y[c + 1]);
            }
            if token_at(y, i) is Some {
                assert(s.subrange(n + a, n + b) =~= y.subrange(a, b));
            }
        }
    }
}

/// Replacing in the back part of a text does not depend on the front part.
pub proof fn lemma_substitute_suffix(x: Seq<char>, y: Seq<char>, i: int, map: Seq<BindingView>)
    requires
        0 <= i <= y.len(),
    ensures
        substituted_from(x + y, x.len() + i, map) == substituted_from(y, i, map),
    decreases y.len() - i,
{
    if i < y.len() {
        lemma_token_at_suffix(x, y, i);
        lemma_token_at_bounds(y, i);
        match token_at(y, i) {
            Some(t) => {
                lemma_substitute_suffix(x, y, t.end, map);
            },
            None => {
                assert((x + y)[x.len() + i] == y[i]);
                lemma_substitute_suffix(x, y, i + 1, map);
            },
        }
    }
}

/// The paths found in the back part of a text do not depend on the front
/// part.
pub proof fn lemma_paths_suffix(x: Seq<char>, y: Seq<char>, i: int)
    requires
        0 <= i <= y.len(),
    ensures
        paths_from(x + y, x.len() + i) == paths_from(y, i),
    decreases y.len() - i,
{
    if i < y.len() {
        lemma_token_at_suffix(x, y, i);
        lemma_token_at_bounds(y, i);
        match token_at(y, i) {
            Some(t) => {
                lemma_paths_suffix(x, y, t.end);
            },
            None => {
                lemma_paths_suffix(x, y, i + 1);
            },
        }
    }
}

/// Text in which no placeholder starts is kept as it is.
pub proof fn lemma_substitute_keeps(s: Seq<char>, i: int, n: int, map: Seq<BindingView>)
    requires
        0 <= i <= n <= s.len(),
        none_before(s, n),
    ensures
        substituted_from(s, i, map) == s.subrange(i, n) + substituted_from(s, n, map),
    decreases n - i,
{
    if i < n {
        assert(token_at(s, i) is None);
        lemma_substitute_keeps(s, i + 1, n, map);
        assert(seq![s[i]] + (s.subrange(i + 1, n) + substituted_from(s, n, map)) == s.subrange(i, n)
            + substituted_from(s, n, map));
    } else {
        assert(s.subrange(i, n) + substituted_from(s, n, map) == substituted_from(s, n, map));
    }
}

/// No path is found in text in which no placeholder starts.
pub proof fn lemma_paths_skip(s: Seq<char>, i: int, n: int)
    requires
        0 <= i <= n <= s.len(),
        none_before(s, n),
    ensures
        paths_from(s, i) == paths_from(s, n),
    decreases n - i,
{
    if i < n {
        assert(token_at(s, i) is None);
        lemma_paths_skip(s, i + 1, n);
    }
}

/// A text without placeholders is not changed, whatever is bound.
pub proof fn lemma_substitute_plain(s: Seq<char>, map: Seq<BindingView>)
    requires
        none_before(s, s.len() as int),
    ensures
        substituted(s, map) == s,
        token_paths(s).len() == 0,
{
    lemma_substitute_keeps(s, 0, s.len() as int, map);
    lemma_paths_skip(s, 0, s.len() as int);
    assert(s.subrange(0, s.len() as int) + Seq::<char>::empty() == s);
}

/// The first placeholder of a text is replaced by the value of its path, the
/// text before it is kept character by character, and the text behind it is
/// treated as a text of its own. The whitespace inside the placeholder has no
/// part in the result.
pub proof fn lemma_substitute_placeholder(
    before: Seq<char>,
    w1: Seq<char>,
    path: Seq<char>,
    w2: Seq<char>,
    after: Seq<char>,
    map: Seq<BindingView>,
)
    requires
        all_spaces(w1),
        is_path(path),
        all_spaces(w2),
        none_before(before + placeholder(w1, path, w2) + after, before.len() as int),
    ensures
        substituted(before + placeholder(w1, path, w2) + after, map) == before + value_of(map, path)
            + substituted(after, map),
        token_paths(before + placeholder(w1, path, w2) + after) == seq![path] + token_paths(after),
{
    let front = before + placeholder(w1, path, w2);
    let s = front + after;
    let n = before.len() as int;
    lemma_placeholder_is_token(before, w1, path, w2, after);
    let t = token_at(s, n)->Some_0;
    assert(t.end == front.len());
    lemma_substitute_keeps(s, 0, n, map);
    lemma_paths_skip(s, 0, n);
    lemma_substitute_suffix(front, after, 0, map);
    lemma_paths_suffix(front, after, 0);
    assert(s.subrange(0, n) =~= before);
    assert(substituted_from(s, n, map) == value_of(map, path) + substituted_from(s, t.end, map));
    assert(paths_from(s, n) == seq![path] + paths_from(s, t.end));
    assert(before + (value_of(map, path) + substituted(after, map)) == before + value_of(map, path)
        + substituted(after, map));
}

/// Without bindings the first placeholder of a text is removed, and the text
/// before it is kept character by character.
pub proof fn lemma_strip_placeholder(
    before: Seq<char>,
    w1: Seq<char>,
    path: Seq<char>,
    w2: Seq<char>,
    after: Seq<char>,
)
    requires
        all_spaces(w1),
        is_path(path),
        all_spaces(w2),
        none_before(before + placeholder(w1, path, w2) + after, before.len() as int),
    ensures
        stripped(before + placeholder(w1, path, w2) + after) == before + stripped(after),
{
    lemma_substitute_placeholder(before, w1, path, w2, after, Seq::empty());
    assert(before + Seq::<char>::empty() + stripped(after) == before + stripped(after));
}

/// Whether the stretch of `s` from `i` up to `e` is a placeholder: `{{`,
/// whitespace, a path, whitespace, `}}`.
pub open spec fn is_placeholder_at(s: Seq<char>, i: int, e: int) -> bool {
    0 <= i <= e <= s.len() && exists|w1: Seq<char>, path: Seq<char>, w2: Seq<char>|
        all_spaces(w1) && is_path(path) && all_spaces(w2) && #[trigger] placeholder(w1, path, w2)
            == s.subrange(i, e)
}

/// Whether position `p` of `s` lies inside a placeholder.
pub open spec fn in_placeholder(s: Seq<char>, p: int) -> bool {
    exists|i: int, e: int| i <= p < e && #[trigger] is_placeholder_at(s, i, e)
}

/// The text from position `i` on without the characters that lie inside
/// placeholders.
pub open spec fn outside_placeholders(s: Seq<char>, i: int) -> Seq<char>
    decreases s.len() - i,
{
    if i < 0 || i >= s.len() {
        Seq::empty()
    } else if in_placeholder(s, i) {
        outside_placeholders(s, i + 1)
    } else {
        seq![s[i]] + outside_placeholders(s, i + 1)
    }
}

/// A stretch of a text is a placeholder exactly if the scanner takes it for
/// one.
pub proof fn lemma_placeholder_at(s: Seq<char>, i: int, e: int)
    ensures
        is_placeholder_at(s, i, e) <==> (token_at(s, i) matches Some(t) && t.end == e),
{
    if is_placeholder_at(s, i, e) {
        let (w1, path, w2) = choose|w1: Seq<char>, path: Seq<char>, w2: Seq<char>|
            all_spaces(w1) && is_path(path) && all_spaces(w2) && #[trigger] placeholder(w1, path, w2)
                == s.subrange(i, e);
        let before = s.subrange(0, i);
        let after = s.subrange(e, s.len() as int);
        assert(s =~= before + placeholder(w1, path, w2) + after);
        lemma_placeholder_is_token(before, w1, path, w2, after);
    }
    if token_at(s, i) is Some && token_at(s, i)->Some_0.end == e {
        let t = token_at(s, i)->Some_0;
        lemma_token_at_bounds(s, i);
        lemma_token_is_placeholder(s, i);
        let w1 = s.subrange(i + 2, t.path_start);
        let path = s.subrange(t.path_start, t.path_end);
        let w2 = s.subrange(t.path_end, t.end - 2);
        assert(placeholder(w1, path, w2) == s.subrange(i, e));
    }
}

/// A placeholder that starts inside another ends where the other ends: no
/// placeholder reaches out of one that starts before it.
pub proof fn lemma_placeholders_nest(s: Seq<char>, i: int, j: int)
    requires
        token_at(s, i) is Some,
        token_at(s, j) is Some,
        i < j < token_at(s, i)->Some_0.end,
    ensures
        token_at(s, j)->Some_0.end == token_at(s, i)->Some_0.end,
{
    let t = token_at(s, i)->Some_0;
    let a = t.path_start;
    let b = t.path_end;
    let c = t.end - 2;
    lemma_token_at_bounds(s, i);
    lemma_token_at_bounds(s, j);
    lemma_spaces_end(s, i + 2);
    lemma_path_end(s, a);
    lemma_spaces_end(s, b);
    assert(!is_space('{') && !is_space('}'));
    assert(s[j] == '{' && s[j + 1] == '{');
    assert(s[c] == '}' && s[c + 1] == '}');
    if i + 2 <= j < a {
        assert(is_space(s[j]));
    }
    if b <= j < c {
        assert(is_space(s[j]));
    }
    assert(j == i + 1 || a <= j < b);
    if j == i + 1 {
        if a > i + 2 {
            assert(is_space(s[i + 2]));
        }
    } else {
        if j + 1 == b {
            if b < c {
                assert(is_space(s[b]));
            }
        }
    }
    assert(a <= j + 1 < b);
    assert(!is_path_char(s[b])) by {
        if b < c {
            assert(is_space(s[b]));
        }
    }
    if j + 2 < b {
        assert(is_path_char(s[j + 2]));
        lemma_spaces_end_at(s, j + 2, j + 2);
        lemma_path_end_at(s, j + 2, b);
    } else {
        lemma_path_end_at(s, c, c);
        assert(false);
    }
}

/// Reading a text from a position that no earlier placeholder reaches beyond,
/// and replacing nothing, gives the text from there on without the
/// characters that lie inside placeholders.
pub proof fn lemma_strip_from(s: Seq<char>, i: int)
    requires
        0 <= i <= s.len(),
        forall|j: int| 0 <= j < i && (#[trigger] token_at(s, j)) is Some ==> token_at(s, j)->Some_0.end <= i,
    ensures
        substituted_from(s, i, Seq::empty()) == outside_placeholders(s, i),
    decreases s.len() - i,
{
    let none = Seq::<BindingView>::empty();
    if i < s.len() {
        lemma_token_at_bounds(s, i);
        match token_at(s, i) {
            Some(t) => {
                assert forall|j: int| 0 <= j < t.end && (#[trigger] token_at(s, j)) is Some implies token_at(
                    s,
                    j,
                )->Some_0.end <= t.end by {
                    if i < j {
                        lemma_placeholders_nest(s, i, j);
                    }
                }
                lemma_strip_from(s, t.end);
                lemma_placeholder_at(s, i, t.end);
                lemma_inside_is_dropped(s, i, i, t.end);
                assert(Seq::<char>::empty() + substituted_from(s, t.end, none) == substituted_from(
                    s,
                    t.end,
                    none,
                ));
            },
            None => {
                if in_placeholder(s, i) {
                    let (j, e) = choose|j: int, e: int| j <= i < e && #[trigger] is_placeholder_at(s, j, e);
                    lemma_placeholder_at(s, j, e);
                    assert(token_at(s, j) is Some);
                    assert(false);
                }
                lemma_strip_from(s, i + 1);
            },
        }
    }
}

/// The characters of a placeholder are all left out.
pub proof fn lemma_inside_is_dropped(s: Seq<char>, start: int, i: int, e: int)
    requires
        start <= i <= e,
        is_placeholder_at(s, start, e),
    ensures
        outside_placeholders(s, i) == outside_placeholders(s, e),
    decreases e - i,
{
    if i < e {
        assert(in_placeholder(s, i));
        lemma_inside_is_dropped(s, start, i + 1, e);
    }
}

/// Replacing without bindings removes exactly the characters that lie inside
/// placeholders, and keeps every other character in its place.
pub proof fn lemma_strip_removes_placeholders(s: Seq<char>)
    ensures
        stripped(s) == outside_placeholders(s, 0),
{
    lemma_strip_from(s, 0);
}

/// A context without entries binds nothing: replacing with it removes every
/// placeholder, as replacing without a context does.
pub proof fn lemma_empty_context_strips(s: Seq<char>, context: DataContext)
    requires
        context.entries@.len() == 0,
    ensures
        flattened(context) == Seq::<BindingView>::empty(),
        substituted(s, flattened(context)) == stripped(s),
{
}

/// A placeholder whose path is bound to `value` is replaced by `value`, with
/// or without whitespace around the path.
pub proof fn lemma_bound_placeholder(
    before: Seq<char>,
    w1: Seq<char>,
    path: Seq<char>,
    w2: Seq<char>,
    after: Seq<char>,
    context: DataContext,
    value: Seq<char>,
)
    requires
        all_spaces(w1),
        is_path(path),
        all_spaces(w2),
        none_before(before + placeholder(w1, path, w2) + after, before.len() as int),
        lookup(flattened(context), path) == Some(value),
    ensures
        substituted(before + placeholder(w1, path, w2) + after, flattened(context)) == before + value
            + substituted(after, flattened(context)),
{
    lemma_substitute_placeholder(before, w1, path, w2, after, flattened(context));
}

/// A placeholder whose dotted path leads, key by key, to a scalar of the
/// nested context is replaced by that scalar, with or without whitespace
/// around the path.
pub proof fn lemma_nested_placeholder(
    before: Seq<char>,
    w1: Seq<char>,
    segments: Seq<Seq<char>>,
    w2: Seq<char>,
    after: Seq<char>,
    context: DataContext,
    value: Seq<char>,
)
    requires
        all_spaces(w1),
        all_spaces(w2),
        1 <= segments.len() <= MAX_NESTING + 1,
        forall|k: int| 0 <= k < segments.len() ==> is_segment(#[trigger] segments[k]),
        is_path(dotted(segments)),
        none_before(before + placeholder(w1, dotted(segments), w2) + after, before.len() as int),
        well_keyed(context.entries, 0),
        resolved(context, segments) == Some(value),
    ensures
        substituted(before + placeholder(w1, dotted(segments), w2) + after, flattened(context)) == before
            + value + substituted(after, flattened(context)),
{
    lemma_flattened_resolves(context, segments);
    lemma_bound_placeholder(before, w1, dotted(segments), w2, after, context, value);
}

} // verus!
