//! Link targets: which are collected, and which are replaced by a tracked
//! target.

use vstd::prelude::*;
use crate::text::{append_chars, chars_of, string_of};

verus! {

/// A link target and the tracked target that takes its place.
#[derive(Debug, Clone, PartialEq, Eq)]
pub struct ReplacedLink {
    pub href: String,
    pub tracked_href: String,
}

/// A pair of a link target and its tracked target, as character sequences.
pub struct LinkView {
    pub href: Seq<char>,
    pub tracked_href: Seq<char>,
}

impl View for ReplacedLink {
    type V = LinkView;

    open spec fn view(&self) -> LinkView {
        LinkView { href: self.href@, tracked_href: self.tracked_href@ }
    }
}

/// The name and the surname of a recipient.
#[derive(Debug, Clone, PartialEq, Eq)]
pub struct ReplacedUser {
    pub name: Option<String>,
    pub surname: Option<String>,
}

/// The links of a vector, in order.
pub open spec fn links_view(links: Seq<ReplacedLink>) -> Seq<LinkView> {
    Seq::new(links.len(), |i: int| links[i]@)
}

/// The strings of a vector, in order.
pub open spec fn strings_view(strings: Seq<String>) -> Seq<Seq<char>> {
    Seq::new(strings.len(), |i: int| strings[i]@)
}

/// The link targets of a vector, in order; an anchor without a target gives
/// `None`.
pub open spec fn targets_view(targets: Seq<Option<String>>) -> Seq<Option<Seq<char>>> {
    Seq::new(
        targets.len(),
        |i: int|
            match targets[i] {
                Some(t) => Some(t@),
                None => None,
            },
    )
}

/// Whether `pattern` stands in `s` at position `i`.
pub open spec fn occurs_at(s: Seq<char>, pattern: Seq<char>, i: int) -> bool {
    0 <= i && i + pattern.len() <= s.len() && s.subrange(i, i + pattern.len()) == pattern
}

/// Whether `pattern` stands somewhere in `s`.
pub open spec fn contains_text(s: Seq<char>, pattern: Seq<char>) -> bool {
    exists|i: int| occurs_at(s, pattern, i)
}

/// The text from position `i` on, with every occurrence of `pattern` replaced
/// by `with`. Occurrences are taken from left to right and do not overlap. An
/// empty pattern occurs nowhere.
pub open spec fn replaced_from(s: Seq<char>, i: int, pattern: Seq<char>, with: Seq<char>) -> Seq<char>
    decreases s.len() - i,
{
    if i < 0 || i >= s.len() {
        Seq::empty()
    } else if pattern.len() > 0 && occurs_at(s, pattern, i) {
        with + replaced_from(s, i + pattern.len(), pattern, with)
    } else {
        seq![s[i]] + replaced_from(s, i + 1, pattern, with)
    }
}

/// The text with every occurrence of `pattern` replaced by `with`.
pub open spec fn replaced(s: Seq<char>, pattern: Seq<char>, with: Seq<char>) -> Seq<char> {
    replaced_from(s, 0, pattern, with)
}

/// The placeholder that names `key`, without whitespace: `{{key}}`.
pub open spec fn plain_token(key: Seq<char>) -> Seq<char> {
    seq!['{', '{'] + key + seq!['}', '}']
}

/// The one name that is filled in inside a link target.
pub open spec fn user_key() -> Seq<char> {
    seq!['u', 's', 'e', 'r', 'I', 'd']
}

/// Whether `pattern` stands in `text` at position `i`.
pub fn starts_at(text: &Vec<char>, pattern: &Vec<char>, i: usize) -> (b: bool)
    ensures
        b == occurs_at(text@, pattern@, i as int),
{
    if i > text.len() || pattern.len() > text.len() - i {
        return false;
    }
    let mut k: usize = 0;
    while k < pattern.len()
        invariant
            k <= pattern.len(),
            i + pattern.len() <= text.len(),
            forall|j: int| 0 <= j < k ==> text@[i + j] == pattern@[j],
        decreases pattern.len() - k,
    {
        if text[i + k] != pattern[k] {
            assert(text@.subrange(i as int, i + pattern.len())[k as int] != pattern@[k as int]);
            return false;
        }
        k += 1;
    }
    assert(text@.subrange(i as int, i + pattern.len()) =~= pattern@);
    true
}

/// Whether `pattern` stands somewhere in `text`.
pub fn contains_chars(text: &Vec<char>, pattern: &Vec<char>) -> (b: bool)
    ensures
        b == contains_text(text@, pattern@),
{
    let mut i: usize = 0;
    while i < text.len()
        invariant
            i <= text.len(),
            forall|j: int| 0 <= j < i ==> !occurs_at(text@, pattern@, j),
        decreases text.len() - i,
    {
        if starts_at(text, pattern, i) {
            return true;
        }
        i += 1;
    }
    starts_at(text, pattern, i)
}

/// Replaces every occurrence of `pattern` in `text` by `with`.
pub fn replace_all(text: &Vec<char>, pattern: &Vec<char>, with: &Vec<char>) -> (out: Vec<char>)
    ensures
        out@ == replaced(text@, pattern@, with@),
{
    let mut out: Vec<char> = Vec::new();
    let mut i: usize = 0;
    while i < text.len()
        invariant
            i <= text.len(),
            out@ + replaced_from(text@, i as int, pattern@, with@) == replaced(text@, pattern@, with@),
        decreases text.len() - i,
    {
        if pattern.len() > 0 && starts_at(text, pattern, i) {
            let ghost rest = replaced_from(text@, i + pattern.len(), pattern@, with@);
            let ghost before = out@;
            append_chars(&mut out, with);
            assert(out@ + rest == before + (with@ + rest));
            i += pattern.len();
        } else {
            let ghost rest = replaced_from(text@, i + 1, pattern@, with@);
            assert(out@.push(text@[i as int]) + rest == out@ + (seq![text@[i as int]] + rest));
            out.push(text[i]);
            i += 1;
        }
    }
    assert(out@ + Seq::<char>::empty() == out@);
    out
}

/// Replacing finds nothing to replace where the pattern does not occur: the
/// text stays as it is.
pub proof fn lemma_replaced_absent(s: Seq<char>, i: int, pattern: Seq<char>, with: Seq<char>)
    requires
        0 <= i <= s.len(),
        !contains_text(s, pattern),
    ensures
        replaced_from(s, i, pattern, with) == s.subrange(i, s.len() as int),
    decreases s.len() - i,
{
    if i < s.len() {
        assert(!occurs_at(s, pattern, i));
        lemma_replaced_absent(s, i + 1, pattern, with);
        assert(seq![s[i]] + s.subrange(i + 1, s.len() as int) == s.subrange(i, s.len() as int));
    }
}

/// The link target with the placeholders of the given keys replaced by their
/// values, one key after the other in the order given.
pub open spec fn filled(link: Seq<char>, replacements: Seq<(Seq<char>, Seq<char>)>) -> Seq<char>
    decreases replacements.len(),
{
    if replacements.len() == 0 {
        link
    } else {
        filled(
            replaced(link, plain_token(replacements[0].0), replacements[0].1),
            replacements.drop_first(),
        )
    }
}

/// The keys and values of a vector, in order.
pub open spec fn pairs_view(pairs: Seq<(String, String)>) -> Seq<(Seq<char>, Seq<char>)> {
    Seq::new(pairs.len(), |i: int| (pairs[i].0@, pairs[i].1@))
}

/// The link target as it is looked up: with `{{userId}}` replaced by the user
/// id where one is given. No other placeholder is touched.
pub open spec fn resolved_href(href: Seq<char>, user_id: Option<Seq<char>>) -> Seq<char> {
    match user_id {
        Some(id) => replaced(href, plain_token(user_key()), id),
        None => href,
    }
}

/// The tracked target of the first link whose target is `href`.
pub open spec fn first_tracked(links: Seq<LinkView>, href: Seq<char>) -> Option<Seq<char>>
    decreases links.len(),
{
    if links.len() == 0 {
        None
    } else if links[0].href == href {
        Some(links[0].tracked_href)
    } else {
        first_tracked(links.drop_first(), href)
    }
}

/// What the target of an anchor is replaced by, if it is replaced: an
/// excluded target never is; any other is resolved and then looked up in
/// `links`.
pub open spec fn tracked_target(
    href: Seq<char>,
    links: Seq<LinkView>,
    excluded: Seq<Seq<char>>,
    user_id: Option<Seq<char>>,
) -> Option<Seq<char>> {
    if excluded.contains(href) {
        None
    } else {
        first_tracked(links, resolved_href(href, user_id))
    }
}

/// The targets that are collected from the anchors of a document: those that
/// are present and not excluded, each once, in the order of their first
/// anchors.
pub open spec fn collected(found: Seq<Option<Seq<char>>>, excluded: Seq<Seq<char>>) -> Seq<Seq<char>>
    decreases found.len(),
{
    if found.len() == 0 {
        Seq::empty()
    } else {
        let before = collected(found.drop_last(), excluded);
        match found.last() {
            Some(href) => if !excluded.contains(href) && !before.contains(href) {
                before.push(href)
            } else {
                before
            },
            None => before,
        }
    }
}

/// What is collected is what was found and is not excluded, and nothing is
/// collected twice.
pub proof fn lemma_collected(found: Seq<Option<Seq<char>>>, excluded: Seq<Seq<char>>)
    ensures
        forall|h: Seq<char>| #[trigger]
            collected(found, excluded).contains(h) <==> found.contains(Some(h)) && !excluded.contains(h),
        collected(found, excluded).no_duplicates(),
    decreases found.len(),
{
    let all = collected(found, excluded);
    if found.len() > 0 {
        let front = found.drop_last();
        let before = collected(front, excluded);
        lemma_collected(front, excluded);
        assert forall|h: Seq<char>| #[trigger]
            all.contains(h) <==> found.contains(Some(h)) && !excluded.contains(h) by {
            if found.contains(Some(h)) {
                let k = choose|k: int| 0 <= k < found.len() && found[k] == Some(h);
                if k < found.len() - 1 {
                    assert(front[k] == Some(h));
                }
            }
            if front.contains(Some(h)) {
                let k = choose|k: int| 0 <= k < front.len() && front[k] == Some(h);
                assert(found[k] == Some(h));
            }
            if before.contains(h) {
                let k = choose|k: int| 0 <= k < before.len() && before[k] == h;
                if all.len() > before.len() {
                    assert(all[k] == h);
                }
            }
            if all.contains(h) && !before.contains(h) {
                let k = choose|k: int| 0 <= k < all.len() && all[k] == h;
                assert(all.len() > before.len());
                if k < before.len() {
                    assert(before[k] == h);
                }
                assert(found[found.len() - 1] == Some(h));
            }
            if found.last() == Some(h) && !excluded.contains(h) && !before.contains(h) {
                assert(all[all.len() - 1] == h);
            }
        }
    }
}

/// The placeholder that names `key`, as characters.
pub fn token_for(key: &str) -> (token: Vec<char>)
    ensures
        token@ == plain_token(key@),
{
    let key_chars = chars_of(key);
    let mut token: Vec<char> = Vec::new();
    token.push('{');
    token.push('{');
    append_chars(&mut token, &key_chars);
    token.push('}');
    token.push('}');
    assert(token@ == seq!['{', '{'] + key@ + seq!['}', '}']);
    token
}

/// Whether the link target holds `{{userId}}`.
pub fn includes_string_tokens(link: &str) -> (b: bool)
    ensures
        b == contains_text(link@, plain_token(user_key())),
{
    proof {
        reveal_strlit("userId");
        assert("userId"@ == user_key());
    }
    let token = token_for("userId");
    let text = chars_of(link);
    contains_chars(&text, &token)
}

/// Replaces in `link`, for each key of `replacements` in turn, every
/// `{{key}}` by the key's value.
pub fn replace_tokens(link: &str, replacements: &Vec<(String, String)>) -> (result: String)
    ensures
        result@ == filled(link@, pairs_view(replacements@)),
{
    let ghost all = pairs_view(replacements@);
    let mut current = chars_of(link);
    let mut k: usize = 0;
    assert(all.skip(0) == all);
    while k < replacements.len()
        invariant
            k <= replacements.len(),
            all == pairs_view(replacements@),
            filled(current@, all.skip(k as int)) == filled(link@, all),
        decreases replacements.len() - k,
    {
        let token = token_for(replacements[k].0.as_str());
        let value = chars_of(replacements[k].1.as_str());
        assert(all.skip(k as int)[0] == (replacements@[k as int].0@, replacements@[k as int].1@));
        assert(all.skip(k as int).drop_first() == all.skip(k + 1));
        current = replace_all(&current, &token, &value);
        k += 1;
    }
    string_of(&current)
}

/// Whether `list` holds `s`.
pub fn contains_string(list: &Vec<String>, s: &String) -> (b: bool)
    ensures
        b == strings_view(list@).contains(s@),
{
    let mut i: usize = 0;
    while i < list.len()
        invariant
            i <= list.len(),
            forall|j: int| 0 <= j < i ==> strings_view(list@)[j] != s@,
        decreases list.len() - i,
    {
        if list[i] == *s {
            assert(strings_view(list@)[i as int] == s@);
            return true;
        }
        i += 1;
    }
    false
}

/// The characters of an optional string.
pub open spec fn option_view(s: Option<String>) -> Option<Seq<char>> {
    match s {
        Some(t) => Some(t@),
        None => None,
    }
}

/// The link target as it is looked up.
pub fn resolve_href(href: &String, user_id: &Option<String>) -> (resolved: String)
    ensures
        resolved@ == resolved_href(href@, option_view(*user_id)),
{
    let mut replacements: Vec<(String, String)> = Vec::new();
    match user_id {
        Some(id) => {
            proof {
                reveal_strlit("userId");
                assert("userId"@ == user_key());
            }
            replacements.push(("userId".to_owned(), id.clone()));
        },
        None => {},
    }
    let ghost pairs = pairs_view(replacements@);
    proof {
        match user_id {
            Some(id) => {
                assert(pairs.len() == 1);
                assert(pairs[0].0 == user_key());
                assert(pairs[0].1 == id@);
                assert(pairs.drop_first().len() == 0);
                let once = replaced(href@, plain_token(user_key()), id@);
                assert(filled(once, pairs.drop_first()) == once);
                assert(filled(href@, pairs) == once);
            },
            None => {
                assert(pairs.len() == 0);
                assert(filled(href@, pairs) == href@);
            },
        }
    }
    if includes_string_tokens(href.as_str()) {
        replace_tokens(href.as_str(), &replacements)
    } else {
        proof {
            if user_id is Some {
                lemma_replaced_absent(href@, 0, plain_token(user_key()), user_id->Some_0@);
                assert(href@.subrange(0, href@.len() as int) == href@);
            }
        }
        href.clone()
    }
}

/// The tracked target of the first link whose target is `href`.
pub fn find_tracked(links: &Vec<ReplacedLink>, href: &String) -> (found: Option<String>)
    ensures
        match found {
            Some(t) => first_tracked(links_view(links@), href@) == Some(t@),
            None => first_tracked(links_view(links@), href@) is None,
        },
{
    let ghost all = links_view(links@);
    let mut i: usize = 0;
    assert(all.skip(0) == all);
    while i < links.len()
        invariant
            i <= links.len(),
            all == links_view(links@),
            first_tracked(all, href@) == first_tracked(all.skip(i as int), href@),
        decreases links.len() - i,
    {
        assert(all.skip(i as int)[0] == links@[i as int]@);
        assert(all.skip(i as int).drop_first() == all.skip(i + 1));
        if links[i].href == *href {
            return Some(links[i].tracked_href.clone());
        }
        i += 1;
    }
    None
}

/// Decides what the target `href` of an anchor is replaced by: `None` says
/// that the anchor is left as it is.
pub fn rewrite_href(
    href: &String,
    links: &Vec<ReplacedLink>,
    excluded: &Vec<String>,
    user_id: &Option<String>,
) -> (target: Option<String>)
    ensures
        match target {
            Some(t) => tracked_target(
                href@,
                links_view(links@),
                strings_view(excluded@),
                option_view(*user_id),
            ) == Some(t@),
            None => tracked_target(
                href@,
                links_view(links@),
                strings_view(excluded@),
                option_view(*user_id),
            ) is None,
        },
        strings_view(excluded@).contains(href@) ==> target is None,
{
    if contains_string(excluded, href) {
        None
    } else {
        let resolved = resolve_href(href, user_id);
        find_tracked(links, &resolved)
    }
}

/// Collects the targets of anchors: those that are present and not in
/// `excluded`, each once, in the order of their first anchors.
pub fn collect_hrefs(found: &Vec<Option<String>>, excluded: &Vec<String>) -> (hrefs: Vec<String>)
    ensures
        strings_view(hrefs@) == collected(targets_view(found@), strings_view(excluded@)),
        forall|h: Seq<char>|
            strings_view(excluded@).contains(h) ==> !(#[trigger] strings_view(hrefs@).contains(h)),
        strings_view(hrefs@).no_duplicates(),
{
    proof {
        lemma_collected(targets_view(found@), strings_view(excluded@));
    }
    let ghost all = targets_view(found@);
    let ghost out = strings_view(excluded@);
    let mut hrefs: Vec<String> = Vec::new();
    let mut i: usize = 0;
    assert(all.take(0) == Seq::<Option<Seq<char>>>::empty());
    while i < found.len()
        invariant
            i <= found.len(),
            all == targets_view(found@),
            out == strings_view(excluded@),
            strings_view(hrefs@) == collected(all.take(i as int), out),
        decreases found.len() - i,
    {
        assert(all.take(i + 1).drop_last() == all.take(i as int));
        assert(all.take(i + 1).last() == all[i as int]);
        match &found[i] {
            Some(href) => {
                if !contains_string(excluded, href) && !contains_string(&hrefs, href) {
                    let ghost before = strings_view(hrefs@);
                    let copy = href.clone();
                    hrefs.push(copy);
                    assert(strings_view(hrefs@) == before.push(href@));
                }
            },
            None => {},
        }
        i += 1;
    }
    assert(all.take(found.len() as int) == all);
    hrefs
}

} // verus!
