use email_template::context::Binding;
use email_template::token::{find_tokens, is_space_char, scan_token, substitute, TokenSpan};
use regex::{Captures, Regex};

fn chars(s: &str) -> Vec<char> {
    s.chars().collect()
}

fn string(v: &[char]) -> String {
    v.iter().collect()
}

fn binding(path: &str, value: &str) -> Binding {
    Binding { path: chars(path), value: chars(value) }
}

fn paths(text: &str) -> Vec<String> {
    find_tokens(&chars(text)).iter().map(|p| string(p)).collect()
}

fn substituted(text: &str, map: &Vec<Binding>) -> String {
    string(&substitute(&chars(text), map))
}

fn grammar() -> Regex {
    Regex::new("\\{\\{\\s*([^\\s\\}]+)\\s*\\}\\}").unwrap()
}

fn paths_by_regex(re: &Regex, text: &str) -> Vec<String> {
    re.captures_iter(text).map(|c| c.get(1).unwrap().as_str().to_string()).collect()
}

fn substituted_by_regex(re: &Regex, text: &str, map: &Vec<Binding>) -> String {
    re.replace_all(text, |caps: &Captures| {
        let path = chars(caps.get(1).unwrap().as_str());
        match map.iter().find(|b| b.path == path) {
            Some(b) => string(&b.value),
            None => String::new(),
        }
    })
    .to_string()
}

#[test]
fn scan_reads_a_plain_token() {
    let text = chars("{{x}}");
    assert_eq!(scan_token(&text, 0), Some(TokenSpan { path_start: 2, path_end: 3, end: 5 }));
}

#[test]
fn scan_skips_whitespace_around_the_path() {
    let text = chars("ab{{ \t user.name \n}}cd");
    assert_eq!(scan_token(&text, 2), Some(TokenSpan { path_start: 7, path_end: 16, end: 20 }));
    assert_eq!(scan_token(&text, 0), None);
    assert_eq!(scan_token(&text, 3), None);
}

#[test]
fn scan_refuses_malformed_tokens() {
    assert_eq!(scan_token(&chars("{{unclosed"), 0), None);
    assert_eq!(scan_token(&chars("{{}}"), 0), None);
    assert_eq!(scan_token(&chars("{{   }}"), 0), None);
    assert_eq!(scan_token(&chars("{{a b}}"), 0), None);
    assert_eq!(scan_token(&chars("{{a}"), 0), None);
    assert_eq!(scan_token(&chars("{{a} }"), 0), None);
    assert_eq!(scan_token(&chars("{ {a}}"), 0), None);
    assert_eq!(scan_token(&chars("{{a}}"), 1), None);
    assert_eq!(scan_token(&chars("{{a}}"), 5), None);
    assert_eq!(scan_token(&chars("{{a}}"), 99), None);
    assert_eq!(scan_token(&chars(""), 0), None);
    assert_eq!(scan_token(&chars("{"), 0), None);
}

#[test]
fn a_brace_may_open_a_path() {
    let text = chars("{{{a}}");
    assert_eq!(scan_token(&text, 0), Some(TokenSpan { path_start: 2, path_end: 4, end: 6 }));
    assert_eq!(paths("{{{a}}"), vec!["{a".to_string()]);
    assert_eq!(paths("{{x}{{a}}}"), vec!["a".to_string()]);
}

#[test]
fn whitespace_is_unicode_whitespace() {
    let spaces = [
        '\u{9}', '\u{A}', '\u{B}', '\u{C}', '\u{D}', ' ', '\u{85}', '\u{A0}', '\u{1680}', '\u{2000}',
        '\u{2001}', '\u{2002}', '\u{2003}', '\u{2004}', '\u{2005}', '\u{2006}', '\u{2007}', '\u{2008}',
        '\u{2009}', '\u{200A}', '\u{2028}', '\u{2029}', '\u{202F}', '\u{205F}', '\u{3000}',
    ];
    for c in spaces {
        assert!(is_space_char(c));
    }
    let mut code: u32 = 0;
    while code < 0x11000 {
        if let Some(c) = char::from_u32(code) {
            assert_eq!(is_space_char(c), c.is_whitespace());
        }
        code += 1;
    }
    assert_eq!(paths("{{\u{A0}x\u{3000}}}"), vec!["x".to_string()]);
}

#[test]
fn tokens_are_found_in_document_order() {
    assert_eq!(paths("{{x}} and {{x}}"), vec!["x".to_string(), "x".to_string()]);
    assert_eq!(
        paths("<p>{{ user.name }}</p><a href=\"{{link}}\">{{a.b.c}}</a>"),
        vec!["user.name".to_string(), "link".to_string(), "a.b.c".to_string()]
    );
    assert_eq!(paths("no tokens { here } {{ }}"), Vec::<String>::new());
    assert_eq!(paths(""), Vec::<String>::new());
}

#[test]
fn bound_paths_are_filled_and_the_rest_is_dropped() {
    let map = vec![binding("a.b", "v"), binding("x", "1"), binding("x", "2")];
    assert_eq!(substituted("{{a.b}}", &map), "v");
    assert_eq!(substituted("{{ a.b }}", &map), "v");
    assert_eq!(substituted("[{{   a.b\t}}]", &map), "[v]");
    assert_eq!(substituted("{{x}}{{x}} {{y}}!", &map), "11 !");
    assert_eq!(substituted("{{unclosed {{x}}", &map), "{{unclosed 1");
    assert_eq!(substituted("plain {text} }} {{", &map), "plain {text} }} {{");
    assert_eq!(substituted("", &map), "");
}

#[test]
fn without_bindings_only_tokens_are_removed() {
    let none: Vec<Binding> = Vec::new();
    assert_eq!(substituted("Hi {{user.name}}", &none), "Hi ");
    assert_eq!(substituted("a{{x}}b{{ y }}c", &none), "abc");
    assert_eq!(substituted("{{x}{{a}}}", &none), "{{x}}");
    assert_eq!(substituted("{{a b}} stays", &none), "{{a b}} stays");
    assert_eq!(substituted("\u{e9}{{x}}\u{4e2d}", &none), "\u{e9}\u{4e2d}");
}

#[test]
fn a_value_is_not_read_again() {
    let map = vec![binding("a", "{{b}}"), binding("b", "no")];
    assert_eq!(substituted("{{a}}", &map), "{{b}}");
}

#[test]
fn grammar_agrees_with_the_pattern_on_short_texts() {
    let re = grammar();
    let alphabet = ['{', '}', ' ', 'a', '.', '\n'];
    let map = vec![binding("a", "V"), binding("a.a", "W"), binding(".", "{{a}}")];
    let mut text = String::new();
    let mut count = 0;
    let mut digits = vec![0usize; 7];
    for length in 0..=7usize {
        for d in digits.iter_mut() {
            *d = 0;
        }
        loop {
            text.clear();
            for k in 0..length {
                text.push(alphabet[digits[k]]);
            }
            assert_eq!(paths(&text), paths_by_regex(&re, &text));
            assert_eq!(substituted(&text, &map), substituted_by_regex(&re, &text, &map));
            count += 1;
            let mut k = 0;
            while k < length {
                digits[k] += 1;
                if digits[k] < alphabet.len() {
                    break;
                }
                digits[k] = 0;
                k += 1;
            }
            if k == length {
                break;
            }
        }
    }
    assert_eq!(count, 1 + 6 + 36 + 216 + 1296 + 7776 + 46656 + 279936);
}

#[test]
fn grammar_agrees_with_the_pattern_on_long_texts() {
    let re = grammar();
    let alphabet = ['{', '{', '}', '}', ' ', '\t', 'a', 'b', '.', '\u{A0}', '\u{e9}', '<', '>'];
    let map = vec![binding("a", "1"), binding("b", ""), binding("a.b", "{{a}}")];
    let mut state: u64 = 0x2545F4914F6CDD1D;
    for _ in 0..300 {
        let mut text = String::new();
        for _ in 0..200 {
            state ^= state << 13;
            state ^= state >> 7;
            state ^= state << 17;
            text.push(alphabet[(state % alphabet.len() as u64) as usize]);
        }
        assert_eq!(paths(&text), paths_by_regex(&re, &text));
        assert_eq!(substituted(&text, &map), substituted_by_regex(&re, &text, &map));
    }
}
