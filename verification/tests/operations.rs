use email_template::{
    add_pre_header, add_pre_header_and_links, find_all_hrefs, find_handlebars_tokens,
    replace_handlebars_tokens, DataContext, DataEntry, DataValue, ReplacedLink, TemplateError,
};

fn scalar(key: &str, value: &str) -> DataEntry {
    DataEntry { key: key.to_string(), value: DataValue::Scalar(value.to_string()) }
}

fn object(key: &str, entries: Vec<DataEntry>) -> DataEntry {
    DataEntry { key: key.to_string(), value: DataValue::Object(DataContext { entries }) }
}

fn text(bytes: Vec<u8>) -> String {
    String::from_utf8(bytes).unwrap()
}

const PREHEADER_OPEN: &str = "<div style=\"font-size:0px;line-height:1px;mso-line-height-rule:exactly;display:none;max-width:0px;max-height:0px;opacity:0;overflow:hidden;mso-hide:all;\">";

#[test]
fn nested_path_is_filled_in() {
    let context = DataContext { entries: vec![object("user", vec![scalar("name", "Ana")])] };
    let out = replace_handlebars_tokens(b"Hi {{user.name}}".to_vec(), Some(context)).unwrap();
    assert_eq!(text(out), "Hi Ana");
}

#[test]
fn empty_context_removes_the_placeholder() {
    let context = DataContext { entries: vec![] };
    let out = replace_handlebars_tokens(b"Hi {{user.name}}".to_vec(), Some(context)).unwrap();
    assert_eq!(text(out), "Hi ");
}

#[test]
fn no_context_removes_the_placeholder() {
    let out = replace_handlebars_tokens(b"Hi {{user.name}}".to_vec(), None).unwrap();
    assert_eq!(text(out), "Hi ");
}

#[test]
fn spacing_inside_the_braces_does_not_matter() {
    let context = || DataContext { entries: vec![object("a", vec![scalar("b", "v")])] };
    assert_eq!(text(replace_handlebars_tokens(b"{{a.b}}".to_vec(), Some(context())).unwrap()), "v");
    assert_eq!(text(replace_handlebars_tokens(b"{{ a.b }}".to_vec(), Some(context())).unwrap()), "v");
    assert_eq!(
        text(replace_handlebars_tokens(b"<p>{{a.b}}|{{\t a.b\n}}</p>".to_vec(), Some(context())).unwrap()),
        "<p>v|v</p>"
    );
}

#[test]
fn a_path_to_a_mapping_or_to_nothing_gives_nothing() {
    let context = || DataContext { entries: vec![object("user", vec![scalar("name", "Ana")]), scalar("n", "7")] };
    assert_eq!(text(replace_handlebars_tokens(b"[{{user}}]".to_vec(), Some(context())).unwrap()), "[]");
    assert_eq!(text(replace_handlebars_tokens(b"[{{user.age}}]".to_vec(), Some(context())).unwrap()), "[]");
    assert_eq!(text(replace_handlebars_tokens(b"[{{name}}]".to_vec(), Some(context())).unwrap()), "[]");
    assert_eq!(text(replace_handlebars_tokens(b"[{{n}}{{n}}]".to_vec(), Some(context())).unwrap()), "[77]");
}

#[test]
fn malformed_braces_pass_through() {
    let context = || DataContext { entries: vec![scalar("x", "1")] };
    assert_eq!(
        text(replace_handlebars_tokens(b"{{unclosed {x} {{ }} }} {{x}".to_vec(), Some(context())).unwrap()),
        "{{unclosed {x} {{ }} }} {{x}"
    );
    assert_eq!(
        text(replace_handlebars_tokens(b"{{unclosed {x} {{ }} }} {{x}".to_vec(), None).unwrap()),
        "{{unclosed {x} {{ }} }} {{x}"
    );
}

#[test]
fn text_outside_tokens_is_kept_byte_for_byte() {
    let input = "\u{feff}<p title='{ }'>\r\n\t\u{e9}{{a}}\u{4e2d}\u{1F600} }}{{</p>\n";
    let out = replace_handlebars_tokens(input.as_bytes().to_vec(), Some(DataContext { entries: vec![] })).unwrap();
    assert_eq!(text(out), "\u{feff}<p title='{ }'>\r\n\t\u{e9}\u{4e2d}\u{1F600} }}{{</p>\n");
    let markup = b"<html><body><a href=\"{{link}}\">x</a></body>".to_vec();
    assert_eq!(text(replace_handlebars_tokens(markup, None).unwrap()), "<html><body><a href=\"\">x</a></body>");
}

#[test]
fn tokens_of_a_template_are_listed() {
    let found = find_handlebars_tokens(
        b"<a href=\"{{unsubscribeLink}}\">{{ user.name }}</a>{{user.name}}{{}}{{ a b }}".to_vec(),
    )
    .unwrap();
    assert_eq!(found, vec!["unsubscribeLink".to_string(), "user.name".to_string(), "user.name".to_string()]);
    assert_eq!(find_handlebars_tokens(Vec::new()), Ok(Vec::new()));
}

#[test]
fn duplicate_tokens_are_both_found() {
    let found = find_handlebars_tokens(b"{{x}} and {{x}}".to_vec()).unwrap();
    assert_eq!(found, vec!["x".to_string(), "x".to_string()]);
}

#[test]
fn invalid_utf8_is_an_encoding_error() {
    let bad = vec![0x48, 0xff, 0x49];
    assert_eq!(find_handlebars_tokens(bad.clone()), Err(TemplateError::Encoding));
    assert_eq!(replace_handlebars_tokens(bad.clone(), None), Err(TemplateError::Encoding));
    assert_eq!(find_all_hrefs(bad.clone(), None), Err(TemplateError::Encoding));
    assert_eq!(add_pre_header(bad.clone(), "x".to_string()), Err(TemplateError::Encoding));
    assert_eq!(
        add_pre_header_and_links(bad, vec![], "http://t.example/px".to_string(), None, None),
        Err(TemplateError::Encoding)
    );
}

#[test]
fn hrefs_are_collected_once_and_exclusions_are_left_out() {
    let html = b"<html><body><a href=\"http://a.com\">1</a><a href=\"http://b.com\">2</a><a href=\"http://a.com\">3</a><a>none</a><a href=\"{{unsubscribeLink}}\">u</a></body></html>".to_vec();
    let found = find_all_hrefs(html.clone(), Some(vec!["{{unsubscribeLink}}".to_string()])).unwrap();
    assert_eq!(found, vec!["http://a.com".to_string(), "http://b.com".to_string()]);
    let all = find_all_hrefs(html, None).unwrap();
    assert_eq!(
        all,
        vec!["http://a.com".to_string(), "http://b.com".to_string(), "{{unsubscribeLink}}".to_string()]
    );
}

#[test]
fn preheader_goes_before_the_body() {
    let out = add_pre_header(b"<html><head></head><body><p>Hello</p></body></html>".to_vec(), "Preview".to_string())
        .unwrap();
    let expected = format!("<html><head></head>{}Preview</div><body><p>Hello</p></body></html>", PREHEADER_OPEN);
    assert_eq!(text(out), expected);
}

#[test]
fn preheader_twice_gives_two_blocks() {
    let once = add_pre_header(b"<html><head></head><body><p>Hello</p></body></html>".to_vec(), "Preview".to_string())
        .unwrap();
    let twice = add_pre_header(once, "Preview".to_string()).unwrap();
    let block = format!("{}Preview</div>", PREHEADER_OPEN);
    assert_eq!(text(twice).matches(block.as_str()).count(), 2);
}

#[test]
fn links_are_tracked_and_the_pixel_is_appended() {
    let out = add_pre_header_and_links(
        b"<html><body><a href=\"http://a.com\">go</a></body></html>".to_vec(),
        vec![ReplacedLink { href: "http://a.com".to_string(), tracked_href: "http://t.example/x".to_string() }],
        "http://t.example/px".to_string(),
        None,
        None,
    )
    .unwrap();
    assert_eq!(
        text(out),
        "<html><head></head><body><a href=\"http://t.example/x\">go</a><img alt=\"\" height=\"1\" src=\"http://t.example/px\" style=\"display:block;border:0;outline:none;text-decoration:none;\" width=\"1\"></body></html>"
    );
}

#[test]
fn a_header_adds_the_preview_block() {
    let out = add_pre_header_and_links(
        b"<html><head></head><body><a href=\"http://a.com/{{userId}}\">go</a></body></html>".to_vec(),
        vec![ReplacedLink { href: "http://a.com/9".to_string(), tracked_href: "http://t.example/x".to_string() }],
        "http://t.example/px".to_string(),
        Some("Hello".to_string()),
        Some("9".to_string()),
    )
    .unwrap();
    assert_eq!(
        text(out),
        format!(
            "<html><head></head>{}Hello</div><body><a href=\"http://t.example/x\">go</a><img alt=\"\" height=\"1\" src=\"http://t.example/px\" style=\"display:block;border:0;outline:none;text-decoration:none;\" width=\"1\"></body></html>",
            PREHEADER_OPEN
        )
    );
}

#[test]
fn a_document_without_a_body_gets_no_block_and_no_pixel() {
    let page = b"<html><head></head><frameset></frameset></html>".to_vec();
    assert_eq!(add_pre_header(page.clone(), "Hello".to_string()), Ok(page.clone()));
    assert_eq!(
        add_pre_header_and_links(page.clone(), vec![], "http://t.example/px".to_string(), Some("Hello".to_string()), None),
        Ok(page)
    );
}

#[test]
fn a_fragment_is_wrapped_by_the_parser() {
    let out = add_pre_header(b"<p>Hi".to_vec(), "Hello".to_string()).unwrap();
    assert_eq!(text(out), format!("<html><head></head>{}Hello</div><body><p>Hi</p></body></html>", PREHEADER_OPEN));
}

#[test]
fn default_exclusions_are_left_alone() {
    let page = b"<html><head></head><body><a href=\"{{telegramLink}}\">t</a><a href=\"{{unsubscribeLink}}\">u</a><a href=\"{{other}}\">o</a></body></html>".to_vec();
    let links = vec![
        ReplacedLink { href: "{{telegramLink}}".to_string(), tracked_href: "http://t.example/1".to_string() },
        ReplacedLink { href: "{{unsubscribeLink}}".to_string(), tracked_href: "http://t.example/2".to_string() },
        ReplacedLink { href: "{{other}}".to_string(), tracked_href: "http://t.example/3".to_string() },
    ];
    let out = text(add_pre_header_and_links(page, links, "http://t.example/px".to_string(), None, None).unwrap());
    assert!(out.contains("<a href=\"{{telegramLink}}\">t</a><a href=\"{{unsubscribeLink}}\">u</a><a href=\"http://t.example/3\">o</a>"));
}

#[test]
fn excluded_href_is_left_alone() {
    let html = b"<html><head></head><body><a href=\"{{unsubscribeLink}}\">bye</a></body></html>".to_vec();
    let found = find_all_hrefs(html.clone(), Some(vec!["{{unsubscribeLink}}".to_string()])).unwrap();
    assert!(found.is_empty());
    let out = add_pre_header_and_links(
        html,
        vec![ReplacedLink { href: "{{unsubscribeLink}}".to_string(), tracked_href: "http://t.example/u".to_string() }],
        "http://t.example/px".to_string(),
        None,
        None,
    )
    .unwrap();
    assert!(text(out).contains("<a href=\"{{unsubscribeLink}}\">bye</a>"));
}

fn nested(depth: usize) -> Vec<u8> {
    let mut html = String::from("<html><head></head><body>");
    for _ in 0..depth {
        html.push_str("<div>");
    }
    html.push('x');
    for _ in 0..depth {
        html.push_str("</div>");
    }
    html.push_str("</body></html>");
    html.into_bytes()
}

#[test]
fn nesting_up_to_the_limit_is_written() {
    // The text inside the innermost block lies at depth 2 + 509 + 1.
    let html = nested(509);
    let out = add_pre_header(html.clone(), "P".to_string()).unwrap();
    assert!(out.len() > html.len());
}

#[test]
fn nesting_beyond_the_limit_is_refused() {
    assert_eq!(add_pre_header(nested(510), "P".to_string()), Err(TemplateError::Nesting));
    assert_eq!(
        add_pre_header_and_links(nested(9000), vec![], "http://t.example/px".to_string(), None, None),
        Err(TemplateError::Nesting)
    );
}

#[test]
fn deep_nesting_is_searched() {
    let mut html = String::new();
    for _ in 0..3000 {
        html.push_str("<div>");
    }
    html.push_str("<a href=\"http://a.com\">x</a>");
    let found = find_all_hrefs(html.into_bytes(), None).unwrap();
    assert_eq!(found, vec!["http://a.com".to_string()]);
}

#[test]
fn a_text_of_more_than_a_gibibyte_is_not_parsed() {
    let huge = vec![b' '; (1 << 30) + 1];
    assert_eq!(find_all_hrefs(huge, None), Err(TemplateError::Size));
}
