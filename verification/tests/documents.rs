use email_template::document::Document;
use email_template::dom::{text_fits, MAX_TEXT_BYTES, MAX_TREE_DEPTH};
use email_template::engine::write_out;
use email_template::{ReplacedLink, TemplateError};

const PAGE: &str = "<html><head><title>t</title></head><body><p>Hello</p><a href=\"http://a.com\">a</a><a name=\"x\">n</a><a class=\"c\" href=\"http://b.com/{{userId}}\">b</a></body></html>";

const BLOCK_OPEN: &str = "<div style=\"font-size:0px;line-height:1px;mso-line-height-rule:exactly;display:none;max-width:0px;max-height:0px;opacity:0;overflow:hidden;mso-hide:all;\">";

const PIXEL: &str = "<img alt=\"\" height=\"1\" src=\"http://t/px\" style=\"display:block;border:0;outline:none;text-decoration:none;\" width=\"1\">";

fn link(href: &str, tracked_href: &str) -> ReplacedLink {
    ReplacedLink { href: href.to_string(), tracked_href: tracked_href.to_string() }
}

fn parsed(text: &str) -> Document {
    Document::parse(text).unwrap()
}

fn html(document: &Document) -> String {
    document.to_html().unwrap()
}

#[test]
fn a_document_is_written_as_it_was_parsed() {
    assert_eq!(html(&parsed(PAGE)), PAGE);
    assert_eq!(html(&parsed("")), "<html><head></head><body></body></html>");
    assert_eq!(html(&parsed("<p>one<p>two")), "<html><head></head><body><p>one</p><p>two</p></body></html>");
    assert_eq!(write_out(&parsed("<b>x</b>")).unwrap(), b"<html><head></head><body><b>x</b></body></html>".to_vec());
}

#[test]
fn limits_are_those_of_the_parser_and_the_writer() {
    assert_eq!(MAX_TEXT_BYTES, 1 << 30);
    assert_eq!(MAX_TREE_DEPTH, 512);
    assert!(text_fits(""));
    assert!(text_fits(PAGE));
}

#[test]
fn depth_is_measured() {
    assert!(parsed(PAGE).is_within_depth());
    let mut deep = String::new();
    for _ in 0..600 {
        deep.push_str("<i>");
    }
    let document = parsed(&deep);
    assert!(!document.is_within_depth());
    assert_eq!(document.to_html(), Err(TemplateError::Nesting));
    assert_eq!(write_out(&document), Err(TemplateError::Nesting));
}

#[test]
fn the_preheader_is_the_sibling_before_the_body() {
    let document = parsed("<html><head></head><body><p>Hello</p></body></html>").inject_preheader("Look").unwrap();
    assert_eq!(
        html(&document),
        format!("<html><head></head>{}Look</div><body><p>Hello</p></body></html>", BLOCK_OPEN)
    );
}

#[test]
fn the_preheader_put_in_twice_gives_two_blocks() {
    let document = parsed("<html><head></head><body><p>Hello</p></body></html>")
        .inject_preheader("Look")
        .unwrap()
        .inject_preheader("Look")
        .unwrap();
    assert_eq!(
        html(&document),
        format!(
            "<html><head></head>{}Look</div>{}Look</div><body><p>Hello</p></body></html>",
            BLOCK_OPEN, BLOCK_OPEN
        )
    );
}

#[test]
fn the_preheader_text_is_read_as_markup() {
    let document = parsed("<body></body>").inject_preheader("a <b>bold</b> &amp; <i>move").unwrap();
    assert_eq!(
        html(&document),
        format!("<html><head></head>{}a <b>bold</b> &amp; <i>move</i></div><body></body></html>", BLOCK_OPEN)
    );
    let cut = parsed("<body></body>").inject_preheader("in</div>out").unwrap();
    assert_eq!(html(&cut), format!("<html><head></head>{}in</div><body></body></html>", BLOCK_OPEN));
}

#[test]
fn the_pixel_is_the_last_child_of_the_body() {
    let document = parsed("<html><head></head><body><p>Hello</p><!--c--></body></html>")
        .inject_tracking_pixel("http://t/px")
        .unwrap();
    assert_eq!(html(&document), format!("<html><head></head><body><p>Hello</p><!--c-->{}</body></html>", PIXEL));
}

#[test]
fn a_frameset_document_has_no_body_and_is_not_changed() {
    let page = "<html><head></head><frameset><frame src=\"a.html\"></frameset></html>";
    assert_eq!(html(&parsed(page)), page);
    assert_eq!(html(&parsed(page).inject_preheader("Look").unwrap()), page);
    assert_eq!(html(&parsed(page).inject_tracking_pixel("http://t/px").unwrap()), page);
}

#[test]
fn anchors_get_their_tracked_targets() {
    let links = vec![link("http://a.com", "http://t/a"), link("http://b.com/7", "http://t/b")];
    let document = parsed(PAGE).rewrite_hrefs(&links, &Vec::new(), &Some("7".to_string()));
    assert_eq!(
        html(&document),
        "<html><head><title>t</title></head><body><p>Hello</p><a href=\"http://t/a\">a</a><a name=\"x\">n</a><a class=\"c\" href=\"http://t/b\">b</a></body></html>"
    );
}

#[test]
fn anchors_without_a_listed_target_stay() {
    let links = vec![link("http://b.com/7", "http://t/b"), link("http://c.com", "http://t/c")];
    let document = parsed(PAGE).rewrite_hrefs(&links, &Vec::new(), &None);
    assert_eq!(html(&document), PAGE);
}

#[test]
fn excluded_anchors_stay() {
    let links = vec![link("http://a.com", "http://t/a"), link("http://b.com/7", "http://t/b")];
    let excluded = vec!["http://a.com".to_string()];
    let document = parsed(PAGE).rewrite_hrefs(&links, &excluded, &Some("7".to_string()));
    let out = html(&document);
    assert!(out.contains("<a href=\"http://a.com\">a</a>"));
    assert!(out.contains("<a class=\"c\" href=\"http://t/b\">b</a>"));
}

#[test]
fn only_anchors_are_rewritten() {
    let page = "<html><head><link href=\"http://a.com\"></head><body><area href=\"http://a.com\"><a href=\"http://a.com\">x</a><svg><a href=\"http://a.com\"></a></svg></body></html>";
    let links = vec![link("http://a.com", "http://t/a")];
    let document = parsed(page).rewrite_hrefs(&links, &Vec::new(), &None);
    assert_eq!(
        html(&document),
        "<html><head><link href=\"http://a.com\"></head><body><area href=\"http://a.com\"><a href=\"http://t/a\">x</a><svg><a href=\"http://t/a\"></a></svg></body></html>"
    );
}

#[test]
fn passes_follow_each_other() {
    let links = vec![link("http://a.com", "http://t/a")];
    let document = parsed("<body><a href=\"http://a.com\">x</a></body>")
        .inject_preheader("<a href=\"http://a.com\">y</a>")
        .unwrap()
        .inject_tracking_pixel("http://t/px")
        .unwrap()
        .rewrite_hrefs(&links, &Vec::new(), &None);
    assert_eq!(
        html(&document),
        format!(
            "<html><head></head>{}<a href=\"http://t/a\">y</a></div><body><a href=\"http://t/a\">x</a>{}</body></html>",
            BLOCK_OPEN, PIXEL
        )
    );
}
