//! The operations of the library: each takes a document as UTF-8 bytes.

use vstd::prelude::*;
use vstd::string::*;
use vstd::utf8::{decode_utf8, encode_utf8, valid_utf8};
use crate::context::{DataContext, BindingView, flattened, flatten};
use crate::document::{Document, attr_href, tag_a, with_preheader, with_pixel, rewritten, preheader_markup, pixel_markup};
use crate::dom::{NodeView, fits, text_fits, parsed_html, html_text, scraped_attributes, scrape_attributes, within_depth};
use crate::href::{ReplacedLink, LinkView, collect_hrefs, collected, links_view, option_view, strings_view};
use crate::text::{TemplateError, as_text, chars_of, encode, string_of};
use crate::token::{find_tokens, substitute, substituted, token_paths};

verus! {

/// The flat form of an optional context: no context binds nothing.
pub open spec fn bindings_of(data: Option<DataContext>) -> Seq<BindingView> {
    match data {
        Some(context) => flattened(context),
        None => Seq::empty(),
    }
}

/// The link targets that are never replaced when a document is instrumented.
pub open spec fn default_excluded() -> Seq<Seq<char>> {
    seq!["{{unsubscribeLink}}"@, "{{telegramLink}}"@]
}

/// The excluded targets of an optional list: no list excludes nothing.
pub open spec fn excluded_of(excluded: Option<Vec<String>>) -> Seq<Seq<char>> {
    match excluded {
        Some(list) => strings_view(list@),
        None => Seq::empty(),
    }
}

/// A document after instrumentation: the preview block is put in where a
/// header is given, then the tracking pixel, and then the link targets are
/// replaced.
pub open spec fn instrumented(
    nodes: Seq<NodeView>,
    links: Seq<LinkView>,
    open_link: Seq<char>,
    header: Option<Seq<char>>,
    user_id: Option<Seq<char>>,
) -> Seq<NodeView> {
    let with_header = match header {
        Some(text) => with_preheader(nodes, parsed_html(preheader_markup(text))),
        None => nodes,
    };
    let with_image = with_pixel(with_header, parsed_html(pixel_markup(open_link)));
    rewritten(with_image, links, default_excluded(), user_id)
}

/// The link targets that are never replaced when a document is instrumented.
pub fn excluded_by_default() -> (excluded: Vec<String>)
    ensures
        strings_view(excluded@) == default_excluded(),
{
    let mut excluded: Vec<String> = Vec::new();
    excluded.push("{{unsubscribeLink}}".to_owned());
    excluded.push("{{telegramLink}}".to_owned());
    assert(strings_view(excluded@) =~= default_excluded());
    excluded
}

/// Replaces every placeholder of the text by the value that `data` gives its
/// path, or by nothing where `data` gives none; without `data` every
/// placeholder is removed. Fails only on bytes that are not valid UTF-8.
pub fn replace_handlebars_tokens(buffer: Vec<u8>, data: Option<DataContext>) -> (out: Result<
    Vec<u8>,
    TemplateError,
>)
    ensures
        !valid_utf8(buffer@) ==> out == Err::<Vec<u8>, TemplateError>(TemplateError::Encoding),
        valid_utf8(buffer@) ==> (out matches Ok(bytes) && bytes@ == encode_utf8(
            substituted(decode_utf8(buffer@), bindings_of(data)),
        )),
{
    match as_text(buffer.as_slice()) {
        Ok(text) => {
            let chars = chars_of(text);
            let map = match &data {
                Some(context) => flatten(context),
                None => Vec::new(),
            };
            assert(crate::context::bindings_view(map@) =~= bindings_of(data));
            let replaced = substitute(&chars, &map);
            Ok(encode(&replaced))
        },
        Err(e) => Err(e),
    }
}

/// The paths of the placeholders of the text, in the order in which they
/// stand, duplicates included. Fails only on bytes that are not valid UTF-8.
pub fn find_handlebars_tokens(buffer: Vec<u8>) -> (out: Result<Vec<String>, TemplateError>)
    ensures
        !valid_utf8(buffer@) ==> out == Err::<Vec<String>, TemplateError>(TemplateError::Encoding),
        valid_utf8(buffer@) ==> (out matches Ok(paths) && strings_view(paths@) == token_paths(
            decode_utf8(buffer@),
        )),
{
    match as_text(buffer.as_slice()) {
        Ok(text) => {
            let chars = chars_of(text);
            let found = find_tokens(&chars);
            let mut paths: Vec<String> = Vec::new();
            let mut k: usize = 0;
            while k < found.len()
                invariant
                    k <= found.len(),
                    paths.len() == k,
                    forall|j: int| 0 <= j < k ==> (#[trigger] paths@[j])@ == found@[j]@,
                decreases found.len() - k,
            {
                paths.push(string_of(&found[k]));
                k += 1;
            }
            assert(strings_view(paths@) =~= token_paths(chars@));
            Ok(paths)
        },
        Err(e) => Err(e),
    }
}

/// The targets of the anchors of the document: those that are present and
/// not in `excluded`, each once. Fails on bytes that are not valid UTF-8, and
/// on a text that is too long to be parsed.
pub fn find_all_hrefs(buffer: Vec<u8>, excluded: Option<Vec<String>>) -> (out: Result<
    Vec<String>,
    TemplateError,
>)
    ensures
        !valid_utf8(buffer@) ==> out == Err::<Vec<String>, TemplateError>(TemplateError::Encoding),
        valid_utf8(buffer@) && !fits(decode_utf8(buffer@)) ==> out == Err::<Vec<String>, TemplateError>(
            TemplateError::Size,
        ),
        valid_utf8(buffer@) && fits(decode_utf8(buffer@)) ==> (out matches Ok(hrefs) && strings_view(
            hrefs@,
        ) == collected(
            scraped_attributes(decode_utf8(buffer@), tag_a(), attr_href()),
            excluded_of(excluded),
        )),
        out matches Ok(hrefs) ==> forall|h: Seq<char>|
            excluded_of(excluded).contains(h) ==> !(#[trigger] strings_view(hrefs@).contains(h)),
{
    match as_text(buffer.as_slice()) {
        Ok(text) => {
            proof {
                reveal_strlit("a");
                reveal_strlit("href");
                assert("a"@ == tag_a());
                assert("href"@ == attr_href());
            }
            if !text_fits(text) {
                return Err(TemplateError::Size);
            }
            let found = scrape_attributes(text, "a", "href");
            let hrefs = match &excluded {
                Some(list) => collect_hrefs(&found, list),
                None => {
                    let nothing: Vec<String> = Vec::new();
                    assert(strings_view(nothing@) =~= excluded_of(excluded));
                    collect_hrefs(&found, &nothing)
                },
            };
            Ok(hrefs)
        },
        Err(e) => Err(e),
    }
}

/// What writing a document out gives: its HTML text as UTF-8 bytes, or an
/// error where it is nested too deep.
pub open spec fn written(nodes: Seq<NodeView>) -> Result<Seq<u8>, TemplateError> {
    if within_depth(nodes) {
        Ok(encode_utf8(html_text(nodes)))
    } else {
        Err(TemplateError::Nesting)
    }
}

/// The bytes of a result.
pub open spec fn bytes_view(out: Result<Vec<u8>, TemplateError>) -> Result<Seq<u8>, TemplateError> {
    match out {
        Ok(bytes) => Ok(bytes@),
        Err(e) => Err(e),
    }
}

/// Writes a document out as UTF-8 bytes.
pub fn write_out(document: &Document) -> (out: Result<Vec<u8>, TemplateError>)
    ensures
        bytes_view(out) == written(document.nodes()),
{
    match document.to_html() {
        Ok(html) => Ok(html.as_str().as_bytes_vec()),
        Err(e) => Err(e),
    }
}

/// What putting the preview block with `header` into the document `text`
/// gives: the document written out, or an error where a text is too long to
/// be parsed or the document is nested too deep to be written.
pub open spec fn with_header(text: Seq<char>, header: Seq<char>) -> Result<Seq<u8>, TemplateError> {
    if fits(text) && fits(preheader_markup(header)) {
        written(with_preheader(parsed_html(text), parsed_html(preheader_markup(header))))
    } else {
        Err(TemplateError::Size)
    }
}

/// What instrumenting the document `text` gives: the document written out, or
/// an error where a text is too long to be parsed or the document is nested
/// too deep to be written.
pub open spec fn with_links(
    text: Seq<char>,
    links: Seq<LinkView>,
    open_link: Seq<char>,
    header: Option<Seq<char>>,
    user_id: Option<Seq<char>>,
) -> Result<Seq<u8>, TemplateError> {
    let header_fits = match header {
        Some(h) => fits(preheader_markup(h)),
        None => true,
    };
    if fits(text) && header_fits && fits(pixel_markup(open_link)) {
        written(instrumented(parsed_html(text), links, open_link, header, user_id))
    } else {
        Err(TemplateError::Size)
    }
}

/// Puts the hidden preview block with `header` just before the body of the
/// document. A document without a body gets none. Fails on bytes that are
/// not valid UTF-8, on a text that is too long to be parsed, and on a
/// document that is nested too deep to be written.
pub fn add_pre_header(buffer: Vec<u8>, header: String) -> (out: Result<Vec<u8>, TemplateError>)
    ensures
        !valid_utf8(buffer@) ==> out == Err::<Vec<u8>, TemplateError>(TemplateError::Encoding),
        valid_utf8(buffer@) ==> bytes_view(out) == with_header(decode_utf8(buffer@), header@),
{
    match as_text(buffer.as_slice()) {
        Ok(text) => match Document::parse(text) {
            Ok(parsed) => match parsed.inject_preheader(header.as_str()) {
                Ok(document) => write_out(&document),
                Err(e) => Err(e),
            },
            Err(e) => Err(e),
        },
        Err(e) => Err(e),
    }
}

/// Instruments the document: puts in the preview block where `header` is
/// given, puts the tracking pixel that is loaded from `open_link` at the end of
/// the body, and then gives each anchor whose target has a tracked target in
/// `links` that target. Fails on bytes that are not valid UTF-8, on a text
/// that is too long to be parsed, and on a document that is nested too deep
/// to be written.
pub fn add_pre_header_and_links(
    buffer: Vec<u8>,
    links: Vec<ReplacedLink>,
    open_link: String,
    header: Option<String>,
    user_id: Option<String>,
) -> (out: Result<Vec<u8>, TemplateError>)
    ensures
        !valid_utf8(buffer@) ==> out == Err::<Vec<u8>, TemplateError>(TemplateError::Encoding),
        valid_utf8(buffer@) ==> bytes_view(out) == with_links(
            decode_utf8(buffer@),
            links_view(links@),
            open_link@,
            option_view(header),
            option_view(user_id),
        ),
{
    match as_text(buffer.as_slice()) {
        Ok(text) => {
            let parsed = match Document::parse(text) {
                Ok(document) => document,
                Err(e) => {
                    return Err(e);
                },
            };
            let with_block = match &header {
                Some(header_content) => match parsed.inject_preheader(header_content.as_str()) {
                    Ok(document) => document,
                    Err(e) => {
                        return Err(e);
                    },
                },
                None => parsed,
            };
            let with_image = match with_block.inject_tracking_pixel(open_link.as_str()) {
                Ok(document) => document,
                Err(e) => {
                    return Err(e);
                },
            };
            let excluded = excluded_by_default();
            let document = with_image.rewrite_hrefs(&links, &excluded, &user_id);
            write_out(&document)
        },
        Err(e) => Err(e),
    }
}

} // verus!
