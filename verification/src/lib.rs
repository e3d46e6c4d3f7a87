//! Templating and link instrumentation for HTML e-mail.
//!
//! The crate fills `{{ path }}` placeholders from a nested data context,
//! collects and rewrites the targets of hyperlinks, and adds a hidden preview
//! block and a tracking pixel to a document.
//!
//! Placeholders are read by the scanner of [`token`]; documents are parsed,
//! edited and written by the `kuchiki` crate, and searched for link targets by
//! the `scraper` crate, through the calls gathered in [`dom`]. The operations
//! themselves are in [`engine`].

pub mod context;
pub mod context_laws;
pub mod document;
pub mod dom;
pub mod engine;
pub mod href;
pub mod text;
pub mod token;
pub mod token_laws;

pub use context::{DataContext, DataEntry, DataValue};
pub use engine::{
    add_pre_header, add_pre_header_and_links, find_all_hrefs, find_handlebars_tokens,
    replace_handlebars_tokens,
};
pub use href::{ReplacedLink, ReplacedUser};
pub use text::TemplateError;
