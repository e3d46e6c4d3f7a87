//! The document tree and the calls that parse, search, edit and write it.
//!
//! The tree itself belongs to the `kuchiki` crate. Here it is modelled as the
//! sequence of its nodes in document order, each with its depth, and every
//! call into `kuchiki` is given a contract over that model. Those contracts
//! are not proved; everything else in the crate is proved from them.

use vstd::prelude::*;
use vstd::string::*;
use vstd::utf8::encode_utf8;
use kuchiki::NodeRef;
use kuchiki::traits::TendrilSink;

verus! {

#[verifier::external_type_specification]
#[verifier::external_body]
pub struct ExNodeRef(kuchiki::NodeRef);

/// What a node of the tree is.
pub enum NodeKind {
    Document,
    Fragment,
    Doctype,
    Element,
    Text,
    Comment,
    Instruction,
}

/// One node of a tree, as plain values.
pub struct NodeView {
    /// How many ancestors the node has inside the tree.
    pub depth: nat,
    pub kind: NodeKind,
    /// The local name of an element, the name of a doctype, the target of a
    /// processing instruction.
    pub name: Seq<char>,
    /// The namespace of an element.
    pub namespace: Seq<char>,
    /// The namespace prefix of an element.
    pub prefix: Option<Seq<char>>,
    /// The attributes of an element: from namespace and local name to prefix
    /// and value.
    pub attributes: Map<(Seq<char>, Seq<char>), (Option<Seq<char>>, Seq<char>)>,
    /// The contents of a text node, a comment or a processing instruction.
    pub text: Seq<char>,
    /// The public and the system identifier of a doctype.
    pub ids: (Seq<char>, Seq<char>),
}

/// The nodes of the tree below `root`, `root` first, in document order (each
/// node before its children, siblings from first to last), each with its depth
/// below `root`. The contents of a `template` element are no part of it.
pub uninterp spec fn tree_nodes(root: NodeRef) -> Seq<NodeView>;

/// The tree that `kuchiki` parses from a text.
pub uninterp spec fn parsed_html(text: Seq<char>) -> Seq<NodeView>;

/// The HTML text that `kuchiki` writes a tree out as.
pub uninterp spec fn html_text(nodes: Seq<NodeView>) -> Seq<char>;

/// For each element that the `scraper` crate selects by the tag name `tag` in
/// the document it parses from `text`, in the order in which it yields them:
/// the value of the element's attribute `attribute`, if it has one.
pub uninterp spec fn scraped_attributes(text: Seq<char>, tag: Seq<char>, attribute: Seq<char>) -> Seq<
    Option<Seq<char>>,
>;

/// The longest text, in bytes of UTF-8, that is handed to a parser. The
/// parsers hold the parts of a text in buffers whose length is a 32-bit
/// number, and a part may take three times the room it has in the text.
pub const MAX_TEXT_BYTES: usize = 0x4000_0000;

/// Whether `text` is short enough to be parsed.
pub open spec fn fits(text: Seq<char>) -> bool {
    encode_utf8(text).len() <= MAX_TEXT_BYTES
}

/// Whether `text` is short enough to be parsed.
pub fn text_fits(text: &str) -> (b: bool)
    ensures
        b == fits(text@),
{
    text.as_bytes().len() <= MAX_TEXT_BYTES
}

/// The deepest nesting of nodes that is written out. Writing takes stack in
/// proportion to the depth of the tree, so a deeper tree is refused.
pub const MAX_TREE_DEPTH: usize = 512;

/// Whether no node of the tree lies deeper than `MAX_TREE_DEPTH`.
pub open spec fn within_depth(nodes: Seq<NodeView>) -> bool {
    forall|i: int| 0 <= i < nodes.len() ==> (#[trigger] nodes[i]).depth <= MAX_TREE_DEPTH
}

/// Whether `tag` is a tag name made of lower-case ASCII letters.
pub open spec fn is_tag_name(tag: Seq<char>) -> bool {
    tag.len() > 0 && forall|k: int| 0 <= k < tag.len() ==> 'a' <= #[trigger] tag[k] <= 'z'
}

/// Whether `node` is an element with the local name `tag`.
pub open spec fn is_element_named(node: NodeView, tag: Seq<char>) -> bool {
    node.kind == NodeKind::Element && node.name == tag
}

/// The position of the first element named `tag` at or after position `i`.
pub open spec fn first_named_from(nodes: Seq<NodeView>, tag: Seq<char>, i: int) -> Option<int>
    decreases nodes.len() - i,
{
    if i < 0 || i >= nodes.len() {
        None
    } else if is_element_named(nodes[i], tag) {
        Some(i)
    } else {
        first_named_from(nodes, tag, i + 1)
    }
}

/// The position of the first element named `tag`, in document order.
pub open spec fn first_named(nodes: Seq<NodeView>, tag: Seq<char>) -> Option<int> {
    first_named_from(nodes, tag, 0)
}

/// The first position at or after `j` whose node is not deeper than `depth`.
pub open spec fn deeper_end(nodes: Seq<NodeView>, depth: nat, j: int) -> int
    decreases nodes.len() - j,
{
    if 0 <= j < nodes.len() && nodes[j].depth > depth {
        deeper_end(nodes, depth, j + 1)
    } else {
        j
    }
}

/// The position behind the last descendant of the node at position `i`.
pub open spec fn subtree_end(nodes: Seq<NodeView>, i: int) -> int {
    deeper_end(nodes, nodes[i].depth, i + 1)
}

/// The nodes of a tree, moved so that its root lies at `depth`.
pub open spec fn rebased(nodes: Seq<NodeView>, depth: nat) -> Seq<NodeView> {
    Seq::new(
        nodes.len(),
        |k: int| NodeView { depth: (nodes[k].depth - nodes[0].depth + depth) as nat, ..nodes[k] },
    )
}

/// The node at position `i` with its descendants, as a tree of its own.
pub open spec fn subtree(nodes: Seq<NodeView>, i: int) -> Seq<NodeView> {
    rebased(nodes.subrange(i, subtree_end(nodes, i)), 0)
}

/// The nodes with those of `part` put in before position `at`.
pub open spec fn spliced(nodes: Seq<NodeView>, at: int, part: Seq<NodeView>) -> Seq<NodeView> {
    nodes.subrange(0, at) + part + nodes.subrange(at, nodes.len() as int)
}

/// The tree with the tree `part` put in as the sibling just before the node
/// at position `i`.
pub open spec fn inserted_before(nodes: Seq<NodeView>, i: int, part: Seq<NodeView>) -> Seq<NodeView> {
    spliced(nodes, i, rebased(part, nodes[i].depth))
}

/// The tree with the tree `part` put in as the last child of the node at
/// position `i`.
pub open spec fn appended_to(nodes: Seq<NodeView>, i: int, part: Seq<NodeView>) -> Seq<NodeView> {
    spliced(nodes, subtree_end(nodes, i), rebased(part, nodes[i].depth + 1))
}

/// The value of the attribute `name`, in no namespace, of an element.
pub open spec fn attribute_of(node: NodeView, name: Seq<char>) -> Option<Seq<char>> {
    if node.kind == NodeKind::Element && node.attributes.contains_key((Seq::empty(), name)) {
        Some(node.attributes[(Seq::empty(), name)].1)
    } else {
        None
    }
}

/// The node with the attribute `name`, in no namespace, set to `value`.
pub open spec fn with_attribute(node: NodeView, name: Seq<char>, value: Seq<char>) -> NodeView {
    NodeView { attributes: node.attributes.insert((Seq::empty(), name), (None, value)), ..node }
}

/// `kuchiki::parse_html().one(text)`: the document parsed from `text`. Its
/// root is a document node. The call takes no text of more than
/// `MAX_TEXT_BYTES` bytes.
#[verifier::external_body]
pub(crate) fn parse_html(text: &str) -> (root: NodeRef)
    requires
        fits(text@),
    ensures
        tree_nodes(root) == parsed_html(text@),
        tree_nodes(root).len() > 0,
        tree_nodes(root)[0].kind == NodeKind::Document,
{
    kuchiki::parse_html().one(text)
}

/// `NodeRef::to_string`: the tree written out as HTML. The call descends
/// once for each level of the tree.
#[verifier::external_body]
pub(crate) fn serialize(root: &NodeRef) -> (text: String)
    requires
        within_depth(tree_nodes(*root)),
    ensures
        text@ == html_text(tree_nodes(*root)),
{
    root.to_string()
}

/// `NodeRef::inclusive_descendants` and, for each node, the number of steps
/// that `NodeRef::inclusive_ancestors` takes from it up to `root`: the depth
/// of each node, in document order.
#[verifier::external_body]
pub(crate) fn node_depths(root: &NodeRef) -> (depths: Vec<usize>)
    ensures
        depths.len() == tree_nodes(*root).len(),
        forall|i: int| 0 <= i < depths.len() ==> (#[trigger] depths@[i]) == tree_nodes(*root)[i].depth,
{
    root.inclusive_descendants().map(
        |n| n.inclusive_ancestors().position(|a| a == *root).unwrap_or(0),
    ).collect()
}

/// `NodeRef::select_first` with a tag name for its selector: the position of
/// the first element of that name, in document order.
#[verifier::external_body]
pub(crate) fn select_first(root: &NodeRef, tag: &str) -> (found: Option<usize>)
    requires
        is_tag_name(tag@),
    ensures
        match found {
            Some(k) => first_named(tree_nodes(*root), tag@) == Some(k as int),
            None => first_named(tree_nodes(*root), tag@) is None,
        },
{
    let first = root.select_first(tag).ok()?;
    root.inclusive_descendants().position(|n| n == *first.as_node())
}

/// `NodeRef::select` with a tag name for its selector: the positions of the
/// elements of that name, in document order.
#[verifier::external_body]
pub(crate) fn select(root: &NodeRef, tag: &str) -> (found: Vec<usize>)
    requires
        is_tag_name(tag@),
    ensures
        forall|k: int|
            0 <= k < found.len() ==> (#[trigger] found@[k]) < tree_nodes(*root).len()
                && is_element_named(tree_nodes(*root)[found@[k] as int], tag@),
        forall|j: int, k: int| 0 <= j < k < found.len() ==> found@[j] < found@[k],
        forall|i: int|
            0 <= i < tree_nodes(*root).len() && is_element_named(#[trigger] tree_nodes(*root)[i], tag@)
                ==> exists|k: int| 0 <= k < found.len() && found@[k] == i,
{
    let all: Vec<NodeRef> = root.inclusive_descendants().collect();
    match root.select(tag) {
        Ok(matches) => matches.map(
            |m| all.iter().position(|n| n == m.as_node()).unwrap_or(all.len()),
        ).collect(),
        Err(()) => Vec::new(),
    }
}

/// `Attributes::get` on the node at position `index`: the value of its
/// attribute `name`, if the node is an element and has that attribute.
#[verifier::external_body]
pub(crate) fn attribute(root: &NodeRef, index: usize, name: &str) -> (value: Option<String>)
    requires
        index < tree_nodes(*root).len(),
    ensures
        match value {
            Some(v) => attribute_of(tree_nodes(*root)[index as int], name@) == Some(v@),
            None => attribute_of(tree_nodes(*root)[index as int], name@) is None,
        },
{
    let node = root.inclusive_descendants().nth(index)?;
    let element = node.as_element()?;
    let attributes = element.attributes.borrow();
    attributes.get(name).map(|v| v.to_string())
}

/// `Attributes::insert` on the element at position `index`: its attribute
/// `name` is set to `value`, and nothing else changes.
#[verifier::external_body]
pub(crate) fn set_attribute(root: &mut NodeRef, index: usize, name: &str, value: String)
    requires
        index < tree_nodes(*old(root)).len(),
        tree_nodes(*old(root))[index as int].kind == NodeKind::Element,
    ensures
        tree_nodes(*final(root)) == tree_nodes(*old(root)).update(
            index as int,
            with_attribute(tree_nodes(*old(root))[index as int], name@, value@),
        ),
{
    if let Some(node) = root.inclusive_descendants().nth(index) {
        if let Some(element) = node.as_element() {
            element.attributes.borrow_mut().insert(name, value);
        }
    }
}

/// `NodeRef::detach` on the node at position `index`: that node with its
/// descendants, cut out of the tree, which is given up.
#[verifier::external_body]
pub(crate) fn detach(root: NodeRef, index: usize) -> (part: NodeRef)
    requires
        index < tree_nodes(root).len(),
    ensures
        tree_nodes(part) == subtree(tree_nodes(root), index as int),
{
    match root.inclusive_descendants().nth(index) {
        Some(node) => {
            node.detach();
            node
        },
        None => root,
    }
}

/// `NodeRef::insert_before` on the node at position `index`, which is not the
/// root: the tree `part` becomes the sibling just before that node.
#[verifier::external_body]
pub(crate) fn insert_before(root: &mut NodeRef, index: usize, part: NodeRef)
    requires
        0 < index < tree_nodes(*old(root)).len(),
    ensures
        tree_nodes(*final(root)) == inserted_before(
            tree_nodes(*old(root)),
            index as int,
            tree_nodes(part),
        ),
{
    if let Some(node) = root.inclusive_descendants().nth(index) {
        node.insert_before(part);
    }
}

/// `NodeRef::append` on the node at position `index`: the tree `part` becomes
/// the last child of that node.
#[verifier::external_body]
pub(crate) fn append(root: &mut NodeRef, index: usize, part: NodeRef)
    requires
        index < tree_nodes(*old(root)).len(),
    ensures
        tree_nodes(*final(root)) == appended_to(tree_nodes(*old(root)), index as int, tree_nodes(part)),
{
    if let Some(node) = root.inclusive_descendants().nth(index) {
        node.append(part);
    }
}

/// `scraper::Html::parse_document`, `Html::select` with a tag name for its
/// selector and `Element::attr`: the value of the attribute `attribute` of
/// each selected element. The call takes no text of more than
/// `MAX_TEXT_BYTES` bytes.
#[verifier::external_body]
pub(crate) fn scrape_attributes(text: &str, tag: &str, attribute: &str) -> (values: Vec<Option<String>>)
    requires
        fits(text@),
        is_tag_name(tag@),
    ensures
        crate::href::targets_view(values@) == scraped_attributes(text@, tag@, attribute@),
{
    let document = scraper::Html::parse_document(text);
    match scraper::Selector::parse(tag) {
        Ok(selector) => document.select(&selector).map(
            |element| element.value().attr(attribute).map(|v| v.to_string()),
        ).collect(),
        Err(_) => Vec::new(),
    }
}

} // verus!
