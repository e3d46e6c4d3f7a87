//! A parsed document and the passes that change it.

use vstd::prelude::*;
use vstd::string::*;
use kuchiki::NodeRef;
use crate::text::TemplateError;
use crate::dom::{MAX_TREE_DEPTH, within_depth, node_depths, fits, text_fits, NodeKind, NodeView, tree_nodes, parsed_html, html_text, is_element_named, first_named, first_named_from, deeper_end, subtree, subtree_end, rebased, spliced, inserted_before, appended_to, attribute_of, with_attribute, parse_html, serialize, select_first, select, attribute, set_attribute, detach, insert_before, append};
use crate::href::{ReplacedLink, LinkView, links_view, strings_view, option_view, tracked_target, rewrite_href};

verus! {

/// An HTML document, parsed and open to changes.
pub struct Document {
    root: NodeRef,
}

/// The tag name of anchors.
pub open spec fn tag_a() -> Seq<char> {
    seq!['a']
}

/// The tag name of the document body.
pub open spec fn tag_body() -> Seq<char> {
    seq!['b', 'o', 'd', 'y']
}

/// The tag name of blocks.
pub open spec fn tag_div() -> Seq<char> {
    seq!['d', 'i', 'v']
}

/// The tag name of images.
pub open spec fn tag_img() -> Seq<char> {
    seq!['i', 'm', 'g']
}

/// The name of the attribute that holds a link target.
pub open spec fn attr_href() -> Seq<char> {
    seq!['h', 'r', 'e', 'f']
}

/// The markup of the hidden preview block that wraps `text`.
pub open spec fn preheader_markup(text: Seq<char>) -> Seq<char> {
    "<div style=\"font-size:0px;line-height:1px;mso-line-height-rule:exactly;display:none;max-width:0px;max-height:0px;opacity:0;overflow:hidden;mso-hide:all;\">"@
        + text + "</div>"@
}

/// The markup of the invisible image of one pixel that is loaded from `url`.
pub open spec fn pixel_markup(url: Seq<char>) -> Seq<char> {
    "<img src=\""@ + url
        + "\" alt style=\"display:block;border:0;outline:none;text-decoration:none;\" width=\"1\" height=\"1\">"@
}

/// The document with the first block of `fragment` put in just before its
/// body. A document without a body stays as it is.
pub open spec fn with_preheader(nodes: Seq<NodeView>, fragment: Seq<NodeView>) -> Seq<NodeView> {
    match (first_named(fragment, tag_div()), first_named(nodes, tag_body())) {
        (Some(block), Some(body)) => inserted_before(nodes, body, subtree(fragment, block)),
        _ => nodes,
    }
}

/// The document with the first image of `fragment` put in as the last child
/// of its body. A document without a body stays as it is.
pub open spec fn with_pixel(nodes: Seq<NodeView>, fragment: Seq<NodeView>) -> Seq<NodeView> {
    match (first_named(fragment, tag_img()), first_named(nodes, tag_body())) {
        (Some(image), Some(body)) => appended_to(nodes, body, subtree(fragment, image)),
        _ => nodes,
    }
}

/// What the pass over the link targets makes of one node: an anchor whose
/// target has a tracked target gets that one, every other node stays as it is.
pub open spec fn rewritten_node(
    node: NodeView,
    links: Seq<LinkView>,
    excluded: Seq<Seq<char>>,
    user_id: Option<Seq<char>>,
) -> NodeView {
    if is_element_named(node, tag_a()) {
        match attribute_of(node, attr_href()) {
            Some(href) => match tracked_target(href, links, excluded, user_id) {
                Some(target) => with_attribute(node, attr_href(), target),
                None => node,
            },
            None => node,
        }
    } else {
        node
    }
}

/// The document after the pass over the link targets.
pub open spec fn rewritten(
    nodes: Seq<NodeView>,
    links: Seq<LinkView>,
    excluded: Seq<Seq<char>>,
    user_id: Option<Seq<char>>,
) -> Seq<NodeView> {
    Seq::new(nodes.len(), |i: int| rewritten_node(nodes[i], links, excluded, user_id))
}

/// The pass over the link targets leaves an anchor with an excluded target as
/// it is, whatever the links hold.
pub proof fn lemma_rewritten_keeps_excluded(
    nodes: Seq<NodeView>,
    links: Seq<LinkView>,
    excluded: Seq<Seq<char>>,
    user_id: Option<Seq<char>>,
    i: int,
)
    requires
        0 <= i < nodes.len(),
        attribute_of(nodes[i], attr_href()) matches Some(href) && excluded.contains(href),
    ensures
        rewritten(nodes, links, excluded, user_id)[i] == nodes[i],
{
}

/// The pass over the link targets changes nothing but the attribute that
/// holds the target, and that only of anchors that have one: the nodes keep
/// their number, their order, their depth, and every other attribute.
pub proof fn lemma_rewritten_changes_targets_only(
    nodes: Seq<NodeView>,
    links: Seq<LinkView>,
    excluded: Seq<Seq<char>>,
    user_id: Option<Seq<char>>,
    i: int,
)
    requires
        0 <= i < nodes.len(),
    ensures
        rewritten(nodes, links, excluded, user_id).len() == nodes.len(),
        ({
            let new = rewritten(nodes, links, excluded, user_id)[i];
            let old = nodes[i];
            &&& new == NodeView { attributes: new.attributes, ..old }
            &&& new.attributes.remove((Seq::empty(), attr_href())) == old.attributes.remove(
                (Seq::empty(), attr_href()),
            )
            &&& attribute_of(old, attr_href()) is None ==> new == old
            &&& !is_element_named(old, tag_a()) ==> new == old
        }),
{
    let new = rewritten(nodes, links, excluded, user_id)[i];
    let old = nodes[i];
    assert(new.attributes.remove((Seq::empty(), attr_href())) =~= old.attributes.remove(
        (Seq::empty(), attr_href()),
    ));
}

/// Where `first_named_from` finds an element, it lies at or after `i`, and no
/// element of that name lies between; where it finds none, there is none.
pub proof fn lemma_first_named(nodes: Seq<NodeView>, tag: Seq<char>, i: int)
    requires
        0 <= i,
    ensures
        match first_named_from(nodes, tag, i) {
            Some(k) => i <= k < nodes.len() && is_element_named(nodes[k], tag) && forall|j: int|
                i <= j < k ==> !is_element_named(#[trigger] nodes[j], tag),
            None => forall|j: int| i <= j < nodes.len() ==> !is_element_named(#[trigger] nodes[j], tag),
        },
    decreases nodes.len() - i,
{
    if i < nodes.len() && !is_element_named(nodes[i], tag) {
        lemma_first_named(nodes, tag, i + 1);
    }
}

/// `deeper_end` stops at or after `j`, inside the tree.
pub proof fn lemma_deeper_end(nodes: Seq<NodeView>, depth: nat, j: int)
    requires
        0 <= j <= nodes.len(),
    ensures
        j <= deeper_end(nodes, depth, j) <= nodes.len(),
    decreases nodes.len() - j,
{
    if j < nodes.len() && nodes[j].depth > depth {
        lemma_deeper_end(nodes, depth, j + 1);
    }
}

/// Every node from `j` up to where `deeper_end` stops is deeper than `depth`,
/// and the node at which it stops is not.
pub proof fn lemma_deeper_run(nodes: Seq<NodeView>, depth: nat, j: int)
    requires
        0 <= j <= nodes.len(),
    ensures
        forall|k: int| j <= k < deeper_end(nodes, depth, j) ==> (#[trigger] nodes[k]).depth > depth,
        deeper_end(nodes, depth, j) < nodes.len() ==> nodes[deeper_end(nodes, depth, j)].depth <= depth,
    decreases nodes.len() - j,
{
    if j < nodes.len() && nodes[j].depth > depth {
        lemma_deeper_run(nodes, depth, j + 1);
    }
}

/// A run of nodes deeper than `depth` from `j` up to `end` that stops at
/// `end` is what `deeper_end` finds.
pub proof fn lemma_deeper_end_at(nodes: Seq<NodeView>, depth: nat, j: int, end: int)
    requires
        0 <= j <= end <= nodes.len(),
        forall|k: int| j <= k < end ==> (#[trigger] nodes[k]).depth > depth,
        end < nodes.len() ==> nodes[end].depth <= depth,
    ensures
        deeper_end(nodes, depth, j) == end,
    decreases end - j,
{
    if j < end {
        lemma_deeper_end_at(nodes, depth, j + 1, end);
    }
}

/// A node with its descendants, taken as a tree of its own: the node comes
/// first, at depth 0, and every other node lies below it.
pub proof fn lemma_subtree(nodes: Seq<NodeView>, i: int)
    requires
        0 <= i < nodes.len(),
    ensures
        subtree(nodes, i).len() >= 1,
        i + subtree(nodes, i).len() == subtree_end(nodes, i),
        subtree(nodes, i)[0] == (NodeView { depth: 0, ..nodes[i] }),
        forall|k: int| 0 < k < subtree(nodes, i).len() ==> (#[trigger] subtree(nodes, i)[k]).depth > 0,
{
    lemma_deeper_end(nodes, nodes[i].depth, i + 1);
    lemma_deeper_run(nodes, nodes[i].depth, i + 1);
    let end = subtree_end(nodes, i);
    let part = nodes.subrange(i, end);
    assert forall|k: int| 0 < k < subtree(nodes, i).len() implies (#[trigger] subtree(nodes, i)[k]).depth
        > 0 by {
        assert(part[k] == nodes[i + k]);
    }
}

/// The preview block becomes the sibling just before the body: it stands
/// where the body stood, at the depth of the body, with its own nodes below
/// it, and the body follows it at once. No other node changes.
pub proof fn lemma_preheader_precedes_body(nodes: Seq<NodeView>, fragment: Seq<NodeView>)
    requires
        first_named(fragment, tag_div()) is Some,
        first_named(nodes, tag_body()) is Some,
    ensures
        ({
            let block = first_named(fragment, tag_div())->Some_0;
            let body = first_named(nodes, tag_body())->Some_0;
            let new = with_preheader(nodes, fragment);
            let n = subtree(fragment, block).len() as int;
            &&& n >= 1
            &&& new.len() == nodes.len() + n
            &&& forall|i: int| 0 <= i < body ==> #[trigger] new[i] == nodes[i]
            &&& forall|i: int| body <= i < nodes.len() ==> #[trigger] new[i + n] == nodes[i]
            &&& new[body] == (NodeView { depth: nodes[body].depth, ..fragment[block] })
            &&& is_element_named(new[body], tag_div())
            &&& forall|k: int| 0 < k < n ==> (#[trigger] new[body + k]).depth > nodes[body].depth
            &&& is_element_named(new[body + n], tag_body())
        }),
{
    let block = first_named(fragment, tag_div())->Some_0;
    let body = first_named(nodes, tag_body())->Some_0;
    lemma_first_named(fragment, tag_div(), 0);
    lemma_first_named(nodes, tag_body(), 0);
    lemma_subtree(fragment, block);
    let part = subtree(fragment, block);
    let moved = rebased(part, nodes[body].depth);
    let new = with_preheader(nodes, fragment);
    let n = part.len() as int;
    assert(new == spliced(nodes, body, moved));
    assert forall|k: int| 0 < k < n implies (#[trigger] new[body + k]).depth > nodes[body].depth by {
        assert(new[body + k] == moved[k]);
        assert(part[k].depth > 0);
    }
    assert(new[body] == moved[0]);
    assert(new[body + n] == nodes[body]);
}

/// The first element of a name is found where it stands.
pub proof fn lemma_first_named_at(nodes: Seq<NodeView>, tag: Seq<char>, i: int, k: int)
    requires
        0 <= i <= k < nodes.len(),
        is_element_named(nodes[k], tag),
        forall|j: int| i <= j < k ==> !is_element_named(#[trigger] nodes[j], tag),
    ensures
        first_named_from(nodes, tag, i) == Some(k),
    decreases k - i,
{
    if i < k {
        lemma_first_named_at(nodes, tag, i + 1, k);
    }
}

/// Putting the preview block in twice gives two blocks, one after the other,
/// just before the body. This holds where the block holds no body of its
/// own.
pub proof fn lemma_preheader_twice(nodes: Seq<NodeView>, fragment: Seq<NodeView>)
    requires
        first_named(fragment, tag_div()) is Some,
        first_named(nodes, tag_body()) is Some,
        forall|k: int|
            0 <= k < subtree(fragment, first_named(fragment, tag_div())->Some_0).len()
                ==> !is_element_named(
                #[trigger] subtree(fragment, first_named(fragment, tag_div())->Some_0)[k],
                tag_body(),
            ),
    ensures
        ({
            let block = subtree(fragment, first_named(fragment, tag_div())->Some_0);
            let body = first_named(nodes, tag_body())->Some_0;
            let moved = rebased(block, nodes[body].depth);
            with_preheader(with_preheader(nodes, fragment), fragment) == nodes.subrange(0, body) + moved
                + moved + nodes.subrange(body, nodes.len() as int)
        }),
{
    let block = subtree(fragment, first_named(fragment, tag_div())->Some_0);
    let body = first_named(nodes, tag_body())->Some_0;
    let moved = rebased(block, nodes[body].depth);
    let n = block.len() as int;
    let once = with_preheader(nodes, fragment);
    lemma_first_named(nodes, tag_body(), 0);
    lemma_preheader_precedes_body(nodes, fragment);
    assert(once == spliced(nodes, body, moved));
    assert forall|j: int| 0 <= j < body + n implies !is_element_named(#[trigger] once[j], tag_body()) by {
        if j < body {
            assert(once[j] == nodes[j]);
        } else {
            assert(once[j] == moved[j - body]);
            assert(!is_element_named(block[j - body], tag_body()));
        }
    }
    assert(once[body + n] == nodes[body]);
    lemma_first_named_at(once, tag_body(), 0, body + n);
    let twice = with_preheader(once, fragment);
    assert(twice == spliced(once, body + n, rebased(block, once[body + n].depth)));
    assert(twice =~= nodes.subrange(0, body) + moved + moved + nodes.subrange(body, nodes.len() as int));
}

/// The tracking pixel becomes the last child of the body: it stands behind
/// all that the body held, one level below the body, with its own nodes
/// below it, and the body ends with it. No other node changes.
pub proof fn lemma_pixel_is_last_child(nodes: Seq<NodeView>, fragment: Seq<NodeView>)
    requires
        first_named(fragment, tag_img()) is Some,
        first_named(nodes, tag_body()) is Some,
    ensures
        ({
            let image = first_named(fragment, tag_img())->Some_0;
            let body = first_named(nodes, tag_body())->Some_0;
            let end = subtree_end(nodes, body);
            let new = with_pixel(nodes, fragment);
            let n = subtree(fragment, image).len() as int;
            &&& n >= 1
            &&& body < end <= nodes.len()
            &&& new.len() == nodes.len() + n
            &&& forall|i: int| 0 <= i < end ==> #[trigger] new[i] == nodes[i]
            &&& forall|i: int| end <= i < nodes.len() ==> #[trigger] new[i + n] == nodes[i]
            &&& new[end] == (NodeView { depth: nodes[body].depth + 1, ..fragment[image] })
            &&& is_element_named(new[end], tag_img())
            &&& forall|k: int| 0 < k < n ==> (#[trigger] new[end + k]).depth > nodes[body].depth + 1
            &&& subtree_end(new, body) == end + n
        }),
{
    let image = first_named(fragment, tag_img())->Some_0;
    let body = first_named(nodes, tag_body())->Some_0;
    lemma_first_named(fragment, tag_img(), 0);
    lemma_first_named(nodes, tag_body(), 0);
    lemma_subtree(fragment, image);
    lemma_deeper_end(nodes, nodes[body].depth, body + 1);
    lemma_deeper_run(nodes, nodes[body].depth, body + 1);
    let end = subtree_end(nodes, body);
    let part = subtree(fragment, image);
    let moved = rebased(part, nodes[body].depth + 1);
    let new = with_pixel(nodes, fragment);
    let n = part.len() as int;
    assert(new == spliced(nodes, end, moved));
    assert forall|k: int| 0 < k < n implies (#[trigger] new[end + k]).depth > nodes[body].depth + 1 by {
        assert(new[end + k] == moved[k]);
        assert(part[k].depth > 0);
    }
    assert(new[end] == moved[0]);
    assert(new[body] == nodes[body]);
    assert forall|k: int| body + 1 <= k < end + n implies (#[trigger] new[k]).depth > nodes[body].depth by {
        if k < end {
            assert(new[k] == nodes[k]);
        } else {
            assert(new[k] == moved[k - end]);
            if k > end {
                assert(part[k - end].depth > 0);
            }
        }
    }
    if end + n < new.len() {
        assert(new[end + n] == nodes[end]);
    }
    lemma_deeper_end_at(new, nodes[body].depth, body + 1, end + n);
}

impl Document {
    /// The nodes of the document, in document order.
    pub closed spec fn nodes(&self) -> Seq<NodeView> {
        tree_nodes(self.root)
    }

    /// The root of a document is a document node.
    #[verifier::type_invariant]
    spec fn rooted(&self) -> bool {
        tree_nodes(self.root).len() > 0 && tree_nodes(self.root)[0].kind == NodeKind::Document
    }

    /// Parses a text as an HTML document. Any text that is not too long
    /// gives a document.
    pub fn parse(text: &str) -> (document: Result<Document, TemplateError>)
        ensures
            fits(text@) ==> (document matches Ok(d) && d.nodes() == parsed_html(text@)),
            !fits(text@) ==> document == Err::<Document, TemplateError>(TemplateError::Size),
    {
        if text_fits(text) {
            Ok(Document { root: parse_html(text) })
        } else {
            Err(TemplateError::Size)
        }
    }

    /// Whether no node of the document lies deeper than `MAX_TREE_DEPTH`.
    pub fn is_within_depth(&self) -> (b: bool)
        ensures
            b == within_depth(self.nodes()),
    {
        let depths = node_depths(&self.root);
        let mut i: usize = 0;
        while i < depths.len()
            invariant
                i <= depths.len(),
                depths.len() == tree_nodes(self.root).len(),
                forall|j: int|
                    0 <= j < depths.len() ==> (#[trigger] depths@[j]) == tree_nodes(self.root)[j].depth,
                forall|j: int| 0 <= j < i ==> (#[trigger] tree_nodes(self.root)[j]).depth <= MAX_TREE_DEPTH,
            decreases depths.len() - i,
        {
            if depths[i] > MAX_TREE_DEPTH {
                assert(tree_nodes(self.root)[i as int].depth > MAX_TREE_DEPTH);
                return false;
            }
            i += 1;
        }
        true
    }

    /// Writes the document out as HTML text, unless it is nested too deep.
    pub fn to_html(&self) -> (text: Result<String, TemplateError>)
        ensures
            within_depth(self.nodes()) ==> (text matches Ok(html) && html@ == html_text(self.nodes())),
            !within_depth(self.nodes()) ==> text == Err::<String, TemplateError>(TemplateError::Nesting),
    {
        if self.is_within_depth() {
            Ok(serialize(&self.root))
        } else {
            Err(TemplateError::Nesting)
        }
    }

    /// Puts the hidden preview block with `text` just before the body. The
    /// text goes into the markup of the block as it is, and is read as
    /// markup with it. A document without a body is not changed. Fails where
    /// the markup of the block is too long to be parsed.
    pub fn inject_preheader(self, text: &str) -> (document: Result<Document, TemplateError>)
        ensures
            fits(preheader_markup(text@)) ==> (document matches Ok(d) && d.nodes() == with_preheader(
                self.nodes(),
                parsed_html(preheader_markup(text@)),
            )),
            !fits(preheader_markup(text@)) ==> document == Err::<Document, TemplateError>(
                TemplateError::Size,
            ),
    {
        proof {
            use_type_invariant(&self);
            reveal_strlit("div");
            reveal_strlit("body");
            assert("div"@ == tag_div());
            assert("body"@ == tag_body());
            lemma_first_named(self.nodes(), tag_body(), 0);
        }
        let mut markup = String::from_str(
            "<div style=\"font-size:0px;line-height:1px;mso-line-height-rule:exactly;display:none;max-width:0px;max-height:0px;opacity:0;overflow:hidden;mso-hide:all;\">",
        );
        markup.append(text);
        markup.append("</div>");
        if !text_fits(markup.as_str()) {
            return Err(TemplateError::Size);
        }
        let fragment = parse_html(markup.as_str());
        proof {
            lemma_first_named(tree_nodes(fragment), tag_div(), 0);
        }
        let mut root = self.root;
        match select_first(&fragment, "div") {
            Some(block) => match select_first(&root, "body") {
                Some(body) => {
                    let part = detach(fragment, block);
                    insert_before(&mut root, body, part);
                },
                None => {},
            },
            None => {},
        }
        Ok(Document { root })
    }

    /// Puts the invisible image that is loaded from `url` at the end of the
    /// body. The address goes into the markup of the image as it is. A
    /// document without a body is not changed. Fails where the markup of the
    /// image is too long to be parsed.
    pub fn inject_tracking_pixel(self, url: &str) -> (document: Result<Document, TemplateError>)
        ensures
            fits(pixel_markup(url@)) ==> (document matches Ok(d) && d.nodes() == with_pixel(
                self.nodes(),
                parsed_html(pixel_markup(url@)),
            )),
            !fits(pixel_markup(url@)) ==> document == Err::<Document, TemplateError>(TemplateError::Size),
    {
        proof {
            use_type_invariant(&self);
            reveal_strlit("img");
            reveal_strlit("body");
            assert("img"@ == tag_img());
            assert("body"@ == tag_body());
            lemma_first_named(self.nodes(), tag_body(), 0);
        }
        let mut markup = String::from_str("<img src=\"");
        markup.append(url);
        markup.append(
            "\" alt style=\"display:block;border:0;outline:none;text-decoration:none;\" width=\"1\" height=\"1\">",
        );
        if !text_fits(markup.as_str()) {
            return Err(TemplateError::Size);
        }
        let fragment = parse_html(markup.as_str());
        proof {
            lemma_first_named(tree_nodes(fragment), tag_img(), 0);
        }
        let mut root = self.root;
        match select_first(&fragment, "img") {
            Some(image) => match select_first(&root, "body") {
                Some(body) => {
                    proof {
                        lemma_deeper_end(self.nodes(), self.nodes()[body as int].depth, body + 1);
                    }
                    let part = detach(fragment, image);
                    append(&mut root, body, part);
                },
                None => {},
            },
            None => {},
        }
        Ok(Document { root })
    }

    /// Gives each anchor whose target has a tracked target that tracked
    /// target. The target of an anchor is looked up as `tracked_target` says:
    /// never if it is in `excluded`, else with `{{userId}}` filled in. Only
    /// the attribute that holds the target changes.
    pub fn rewrite_hrefs(
        self,
        links: &Vec<ReplacedLink>,
        excluded: &Vec<String>,
        user_id: &Option<String>,
    ) -> (document: Document)
        ensures
            document.nodes() == rewritten(
                self.nodes(),
                links_view(links@),
                strings_view(excluded@),
                option_view(*user_id),
            ),
    {
        proof {
            use_type_invariant(&self);
            reveal_strlit("a");
            reveal_strlit("href");
            assert("a"@ == tag_a());
            assert("href"@ == attr_href());
        }
        let ghost start = self.nodes();
        let ghost l = links_view(links@);
        let ghost e = strings_view(excluded@);
        let ghost u = option_view(*user_id);
        let mut root = self.root;
        let anchors = select(&root, "a");
        let mut k: usize = 0;
        while k < anchors.len()
            invariant
                k <= anchors.len(),
                "a"@ == tag_a(),
                "href"@ == attr_href(),
                l == links_view(links@),
                e == strings_view(excluded@),
                u == option_view(*user_id),
                start.len() > 0,
                start[0].kind == NodeKind::Document,
                forall|j: int|
                    0 <= j < anchors.len() ==> (#[trigger] anchors@[j]) < start.len()
                        && is_element_named(start[anchors@[j] as int], tag_a()),
                forall|i: int, j: int| 0 <= i < j < anchors.len() ==> anchors@[i] < anchors@[j],
                forall|i: int|
                    0 <= i < start.len() && is_element_named(#[trigger] start[i], tag_a())
                        ==> exists|j: int| 0 <= j < anchors.len() && anchors@[j] == i,
                tree_nodes(root).len() == start.len(),
                forall|i: int|
                    0 <= i < start.len() ==> #[trigger] tree_nodes(root)[i] == if k < anchors.len()
                        && i >= anchors@[k as int] {
                        start[i]
                    } else {
                        rewritten_node(start[i], l, e, u)
                    },
            decreases anchors.len() - k,
        {
            let index = anchors[k];
            let ghost before = tree_nodes(root);
            assert(before[index as int] == start[index as int]);
            match attribute(&root, index, "href") {
                Some(href) => match rewrite_href(&href, links, excluded, user_id) {
                    Some(target) => {
                        set_attribute(&mut root, index, "href", target);
                    },
                    None => {},
                },
                None => {},
            }
            assert(tree_nodes(root)[index as int] == rewritten_node(start[index as int], l, e, u));
            assert forall|i: int| 0 <= i < start.len() implies #[trigger] tree_nodes(root)[i] == if k + 1
                < anchors.len() && i >= anchors@[k + 1] {
                start[i]
            } else {
                rewritten_node(start[i], l, e, u)
            } by {
                if i != index {
                    assert(tree_nodes(root)[i] == before[i]);
                    if i > index && !(k + 1 < anchors.len() && i >= anchors@[k + 1]) {
                        if is_element_named(start[i], tag_a()) {
                            let j = choose|j: int| 0 <= j < anchors.len() && anchors@[j] == i;
                            assert(j > k);
                            assert(j >= k + 1);
                            if j > k + 1 {
                                assert(anchors@[k + 1] < anchors@[j]);
                            }
                            assert(false);
                        }
                    }
                }
            }
            k += 1;
        }
        assert(tree_nodes(root) =~= rewritten(start, l, e, u));
        Document { root }
    }
}

} // verus!
