//! The HTML tree that the Markdown rules read.

use kuchikiki::iter::NodeEdge;
use kuchikiki::traits::TendrilSink;
use kuchikiki::{Attribute, ExpandedName, NodeData};
use vstd::prelude::*;

use crate::text;

verus! {

/// An attribute of an element. The namespace is empty for an ordinary attribute.
pub struct HtmlAttribute {
    pub namespace: String,
    pub name: String,
    pub value: String,
}

/// What a node is, apart from its children.
pub enum HtmlData {
    Text(String),
    Element { tag: String, attributes: Vec<HtmlAttribute> },
    Other,
}

/// A node of the tree.
pub struct HtmlNode {
    pub data: HtmlData,
    pub children: Vec<HtmlNode>,
}

/// A step of the walk around a tree: into a node, or out of the node that was entered last.
pub enum HtmlEdge {
    Start(HtmlData),
    End,
}

/// The text of an attribute.
pub struct MarkupAttribute {
    pub namespace: Seq<char>,
    pub name: Seq<char>,
    pub value: Seq<char>,
}

/// What `HtmlData` stands for.
pub enum Markup {
    Text(Seq<char>),
    Element { tag: Seq<char>, attributes: Seq<MarkupAttribute> },
    Other,
}

/// What `HtmlNode` stands for.
pub struct MarkupNode {
    pub data: Markup,
    pub children: Seq<MarkupNode>,
}

/// What `HtmlEdge` stands for.
pub enum MarkupEdge {
    Start(Markup),
    End,
}

impl View for HtmlAttribute {
    type V = MarkupAttribute;

    open spec fn view(&self) -> MarkupAttribute {
        MarkupAttribute { namespace: self.namespace@, name: self.name@, value: self.value@ }
    }
}

/// What a list of attributes stands for.
pub open spec fn attribute_views(attributes: Seq<HtmlAttribute>) -> Seq<MarkupAttribute> {
    Seq::new(attributes.len(), |i: int| attributes[i]@)
}

impl View for HtmlData {
    type V = Markup;

    open spec fn view(&self) -> Markup {
        match self {
            HtmlData::Text(text) => Markup::Text(text@),
            HtmlData::Element { tag, attributes } => Markup::Element {
                tag: tag@,
                attributes: attribute_views(attributes@),
            },
            HtmlData::Other => Markup::Other,
        }
    }
}

impl View for HtmlEdge {
    type V = MarkupEdge;

    open spec fn view(&self) -> MarkupEdge {
        match self {
            HtmlEdge::Start(data) => MarkupEdge::Start(data@),
            HtmlEdge::End => MarkupEdge::End,
        }
    }
}

/// What a list of edges stands for.
pub open spec fn edge_views(edges: Seq<HtmlEdge>) -> Seq<MarkupEdge> {
    Seq::new(edges.len(), |i: int| edges[i]@)
}

impl HtmlNode {
    /// What the node stands for.
    pub open spec fn model(self) -> MarkupNode
        decreases self,
    {
        MarkupNode { data: self.data@, children: models(self.children@) }
    }
}

/// What a list of nodes stands for.
pub open spec fn models(nodes: Seq<HtmlNode>) -> Seq<MarkupNode>
    decreases nodes,
{
    if nodes.len() == 0 {
        seq![]
    } else {
        models(nodes.drop_last()).push(nodes.last().model())
    }
}

/// `models` goes node by node.
pub proof fn lemma_models(nodes: Seq<HtmlNode>)
    ensures
        models(nodes).len() == nodes.len(),
        forall|i: int| 0 <= i < nodes.len() ==> #[trigger] models(nodes)[i] == nodes[i].model(),
    decreases nodes.len(),
{
    if nodes.len() > 0 {
        lemma_models(nodes.drop_last());
    }
}

/// The steps of the walk around the tree that the HTML parser makes of a document.
pub uninterp spec fn parsed_html(document: Seq<char>) -> Seq<MarkupEdge>;

/// The most characters that are parsed at once. A character becomes four bytes at most, and the
/// buffers of the parser grow to powers of two, so none of them passes a gibibyte.
pub const MAX_DOCUMENT_CHARS: usize = 0x1000_0000;

/// Calls `kuchikiki::parse_html().one`, which parses a whole document and accepts every text, and
/// `NodeRef::traverse`, which walks around what stands below the document node: it enters a node,
/// walks around each of its children in turn, and leaves it. What the parser makes of a text
/// depends on the text alone; it goes by the name `parsed_html`. Of a node that is neither an
/// element nor a text only its place is kept. The call panics where a buffer of the parser, which
/// counts its bytes with 32 bits and doubles, would outgrow that, so the number of characters is
/// bounded.
#[verifier::external_body]
fn parse_html(document: &str) -> (edges: Vec<HtmlEdge>)
    requires
        document@.len() <= MAX_DOCUMENT_CHARS,
    ensures
        edge_views(edges@) == parsed_html(document@),
{
    let attribute = |(name, kept): (&ExpandedName, &Attribute)| HtmlAttribute {
        namespace: name.ns.to_string(),
        name: name.local.to_string(),
        value: kept.value.clone(),
    };
    kuchikiki::parse_html().one(document).traverse().map(|edge| match edge {
        NodeEdge::Start(node) => HtmlEdge::Start(match node.data() {
            NodeData::Element(element) => HtmlData::Element { tag: element.name.local.to_string(), attributes: element.attributes.borrow().map.iter().map(attribute).collect() },
            NodeData::Text(text) => HtmlData::Text(text.borrow().clone()),
            _ => HtmlData::Other,
        }),
        NodeEdge::End(_) => HtmlEdge::End,
    }).collect()
}

/// `node` with one more child behind the others.
pub open spec fn with_child(node: MarkupNode, child: MarkupNode) -> MarkupNode {
    MarkupNode { data: node.data, children: node.children.push(child) }
}

/// The open nodes after the innermost one was left: it becomes a child of the next one. The
/// outermost node stays open.
pub open spec fn left(open: Seq<MarkupNode>) -> Seq<MarkupNode> {
    if open.len() < 2 {
        open
    } else {
        open.drop_last().drop_last().push(with_child(open[open.len() - 2], open.last()))
    }
}

/// The open nodes, outermost first, after a walk that began inside the document node.
pub open spec fn open_after(edges: Seq<MarkupEdge>) -> Seq<MarkupNode>
    decreases edges.len(),
{
    if edges.len() == 0 {
        seq![MarkupNode { data: Markup::Other, children: seq![] }]
    } else {
        match edges.last() {
            MarkupEdge::Start(data) => open_after(edges.drop_last()).push(
                MarkupNode { data, children: seq![] },
            ),
            MarkupEdge::End => left(open_after(edges.drop_last())),
        }
    }
}

/// The outermost of the open nodes, after all the others were left.
pub open spec fn outermost(open: Seq<MarkupNode>) -> MarkupNode
    decreases open.len(),
{
    if open.len() < 2 {
        open[0]
    } else {
        outermost(left(open))
    }
}

/// The tree around which the walk went, below a document node.
pub open spec fn tree_of(edges: Seq<MarkupEdge>) -> MarkupNode {
    outermost(open_after(edges))
}

/// Whether the node is an element with this tag.
pub open spec fn tagged(data: Markup, tag: Seq<char>) -> bool {
    data matches Markup::Element { tag: own, .. } && own == tag
}

/// The first element with the tag in the tree, the node itself before what stands below it.
pub open spec fn first_tagged(node: MarkupNode, tag: Seq<char>) -> Option<MarkupNode>
    decreases node,
{
    if tagged(node.data, tag) {
        Some(node)
    } else {
        first_tagged_in(node.children, tag)
    }
}

/// The first element with the tag in a row of trees.
pub open spec fn first_tagged_in(nodes: Seq<MarkupNode>, tag: Seq<char>) -> Option<MarkupNode>
    decreases nodes,
{
    if nodes.len() == 0 {
        None
    } else {
        match first_tagged(nodes[0], tag) {
            Some(node) => Some(node),
            None => first_tagged_in(nodes.drop_first(), tag),
        }
    }
}

/// The `body` of the document, or the document itself where it has none.
pub open spec fn body_of(document: MarkupNode) -> MarkupNode {
    match first_tagged(document, "body"@) {
        Some(body) => body,
        None => document,
    }
}

/// The text of the node and of everything below it, in order.
pub open spec fn text_contents(node: MarkupNode) -> Seq<char>
    decreases node,
{
    (match node.data {
        Markup::Text(text) => text,
        _ => seq![],
    }) + text_contents_in(node.children)
}

/// The text of a row of trees, in order.
pub open spec fn text_contents_in(nodes: Seq<MarkupNode>) -> Seq<char>
    decreases nodes,
{
    if nodes.len() == 0 {
        seq![]
    } else {
        text_contents_in(nodes.drop_last()) + text_contents(nodes.last())
    }
}

/// The value of the first attribute of that name without a namespace.
pub open spec fn attribute_value(attributes: Seq<MarkupAttribute>, name: Seq<char>) -> Option<
    Seq<char>,
>
    decreases attributes.len(),
{
    if attributes.len() == 0 {
        None
    } else if attributes[0].namespace.len() == 0 && attributes[0].name == name {
        Some(attributes[0].value)
    } else {
        attribute_value(attributes.drop_first(), name)
    }
}

/// The walk around a node: into it, around its children, and out of it.
pub open spec fn walk(node: MarkupNode) -> Seq<MarkupEdge>
    decreases node,
{
    seq![MarkupEdge::Start(node.data)] + walk_in(node.children) + seq![MarkupEdge::End]
}

/// The walk around a row of nodes.
pub open spec fn walk_in(nodes: Seq<MarkupNode>) -> Seq<MarkupEdge>
    decreases nodes,
{
    if nodes.len() == 0 {
        seq![]
    } else {
        walk_in(nodes.drop_last()) + walk(nodes.last())
    }
}

/// The walk around a node makes it a child of the node that was open.
proof fn lemma_walk(before: Seq<MarkupEdge>, node: MarkupNode)
    requires
        open_after(before).len() >= 1,
    ensures
        open_after(before + walk(node)) == open_after(before).drop_last().push(
            with_child(open_after(before).last(), node),
        ),
    decreases node,
{
    let base = open_after(before);
    let entered = before.push(MarkupEdge::Start(node.data));
    let empty = MarkupNode { data: node.data, children: seq![] };
    assert(entered.drop_last() =~= before);
    assert(open_after(entered) == base.push(empty));
    lemma_walk_in(entered, node.children);
    let inside = entered + walk_in(node.children);
    assert(base.push(empty).drop_last() =~= base);
    assert(empty.children + node.children =~= node.children);
    assert(open_after(inside) == base.push(node));
    let all = before + walk(node);
    assert(all.drop_last() =~= inside);
    assert(all.last() == MarkupEdge::End);
    assert(base.push(node).drop_last() =~= base);
}

/// The walk around a row of nodes makes them children of the node that was open.
proof fn lemma_walk_in(before: Seq<MarkupEdge>, nodes: Seq<MarkupNode>)
    requires
        open_after(before).len() >= 1,
    ensures
        open_after(before + walk_in(nodes)) == open_after(before).drop_last().push(
            MarkupNode {
                data: open_after(before).last().data,
                children: open_after(before).last().children + nodes,
            },
        ),
    decreases nodes,
{
    let base = open_after(before);
    if nodes.len() == 0 {
        assert(before + walk_in(nodes) =~= before);
        assert(base.last().children + nodes =~= base.last().children);
        assert(base.drop_last().push(base.last()) =~= base);
    } else {
        let init = nodes.drop_last();
        lemma_walk_in(before, init);
        let middle = before + walk_in(init);
        lemma_walk(middle, nodes.last());
        assert(before + walk_in(nodes) =~= middle + walk(nodes.last()));
        let parent = open_after(middle).last();
        assert(open_after(middle).drop_last() =~= base.drop_last());
        assert((base.last().children + init).push(nodes.last()) =~= base.last().children + nodes);
        assert(parent.children.push(nodes.last()) =~= base.last().children + nodes);
    }
}

/// The tree that is built from the walk around nodes has these nodes below its document node.
pub proof fn trees_are_rebuilt(nodes: Seq<MarkupNode>)
    ensures
        tree_of(walk_in(nodes)) == (MarkupNode { data: Markup::Other, children: nodes }),
{
    let none: Seq<MarkupEdge> = seq![];
    lemma_walk_in(none, nodes);
    assert(none + walk_in(nodes) =~= walk_in(nodes));
    let root = MarkupNode { data: Markup::Other, children: seq![] };
    assert(open_after(none) == seq![root]);
    assert(root.children + nodes =~= nodes);
}

/// Leaves the innermost open node.
fn leave(open: &mut Vec<HtmlNode>)
    requires
        old(open)@.len() >= 1,
    ensures
        models(final(open)@) == left(models(old(open)@)),
        final(open)@.len() >= 1,
        old(open)@.len() >= 2 ==> final(open)@.len() == old(open)@.len() - 1,
{
    proof {
        lemma_models(open@);
    }
    if open.len() >= 2 {
        let ghost before = open@;
        let child = open.pop().unwrap();
        let mut parent = open.pop().unwrap();
        assert(open@ =~= before.drop_last().drop_last());
        let ghost others = parent.children@;
        let ghost whole = with_child(parent.model(), child.model());
        parent.children.push(child);
        assert(parent.children@.drop_last() =~= others);
        assert(parent.model() == whole);
        open.push(parent);
        assert(open@.drop_last() =~= before.drop_last().drop_last());
        proof {
            lemma_models(before.drop_last().drop_last());
        }
        assert(models(before.drop_last().drop_last()) =~= models(before).drop_last().drop_last());
        assert(models(open@) =~= left(models(before)));
    }
}

/// The tree around which the walk went, below a document node.
pub fn build_tree(edges: Vec<HtmlEdge>) -> (document: HtmlNode)
    ensures
        document.model() == tree_of(edge_views(edges@)),
{
    let ghost all = edge_views(edges@);
    let mut open: Vec<HtmlNode> = Vec::new();
    open.push(HtmlNode { data: HtmlData::Other, children: Vec::new() });
    proof {
        lemma_single(open@);
        assert(models(open@) =~= open_after(all.take(0)));
    }
    for edge in iter: edges
        invariant
            open@.len() >= 1,
            iter.seq() == edges@,
            all == edge_views(edges@),
            models(open@) == open_after(all.take(iter.index() as int)),
    {
        let ghost done = all.take(iter.index() as int);
        let ghost next = all.take(iter.index() + 1);
        assert(next.drop_last() =~= done);
        assert(next.last() == edge@);
        match edge {
            HtmlEdge::Start(data) => {
                let ghost before = open@;
                let ghost entered = MarkupNode { data: data@, children: seq![] };
                assert(next.last() == MarkupEdge::Start(data@));
                open.push(HtmlNode { data, children: Vec::new() });
                assert(open@.drop_last() =~= before);
                assert(models(open@.last().children@) =~= seq![]);
                assert(open@.last().model() == entered);
                assert(open_after(next) == open_after(done).push(entered));
                assert(models(open@) =~= open_after(next));
            },
            HtmlEdge::End => {
                leave(&mut open);
            },
        }
    }
    assert(all.take(all.len() as int) =~= all);
    while open.len() >= 2
        invariant
            open@.len() >= 1,
            outermost(models(open@)) == tree_of(all),
        decreases open@.len(),
    {
        proof {
            lemma_models(open@);
        }
        leave(&mut open);
    }
    proof {
        lemma_models(open@);
    }
    open.pop().unwrap()
}

/// A single node stands for itself.
proof fn lemma_single(nodes: Seq<HtmlNode>)
    requires
        nodes.len() == 1,
    ensures
        models(nodes) == seq![nodes[0].model()],
{
    assert(models(nodes.drop_last()) =~= seq![]);
    assert(models(nodes) =~= seq![nodes[0].model()]);
}

impl HtmlNode {
    /// Whether the node is an element with this tag.
    pub fn has_tag(&self, tag: &str) -> (yes: bool)
        ensures
            yes == tagged(self.data@, tag@),
    {
        match &self.data {
            HtmlData::Element { tag: own, .. } => text::same(own.as_str(), tag),
            _ => false,
        }
    }

    /// The first element with the tag in the tree, the node itself before what stands below it.
    pub fn find(&self, tag: &str) -> (found: Option<&HtmlNode>)
        ensures
            match found {
                Some(node) => first_tagged(self.model(), tag@) == Some(node.model()),
                None => first_tagged(self.model(), tag@) is None,
            },
        decreases self,
    {
        if self.has_tag(tag) {
            return Some(self);
        }
        let ghost nodes = self.model().children;
        let mut i: usize = 0;
        proof {
            lemma_models(self.children@);
        }
        assert(nodes.skip(0) =~= nodes);
        while i < self.children.len()
            invariant
                nodes == self.model().children,
                nodes == models(self.children@),
                nodes.len() == self.children@.len(),
                forall|k: int| 0 <= k < nodes.len() ==> #[trigger] nodes[k] == self.children@[k].model(),
                i <= self.children@.len(),
                !tagged(self.model().data, tag@),
                first_tagged_in(nodes, tag@) == first_tagged_in(nodes.skip(i as int), tag@),
            decreases self.children@.len() - i,
        {
            assert(nodes.skip(i as int)[0] == nodes[i as int]);
            assert(nodes.skip(i as int).drop_first() =~= nodes.skip(i + 1));
            let found = self.children[i].find(tag);
            if found.is_some() {
                return found;
            }
            i = i + 1;
        }
        None
    }

    /// The text of the node and of everything below it, in order.
    pub fn text(&self) -> (text: String)
        ensures
            text@ == text_contents(self.model()),
        decreases self,
    {
        let mut text: String = match &self.data {
            HtmlData::Text(own) => own.clone(),
            _ => String::new(),
        };
        let ghost own = text@;
        let ghost nodes = self.model().children;
        let mut i: usize = 0;
        proof {
            lemma_models(self.children@);
        }
        assert(text_contents_in(nodes.take(0)) =~= seq![]);
        while i < self.children.len()
            invariant
                nodes == self.model().children,
                nodes.len() == self.children@.len(),
                forall|k: int| 0 <= k < nodes.len() ==> #[trigger] nodes[k] == self.children@[k].model(),
                i <= self.children@.len(),
                text@ == own + text_contents_in(nodes.take(i as int)),
            decreases self.children@.len() - i,
        {
            assert(nodes.take(i + 1).drop_last() =~= nodes.take(i as int));
            text.append(self.children[i].text().as_str());
            i = i + 1;
            assert(text@ =~= own + text_contents_in(nodes.take(i as int)));
        }
        assert(nodes.take(i as int) =~= nodes);
        text
    }
}

/// The value of the first attribute of that name without a namespace.
pub fn find_attribute<'a>(attributes: &'a Vec<HtmlAttribute>, name: &str) -> (value: Option<&'a str>)
    ensures
        text::opt_str(value) == attribute_value(attribute_views(attributes@), name@),
{
    let ghost all = attribute_views(attributes@);
    let mut i: usize = 0;
    assert(all.skip(0) =~= all);
    while i < attributes.len()
        invariant
            all == attribute_views(attributes@),
            i <= attributes@.len(),
            attribute_value(all, name@) == attribute_value(all.skip(i as int), name@),
        decreases attributes@.len() - i,
    {
        assert(all.skip(i as int).drop_first() =~= all.skip(i + 1));
        assert(all.skip(i as int)[0] == attributes@[i as int]@);
        if attributes[i].namespace.as_str().is_empty() && text::same(attributes[i].name.as_str(), name) {
            return Some(attributes[i].value.as_str());
        }
        i = i + 1;
    }
    None
}

/// The document tree of an HTML text.
pub fn parse_document(text: &str) -> (document: HtmlNode)
    requires
        text@.len() <= MAX_DOCUMENT_CHARS,
    ensures
        document.model() == tree_of(parsed_html(text@)),
{
    build_tree(parse_html(text))
}

} // verus!
