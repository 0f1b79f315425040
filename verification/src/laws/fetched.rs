//! Every image that is shown is fetched before its item is rendered.

use vstd::prelude::*;

use crate::address;
use crate::cli::ImageMode;
use crate::html;
use crate::html::{Markup, MarkupNode};
use crate::images::{ImageExporter, Replacements};
use crate::item;
use crate::json;
use crate::json::JsonValue;
use crate::markdown;
use crate::text;
use crate::zhihu;
use crate::zhihu::CollectionItem;

verus! {

/// Whether images below an element of that name stay as they are: it shows none, or shows code.
pub open spec fn keeps_images_back(tag: Seq<char>) -> bool {
    tag == "script"@ || tag == "style"@ || tag == "noscript"@ || tag == "pre"@ || tag == "code"@
}

/// Whether the tree shows an image from that source: the node is such an image, or one of its
/// children shows it and the node keeps no images back.
pub open spec fn shows(node: MarkupNode, source: Seq<char>) -> bool
    decreases node,
{
    ||| node.data matches Markup::Element { tag, attributes } && tag == "img"@
        && markdown::source_of(attributes) == Some(source)
    ||| !(node.data matches Markup::Element { tag, .. } && keeps_images_back(tag)) && exists|i: int|
        0 <= i < node.children.len() && shows(#[trigger] node.children[i], source)
}

/// Whether one of the trees shows an image from that source.
pub open spec fn row_shows(nodes: Seq<MarkupNode>, source: Seq<char>) -> bool {
    exists|i: int| 0 <= i < nodes.len() && shows(#[trigger] nodes[i], source)
}

/// Whether a piece of HTML shows an image from that source.
pub open spec fn html_shows(fragment: Seq<char>, source: Seq<char>) -> bool {
    !text::blank(fragment) && row_shows(
        html::body_of(markdown::document_of(fragment)).children,
        source,
    )
}

/// The sources that are looked for in a tree are those of the images that it shows.
pub proof fn trees_give_the_images_they_show(node: MarkupNode, source: Seq<char>)
    ensures
        markdown::sources_in_tree(node).contains(source) <==> shows(node, source),
    decreases node,
{
    let own = markdown::own_source(node.data);
    let below = if markdown::shields(node.data) {
        seq![]
    } else {
        markdown::sources_in_row(node.children)
    };
    rows_give_the_images_they_show(node.children, source);
    lemma_contains(own, below, source);
    if let Markup::Element { tag, attributes } = node.data {
        if tag == "img"@ {
            if let Some(found) = markdown::source_of(attributes) {
                assert(own =~= seq![found]);
                assert(own[0] == found);
            }
        }
    }
}

/// The sources that are looked for in a row of trees are those of the images that they show.
pub proof fn rows_give_the_images_they_show(nodes: Seq<MarkupNode>, source: Seq<char>)
    ensures
        markdown::sources_in_row(nodes).contains(source) <==> row_shows(nodes, source),
    decreases nodes,
{
    if nodes.len() > 0 {
        let init = nodes.drop_last();
        rows_give_the_images_they_show(init, source);
        trees_give_the_images_they_show(nodes.last(), source);
        lemma_contains(
            markdown::sources_in_row(init),
            markdown::sources_in_tree(nodes.last()),
            source,
        );
        assert(nodes[nodes.len() - 1] == nodes.last());
        if row_shows(init, source) {
            let i = choose|i: int| 0 <= i < init.len() && shows(#[trigger] init[i], source);
            assert(nodes[i] == init[i]);
        }
        if row_shows(nodes, source) && !shows(nodes.last(), source) {
            let i = choose|i: int| 0 <= i < nodes.len() && shows(#[trigger] nodes[i], source);
            assert(init[i] == nodes[i]);
        }
    }
}

/// A list of two parts holds what one of them holds.
proof fn lemma_contains(first: Seq<Seq<char>>, second: Seq<Seq<char>>, source: Seq<char>)
    ensures
        (first + second).contains(source) <==> first.contains(source) || second.contains(source),
{
    let both = first + second;
    if first.contains(source) {
        let i = choose|i: int| 0 <= i < first.len() && first[i] == source;
        assert(both[i] == source);
    }
    if second.contains(source) {
        let i = choose|i: int| 0 <= i < second.len() && second[i] == source;
        assert(both[first.len() + i] == source);
    }
    if both.contains(source) {
        let i = choose|i: int| 0 <= i < both.len() && both[i] == source;
        if i < first.len() {
            assert(first[i] == source);
        } else {
            assert(second[i - first.len()] == source);
        }
    }
}

/// Sources are looked for in the order of the document.
pub proof fn sources_come_in_order(first: Seq<MarkupNode>, second: Seq<MarkupNode>)
    ensures
        markdown::sources_in_row(first + second) == markdown::sources_in_row(first)
            + markdown::sources_in_row(second),
    decreases second.len(),
{
    if second.len() == 0 {
        assert(first + second =~= first);
        assert(markdown::sources_in_row(first) + markdown::sources_in_row(second)
            =~= markdown::sources_in_row(first));
    } else {
        sources_come_in_order(first, second.drop_last());
        assert((first + second).drop_last() =~= first + second.drop_last());
        assert(markdown::sources_in_row(first + second) =~= markdown::sources_in_row(first)
            + markdown::sources_in_row(second));
    }
}

/// The body of a document is found by its name, and shows what its children show.
proof fn lemma_body(document: MarkupNode)
    ensures
        ({
            let body = html::body_of(document);
            html::tagged(body.data, "body"@) || body == document
        }),
    decreases document,
{
    lemma_first_tagged(document, "body"@);
}

/// What is found by a name has it.
proof fn lemma_first_tagged(node: MarkupNode, tag: Seq<char>)
    ensures
        html::first_tagged(node, tag) matches Some(found) ==> html::tagged(found.data, tag),
    decreases node,
{
    if !html::tagged(node.data, tag) {
        lemma_first_tagged_in(node.children, tag);
    }
}

/// What is found by a name in a row has it.
proof fn lemma_first_tagged_in(nodes: Seq<MarkupNode>, tag: Seq<char>)
    ensures
        html::first_tagged_in(nodes, tag) matches Some(found) ==> html::tagged(found.data, tag),
    decreases nodes,
{
    if nodes.len() > 0 {
        lemma_first_tagged(nodes[0], tag);
        lemma_first_tagged_in(nodes.drop_first(), tag);
    }
}

/// The root of a tree that was built from a walk is no element.
proof fn lemma_root(edges: Seq<html::MarkupEdge>)
    ensures
        html::open_after(edges).len() >= 1,
        html::open_after(edges)[0].data is Other,
    decreases edges.len(),
{
    if edges.len() > 0 {
        lemma_root(edges.drop_last());
    }
}

/// The outermost of the open nodes keeps what it is.
proof fn lemma_outermost(open: Seq<MarkupNode>)
    requires
        open.len() >= 1,
    ensures
        html::outermost(open).data == open[0].data,
    decreases open.len(),
{
    if open.len() >= 2 {
        lemma_outermost(html::left(open));
    }
}

/// The sources that are looked for in a piece of HTML are those of the images that it shows.
pub proof fn documents_give_the_images_they_show(fragment: Seq<char>, source: Seq<char>)
    ensures
        markdown::image_sources_of(fragment).contains(source) <==> html_shows(fragment, source),
{
    if !text::blank(fragment) {
        let document = markdown::document_of(fragment);
        let body = html::body_of(document);
        let edges = html::parsed_html(markdown::document_text(fragment));
        lemma_body(document);
        lemma_root(edges);
        lemma_outermost(html::open_after(edges));
        reveal_strlit("body");
        reveal_strlit("img");
        reveal_strlit("script");
        reveal_strlit("style");
        reveal_strlit("noscript");
        reveal_strlit("pre");
        reveal_strlit("code");
        assert("body"@.len() == 4 && "body"@[0] == 'b');
        assert("code"@.len() == 4 && "code"@[0] == 'c');
        assert("img"@.len() == 3 && "pre"@.len() == 3 && "script"@.len() == 6);
        assert("style"@.len() == 5 && "noscript"@.len() == 8);
        assert(markdown::sources_in_tree(body) =~= markdown::sources_in_row(body.children));
        rows_give_the_images_they_show(body.children, source);
    }
}

/// Whether an address is fetched at all.
pub open spec fn on_the_web(source: Seq<char>) -> bool {
    address::parsed_url(source) matches Some(url) && (url.scheme == "http"@ || url.scheme
        == "https"@)
}

/// Whether a member of that name is a text that is not blank, and which.
pub open spec fn text_under(members: Seq<(String, JsonValue)>, name: Seq<char>) -> Option<
    Seq<char>,
> {
    match json::member(members, name) {
        Some(JsonValue::Text(own)) => if text::blank(own@) {
            None
        } else {
            Some(text::trimmed(own@))
        },
        _ => None,
    }
}

/// The text of a member; the one of the other name counts only where there is none of the first.
pub open spec fn text_under_either(
    members: Seq<(String, JsonValue)>,
    name: Seq<char>,
    other: Seq<char>,
) -> Option<Seq<char>> {
    if json::member(members, name) is Some {
        text_under(members, name)
    } else {
        text_under(members, other)
    }
}

/// Whether the block has a text that leaves something in Markdown.
pub open spec fn says_something(members: Seq<(String, JsonValue)>, images: Replacements) -> bool {
    text_under_either(members, "content"@, "own_text"@) matches Some(html) && !text::blank(
        markdown::markdown_of(html, images),
    )
}

/// Whether a block shows an image from that source: in its text, or as the image that it is.
pub open spec fn block_shows(block: JsonValue, images: Replacements, source: Seq<char>) -> bool {
    match block {
        JsonValue::Object(members) => {
            ||| text_under_either(members@, "content"@, "own_text"@) matches Some(html)
                && html_shows(html, source)
            ||| !says_something(members@, images) && text_under(members@, "type"@) == Some("image"@)
                && json::member(members@, "type"@)->0->Text_0@ == "image"@ && (text_under_either(
                members@,
                "url"@,
                "original_url"@,
            ) matches Some(url) && zhihu::normalized_url(url) == source)
        },
        _ => false,
    }
}

/// Whether an item shows an image from that source.
pub open spec fn item_shows(item: CollectionItem, images: Replacements, source: Seq<char>) -> bool {
    item.content matches Some(content) && !(content.kind matches Some(kind) && kind@ == "zvideo"@)
        && (match content.content {
        Some(JsonValue::Text(html)) => html_shows(html@, source),
        Some(JsonValue::Array(blocks)) => exists|k: int|
            0 <= k < blocks@.len() && block_shows(#[trigger] blocks@[k], images, source),
        _ => false,
    })
}

/// The sources of a block are those of the images that it shows.
pub proof fn blocks_give_the_images_they_show(
    block: JsonValue,
    images: Replacements,
    source: Seq<char>,
)
    ensures
        item::block_sources(block, images).contains(source) <==> block_shows(block, images, source),
{
    if let JsonValue::Object(members) = block {
        let in_html = match item::block_html(members@) {
            Some(html) => markdown::image_sources_of(html),
            None => seq![],
        };
        let own = match item::block_url(members@) {
            Some(url) => if item::block_markdown(members@, images) is None && item::is_image(
                members@,
            ) {
                seq![url]
            } else {
                seq![]
            },
            None => seq![],
        };
        lemma_contains(in_html, own, source);
        if let Some(html) = item::block_html(members@) {
            documents_give_the_images_they_show(html, source);
        }
        if own.len() > 0 {
            assert(own[0] == item::block_url(members@)->0);
        }
        reveal_strlit("image");
        assert("image"@[0] == 'i' && "image"@.len() == 5 && "image"@[4] == 'e');
        assert(!text::white_space('i') && !text::white_space('e'));
        text::lemma_trimmed_fixed("image"@);
        text::lemma_trimmed("image"@);
    }
}

/// The sources of the blocks are those of the images that they show.
proof fn lemma_blocks(blocks: Seq<JsonValue>, images: Replacements, source: Seq<char>)
    ensures
        item::blocks_sources(blocks, images).contains(source) <==> exists|k: int|
            0 <= k < blocks.len() && block_shows(#[trigger] blocks[k], images, source),
    decreases blocks.len(),
{
    if blocks.len() > 0 {
        let init = blocks.drop_last();
        lemma_blocks(init, images, source);
        blocks_give_the_images_they_show(blocks.last(), images, source);
        lemma_contains(
            item::blocks_sources(init, images),
            item::block_sources(blocks.last(), images),
            source,
        );
        assert(blocks[blocks.len() - 1] == blocks.last());
        if item::blocks_sources(init, images).contains(source) {
            let k = choose|k: int|
                0 <= k < init.len() && block_shows(#[trigger] init[k], images, source);
            assert(blocks[k] == init[k]);
        }
        if exists|k: int|
            0 <= k < blocks.len() && block_shows(#[trigger] blocks[k], images, source) {
            let k = choose|k: int|
                0 <= k < blocks.len() && block_shows(#[trigger] blocks[k], images, source);
            if k < init.len() {
                assert(init[k] == blocks[k]);
            }
        }
    }
}

/// The sources of an item, whether its text is HTML or a list of blocks, are those of the images
/// that it shows.
pub proof fn items_give_the_images_they_show(
    item: CollectionItem,
    images: Replacements,
    source: Seq<char>,
)
    ensures
        item::item_sources(item, images).contains(source) <==> item_shows(item, images, source),
{
    if let Some(content) = item.content {
        reveal_strlit("unknown");
        reveal_strlit("zvideo");
        assert("unknown"@.len() == 7 && "zvideo"@.len() == 6);
        match content.content {
            Some(JsonValue::Text(html)) => {
                documents_give_the_images_they_show(html@, source);
            },
            Some(JsonValue::Array(blocks)) => {
                lemma_blocks(blocks@, images, source);
            },
            _ => {},
        }
    }
}

/// Where images are kept and no next image is given, every image that the item shows was tried, or
/// is none of the web; and where an image that it shows is one of the web and was not tried, a next
/// one is given, which the item shows, which is one of the web and which was not tried.
pub proof fn every_shown_image_is_fetched(
    item: CollectionItem,
    images: ImageExporter,
    source: Seq<char>,
)
    requires
        images.kept_as() != ImageMode::Remote,
    ensures
        ({
            let next = item::wanted_image(item, images);
            &&& next is None && item_shows(item, images@, source) ==> images@.contains_key(source)
                || !on_the_web(source)
            &&& next is Some ==> item_shows(item, images@, next->0) && on_the_web(next->0)
                && !images@.contains_key(next->0)
        }),
{
    let sources = item::item_sources(item, images@);
    let next = item::first_wanted(sources, images);
    lemma_first_wanted(sources, images);
    items_give_the_images_they_show(item, images@, source);
    if next == sources.len() && item_shows(item, images@, source) {
        let i = choose|i: int| 0 <= i < sources.len() && sources[i] == source;
        assert(!images.wants(sources[i], address::parsed_url(sources[i])));
    }
    if next < sources.len() {
        items_give_the_images_they_show(item, images@, sources[next]);
        assert(sources.contains(sources[next]));
    }
}

/// The first source that is wanted is wanted, and none in front of it.
proof fn lemma_first_wanted(sources: Seq<Seq<char>>, images: ImageExporter)
    ensures
        0 <= item::first_wanted(sources, images) <= sources.len(),
        item::first_wanted(sources, images) < sources.len() ==> images.wants(
            sources[item::first_wanted(sources, images)],
            address::parsed_url(sources[item::first_wanted(sources, images)]),
        ),
        forall|i: int|
            0 <= i < item::first_wanted(sources, images) ==> !images.wants(
                #[trigger] sources[i],
                address::parsed_url(sources[i]),
            ),
    decreases sources.len(),
{
    if sources.len() > 0 && !images.wants(sources[0], address::parsed_url(sources[0])) {
        let rest = sources.drop_first();
        lemma_first_wanted(rest, images);
        assert forall|i: int| 0 <= i < item::first_wanted(sources, images) implies !images.wants(
            #[trigger] sources[i],
            address::parsed_url(sources[i]),
        ) by {
            if i > 0 {
                assert(sources[i] == rest[i - 1]);
            }
        }
    }
}

} // verus!
