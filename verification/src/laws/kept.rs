//! Nothing of a document is lost on the way to Markdown, and every image of it is looked for.

use vstd::prelude::*;

use crate::html;
use crate::html::{Markup, MarkupNode};
use crate::images;
use crate::images::Replacements;
use crate::laws::marks;
use crate::laws::rendering;
use crate::markdown;
use crate::markdown::Tag;
use crate::text;

verus! {

/// Whether an element of that name holds nothing to be read: scripts and styles, and elements that
/// never have children.
pub open spec fn holds_nothing(tag: Seq<char>) -> bool {
    ||| tag == "script"@ || tag == "style"@ || tag == "noscript"@
    ||| tag == "br"@ || tag == "hr"@ || tag == "img"@
}

/// What a reader must find of a tree: the seen characters of its texts, and the destinations of its
/// images, in order. Preformatted text shows its texts alone.
pub open spec fn owed(node: MarkupNode, images: Replacements) -> Seq<char>
    decreases node,
{
    match node.data {
        Markup::Text(own) => marks::marks(own),
        Markup::Element { tag, attributes } => if tag == "img"@ {
            match markdown::source_of(attributes) {
                Some(source) => marks::marks(
                    markdown::destination_of(images::resolved(images, source)),
                ),
                None => seq![],
            }
        } else if holds_nothing(tag) {
            seq![]
        } else if tag == "pre"@ {
            owed_texts_in(node.children)
        } else {
            owed_in(node.children, images)
        },
        Markup::Other => seq![],
    }
}

/// What a reader must find of a row of trees.
pub open spec fn owed_in(nodes: Seq<MarkupNode>, images: Replacements) -> Seq<char>
    decreases nodes,
{
    if nodes.len() == 0 {
        seq![]
    } else {
        owed_in(nodes.drop_last(), images) + owed(nodes.last(), images)
    }
}

/// The seen characters of the texts of a tree.
pub open spec fn owed_texts(node: MarkupNode) -> Seq<char>
    decreases node,
{
    (match node.data {
        Markup::Text(own) => marks::marks(own),
        _ => seq![],
    }) + owed_texts_in(node.children)
}

/// The seen characters of the texts of a row of trees.
pub open spec fn owed_texts_in(nodes: Seq<MarkupNode>) -> Seq<char>
    decreases nodes,
{
    if nodes.len() == 0 {
        seq![]
    } else {
        owed_texts_in(nodes.drop_last()) + owed_texts(nodes.last())
    }
}

/// The text below a node holds the seen characters of its texts.
proof fn lemma_texts(node: MarkupNode)
    ensures
        marks::marks(html::text_contents(node)) == owed_texts(node),
    decreases node,
{
    let own = match node.data {
        Markup::Text(own) => own,
        _ => seq![],
    };
    lemma_texts_in(node.children);
    marks::lemma_marks_concat(own, html::text_contents_in(node.children));
    assert(marks::marks(Seq::<char>::empty()) =~= seq![]);
}

/// The text below a row of nodes holds the seen characters of their texts.
proof fn lemma_texts_in(nodes: Seq<MarkupNode>)
    ensures
        marks::marks(html::text_contents_in(nodes)) == owed_texts_in(nodes),
    decreases nodes,
{
    if nodes.len() > 0 {
        lemma_texts_in(nodes.drop_last());
        lemma_texts(nodes.last());
        marks::lemma_marks_concat(
            html::text_contents_in(nodes.drop_last()),
            html::text_contents(nodes.last()),
        );
    } else {
        assert(marks::marks(html::text_contents_in(nodes)) =~= seq![]);
    }
}

/// What is found in a text is found in it between other texts.
proof fn lemma_found_around(
    part: Seq<char>,
    before: Seq<char>,
    inner: Seq<char>,
    after: Seq<char>,
)
    requires
        marks::within(part, marks::marks(inner)),
    ensures
        marks::within(part, marks::marks(before + inner + after)),
{
    marks::lemma_marks_concat(before, inner);
    marks::lemma_marks_concat(before + inner, after);
    marks::lemma_within_around(
        part,
        marks::marks(before),
        marks::marks(inner),
        marks::marks(after),
    );
}

/// Where nothing is seen, nothing was owed.
proof fn lemma_found_nothing(part: Seq<char>, inner: Seq<char>)
    requires
        marks::within(part, marks::marks(inner)),
        inner.len() == 0,
    ensures
        part == Seq::<char>::empty(),
{
    assert(marks::marks(inner) =~= seq![]);
    assert(part =~= Seq::<char>::empty());
}

/// Escaping backticks keeps what is seen.
proof fn lemma_escaped(inner: Seq<char>)
    ensures
        marks::within(
            marks::marks(inner),
            marks::marks(text::replaced(inner, '`', "\\`"@)),
        ),
    decreases inner.len(),
{
    reveal_strlit("\\`");
    if inner.len() > 0 {
        let init = inner.drop_last();
        let c = inner.last();
        let one = seq![c];
        let image = text::replacement('`', "\\`"@);
        lemma_escaped(init);
        assert(inner =~= init + one);
        marks::lemma_marks_concat(init, one);
        marks::lemma_marks_concat(text::expanded(init, image), image(c));
        assert(marks::within(marks::marks(one), marks::marks(image(c)))) by {
            marks::lemma_within_self(marks::marks(one));
            if c == '`' {
                let none: Seq<char> = seq![];
                assert(image(c) =~= seq!['\\'] + one + none);
                lemma_found_around(marks::marks(one), seq!['\\'], one, none);
            } else {
                assert(image(c) =~= one);
            }
        }
        marks::lemma_within_concat(
            marks::marks(init),
            marks::marks(text::expanded(init, image)),
            marks::marks(one),
            marks::marks(image(c)),
        );
    } else {
        assert(marks::marks(inner) =~= seq![]);
    }
}

/// The quotation of a text holds what is seen of it.
proof fn lemma_quoted(part: Seq<char>, content: Seq<char>)
    requires
        marks::within(part, marks::marks(content)),
    ensures
        marks::within(part, marks::marks(markdown::blockquote_of(content))),
{
    let inner = markdown::cleaned_markdown(content);
    marks::cleaned_markdown_keeps_what_is_seen(content);
    if inner.len() == 0 {
        lemma_found_nothing(part, inner);
    } else {
        let lines = text::lines_of(inner);
        let quoted = markdown::quoted_lines(lines);
        let none: Seq<char> = seq![];
        marks::lemma_marks_lines(inner);
        marks::lemma_marks_separators();
        marks::lemma_marks_joined(quoted, "\n"@);
        lemma_quoted_lines(lines);
        marks::lemma_within_chain(part, marks::marks_in(lines), marks::marks_in(quoted));
        lemma_found_around(part, none, text::joined(quoted, "\n"@), "\n\n"@);
        assert(none + text::joined(quoted, "\n"@) + "\n\n"@ =~= text::joined(quoted, "\n"@)
            + "\n\n"@);
    }
}

/// Quoted lines hold what is seen of the lines.
proof fn lemma_quoted_lines(lines: Seq<Seq<char>>)
    ensures
        marks::within(marks::marks_in(lines), marks::marks_in(markdown::quoted_lines(lines))),
    decreases lines.len(),
{
    if lines.len() > 0 {
        let init = lines.drop_last();
        let last = lines.last();
        let quoted = markdown::quoted_lines(lines);
        lemma_quoted_lines(init);
        assert(quoted.drop_last() =~= markdown::quoted_lines(init));
        let line = markdown::quoted_line(last);
        assert(quoted.last() == line);
        marks::lemma_marks_stripped(last);
        marks::lemma_within_self(marks::marks(last));
        if text::blank(last) {
            assert(text::trimmed(last) =~= seq![]);
            assert(marks::marks(last) =~= seq![]);
        } else {
            let none: Seq<char> = seq![];
            let shown = text::trimmed_end(last);
            lemma_found_around(marks::marks(last), "> "@, shown, none);
            assert("> "@ + shown + none =~= line);
        }
        marks::lemma_within_concat(
            marks::marks_in(init),
            marks::marks_in(markdown::quoted_lines(init)),
            marks::marks(last),
            marks::marks(line),
        );
    }
}

/// A link holds what is seen of its content.
proof fn lemma_linked(
    part: Seq<char>,
    attributes: Seq<html::MarkupAttribute>,
    content: Seq<char>,
)
    requires
        marks::within(part, marks::marks(content)),
    ensures
        marks::within(part, marks::marks(markdown::link_of(attributes, content))),
{
    let label = markdown::cleaned_inline(content);
    marks::inline_text_keeps_what_is_seen(content);
    if let Some(raw) = html::attribute_value(attributes, "href"@) {
        let href = crate::zhihu::normalized_url(raw);
        if label.len() == 0 {
            lemma_found_nothing(part, label);
        } else if label == href {
            lemma_found_around(part, "<"@, label, ">"@);
        } else {
            let after = "]("@ + href + ")"@;
            lemma_found_around(part, "["@, label, after);
            assert("["@ + label + after =~= "["@ + label + "]("@ + href + ")"@);
        }
    }
}

/// An image holds its destination.
proof fn lemma_pictured(alt: Seq<char>, link: Seq<char>)
    ensures
        marks::within(
            marks::marks(markdown::destination_of(link)),
            marks::marks(markdown::image_markdown(alt, link) + "\n\n"@),
        ),
{
    let target = markdown::destination_of(link);
    let label = markdown::escaped_alt(markdown::cleaned_inline(alt));
    let before = "!["@ + (if label.len() == 0 {
        "图片"@
    } else {
        label
    }) + "]("@;
    let after = ")"@ + "\n\n"@;
    marks::lemma_within_self(marks::marks(target));
    lemma_found_around(marks::marks(target), before, target, after);
    assert(before + target + after =~= markdown::image_markdown(alt, link) + "\n\n"@);
}

/// What an element that is no list becomes holds what is owed of its children.
proof fn lemma_element_kept(
    part: Seq<char>,
    tag: Seq<char>,
    attributes: Seq<html::MarkupAttribute>,
    content: Seq<char>,
    plain: Seq<char>,
    images: Replacements,
)
    requires
        !holds_nothing(tag),
        tag != "ul"@,
        tag != "ol"@,
        tag == "pre"@ ==> marks::within(part, marks::marks(plain)),
        tag != "pre"@ ==> marks::within(part, marks::marks(content)),
    ensures
        marks::within(
            part,
            marks::marks(
                markdown::element_markdown(
                    markdown::tag_of(tag),
                    attributes,
                    content,
                    plain,
                    images,
                ),
            ),
        ),
{
    let kind = markdown::tag_of(tag);
    let none: Seq<char> = seq![];
    let inner = text::trimmed(content);
    let inline = markdown::cleaned_inline(content);
    marks::lemma_marks_stripped(content);
    marks::lemma_marks_stripped(plain);
    marks::inline_text_keeps_what_is_seen(content);
    if kind == Tag::Pre {
        lemma_found_around(part, "\n```\n"@, text::trimmed(plain), "\n```\n\n"@);
    } else if kind == Tag::Quote {
        rendering::lemma_names();
        lemma_quoted(part, content);
    } else if kind == Tag::Link {
        rendering::lemma_names();
        lemma_linked(part, attributes, content);
    } else {
        rendering::lemma_names();
        assert(tag != "pre"@);
        match kind {
            Tag::Paragraph => {
                if inner.len() == 0 {
                    lemma_found_nothing(part, inner);
                } else {
                    lemma_found_around(part, none, inner, "\n\n"@);
                    assert(none + inner + "\n\n"@ =~= inner + "\n\n"@);
                }
            },
            Tag::Strong => {
                lemma_wrapped(part, "**"@, content);
            },
            Tag::Emphasis => {
                lemma_wrapped(part, "*"@, content);
            },
            Tag::Strike => {
                lemma_wrapped(part, "~~"@, content);
            },
            Tag::Code => {
                let escaped = text::replaced(inner, '`', "\\`"@);
                lemma_escaped(inner);
                marks::lemma_within_chain(part, marks::marks(inner), marks::marks(escaped));
                lemma_found_around(part, "`"@, escaped, "`"@);
            },
            Tag::Item => {
                lemma_found_around(part, "* "@, inline, "\n"@);
            },
            Tag::Heading(level) => {
                if inline.len() == 0 {
                    lemma_found_nothing(part, inline);
                } else {
                    let before = text::repeated('#', level as int) + " "@;
                    lemma_found_around(part, before, inline, "\n\n"@);
                }
            },
            _ => {},
        }
    }
}

/// Marked text holds what is seen of it.
proof fn lemma_wrapped(part: Seq<char>, marker: Seq<char>, content: Seq<char>)
    requires
        marks::within(part, marks::marks(content)),
    ensures
        marks::within(part, marks::marks(markdown::wrapped_inline(marker, content))),
{
    let inner = text::trimmed(content);
    marks::lemma_marks_stripped(content);
    if inner.len() == 0 {
        lemma_found_nothing(part, inner);
    } else {
        lemma_found_around(part, marker, inner, marker);
    }
}

/// Nothing of a tree is lost: the seen characters of every text that has no script or style above
/// it, and the destination of every image, stand in what the tree becomes, in order.
pub proof fn trees_lose_nothing(node: MarkupNode, images: Replacements)
    ensures
        marks::within(owed(node, images), marks::marks(markdown::rendered(node, images))),
    decreases node,
{
    match node.data {
        Markup::Text(own) => {
            marks::lemma_within_self(marks::marks(own));
        },
        Markup::Element { tag, attributes } => {
            let output = markdown::rendered(node, images);
            if tag == "img"@ {
                rendering::lemma_names();
                if let Some(source) = markdown::source_of(attributes) {
                    let alt = text::trimmed(
                        match html::attribute_value(attributes, "alt"@) {
                            Some(alt) => alt,
                            None => "图片"@,
                        },
                    );
                    lemma_pictured(alt, images::resolved(images, source));
                }
            } else if !holds_nothing(tag) {
                rows_lose_nothing(node.children, images);
                if tag == "ul"@ || tag == "ol"@ {
                    rendering::lemma_names();
                    let none: Seq<char> = seq![];
                    let part = owed_in(node.children, images);
                    let items = if tag == "ul"@ {
                        markdown::bullet_items(node.children, images)
                    } else {
                        markdown::number_items(node.children, images)
                    };
                    lemma_found_around(part, none, items, "\n"@);
                    assert(none + items + "\n"@ =~= items + "\n"@);
                } else {
                    lemma_texts(node);
                    marks::lemma_within_self(owed_texts(node));
                    assert(owed_texts(node) =~= owed_texts_in(node.children));
                    lemma_not_lists(tag);
                    lemma_element_kept(
                        owed(node, images),
                        tag,
                        attributes,
                        markdown::rendered_in(node.children, images),
                        html::text_contents(node),
                        images,
                    );
                }
            }
        },
        Markup::Other => {},
    }
}

/// Only lists are lists.
proof fn lemma_not_lists(tag: Seq<char>)
    requires
        tag != "ul"@,
        tag != "ol"@,
    ensures
        markdown::tag_of(tag) != Tag::Bullets,
        markdown::tag_of(tag) != Tag::Numbers,
{
}

/// Nothing of a row of trees is lost, whether the row stands in the text or in a list.
pub proof fn rows_lose_nothing(nodes: Seq<MarkupNode>, images: Replacements)
    ensures
        marks::within(owed_in(nodes, images), marks::marks(markdown::rendered_in(nodes, images))),
        marks::within(owed_in(nodes, images), marks::marks(markdown::bullet_items(nodes, images))),
        marks::within(owed_in(nodes, images), marks::marks(markdown::number_items(nodes, images))),
    decreases nodes,
{
    if nodes.len() > 0 {
        let init = nodes.drop_last();
        let last = nodes.last();
        let before = owed_in(init, images);
        let part = owed(last, images);
        let content = markdown::rendered_in(last.children, images);
        let inner = markdown::cleaned_inline(content);
        rows_lose_nothing(init, images);
        trees_lose_nothing(last, images);
        rows_lose_nothing(last.children, images);
        marks::inline_text_keeps_what_is_seen(content);
        lemma_more(before, markdown::rendered_in(init, images), part, markdown::rendered(last, images));
        if html::tagged(last.data, "li"@) {
            rendering::lemma_names();
            assert(part == owed_in(last.children, images));
            let none: Seq<char> = seq![];
            if inner.len() == 0 {
                lemma_found_nothing(part, inner);
                lemma_more(before, markdown::bullet_items(init, images), part, none);
                lemma_more(before, markdown::number_items(init, images), part, none);
            } else {
                let number = text::decimal(markdown::filled_items(init, images) + 1) + ". "@;
                lemma_found_around(part, "* "@, inner, "\n"@);
                lemma_found_around(part, number, inner, "\n"@);
                lemma_more(
                    before,
                    markdown::bullet_items(init, images),
                    part,
                    "* "@ + inner + "\n"@,
                );
                lemma_more(
                    before,
                    markdown::number_items(init, images),
                    part,
                    number + inner + "\n"@,
                );
            }
        } else {
            lemma_more(before, markdown::bullet_items(init, images), part, markdown::rendered(last, images));
            lemma_more(before, markdown::number_items(init, images), part, markdown::rendered(last, images));
        }
    }
}

/// What is found in two texts is found in the two together.
proof fn lemma_more(first: Seq<char>, one: Seq<char>, second: Seq<char>, other: Seq<char>)
    requires
        marks::within(first, marks::marks(one)),
        marks::within(second, marks::marks(other)),
    ensures
        marks::within(first + second, marks::marks(one + other)),
{
    marks::lemma_marks_concat(one, other);
    marks::lemma_within_concat(first, marks::marks(one), second, marks::marks(other));
}

/// Nothing of a piece of HTML is lost on the way to Markdown.
pub proof fn documents_lose_nothing(fragment: Seq<char>, images: Replacements)
    requires
        !text::blank(fragment),
    ensures
        marks::within(
            owed_in(html::body_of(markdown::document_of(fragment)).children, images),
            marks::marks(markdown::markdown_of(fragment, images)),
        ),
{
    let nodes = html::body_of(markdown::document_of(fragment)).children;
    rows_lose_nothing(nodes, images);
    marks::cleaned_markdown_keeps_what_is_seen(markdown::rendered_in(nodes, images));
}

} // verus!
