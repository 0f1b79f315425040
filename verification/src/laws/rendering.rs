//! What becomes of a tree: element by element, and as a whole.

use vstd::prelude::*;

use crate::html;
use crate::html::{Markup, MarkupAttribute, MarkupNode};
use crate::images;
use crate::images::Replacements;
use crate::markdown;
use crate::markdown::Tag;
use crate::text;
use crate::zhihu;

verus! {

/// An element.
pub open spec fn element(
    tag: Seq<char>,
    attributes: Seq<MarkupAttribute>,
    children: Seq<MarkupNode>,
) -> MarkupNode {
    MarkupNode { data: Markup::Element { tag, attributes }, children }
}

/// The names of the elements that have a Markdown form of their own.
pub open spec fn has_form(tag: Seq<char>) -> bool {
    ||| tag == "script"@ || tag == "style"@ || tag == "noscript"@
    ||| tag == "p"@ || tag == "br"@ || tag == "hr"@
    ||| tag == "strong"@ || tag == "b"@ || tag == "em"@ || tag == "i"@ || tag == "s"@ || tag
        == "del"@
    ||| tag == "code"@ || tag == "pre"@ || tag == "blockquote"@ || tag == "a"@ || tag == "img"@
    ||| tag == "ul"@ || tag == "ol"@ || tag == "li"@
    ||| tag == "h1"@ || tag == "h2"@ || tag == "h3"@ || tag == "h4"@ || tag == "h5"@ || tag
        == "h6"@
}

/// The names of the elements are different.
pub proof fn lemma_names()
    ensures
        markdown::tag_of("script"@) == Tag::Hidden,
        markdown::tag_of("style"@) == Tag::Hidden,
        markdown::tag_of("noscript"@) == Tag::Hidden,
        markdown::tag_of("p"@) == Tag::Paragraph,
        markdown::tag_of("br"@) == Tag::Break,
        markdown::tag_of("hr"@) == Tag::Rule,
        markdown::tag_of("strong"@) == Tag::Strong,
        markdown::tag_of("b"@) == Tag::Strong,
        markdown::tag_of("em"@) == Tag::Emphasis,
        markdown::tag_of("i"@) == Tag::Emphasis,
        markdown::tag_of("s"@) == Tag::Strike,
        markdown::tag_of("del"@) == Tag::Strike,
        markdown::tag_of("code"@) == Tag::Code,
        markdown::tag_of("pre"@) == Tag::Pre,
        markdown::tag_of("blockquote"@) == Tag::Quote,
        markdown::tag_of("a"@) == Tag::Link,
        markdown::tag_of("img"@) == Tag::Image,
        markdown::tag_of("ul"@) == Tag::Bullets,
        markdown::tag_of("ol"@) == Tag::Numbers,
        markdown::tag_of("li"@) == Tag::Item,
        markdown::tag_of("h1"@) == Tag::Heading(1),
        markdown::tag_of("h2"@) == Tag::Heading(2),
        markdown::tag_of("h3"@) == Tag::Heading(3),
        markdown::tag_of("h4"@) == Tag::Heading(4),
        markdown::tag_of("h5"@) == Tag::Heading(5),
        markdown::tag_of("h6"@) == Tag::Heading(6),
{
    reveal_strlit("script");
    reveal_strlit("style");
    reveal_strlit("noscript");
    reveal_strlit("p");
    reveal_strlit("br");
    reveal_strlit("hr");
    reveal_strlit("strong");
    reveal_strlit("b");
    reveal_strlit("em");
    reveal_strlit("i");
    reveal_strlit("s");
    reveal_strlit("del");
    reveal_strlit("code");
    reveal_strlit("pre");
    reveal_strlit("blockquote");
    reveal_strlit("a");
    reveal_strlit("img");
    reveal_strlit("ul");
    reveal_strlit("ol");
    reveal_strlit("li");
    reveal_strlit("h1");
    reveal_strlit("h2");
    reveal_strlit("h3");
    reveal_strlit("h4");
    reveal_strlit("h5");
    reveal_strlit("h6");
    assert("script"@.len() == 6 && "script"@[1] == 'c');
    assert("strong"@.len() == 6 && "strong"@[1] == 't');
    assert("style"@.len() == 5);
    assert("noscript"@.len() == 8);
    assert("blockquote"@.len() == 10);
    assert("code"@.len() == 4);
    assert("del"@.len() == 3 && "del"@[0] == 'd');
    assert("pre"@.len() == 3 && "pre"@[0] == 'p');
    assert("img"@.len() == 3 && "img"@[0] == 'i');
    assert("p"@.len() == 1 && "p"@[0] == 'p');
    assert("b"@.len() == 1 && "b"@[0] == 'b');
    assert("i"@.len() == 1 && "i"@[0] == 'i');
    assert("s"@.len() == 1 && "s"@[0] == 's');
    assert("a"@.len() == 1 && "a"@[0] == 'a');
    assert("br"@.len() == 2 && "br"@[0] == 'b');
    assert("hr"@.len() == 2 && "hr"@[0] == 'h' && "hr"@[1] == 'r');
    assert("em"@.len() == 2 && "em"@[0] == 'e');
    assert("ul"@.len() == 2 && "ul"@[0] == 'u');
    assert("ol"@.len() == 2 && "ol"@[0] == 'o');
    assert("li"@.len() == 2 && "li"@[0] == 'l');
    assert("h1"@.len() == 2 && "h1"@[0] == 'h' && "h1"@[1] == '1');
    assert("h2"@.len() == 2 && "h2"@[0] == 'h' && "h2"@[1] == '2');
    assert("h3"@.len() == 2 && "h3"@[0] == 'h' && "h3"@[1] == '3');
    assert("h4"@.len() == 2 && "h4"@[0] == 'h' && "h4"@[1] == '4');
    assert("h5"@.len() == 2 && "h5"@[0] == 'h' && "h5"@[1] == '5');
    assert("h6"@.len() == 2 && "h6"@[0] == 'h' && "h6"@[1] == '6');
}

/// A text becomes itself, what is neither text nor element becomes nothing, and a row of nodes
/// becomes what its nodes become, one after the other.
pub proof fn rows_are_concatenated(
    first: Seq<MarkupNode>,
    second: Seq<MarkupNode>,
    node: MarkupNode,
    images: Replacements,
)
    ensures
        markdown::rendered_in(first + second, images) == markdown::rendered_in(first, images)
            + markdown::rendered_in(second, images),
        markdown::rendered_in(seq![node], images) == markdown::rendered(node, images),
        markdown::rendered_in(seq![], images) == Seq::<char>::empty(),
        node.data matches Markup::Text(own) ==> markdown::rendered(node, images) == own,
        node.data is Other ==> markdown::rendered(node, images) == Seq::<char>::empty(),
    decreases second.len(),
{
    assert(seq![node].drop_last() =~= seq![]);
    assert(markdown::rendered_in(seq![], images) =~= seq![]);
    assert(markdown::rendered_in(seq![node], images) =~= markdown::rendered(node, images));
    if second.len() == 0 {
        assert(first + second =~= first);
        assert(markdown::rendered_in(first, images) + markdown::rendered_in(second, images)
            =~= markdown::rendered_in(first, images));
    } else {
        rows_are_concatenated(first, second.drop_last(), node, images);
        assert((first + second).drop_last() =~= first + second.drop_last());
        assert((first + second).last() == second.last());
        assert(markdown::rendered_in(first + second, images) =~= markdown::rendered_in(
            first,
            images,
        ) + markdown::rendered_in(second, images));
    }
}

/// An element without a Markdown form of its own, such as `figure`, `div`, `span` or `table`, adds
/// nothing and loses nothing: it becomes what its children become.
pub proof fn other_elements_are_transparent(
    tag: Seq<char>,
    attributes: Seq<MarkupAttribute>,
    children: Seq<MarkupNode>,
    images: Replacements,
)
    requires
        !has_form(tag),
    ensures
        markdown::rendered(element(tag, attributes, children), images) == markdown::rendered_in(
            children,
            images,
        ),
{
}

/// Emphasis, strike-through, paragraphs and code hold what their children become, without the white
/// space around it and between the marks of their own; where nothing is left they become nothing,
/// but for code.
pub proof fn inline_elements_are_marked(
    tag: Seq<char>,
    attributes: Seq<MarkupAttribute>,
    children: Seq<MarkupNode>,
    images: Replacements,
)
    ensures
        ({
            let output = markdown::rendered(element(tag, attributes, children), images);
            let inner = text::trimmed(markdown::rendered_in(children, images));
            let none = Seq::<char>::empty();
            &&& tag == "strong"@ || tag == "b"@ ==> output == (if inner.len() == 0 {
                none
            } else {
                seq!['*', '*'] + inner + seq!['*', '*']
            })
            &&& tag == "em"@ || tag == "i"@ ==> output == (if inner.len() == 0 {
                none
            } else {
                seq!['*'] + inner + seq!['*']
            })
            &&& tag == "s"@ || tag == "del"@ ==> output == (if inner.len() == 0 {
                none
            } else {
                seq!['~', '~'] + inner + seq!['~', '~']
            })
            &&& tag == "p"@ ==> output == (if inner.len() == 0 {
                none
            } else {
                inner + seq!['\n', '\n']
            })
            &&& tag == "code"@ && !inner.contains('`') ==> output == seq!['`'] + inner + seq!['`']
            &&& tag == "br"@ ==> output == seq!['\n']
            &&& tag == "hr"@ ==> output == seq!['\n', '-', '-', '-', '\n', '\n']
            &&& tag == "li"@ ==> output == seq!['*', ' '] + markdown::cleaned_inline(
                markdown::rendered_in(children, images),
            ) + seq!['\n']
            &&& tag == "script"@ || tag == "style"@ || tag == "noscript"@ ==> output == none
        }),
{
    lemma_names();
    reveal_strlit("**");
    reveal_strlit("*");
    reveal_strlit("~~");
    reveal_strlit("`");
    reveal_strlit("\n");
    reveal_strlit("\n\n");
    reveal_strlit("\n---\n\n");
    reveal_strlit("* ");
    assert("* "@ =~= seq!['*', ' ']);
    assert("**"@ =~= seq!['*', '*']);
    assert("*"@ =~= seq!['*']);
    assert("~~"@ =~= seq!['~', '~']);
    assert("`"@ =~= seq!['`']);
    assert("\n"@ =~= seq!['\n']);
    assert("\n\n"@ =~= seq!['\n', '\n']);
    assert("\n---\n\n"@ =~= seq!['\n', '-', '-', '-', '\n', '\n']);
    let inner = text::trimmed(markdown::rendered_in(children, images));
    if !inner.contains('`') {
        text::lemma_replaced_absent(inner, '`', "\\`"@);
    }
}

/// Code keeps its characters: each backtick gets a backslash, and nothing else changes.
pub proof fn code_is_escaped(
    attributes: Seq<MarkupAttribute>,
    children: Seq<MarkupNode>,
    images: Replacements,
    i: int,
)
    requires
        0 <= i < text::trimmed(markdown::rendered_in(children, images)).len(),
    ensures
        ({
            let inner = text::trimmed(markdown::rendered_in(children, images));
            let escape = |c: char|
                if c == '`' {
                    seq!['\\', '`']
                } else {
                    seq![c]
                };
            markdown::rendered(element("code"@, attributes, children), images) == seq!['`']
                + text::expanded(inner.take(i), escape) + escape(inner[i]) + text::expanded(
                inner.skip(i + 1),
                escape,
            ) + seq!['`']
        }),
{
    lemma_names();
    reveal_strlit("`");
    reveal_strlit("\\`");
    let inner = text::trimmed(markdown::rendered_in(children, images));
    let escape = |c: char|
        if c == '`' {
            seq!['\\', '`']
        } else {
            seq![c]
        };
    let used = text::replacement('`', "\\`"@);
    assert("`"@ =~= seq!['`']);
    assert("\\`"@ =~= seq!['\\', '`']);
    assert forall|c: char| #[trigger] used(c) == escape(c) by {}
    assert(used =~= escape);
    let one = seq![inner[i]];
    assert(inner =~= inner.take(i) + one + inner.skip(i + 1));
    text::lemma_expanded_concat(inner.take(i) + one, inner.skip(i + 1), used);
    text::lemma_expanded_concat(inner.take(i), one, used);
    text::lemma_expanded_few(inner[i], inner[i], used);
    let output = markdown::rendered(element("code"@, attributes, children), images);
    assert(output =~= seq!['`'] + text::expanded(inner.take(i), escape) + escape(inner[i])
        + text::expanded(inner.skip(i + 1), escape) + seq!['`']);
}

/// A heading stands on one line behind as many hashes as its level, and an entry of a list that is
/// in no list stands on one line behind a star.
pub proof fn headings_have_their_level(
    attributes: Seq<MarkupAttribute>,
    children: Seq<MarkupNode>,
    images: Replacements,
)
    ensures
        ({
            let inner = markdown::cleaned_inline(markdown::rendered_in(children, images));
            let shown = |tag: Seq<char>|
                markdown::rendered(element(tag, attributes, children), images);
            let behind = |hashes: Seq<char>|
                if inner.len() == 0 {
                    Seq::<char>::empty()
                } else {
                    hashes + seq![' '] + inner + seq!['\n', '\n']
                };
            &&& shown("h1"@) == behind(seq!['#'])
            &&& shown("h2"@) == behind(seq!['#', '#'])
            &&& shown("h3"@) == behind(seq!['#', '#', '#'])
            &&& shown("h4"@) == behind(seq!['#', '#', '#', '#'])
            &&& shown("h5"@) == behind(seq!['#', '#', '#', '#', '#'])
            &&& shown("h6"@) == behind(seq!['#', '#', '#', '#', '#', '#'])
            &&& shown("li"@) == seq!['*', ' '] + inner + seq!['\n']
        }),
{
    lemma_names();
    reveal_strlit(" ");
    reveal_strlit("* ");
    reveal_strlit("\n");
    reveal_strlit("\n\n");
    assert(" "@ =~= seq![' ']);
    assert("* "@ =~= seq!['*', ' ']);
    assert("\n"@ =~= seq!['\n']);
    assert("\n\n"@ =~= seq!['\n', '\n']);
    assert(text::repeated('#', 1) =~= seq!['#']);
    assert(text::repeated('#', 2) =~= seq!['#', '#']);
    assert(text::repeated('#', 3) =~= seq!['#', '#', '#']);
    assert(text::repeated('#', 4) =~= seq!['#', '#', '#', '#']);
    assert(text::repeated('#', 5) =~= seq!['#', '#', '#', '#', '#']);
    assert(text::repeated('#', 6) =~= seq!['#', '#', '#', '#', '#', '#']);
}

/// Preformatted text keeps the whole text below it as it is, but for white space around it.
pub proof fn preformatted_text_is_kept(
    attributes: Seq<MarkupAttribute>,
    children: Seq<MarkupNode>,
    images: Replacements,
)
    ensures
        markdown::rendered(element("pre"@, attributes, children), images) == seq![
            '\n',
            '`',
            '`',
            '`',
            '\n',
        ] + text::trimmed(html::text_contents_in(children)) + seq!['\n', '`', '`', '`', '\n', '\n'],
{
    lemma_names();
    reveal_strlit("\n```\n");
    reveal_strlit("\n```\n\n");
    assert("\n```\n"@ =~= seq!['\n', '`', '`', '`', '\n']);
    assert("\n```\n\n"@ =~= seq!['\n', '`', '`', '`', '\n', '\n']);
    let node = element("pre"@, attributes, children);
    assert(html::text_contents(node) =~= html::text_contents_in(children));
}

/// The text below a row of nodes is that of its nodes, one after the other, and that of a text is
/// the text.
pub proof fn texts_are_concatenated(
    first: Seq<MarkupNode>,
    second: Seq<MarkupNode>,
    node: MarkupNode,
)
    ensures
        html::text_contents_in(first + second) == html::text_contents_in(first)
            + html::text_contents_in(second),
        html::text_contents_in(seq![node]) == html::text_contents(node),
        node.children.len() == 0 && node.data is Text ==> html::text_contents(node)
            == node.data->Text_0,
        !(node.data is Text) ==> html::text_contents(node) == html::text_contents_in(node.children),
    decreases second.len(),
{
    assert(seq![node].drop_last() =~= seq![]);
    assert(html::text_contents_in(seq![node].drop_last()) =~= seq![]);
    assert(html::text_contents_in(seq![node]) =~= html::text_contents(node));
    if node.children.len() == 0 && node.data is Text {
        assert(html::text_contents(node) =~= node.data->Text_0);
    }
    if !(node.data is Text) {
        assert(html::text_contents(node) =~= html::text_contents_in(node.children));
    }
    if second.len() == 0 {
        assert(first + second =~= first);
        assert(html::text_contents_in(first) + html::text_contents_in(second)
            =~= html::text_contents_in(first));
    } else {
        texts_are_concatenated(first, second.drop_last(), node);
        assert((first + second).drop_last() =~= first + second.drop_last());
        assert(html::text_contents_in(first + second) =~= html::text_contents_in(first)
            + html::text_contents_in(second));
    }
}

/// A link keeps its label and its target: the label on one line, and the target in its absolute
/// form. Where the label is empty or is the target itself, the target stands alone; and without a
/// target the content stands alone.
pub proof fn links_keep_label_and_target(
    attributes: Seq<MarkupAttribute>,
    children: Seq<MarkupNode>,
    images: Replacements,
)
    ensures
        ({
            let content = markdown::rendered_in(children, images);
            let label = markdown::cleaned_inline(content);
            let output = markdown::rendered(element("a"@, attributes, children), images);
            match html::attribute_value(attributes, "href"@) {
                Some(raw) => {
                    let target = zhihu::normalized_url(raw);
                    if label.len() > 0 && label != target {
                        output == seq!['['] + label + seq![']', '('] + target + seq![')']
                    } else {
                        output == seq!['<'] + target + seq!['>']
                    }
                },
                None => output == content,
            }
        }),
{
    lemma_names();
    reveal_strlit("[");
    reveal_strlit("](");
    reveal_strlit(")");
    reveal_strlit("<");
    reveal_strlit(">");
    assert("["@ =~= seq!['[']);
    assert("]("@ =~= seq![']', '(']);
    assert(")"@ =~= seq![')']);
    assert("<"@ =~= seq!['<']);
    assert(">"@ =~= seq!['>']);
}

} // verus!
