//! Images, lists and quotations of a tree, and what no conversion may lose.

use vstd::prelude::*;

use crate::html;
use crate::html::{MarkupAttribute, MarkupNode};
use crate::images;
use crate::images::Replacements;
use crate::laws::rendering;
use crate::markdown;
use crate::text;
use crate::zhihu;

verus! {

/// Whether the attribute at that place is the one that is read under the name: it belongs to no
/// namespace, and none in front of it has the name.
pub open spec fn read_at(attributes: Seq<MarkupAttribute>, name: Seq<char>, at: int) -> bool {
    &&& 0 <= at < attributes.len()
    &&& attributes[at].namespace.len() == 0
    &&& attributes[at].name == name
    &&& forall|j: int|
        0 <= j < at ==> (#[trigger] attributes[j]).namespace.len() > 0 || attributes[j].name != name
}

/// The attribute that is read under a name is the first of that name without a namespace, and its
/// value is read whole.
pub proof fn attributes_are_read_by_name(
    attributes: Seq<MarkupAttribute>,
    name: Seq<char>,
    at: int,
)
    ensures
        read_at(attributes, name, at) ==> html::attribute_value(attributes, name) == Some(
            attributes[at].value,
        ),
        html::attribute_value(attributes, name) is Some ==> exists|k: int|
            #[trigger] read_at(attributes, name, k),
    decreases attributes.len(),
{
    if attributes.len() > 0 {
        let rest = attributes.drop_first();
        let found = attributes[0].namespace.len() == 0 && attributes[0].name == name;
        attributes_are_read_by_name(rest, name, at - 1);
        if read_at(attributes, name, at) && at > 0 {
            assert(attributes[0].namespace.len() > 0 || attributes[0].name != name);
            assert(rest[at - 1] == attributes[at]);
            assert forall|j: int| 0 <= j < at - 1 implies (#[trigger] rest[j]).namespace.len() > 0
                || rest[j].name != name by {
                assert(rest[j] == attributes[j + 1]);
            }
            assert(read_at(rest, name, at - 1));
        }
        if html::attribute_value(attributes, name) is Some {
            if found {
                assert(read_at(attributes, name, 0));
            } else {
                let k = choose|k: int| #[trigger] read_at(rest, name, k);
                assert(attributes[k + 1] == rest[k]);
                assert forall|j: int| 0 <= j < k + 1 implies (
                #[trigger] attributes[j]).namespace.len() > 0 || attributes[j].name != name by {
                    if j > 0 {
                        assert(attributes[j] == rest[j - 1]);
                    }
                }
                assert(read_at(attributes, name, k + 1));
            }
        }
    }
}

/// Whether an element has an attribute of that name with a value that is not blank.
pub open spec fn gives(attributes: Seq<MarkupAttribute>, name: Seq<char>) -> bool {
    html::attribute_value(attributes, name) matches Some(value) && !text::blank(value)
}

/// The source of an image is its original, or else the one that is loaded late, or else the one
/// that is loaded at once, in its absolute form; a blank one counts as none.
pub proof fn the_original_source_is_preferred(attributes: Seq<MarkupAttribute>)
    ensures
        ({
            let absolute = |name: Seq<char>|
                Some(zhihu::normalized_url(html::attribute_value(attributes, name)->0));
            let source = markdown::source_of(attributes);
            &&& gives(attributes, "data-original"@) ==> source == absolute("data-original"@)
            &&& !gives(attributes, "data-original"@) && gives(attributes, "data-actualsrc"@)
                ==> source == absolute("data-actualsrc"@)
            &&& !gives(attributes, "data-original"@) && !gives(attributes, "data-actualsrc"@)
                && gives(attributes, "src"@) ==> source == absolute("src"@)
            &&& !gives(attributes, "data-original"@) && !gives(attributes, "data-actualsrc"@)
                && !gives(attributes, "src"@) ==> source is None
        }),
{
    assert forall|value: Seq<char>| zhihu::normalized_url(#[trigger] text::trimmed(value))
        == zhihu::normalized_url(value) by {
        text::trimming_is_idempotent(value);
    }
}

/// The hexadecimal digit for `n`, in upper case.
pub open spec fn upper_hex(n: int) -> char {
    if n < 10 {
        (n + 48) as char
    } else {
        (n + 55) as char
    }
}

/// In the destination of an image a character that would end it stands as a percent sign and its
/// number in two hexadecimal digits, and every other character stands as it is.
pub proof fn destinations_keep_every_character(first: Seq<char>, second: Seq<char>, c: char)
    ensures
        markdown::destination_of(first + second) == markdown::destination_of(first)
            + markdown::destination_of(second),
        markdown::destination_of(seq![c]) == (if markdown::ends_destination(c) {
            seq!['%', upper_hex(c as int / 16), upper_hex(c as int % 16)]
        } else {
            seq![c]
        }),
{
    reveal_strlit("%28");
    reveal_strlit("%29");
    reveal_strlit("%20");
    reveal_strlit("%0A");
    reveal_strlit("%0D");
    reveal_strlit("%09");
    reveal_strlit("%3C");
    reveal_strlit("%3E");
    reveal_strlit("%5C");
    let image = markdown::destination_chars();
    text::lemma_expanded_concat(first, second, image);
    text::lemma_expanded_few(c, c, image);
    assert(image(c) == markdown::destination_char(c));
    let expected = if markdown::ends_destination(c) {
        seq!['%', upper_hex(c as int / 16), upper_hex(c as int % 16)]
    } else {
        seq![c]
    };
    assert(markdown::destination_char(c) =~= expected);
}

/// An image shows its description on one line, with brackets and backslashes escaped, or the word
/// for an image where there is none, in front of its destination.
pub proof fn images_show_description_and_destination(alt: Seq<char>, source: Seq<char>)
    ensures
        ({
            let label = text::expanded(markdown::cleaned_inline(alt), markdown::alt_chars());
            markdown::image_markdown(alt, source) == seq!['!', '['] + (if text::blank(alt) {
                seq!['图', '片']
            } else {
                label
            }) + seq![']', '('] + markdown::destination_of(source) + seq![')']
        }),
{
    reveal_strlit("![");
    reveal_strlit("](");
    reveal_strlit(")");
    reveal_strlit("图片");
    assert("!["@ =~= seq!['!', '[']);
    assert("]("@ =~= seq![']', '(']);
    assert(")"@ =~= seq![')']);
    assert("图片"@ =~= seq!['图', '片']);
    let inline = markdown::cleaned_inline(alt);
    markdown::descriptions_are_escaped(inline);
    lemma_inline_blank(alt);
    lemma_expanded_filled(inline);
}

/// A text on one line is empty exactly where the text is blank.
pub proof fn lemma_inline_blank(input: Seq<char>)
    ensures
        markdown::cleaned_inline(input).len() == 0 <==> text::blank(input),
{
    let lines = text::lines_of(input);
    let kept = markdown::kept_lines(lines);
    markdown::inline_text_is_one_line(input);
    text::lemma_trimmed(input);
    lemma_blank_lines(input);
    lemma_kept_blank(lines);
    if kept.len() > 0 {
        text::lemma_lines_lack_feeds(input);
        lemma_kept_filled(lines);
        text::lemma_joined_ends(kept, " "@);
    }
}

/// The lines that are kept are not empty.
proof fn lemma_kept_filled(lines: Seq<Seq<char>>)
    ensures
        forall|k: int|
            0 <= k < markdown::kept_lines(lines).len() ==> (#[trigger] markdown::kept_lines(
                lines,
            )[k]).len() > 0,
    decreases lines.len(),
{
    if lines.len() > 0 {
        let before = markdown::kept_lines(lines.drop_last());
        lemma_kept_filled(lines.drop_last());
        assert forall|k: int| 0 <= k < markdown::kept_lines(lines).len() implies (
        #[trigger] markdown::kept_lines(lines)[k]).len() > 0 by {
            if k < before.len() {
                assert(markdown::kept_lines(lines)[k] == before[k]);
            }
        }
    }
}

/// Lines are kept exactly where one of them is not blank.
proof fn lemma_kept_blank(lines: Seq<Seq<char>>)
    ensures
        markdown::kept_lines(lines).len() == 0 <==> forall|i: int|
            0 <= i < lines.len() ==> text::blank(#[trigger] lines[i]),
    decreases lines.len(),
{
    if lines.len() > 0 {
        let init = lines.drop_last();
        lemma_kept_blank(init);
        assert(lines[lines.len() - 1] == lines.last());
        if markdown::kept_lines(lines).len() == 0 {
            assert forall|i: int| 0 <= i < lines.len() implies text::blank(#[trigger] lines[i]) by {
                if i < init.len() {
                    assert(init[i] == lines[i]);
                }
            }
        } else {
            if forall|i: int| 0 <= i < lines.len() ==> text::blank(#[trigger] lines[i]) {
                assert forall|i: int| 0 <= i < init.len() implies text::blank(
                    #[trigger] init[i],
                ) by {
                    assert(init[i] == lines[i]);
                }
            }
        }
    }
}

/// A text is blank exactly where each of its lines is.
proof fn lemma_blank_lines(input: Seq<char>)
    ensures
        text::blank(input) <==> forall|i: int|
            0 <= i < text::lines_of(input).len() ==> text::blank(
                #[trigger] text::lines_of(input)[i],
            ),
    decreases input.len(),
{
    let lines = text::lines_of(input);
    text::lemma_trimmed(input);
    if input.len() > 0 {
        let at = text::position(input, '\n');
        text::lemma_position(input, '\n');
        if at >= input.len() {
            assert(lines == seq![input]);
            assert(lines[0] == input);
        } else {
            let line = input.take(at);
            let rest = input.skip(at + 1);
            let kept = text::chomped(line);
            lemma_blank_lines(rest);
            text::lemma_trimmed(rest);
            text::lemma_trimmed(kept);
            assert(lines[0] == kept);
            assert(lines.skip(1) =~= text::lines_of(rest));
            if text::blank(input) {
                assert forall|i: int| 0 <= i < kept.len() implies text::white_space(
                    #[trigger] kept[i],
                ) by {
                    assert(kept[i] == input[i]);
                }
                assert forall|i: int| 0 <= i < rest.len() implies text::white_space(
                    #[trigger] rest[i],
                ) by {
                    assert(rest[i] == input[at + 1 + i]);
                }
                assert forall|i: int| 0 <= i < lines.len() implies text::blank(
                    #[trigger] lines[i],
                ) by {
                    if i > 0 {
                        assert(lines[i] == text::lines_of(rest)[i - 1]);
                    }
                }
            } else if forall|i: int| 0 <= i < lines.len() ==> text::blank(#[trigger] lines[i]) {
                assert(text::blank(lines[0]));
                assert forall|i: int| 0 <= i < text::lines_of(rest).len() implies text::blank(
                    #[trigger] text::lines_of(rest)[i],
                ) by {
                    assert(lines[i + 1] == text::lines_of(rest)[i]);
                }
                assert forall|i: int| 0 <= i < input.len() implies text::white_space(
                    #[trigger] input[i],
                ) by {
                    if i < kept.len() {
                        assert(kept[i] == input[i]);
                    } else if i < at {
                        assert(line.last() == '\r');
                        assert(i == at - 1);
                        assert(input[i] == '\r');
                    } else if i > at {
                        assert(rest[i - at - 1] == input[i]);
                    }
                }
            }
        }
    }
}

/// What stands for a text that is not empty is not empty.
proof fn lemma_expanded_filled(alt: Seq<char>)
    ensures
        text::expanded(alt, markdown::alt_chars()).len() >= alt.len(),
    decreases alt.len(),
{
    if alt.len() > 0 {
        lemma_expanded_filled(alt.drop_last());
        assert(markdown::alt_chars()(alt.last()) == markdown::alt_char(alt.last()));
    }
}

/// An image element shows its image, with the link that stands for its source, on a line of its own;
/// one without a source shows nothing.
pub proof fn image_elements_show_their_image(
    attributes: Seq<MarkupAttribute>,
    children: Seq<MarkupNode>,
    images: Replacements,
)
    ensures
        ({
            let output = markdown::rendered(
                rendering::element("img"@, attributes, children),
                images,
            );
            match markdown::source_of(attributes) {
                Some(source) => {
                    let link = images::resolved(images, source);
                    match html::attribute_value(attributes, "alt"@) {
                        Some(alt) => output == markdown::image_markdown(text::trimmed(alt), link)
                            + seq!['\n', '\n'],
                        None => output == markdown::image_markdown(seq!['图', '片'], link) + seq![
                            '\n',
                            '\n',
                        ],
                    }
                },
                None => output == Seq::<char>::empty(),
            }
        }),
{
    rendering::lemma_names();
    reveal_strlit("\n\n");
    reveal_strlit("图片");
    assert("\n\n"@ =~= seq!['\n', '\n']);
    assert("图片"@ =~= seq!['图', '片']);
    text::lemma_trimmed_fixed("图片"@);
}

/// The entries of a list stand on lines of their own, in order, behind a star or behind their number
/// among the entries that are not blank; blank entries are left out, and what is no entry stands as
/// it is.
pub proof fn lists_keep_their_entries(
    first: Seq<MarkupNode>,
    attributes: Seq<MarkupAttribute>,
    node: MarkupNode,
    images: Replacements,
)
    ensures
        ({
            let inner = markdown::cleaned_inline(markdown::rendered_in(node.children, images));
            let bullets = |nodes: Seq<MarkupNode>| markdown::bullet_items(nodes, images);
            let numbers = |nodes: Seq<MarkupNode>| markdown::number_items(nodes, images);
            let count = |nodes: Seq<MarkupNode>| markdown::filled_items(nodes, images);
            let ended = |items: Seq<char>|
                if items.len() == 0 {
                    items
                } else {
                    items + seq!['\n']
                };
            &&& markdown::rendered(rendering::element("ul"@, attributes, first), images) == ended(
                bullets(first),
            )
            &&& markdown::rendered(rendering::element("ol"@, attributes, first), images) == ended(
                numbers(first),
            )
            &&& bullets(seq![]) == Seq::<char>::empty()
            &&& numbers(seq![]) == Seq::<char>::empty()
            &&& count(seq![]) == 0
            &&& html::tagged(node.data, "li"@) && inner.len() > 0 ==> {
                &&& bullets(first.push(node)) == bullets(first) + seq!['*', ' '] + inner + seq!['\n']
                &&& numbers(first.push(node)) == numbers(first) + text::decimal(count(first) + 1)
                    + seq!['.', ' '] + inner + seq!['\n']
                &&& count(first.push(node)) == count(first) + 1
            }
            &&& html::tagged(node.data, "li"@) && inner.len() == 0 ==> {
                &&& bullets(first.push(node)) == bullets(first)
                &&& numbers(first.push(node)) == numbers(first)
                &&& count(first.push(node)) == count(first)
            }
            &&& !html::tagged(node.data, "li"@) ==> {
                &&& bullets(first.push(node)) == bullets(first) + markdown::rendered(node, images)
                &&& numbers(first.push(node)) == numbers(first) + markdown::rendered(node, images)
                &&& count(first.push(node)) == count(first)
            }
        }),
{
    rendering::lemma_names();
    reveal_strlit("* ");
    reveal_strlit(". ");
    reveal_strlit("\n");
    assert("* "@ =~= seq!['*', ' ']);
    assert(". "@ =~= seq!['.', ' ']);
    assert("\n"@ =~= seq!['\n']);
    let nodes = first.push(node);
    let inner = markdown::cleaned_inline(markdown::rendered_in(node.children, images));
    assert(nodes.drop_last() =~= first);
    assert(nodes.last() == node);
    assert(markdown::bullet_items(seq![], images) =~= seq![]);
    assert(markdown::number_items(seq![], images) =~= seq![]);
    if html::tagged(node.data, "li"@) {
        if inner.len() > 0 {
            let count = markdown::filled_items(first, images);
            assert(markdown::bullet_items(nodes, images) =~= markdown::bullet_items(first, images)
                + seq!['*', ' '] + inner + seq!['\n']);
            assert(markdown::number_items(nodes, images) =~= markdown::number_items(first, images)
                + text::decimal(count + 1) + seq!['.', ' '] + inner + seq!['\n']);
        } else {
            assert(markdown::bullet_items(nodes, images) =~= markdown::bullet_items(first, images));
            assert(markdown::number_items(nodes, images) =~= markdown::number_items(first, images));
        }
    }
}

/// A quotation holds the lines of its content, cleaned, each behind its mark, and an empty line
/// ends it.
pub proof fn quotations_keep_their_lines(
    attributes: Seq<MarkupAttribute>,
    children: Seq<MarkupNode>,
    images: Replacements,
)
    ensures
        ({
            let output = markdown::rendered(
                rendering::element("blockquote"@, attributes, children),
                images,
            );
            let inner = text::lines_of(
                markdown::cleaned_markdown(markdown::rendered_in(children, images)),
            );
            let lines = Seq::new(
                inner.len(),
                |i: int|
                    if inner[i].len() == 0 {
                        seq!['>']
                    } else {
                        seq!['>', ' '] + inner[i]
                    },
            );
            output == (if inner.len() == 0 {
                Seq::<char>::empty()
            } else {
                text::joined(lines, seq!['\n']) + seq!['\n', '\n']
            })
        }),
{
    rendering::lemma_names();
    reveal_strlit("> ");
    reveal_strlit(">");
    reveal_strlit("\n");
    reveal_strlit("\n\n");
    assert("> "@ =~= seq!['>', ' ']);
    assert(">"@ =~= seq!['>']);
    assert("\n"@ =~= seq!['\n']);
    assert("\n\n"@ =~= seq!['\n', '\n']);
    let content = markdown::rendered_in(children, images);
    let output = markdown::cleaned_markdown(content);
    let inner = text::lines_of(output);
    markdown::cleaned_markdown_is_tidy(content);
    if output.len() == 0 {
        assert(inner =~= seq![]);
    } else {
        text::lemma_position(output, '\n');
        assert(inner.len() > 0);
        let lines = Seq::new(
            inner.len(),
            |i: int|
                if inner[i].len() == 0 {
                    seq!['>']
                } else {
                    seq!['>', ' '] + inner[i]
                },
        );
        assert forall|i: int| 0 <= i < inner.len() implies #[trigger] lines[i]
            == markdown::quoted_lines(inner)[i] by {
            text::lemma_trimmed(inner[i]);
            if inner[i].len() > 0 {
                assert(!text::white_space(inner[i][inner[i].len() - 1]));
                assert(text::trimmed_end(inner[i]) == inner[i]);
            }
        }
        assert(lines =~= markdown::quoted_lines(inner));
    }
}

} // verus!
