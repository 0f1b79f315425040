//! From HTML to Markdown.

use vstd::prelude::*;

use crate::html;
use crate::html::{HtmlAttribute, HtmlData, HtmlNode, Markup, MarkupAttribute, MarkupNode};
use crate::images;
use crate::images::{ImageExporter, Replacements};
use crate::text;
use crate::zhihu;

verus! {

/// The lines that hold more than white space, trimmed.
pub open spec fn kept_lines(lines: Seq<Seq<char>>) -> Seq<Seq<char>>
    decreases lines.len(),
{
    if lines.len() == 0 {
        seq![]
    } else {
        let before = kept_lines(lines.drop_last());
        if text::blank(lines.last()) {
            before
        } else {
            before.push(text::trimmed(lines.last()))
        }
    }
}

/// The text on one line: its lines trimmed, those that are blank dropped, one blank between
/// neighbours.
pub open spec fn cleaned_inline(input: Seq<char>) -> Seq<char> {
    text::joined(kept_lines(text::lines_of(input)), " "@)
}

/// The text on one line.
pub fn cleanup_inline(input: &str) -> (result: String)
    ensures
        result@ == cleaned_inline(input@),
{
    let lines = text::lines(input);
    let ghost all = text::texts(lines@);
    let mut kept: Vec<String> = Vec::new();
    let mut i: usize = 0;
    assert(text::texts(kept@) =~= kept_lines(all.take(0)));
    while i < lines.len()
        invariant
            i <= lines@.len(),
            all == text::texts(lines@),
            text::texts(kept@) == kept_lines(all.take(i as int)),
        decreases lines@.len() - i,
    {
        assert(all.take(i + 1).drop_last() =~= all.take(i as int));
        let line = text::trim(lines[i].as_str());
        if !line.as_str().is_empty() {
            let ghost before = text::texts(kept@);
            kept.push(line);
            assert(text::texts(kept@) =~= before.push(line@));
        }
        i = i + 1;
    }
    assert(all.take(i as int) =~= all);
    text::join(&kept, " ")
}

/// The lines without their trailing white space; a run of blank lines becomes one empty line,
/// and none at the start.
pub open spec fn tidy_lines(lines: Seq<Seq<char>>) -> Seq<Seq<char>>
    decreases lines.len(),
{
    if lines.len() == 0 {
        seq![]
    } else {
        let before = tidy_lines(lines.drop_last());
        if !text::blank(lines.last()) {
            before.push(text::trimmed_end(lines.last()))
        } else if before.len() == 0 || before.last().len() == 0 {
            before
        } else {
            before.push(seq![])
        }
    }
}

/// Markdown without zero-width blanks, trailing white space and needless blank lines.
pub open spec fn cleaned_markdown(input: Seq<char>) -> Seq<char> {
    text::trimmed(
        text::joined(tidy_lines(text::lines_of(text::replaced(input, '\u{200b}', ""@))), "\n"@),
    )
}

/// Markdown without zero-width blanks, trailing white space and needless blank lines.
pub fn cleanup_markdown(input: &str) -> (result: String)
    ensures
        result@ == cleaned_markdown(input@),
{
    let lines = text::lines(text::replace(input, '\u{200b}', "").as_str());
    let ghost all = text::texts(lines@);
    let mut tidy: Vec<String> = Vec::new();
    let mut i: usize = 0;
    assert(text::texts(tidy@) =~= tidy_lines(all.take(0)));
    while i < lines.len()
        invariant
            i <= lines@.len(),
            all == text::texts(lines@),
            text::texts(tidy@) == tidy_lines(all.take(i as int)),
        decreases lines@.len() - i,
    {
        assert(all.take(i + 1).drop_last() =~= all.take(i as int));
        let ghost before = text::texts(tidy@);
        if !text::is_blank(lines[i].as_str()) {
            let line = text::trim_end(lines[i].as_str());
            tidy.push(line);
            assert(text::texts(tidy@) =~= before.push(line@));
        } else if tidy.len() > 0 && !tidy[tidy.len() - 1].as_str().is_empty() {
            tidy.push(String::new());
            assert(text::texts(tidy@) =~= before.push(seq![]));
        }
        i = i + 1;
    }
    assert(all.take(i as int) =~= all);
    text::trim(text::join(&tidy, "\n").as_str())
}

/// A paragraph of its own, or nothing for a blank text.
pub open spec fn paragraph_of(content: Seq<char>) -> Seq<char> {
    let inner = text::trimmed(content);
    if inner.len() == 0 {
        seq![]
    } else {
        inner + "\n\n"@
    }
}

/// A paragraph of its own, or nothing for a blank text.
pub fn paragraph(content: &str) -> (result: String)
    ensures
        result@ == paragraph_of(content@),
{
    let content = text::trim(content);
    if content.as_str().is_empty() {
        String::new()
    } else {
        text::concat2(content.as_str(), "\n\n")
    }
}

/// A heading of the level, or nothing for a blank text.
pub open spec fn heading_of(level: int, content: Seq<char>) -> Seq<char> {
    let inner = cleaned_inline(content);
    if inner.len() == 0 {
        seq![]
    } else {
        text::repeated('#', level) + " "@ + inner + "\n\n"@
    }
}

/// A heading of the level, or nothing for a blank text.
pub fn heading(level: usize, content: &str) -> (result: String)
    ensures
        result@ == heading_of(level as int, content@),
{
    let content = cleanup_inline(content);
    if content.as_str().is_empty() {
        String::new()
    } else {
        text::concat4(text::repeat('#', level).as_str(), " ", content.as_str(), "\n\n")
    }
}

/// The text between two markers, or nothing for a blank text.
pub open spec fn wrapped_inline(marker: Seq<char>, content: Seq<char>) -> Seq<char> {
    let inner = text::trimmed(content);
    if inner.len() == 0 {
        seq![]
    } else {
        marker + inner + marker
    }
}

/// The text between two markers, or nothing for a blank text.
pub fn wrap_inline(marker: &str, content: &str) -> (result: String)
    ensures
        result@ == wrapped_inline(marker@, content@),
{
    let content = text::trim(content);
    if content.as_str().is_empty() {
        String::new()
    } else {
        text::concat3(marker, content.as_str(), marker)
    }
}

/// A line of a quotation.
pub open spec fn quoted_line(line: Seq<char>) -> Seq<char> {
    if text::blank(line) {
        ">"@
    } else {
        "> "@ + text::trimmed_end(line)
    }
}

/// The lines of a quotation.
pub open spec fn quoted_lines(lines: Seq<Seq<char>>) -> Seq<Seq<char>> {
    Seq::new(lines.len(), |i: int| quoted_line(lines[i]))
}

/// A quotation, or nothing where no text is left of it.
pub open spec fn blockquote_of(content: Seq<char>) -> Seq<char> {
    let inner = cleaned_markdown(content);
    if inner.len() == 0 {
        seq![]
    } else {
        text::joined(quoted_lines(text::lines_of(inner)), "\n"@) + "\n\n"@
    }
}

/// A quotation, or nothing where no text is left of it.
pub fn blockquote(content: &str) -> (result: String)
    ensures
        result@ == blockquote_of(content@),
{
    let content = cleanup_markdown(content);
    if content.as_str().is_empty() {
        return String::new();
    }
    let lines = text::lines(content.as_str());
    let ghost all = text::texts(lines@);
    let mut quoted: Vec<String> = Vec::new();
    let mut i: usize = 0;
    while i < lines.len()
        invariant
            i <= lines@.len(),
            all == text::texts(lines@),
            text::texts(quoted@) == quoted_lines(all).take(i as int),
        decreases lines@.len() - i,
    {
        let ghost before = text::texts(quoted@);
        let line: String = if text::is_blank(lines[i].as_str()) {
            ">".to_owned()
        } else {
            text::concat2("> ", text::trim_end(lines[i].as_str()).as_str())
        };
        quoted.push(line);
        assert(text::texts(quoted@) =~= before.push(line@));
        i = i + 1;
        assert(quoted_lines(all).take(i as int) =~= before.push(line@));
    }
    assert(quoted_lines(all).take(i as int) =~= quoted_lines(all));
    text::concat2(text::join(&quoted, "\n").as_str(), "\n\n")
}

/// What becomes of a character of an image's description.
pub open spec fn escaped_alt(alt: Seq<char>) -> Seq<char> {
    text::replaced(
        text::replaced(text::replaced(alt, '\\', "\\\\"@), '[', "\\["@),
        ']',
        "\\]"@,
    )
}

/// What becomes of a character of a link destination.
pub open spec fn destination_char(c: char) -> Seq<char> {
    if c == '(' {
        "%28"@
    } else if c == ')' {
        "%29"@
    } else if c == ' ' {
        "%20"@
    } else if c == '\n' {
        "%0A"@
    } else if c == '\r' {
        "%0D"@
    } else if c == '\t' {
        "%09"@
    } else if c == '<' {
        "%3C"@
    } else if c == '>' {
        "%3E"@
    } else if c == '\\' {
        "%5C"@
    } else {
        seq![c]
    }
}

/// What becomes of the characters of a link destination.
pub open spec fn destination_chars() -> spec_fn(char) -> Seq<char> {
    |c: char| destination_char(c)
}

/// A link destination in which nothing ends the link early.
pub open spec fn destination_of(source: Seq<char>) -> Seq<char> {
    text::expanded(source, destination_chars())
}

/// An image in Markdown.
pub open spec fn image_markdown(alt: Seq<char>, source: Seq<char>) -> Seq<char> {
    let label = escaped_alt(cleaned_inline(alt));
    "!["@ + (if label.len() == 0 {
        "图片"@
    } else {
        label
    }) + "]("@ + destination_of(source) + ")"@
}

/// A link destination in which nothing ends the link early.
fn escape_destination(source: &str) -> (result: String)
    ensures
        result@ == destination_of(source@),
{
    let chars = text::to_chars(source);
    let mut result: String = String::new();
    let mut i: usize = 0;
    while i < chars.len()
        invariant
            i <= chars@.len(),
            result@ == text::expanded(chars@.take(i as int), destination_chars()),
        decreases chars@.len() - i,
    {
        assert(chars@.take(i + 1).drop_last() =~= chars@.take(i as int));
        let c = chars[i];
        let ghost before = result@;
        if c == '(' {
            result.append("%28");
        } else if c == ')' {
            result.append("%29");
        } else if c == ' ' {
            result.append("%20");
        } else if c == '\n' {
            result.append("%0A");
        } else if c == '\r' {
            result.append("%0D");
        } else if c == '\t' {
            result.append("%09");
        } else if c == '<' {
            result.append("%3C");
        } else if c == '>' {
            result.append("%3E");
        } else if c == '\\' {
            result.append("%5C");
        } else {
            result.push(c);
            assert(result@ =~= before + seq![c]);
        }
        assert(result@ == before + destination_char(c));
        i = i + 1;
    }
    assert(chars@.take(i as int) =~= chars@);
    result
}

/// An image in Markdown: the description without what would end it early, and a placeholder
/// where none is left.
pub fn markdown_image(alt: &str, source: &str) -> (result: String)
    ensures
        result@ == image_markdown(alt@, source@),
{
    let label = cleanup_inline(alt);
    let label = text::replace(label.as_str(), '\\', "\\\\");
    let label = text::replace(label.as_str(), '[', "\\[");
    let label = text::replace(label.as_str(), ']', "\\]");
    let destination = escape_destination(source);
    let shown: &str = if label.as_str().is_empty() {
        "图片"
    } else {
        label.as_str()
    };
    text::concat5("![", shown, "](", destination.as_str(), ")")
}

/// What an element is to the Markdown rules.
#[derive(Clone, Copy)]
pub enum Tag {
    Hidden,
    Paragraph,
    Break,
    Rule,
    Strong,
    Emphasis,
    Strike,
    Code,
    Pre,
    Quote,
    Link,
    Image,
    Bullets,
    Numbers,
    Item,
    Heading(usize),
    Plain,
}

/// What an element of that name is to the Markdown rules.
pub open spec fn tag_of(tag: Seq<char>) -> Tag {
    if tag == "script"@ || tag == "style"@ || tag == "noscript"@ {
        Tag::Hidden
    } else if tag == "p"@ {
        Tag::Paragraph
    } else if tag == "br"@ {
        Tag::Break
    } else if tag == "hr"@ {
        Tag::Rule
    } else if tag == "strong"@ || tag == "b"@ {
        Tag::Strong
    } else if tag == "em"@ || tag == "i"@ {
        Tag::Emphasis
    } else if tag == "s"@ || tag == "del"@ {
        Tag::Strike
    } else if tag == "code"@ {
        Tag::Code
    } else if tag == "pre"@ {
        Tag::Pre
    } else if tag == "blockquote"@ {
        Tag::Quote
    } else if tag == "a"@ {
        Tag::Link
    } else if tag == "img"@ {
        Tag::Image
    } else if tag == "ul"@ {
        Tag::Bullets
    } else if tag == "ol"@ {
        Tag::Numbers
    } else if tag == "li"@ {
        Tag::Item
    } else if tag == "h1"@ {
        Tag::Heading(1)
    } else if tag == "h2"@ {
        Tag::Heading(2)
    } else if tag == "h3"@ {
        Tag::Heading(3)
    } else if tag == "h4"@ {
        Tag::Heading(4)
    } else if tag == "h5"@ {
        Tag::Heading(5)
    } else if tag == "h6"@ {
        Tag::Heading(6)
    } else {
        Tag::Plain
    }
}

/// What an element of that name is to the Markdown rules.
fn read_tag(tag: &str) -> (kind: Tag)
    ensures
        kind == tag_of(tag@),
{
    if text::same(tag, "script") || text::same(tag, "style") || text::same(tag, "noscript") {
        Tag::Hidden
    } else if text::same(tag, "p") {
        Tag::Paragraph
    } else if text::same(tag, "br") {
        Tag::Break
    } else if text::same(tag, "hr") {
        Tag::Rule
    } else if text::same(tag, "strong") || text::same(tag, "b") {
        Tag::Strong
    } else if text::same(tag, "em") || text::same(tag, "i") {
        Tag::Emphasis
    } else if text::same(tag, "s") || text::same(tag, "del") {
        Tag::Strike
    } else if text::same(tag, "code") {
        Tag::Code
    } else if text::same(tag, "pre") {
        Tag::Pre
    } else if text::same(tag, "blockquote") {
        Tag::Quote
    } else if text::same(tag, "a") {
        Tag::Link
    } else if text::same(tag, "img") {
        Tag::Image
    } else if text::same(tag, "ul") {
        Tag::Bullets
    } else if text::same(tag, "ol") {
        Tag::Numbers
    } else if text::same(tag, "li") {
        Tag::Item
    } else if text::same(tag, "h1") {
        Tag::Heading(1)
    } else if text::same(tag, "h2") {
        Tag::Heading(2)
    } else if text::same(tag, "h3") {
        Tag::Heading(3)
    } else if text::same(tag, "h4") {
        Tag::Heading(4)
    } else if text::same(tag, "h5") {
        Tag::Heading(5)
    } else if text::same(tag, "h6") {
        Tag::Heading(6)
    } else {
        Tag::Plain
    }
}

/// A link. Without a target the content stands alone; without a label of its own the link is
/// bare.
pub open spec fn link_of(attributes: Seq<MarkupAttribute>, content: Seq<char>) -> Seq<char> {
    match html::attribute_value(attributes, "href"@) {
        None => content,
        Some(raw) => {
            let href = zhihu::normalized_url(raw);
            let label = cleaned_inline(content);
            if label.len() == 0 || label == href {
                "<"@ + href + ">"@
            } else {
                "["@ + label + "]("@ + href + ")"@
            }
        },
    }
}

/// The trimmed value of an attribute, unless it is blank.
pub open spec fn filled(attributes: Seq<MarkupAttribute>, name: Seq<char>) -> Option<Seq<char>> {
    match html::attribute_value(attributes, name) {
        Some(value) if !text::blank(value) => Some(text::trimmed(value)),
        _ => None,
    }
}

/// Where an image comes from: the original before the lazy one before the placeholder.
pub open spec fn source_of(attributes: Seq<MarkupAttribute>) -> Option<Seq<char>> {
    match filled(attributes, "data-original"@) {
        Some(value) => Some(zhihu::normalized_url(value)),
        None => match filled(attributes, "data-actualsrc"@) {
            Some(value) => Some(zhihu::normalized_url(value)),
            None => match filled(attributes, "src"@) {
                Some(value) => Some(zhihu::normalized_url(value)),
                None => None,
            },
        },
    }
}

/// An image element in Markdown, or nothing where it has no source.
pub open spec fn image_of(attributes: Seq<MarkupAttribute>, images: Replacements) -> Seq<char> {
    match source_of(attributes) {
        None => seq![],
        Some(source) => image_markdown(
            text::trimmed(
                match html::attribute_value(attributes, "alt"@) {
                    Some(alt) => alt,
                    None => "图片"@,
                },
            ),
            images::resolved(images, source),
        ) + "\n\n"@,
    }
}

/// A link. Without a target the content stands alone; without a label of its own the link is
/// bare.
pub fn link(attributes: &Vec<HtmlAttribute>, content: &str) -> (result: String)
    ensures
        result@ == link_of(html::attribute_views(attributes@), content@),
{
    match html::find_attribute(attributes, "href") {
        None => content.to_owned(),
        Some(raw) => {
            let href = zhihu::normalize_zhihu_url(raw);
            let label = cleanup_inline(content);
            if label.as_str().is_empty() || text::same(label.as_str(), href.as_str()) {
                text::concat3("<", href.as_str(), ">")
            } else {
                text::concat5("[", label.as_str(), "](", href.as_str(), ")")
            }
        },
    }
}

/// The trimmed value of an attribute, unless it is blank.
fn filled_attribute(attributes: &Vec<HtmlAttribute>, name: &str) -> (value: Option<String>)
    ensures
        text::opt_text(value) == filled(html::attribute_views(attributes@), name@),
{
    match html::find_attribute(attributes, name) {
        Some(value) => {
            let value = text::trim(value);
            if value.as_str().is_empty() {
                None
            } else {
                Some(value)
            }
        },
        None => None,
    }
}

/// Where an image comes from: the original before the lazy one before the placeholder.
pub fn image_source(attributes: &Vec<HtmlAttribute>) -> (source: Option<String>)
    ensures
        text::opt_text(source) == source_of(html::attribute_views(attributes@)),
{
    if let Some(value) = filled_attribute(attributes, "data-original") {
        Some(zhihu::normalize_zhihu_url(value.as_str()))
    } else if let Some(value) = filled_attribute(attributes, "data-actualsrc") {
        Some(zhihu::normalize_zhihu_url(value.as_str()))
    } else if let Some(value) = filled_attribute(attributes, "src") {
        Some(zhihu::normalize_zhihu_url(value.as_str()))
    } else {
        None
    }
}

/// An image element in Markdown, or nothing where it has no source.
pub fn image(attributes: &Vec<HtmlAttribute>, images: &ImageExporter) -> (result: String)
    ensures
        result@ == image_of(html::attribute_views(attributes@), images@),
{
    match image_source(attributes) {
        None => String::new(),
        Some(source) => {
            let alt: &str = match html::find_attribute(attributes, "alt") {
                Some(alt) => alt,
                None => "图片",
            };
            let shown = markdown_image(text::trim(alt).as_str(), images.resolve(source.as_str()));
            text::concat2(shown.as_str(), "\n\n")
        },
    }
}

/// The Markdown of an element that is no list, from the Markdown of what it holds and from its
/// plain text.
pub open spec fn element_markdown(
    tag: Tag,
    attributes: Seq<MarkupAttribute>,
    content: Seq<char>,
    plain: Seq<char>,
    images: Replacements,
) -> Seq<char> {
    match tag {
        Tag::Hidden => seq![],
        Tag::Paragraph => paragraph_of(content),
        Tag::Break => "\n"@,
        Tag::Rule => "\n---\n\n"@,
        Tag::Strong => wrapped_inline("**"@, content),
        Tag::Emphasis => wrapped_inline("*"@, content),
        Tag::Strike => wrapped_inline("~~"@, content),
        Tag::Code => "`"@ + text::replaced(text::trimmed(content), '`', "\\`"@) + "`"@,
        Tag::Pre => "\n```\n"@ + text::trimmed(plain) + "\n```\n\n"@,
        Tag::Quote => blockquote_of(content),
        Tag::Link => link_of(attributes, content),
        Tag::Image => image_of(attributes, images),
        Tag::Item => "* "@ + cleaned_inline(content) + "\n"@,
        Tag::Heading(level) => heading_of(level as int, content),
        _ => content,
    }
}

/// The lines of a list, with an empty line behind them.
pub open spec fn list_of(items: Seq<char>) -> Seq<char> {
    if items.len() == 0 {
        items
    } else {
        items + "\n"@
    }
}

/// The Markdown of a node and of what stands below it.
pub open spec fn rendered(node: MarkupNode, images: Replacements) -> Seq<char>
    decreases node,
{
    match node.data {
        Markup::Text(own) => own,
        Markup::Element { tag, attributes } => match tag_of(tag) {
            Tag::Bullets => list_of(bullet_items(node.children, images)),
            Tag::Numbers => list_of(number_items(node.children, images)),
            kind => element_markdown(
                kind,
                attributes,
                rendered_in(node.children, images),
                html::text_contents(node),
                images,
            ),
        },
        Markup::Other => seq![],
    }
}

/// The Markdown of a row of nodes.
pub open spec fn rendered_in(nodes: Seq<MarkupNode>, images: Replacements) -> Seq<char>
    decreases nodes,
{
    if nodes.len() == 0 {
        seq![]
    } else {
        rendered_in(nodes.drop_last(), images) + rendered(nodes.last(), images)
    }
}

/// The lines of a bulleted list: one for each entry that is not blank; what is no entry stands
/// as it is.
pub open spec fn bullet_items(nodes: Seq<MarkupNode>, images: Replacements) -> Seq<char>
    decreases nodes,
{
    if nodes.len() == 0 {
        seq![]
    } else {
        bullet_items(nodes.drop_last(), images) + (if html::tagged(nodes.last().data, "li"@) {
            let content = cleaned_inline(rendered_in(nodes.last().children, images));
            if content.len() == 0 {
                seq![]
            } else {
                "* "@ + content + "\n"@
            }
        } else {
            rendered(nodes.last(), images)
        })
    }
}

/// How many entries of a list are not blank.
pub open spec fn filled_items(nodes: Seq<MarkupNode>, images: Replacements) -> nat
    decreases nodes,
{
    if nodes.len() == 0 {
        0
    } else {
        filled_items(nodes.drop_last(), images) + (if html::tagged(nodes.last().data, "li"@)
            && cleaned_inline(rendered_in(nodes.last().children, images)).len() > 0 {
            1nat
        } else {
            0nat
        })
    }
}

/// The lines of a numbered list: the entries that are not blank are counted from one; what is no
/// entry stands as it is.
pub open spec fn number_items(nodes: Seq<MarkupNode>, images: Replacements) -> Seq<char>
    decreases nodes,
{
    if nodes.len() == 0 {
        seq![]
    } else {
        number_items(nodes.drop_last(), images) + (if html::tagged(nodes.last().data, "li"@) {
            let content = cleaned_inline(rendered_in(nodes.last().children, images));
            if content.len() == 0 {
                seq![]
            } else {
                text::decimal(filled_items(nodes.drop_last(), images) + 1) + ". "@ + content
                    + "\n"@
            }
        } else {
            rendered(nodes.last(), images)
        })
    }
}

/// The Markdown of what stands below a node.
pub fn convert_children(node: &HtmlNode, images: &ImageExporter) -> (result: String)
    ensures
        result@ == rendered_in(node.model().children, images@),
    decreases node, 0int,
{
    let ghost nodes = node.model().children;
    let mut result: String = String::new();
    let mut i: usize = 0;
    proof {
        html::lemma_models(node.children@);
    }
    while i < node.children.len()
        invariant
            i <= node.children@.len(),
            nodes.len() == node.children@.len(),
            forall|k: int|
                0 <= k < nodes.len() ==> #[trigger] nodes[k] == node.children@[k].model(),
            result@ == rendered_in(nodes.take(i as int), images@),
        decreases node.children@.len() - i,
    {
        assert(nodes.take(i + 1).drop_last() =~= nodes.take(i as int));
        assert(nodes.take(i + 1).last() == node.children@[i as int].model());
        result.append(convert_node(&node.children[i], images).as_str());
        i = i + 1;
    }
    assert(nodes.take(i as int) =~= nodes);
    result
}

/// The Markdown of a node and of what stands below it.
pub fn convert_node(node: &HtmlNode, images: &ImageExporter) -> (result: String)
    ensures
        result@ == rendered(node.model(), images@),
    decreases node, 1int,
{
    match &node.data {
        HtmlData::Text(own) => own.clone(),
        HtmlData::Other => String::new(),
        HtmlData::Element { tag, attributes } => {
            let kind = read_tag(tag.as_str());
            match kind {
                Tag::Bullets => {
                    return unordered_list(node, images);
                },
                Tag::Numbers => {
                    return ordered_list(node, images);
                },
                _ => {},
            }
            let content = convert_children(node, images);
            match kind {
                Tag::Hidden => String::new(),
                Tag::Paragraph => paragraph(content.as_str()),
                Tag::Break => "\n".to_owned(),
                Tag::Rule => "\n---\n\n".to_owned(),
                Tag::Strong => wrap_inline("**", content.as_str()),
                Tag::Emphasis => wrap_inline("*", content.as_str()),
                Tag::Strike => wrap_inline("~~", content.as_str()),
                Tag::Code => {
                    let inner = text::replace(text::trim(content.as_str()).as_str(), '`', "\\`");
                    text::concat3("`", inner.as_str(), "`")
                },
                Tag::Pre => {
                    let inner = text::trim(node.text().as_str());
                    text::concat3("\n```\n", inner.as_str(), "\n```\n\n")
                },
                Tag::Quote => blockquote(content.as_str()),
                Tag::Link => link(attributes, content.as_str()),
                Tag::Image => image(attributes, images),
                Tag::Item => {
                    let inner = cleanup_inline(content.as_str());
                    text::concat3("* ", inner.as_str(), "\n")
                },
                Tag::Heading(level) => heading(level, content.as_str()),
                _ => content,
            }
        },
    }
}

/// A bulleted list.
pub fn unordered_list(node: &HtmlNode, images: &ImageExporter) -> (result: String)
    ensures
        result@ == list_of(bullet_items(node.model().children, images@)),
    decreases node, 0int,
{
    let ghost nodes = node.model().children;
    let mut result: String = String::new();
    let mut i: usize = 0;
    proof {
        html::lemma_models(node.children@);
    }
    while i < node.children.len()
        invariant
            i <= node.children@.len(),
            nodes.len() == node.children@.len(),
            forall|k: int|
                0 <= k < nodes.len() ==> #[trigger] nodes[k] == node.children@[k].model(),
            result@ == bullet_items(nodes.take(i as int), images@),
        decreases node.children@.len() - i,
    {
        let child = &node.children[i];
        let ghost before = result@;
        assert(nodes.take(i + 1).drop_last() =~= nodes.take(i as int));
        assert(nodes.take(i + 1).last() == child.model());
        if child.has_tag("li") {
            let content = cleanup_inline(convert_children(child, images).as_str());
            if !content.as_str().is_empty() {
                result.append(text::concat3("* ", content.as_str(), "\n").as_str());
            } else {
                assert(before + seq![] =~= before);
            }
        } else {
            result.append(convert_node(child, images).as_str());
        }
        i = i + 1;
    }
    assert(nodes.take(i as int) =~= nodes);
    if !result.as_str().is_empty() {
        result.append("\n");
    }
    result
}

/// A numbered list.
pub fn ordered_list(node: &HtmlNode, images: &ImageExporter) -> (result: String)
    ensures
        result@ == list_of(number_items(node.model().children, images@)),
    decreases node, 0int,
{
    let ghost nodes = node.model().children;
    let mut result: String = String::new();
    let mut count: usize = 0;
    let mut i: usize = 0;
    proof {
        html::lemma_models(node.children@);
    }
    while i < node.children.len()
        invariant
            i <= node.children@.len(),
            count <= i,
            nodes.len() == node.children@.len(),
            forall|k: int|
                0 <= k < nodes.len() ==> #[trigger] nodes[k] == node.children@[k].model(),
            count == filled_items(nodes.take(i as int), images@),
            result@ == number_items(nodes.take(i as int), images@),
        decreases node.children@.len() - i,
    {
        let child = &node.children[i];
        let ghost before = result@;
        assert(nodes.take(i + 1).drop_last() =~= nodes.take(i as int));
        assert(nodes.take(i + 1).last() == child.model());
        if child.has_tag("li") {
            let content = cleanup_inline(convert_children(child, images).as_str());
            if !content.as_str().is_empty() {
                count = count + 1;
                let number = text::decimal_text(count as u64);
                let line = text::concat4(number.as_str(), ". ", content.as_str(), "\n");
                result.append(line.as_str());
            } else {
                assert(before + seq![] =~= before);
            }
        } else {
            result.append(convert_node(child, images).as_str());
        }
        i = i + 1;
    }
    assert(nodes.take(i as int) =~= nodes);
    if !result.as_str().is_empty() {
        result.append("\n");
    }
    result
}

/// The lines that are kept are trimmed, not empty, and hold no line feed.
proof fn lemma_kept_lines(lines: Seq<Seq<char>>)
    requires
        forall|i: int| 0 <= i < lines.len() ==> !(#[trigger] lines[i]).contains('\n'),
    ensures
        forall|k: int|
            0 <= k < kept_lines(lines).len() ==> {
                let line = #[trigger] kept_lines(lines)[k];
                &&& line.len() > 0
                &&& !text::white_space(line.first())
                &&& !text::white_space(line.last())
                &&& !line.contains('\n')
            },
    decreases lines.len(),
{
    if lines.len() > 0 {
        let init = lines.drop_last();
        assert forall|i: int| 0 <= i < init.len() implies !(#[trigger] init[i]).contains('\n') by {
            assert(init[i] == lines[i]);
        }
        lemma_kept_lines(init);
        text::lemma_trimmed(lines.last());
        assert(!lines[lines.len() - 1].contains('\n'));
        let before = kept_lines(init);
        assert forall|k: int| 0 <= k < kept_lines(lines).len() implies ({
            let line = #[trigger] kept_lines(lines)[k];
            &&& line.len() > 0
            &&& !text::white_space(line.first())
            &&& !text::white_space(line.last())
            &&& !line.contains('\n')
        }) by {
            if k < before.len() {
                assert(kept_lines(lines)[k] == before[k]);
            } else {
                assert(kept_lines(lines)[k] == text::trimmed(lines.last()));
            }
        }
    }
}

/// Text on one line holds no line feed, has no white space at its ends, and stays as it is when it
/// is put on one line again.
pub proof fn inline_text_is_one_line(input: Seq<char>)
    ensures
        !cleaned_inline(input).contains('\n'),
        cleaned_inline(input).len() > 0 ==> !text::white_space(cleaned_inline(input).first())
            && !text::white_space(cleaned_inline(input).last()),
        cleaned_inline(cleaned_inline(input)) == cleaned_inline(input),
{
    let lines = text::lines_of(input);
    let kept = kept_lines(lines);
    let result = cleaned_inline(input);
    reveal_strlit(" ");
    text::lemma_lines_lack_feeds(input);
    lemma_kept_lines(lines);
    assert(!" "@.contains('\n'));
    text::lemma_joined_lacks(kept, " "@, '\n');
    if kept.len() > 0 {
        assert(kept[0].len() > 0 && kept[kept.len() - 1].len() > 0);
        text::lemma_joined_ends(kept, " "@);
        text::lemma_single_line(result);
        text::lemma_trimmed_fixed(result);
        let again = seq![result];
        assert(again.drop_last() =~= seq![]);
        assert(kept_lines(again.drop_last()) =~= seq![]);
        assert(kept_lines(again) =~= seq![result]);
    } else {
        assert(result =~= seq![]);
        assert(text::lines_of(result) =~= seq![]);
    }
}

/// Lines without white space at their ends, where no empty line stands at the start or behind
/// another.
pub open spec fn is_tidy(lines: Seq<Seq<char>>) -> bool {
    &&& forall|i: int|
        0 <= i < lines.len() && (#[trigger] lines[i]).len() > 0 ==> !text::white_space(
            lines[i].last(),
        ) && !lines[i].contains('\n')
    &&& lines.len() > 0 ==> lines[0].len() > 0
    &&& forall|i: int|
        0 <= i < lines.len() - 1 ==> (#[trigger] lines[i]).len() > 0 || lines[i + 1].len() > 0
}

/// Tidied lines are tidy.
proof fn lemma_tidy_lines(lines: Seq<Seq<char>>)
    requires
        forall|i: int| 0 <= i < lines.len() ==> !(#[trigger] lines[i]).contains('\n'),
    ensures
        is_tidy(tidy_lines(lines)),
    decreases lines.len(),
{
    if lines.len() > 0 {
        let init = lines.drop_last();
        let last = lines.last();
        assert forall|i: int| 0 <= i < init.len() implies !(#[trigger] init[i]).contains('\n') by {
            assert(init[i] == lines[i]);
        }
        lemma_tidy_lines(init);
        let before = tidy_lines(init);
        let after = tidy_lines(lines);
        assert(!lines[lines.len() - 1].contains('\n'));
        text::lemma_trimmed(last);
        text::lemma_stripped_end(last, text::CharClass::WhiteSpace);
        let line = text::trimmed_end(last);
        if line.contains('\n') {
            let k = choose|k: int| 0 <= k < line.len() && line[k] == '\n';
            assert(last[k] == '\n');
        }
        if !text::blank(last) && line.len() == 0 {
            assert forall|i: int| 0 <= i < last.len() implies text::white_space(
                #[trigger] last[i],
            ) by {}
        }
        assert forall|i: int| 0 <= i < after.len() && (#[trigger] after[i]).len() > 0 implies
            !text::white_space(after[i].last()) && !after[i].contains('\n') by {
            if i < before.len() {
                assert(after[i] == before[i]);
            }
        }
        assert forall|i: int| 0 <= i < after.len() - 1 implies (#[trigger] after[i]).len() > 0
            || after[i + 1].len() > 0 by {
            if i < before.len() - 1 {
                assert(after[i] == before[i] && after[i + 1] == before[i + 1]);
            } else {
                assert(after[i] == before.last());
            }
        }
        if before.len() > 0 {
            assert(after[0] == before[0]);
        }
    }
}

/// The first lines of tidy lines are tidy.
proof fn lemma_tidy_init(lines: Seq<Seq<char>>)
    requires
        is_tidy(lines),
        lines.len() > 0,
    ensures
        is_tidy(lines.drop_last()),
{
    let init = lines.drop_last();
    assert forall|i: int| 0 <= i < init.len() && (#[trigger] init[i]).len() > 0 implies
        !text::white_space(init[i].last()) && !init[i].contains('\n') by {
        assert(init[i] == lines[i]);
    }
    assert forall|i: int| 0 <= i < init.len() - 1 implies (#[trigger] init[i]).len() > 0 || init[i
        + 1].len() > 0 by {
        assert(init[i] == lines[i] && init[i + 1] == lines[i + 1]);
    }
    if init.len() > 0 {
        assert(init[0] == lines[0]);
    }
}

/// Tidy lines stay as they are.
proof fn lemma_tidy_fixed(lines: Seq<Seq<char>>)
    requires
        is_tidy(lines),
    ensures
        tidy_lines(lines) == lines,
    decreases lines.len(),
{
    if lines.len() > 0 {
        let init = lines.drop_last();
        let last = lines.last();
        lemma_tidy_init(lines);
        lemma_tidy_fixed(init);
        assert(last == lines[lines.len() - 1]);
        text::lemma_trimmed(last);
        if last.len() > 0 {
            assert(!text::white_space(last[last.len() - 1]));
            assert(!text::blank(last));
            assert(text::trimmed_end(last) == last);
        } else {
            assert(text::blank(last));
            assert(init[init.len() - 1] == lines[lines.len() - 2]);
            assert(last =~= seq![]);
        }
        assert(init.push(last) =~= lines);
    }
}

/// No line of tidy lines holds a line feed.
proof fn lemma_tidy_feedless(lines: Seq<Seq<char>>, i: int)
    requires
        is_tidy(lines),
        0 <= i < lines.len(),
    ensures
        !lines[i].contains('\n'),
{
}

/// Tidy lines that end in a line feed end in one empty line.
proof fn lemma_tidy_end(lines: Seq<Seq<char>>)
    requires
        is_tidy(lines),
        lines.len() > 0,
    ensures
        ({
            let whole = text::joined(lines, "\n"@);
            &&& whole.len() > 0
            &&& whole.last() == '\n' ==> lines.last().len() == 0 && whole.len() > 1
                && whole[whole.len() - 2] != '\n'
        }),
    decreases lines.len(),
{
    reveal_strlit("\n");
    let whole = text::joined(lines, "\n"@);
    let last = lines.last();
    assert(last == lines[lines.len() - 1]);
    lemma_tidy_feedless(lines, lines.len() - 1);
    if lines.len() > 1 {
        let init = lines.drop_last();
        let before = text::joined(init, "\n"@);
        lemma_tidy_init(lines);
        lemma_tidy_end(init);
        if last.len() > 0 {
            assert(whole.last() == last[last.len() - 1]);
        } else {
            assert(whole =~= before + "\n"@);
            assert(whole[whole.len() - 2] == before.last());
            assert(init.last() == lines[lines.len() - 2]);
        }
    } else {
        assert(whole.last() == last[last.len() - 1]);
    }
}

/// Tidy lines hold no three line feeds in a row.
proof fn lemma_tidy_runs(lines: Seq<Seq<char>>)
    requires
        is_tidy(lines),
        lines.len() > 0,
    ensures
        !text::occurs("\n\n\n"@, text::joined(lines, "\n"@)),
    decreases lines.len(),
{
    reveal_strlit("\n");
    reveal_strlit("\n\n\n");
    let run = "\n\n\n"@;
    let whole = text::joined(lines, "\n"@);
    let last = lines.last();
    assert(last == lines[lines.len() - 1]);
    lemma_tidy_feedless(lines, lines.len() - 1);
    if text::occurs(run, whole) {
        let at = choose|at: int|
            0 <= at && at + run.len() <= whole.len() && #[trigger] whole.skip(at).take(
                run.len() as int,
            ) == run;
        assert(whole[at] == whole.skip(at).take(3)[0] && run[0] == '\n');
        assert(whole[at + 1] == whole.skip(at).take(3)[1] && run[1] == '\n');
        assert(whole[at + 2] == whole.skip(at).take(3)[2] && run[2] == '\n');
        if lines.len() == 1 {
            assert(last[at] == '\n');
        } else {
            let init = lines.drop_last();
            let before = text::joined(init, "\n"@);
            lemma_tidy_init(lines);
            lemma_tidy_runs(init);
            lemma_tidy_end(init);
            if at + 2 > before.len() {
                assert(whole[at + 2] == last[at + 2 - before.len() - 1]);
            } else if at + 2 == before.len() {
                assert(before.last() == whole[at + 1]);
                assert(before[before.len() - 2] == whole[at]);
            } else {
                assert(before.skip(at).take(3) =~= run);
            }
        }
    }
}

/// Tidy lines without an empty line at the end.
spec fn filled_lines(lines: Seq<Seq<char>>) -> Seq<Seq<char>> {
    if lines.last().len() == 0 {
        lines.drop_last()
    } else {
        lines
    }
}

/// Lines without white space before the first.
spec fn unindented(lines: Seq<Seq<char>>) -> Seq<Seq<char>> {
    lines.update(0, text::stripped_start(lines[0], text::CharClass::WhiteSpace))
}

/// Without an empty line at the end tidy lines are tidy, and something is left.
proof fn lemma_filled_lines(lines: Seq<Seq<char>>)
    requires
        is_tidy(lines),
        lines.len() > 0,
    ensures
        is_tidy(filled_lines(lines)),
        filled_lines(lines).len() > 0,
        filled_lines(lines).last().len() > 0,
        text::joined(lines, "\n"@) == text::joined(filled_lines(lines), "\n"@) + (
        if lines.last().len() == 0 {
            "\n"@
        } else {
            seq![]
        }),
{
    let core = filled_lines(lines);
    assert(lines.last() == lines[lines.len() - 1]);
    if lines.last().len() == 0 {
        assert(lines[lines.len() - 2].len() > 0);
        assert(core.last() == lines[lines.len() - 2]);
        assert forall|i: int| 0 <= i < core.len() && (#[trigger] core[i]).len() > 0 implies
            !text::white_space(core[i].last()) && !core[i].contains('\n') by {
            assert(core[i] == lines[i]);
        }
        assert forall|i: int| 0 <= i < core.len() - 1 implies (#[trigger] core[i]).len() > 0
            || core[i + 1].len() > 0 by {
            assert(core[i] == lines[i] && core[i + 1] == lines[i + 1]);
        }
        assert(core[0] == lines[0]);
        assert(text::joined(lines, "\n"@) =~= text::joined(core, "\n"@) + "\n"@);
    } else {
        assert(text::joined(core, "\n"@) + seq![] =~= text::joined(core, "\n"@));
    }
}

/// Without white space before the first line tidy lines are tidy.
proof fn lemma_unindented(lines: Seq<Seq<char>>)
    requires
        is_tidy(lines),
        lines.len() > 0,
        lines.last().len() > 0,
    ensures
        is_tidy(unindented(lines)),
        unindented(lines).len() > 0,
        unindented(lines)[0].len() > 0,
        !text::white_space(unindented(lines)[0].first()),
        unindented(lines).last().len() > 0,
        !text::white_space(unindented(lines).last().last()),
{
    let class = text::CharClass::WhiteSpace;
    let left = unindented(lines);
    let first = lines[0];
    let start = text::stripped_start(first, class);
    text::lemma_stripped_start(first, class);
    if start.len() == 0 {
        assert(class.has(first[first.len() - 1]));
    }
    assert(start.last() == first.last());
    assert(left[0] == start);
    assert(left.last() == left[left.len() - 1]);
    assert(lines.last() == lines[lines.len() - 1]);
    assert forall|i: int| 0 <= i < left.len() && (#[trigger] left[i]).len() > 0 implies
        !text::white_space(left[i].last()) && !left[i].contains('\n') by {
        if i > 0 {
            assert(left[i] == lines[i]);
        } else if start.contains('\n') {
            let k = choose|k: int| 0 <= k < start.len() && start[k] == '\n';
            assert(first[first.len() - start.len() + k] == '\n');
            assert(lines[0].contains('\n'));
        }
    }
    assert forall|i: int| 0 <= i < left.len() - 1 implies (#[trigger] left[i]).len() > 0 || left[i
        + 1].len() > 0 by {
        if i > 0 {
            assert(left[i] == lines[i] && left[i + 1] == lines[i + 1]);
        }
    }
}

/// Where the first line has something to stop at, stripping the start of the whole strips it.
proof fn lemma_unindented_joined(lines: Seq<Seq<char>>, ending: Seq<char>)
    requires
        lines.len() > 0,
        unindented(lines)[0].len() > 0,
    ensures
        text::stripped_start(text::joined(lines, "\n"@) + ending, text::CharClass::WhiteSpace)
            == text::joined(unindented(lines), "\n"@) + ending,
{
    let class = text::CharClass::WhiteSpace;
    let first = lines[0];
    let start = text::stripped_start(first, class);
    let left = unindented(lines);
    assert(left[0] == start);
    let tail = if lines.len() > 1 {
        "\n"@ + text::joined(lines.drop_first(), "\n"@)
    } else {
        seq![]
    };
    if lines.len() > 1 {
        text::lemma_joined_front(lines, "\n"@);
        text::lemma_joined_front(left, "\n"@);
        assert(left.drop_first() =~= lines.drop_first());
    }
    assert(text::joined(lines, "\n"@) + ending =~= first + (tail + ending));
    assert(text::joined(left, "\n"@) + ending =~= start + (tail + ending));
    text::lemma_stripped_start_concat(first, tail + ending, class);
}

/// The lines that are left of tidy lines when the whole is trimmed: without an empty line at the
/// end, and without white space before the first.
spec fn trimmed_lines(lines: Seq<Seq<char>>) -> Seq<Seq<char>> {
    unindented(filled_lines(lines))
}

/// Trimming tidy lines leaves tidy lines.
proof fn lemma_trimmed_lines(lines: Seq<Seq<char>>)
    requires
        is_tidy(lines),
        lines.len() > 0,
    ensures
        is_tidy(trimmed_lines(lines)),
        trimmed_lines(lines).len() > 0,
        trimmed_lines(lines).last().len() > 0,
        text::trimmed(text::joined(lines, "\n"@)) == text::joined(trimmed_lines(lines), "\n"@),
{
    reveal_strlit("\n");
    let class = text::CharClass::WhiteSpace;
    let core = filled_lines(lines);
    let left = trimmed_lines(lines);
    let ending = if lines.last().len() == 0 {
        "\n"@
    } else {
        seq![]
    };
    lemma_filled_lines(lines);
    lemma_unindented(core);
    lemma_unindented_joined(core, ending);
    let whole = text::joined(left, "\n"@);
    text::lemma_joined_ends(left, "\n"@);
    assert(text::stripped_end(whole, class) == whole);
    if ending.len() > 0 {
        assert((whole + ending).drop_last() =~= whole);
        assert((whole + ending).last() == '\n');
        assert(text::white_space('\n'));
        assert(text::stripped_end(whole + ending, class) == text::stripped_end(whole, class));
    } else {
        assert(whole + ending =~= whole);
    }
}

/// The lines that are tidied lack what the lines lack.
proof fn lemma_tidy_lacks(lines: Seq<Seq<char>>, c: char)
    requires
        forall|i: int| 0 <= i < lines.len() ==> !(#[trigger] lines[i]).contains(c),
    ensures
        forall|k: int|
            0 <= k < tidy_lines(lines).len() ==> !(#[trigger] tidy_lines(lines)[k]).contains(c),
    decreases lines.len(),
{
    if lines.len() > 0 {
        let init = lines.drop_last();
        let last = lines.last();
        assert forall|i: int| 0 <= i < init.len() implies !(#[trigger] init[i]).contains(c) by {
            assert(init[i] == lines[i]);
        }
        lemma_tidy_lacks(init, c);
        text::lemma_stripped_end(last, text::CharClass::WhiteSpace);
        let line = text::trimmed_end(last);
        if line.contains(c) {
            let k = choose|k: int| 0 <= k < line.len() && line[k] == c;
            assert(last[k] == c);
            assert(lines[lines.len() - 1].contains(c));
        }
        assert forall|k: int| 0 <= k < tidy_lines(lines).len() implies !(
        #[trigger] tidy_lines(lines)[k]).contains(c) by {
            if k < tidy_lines(init).len() {
                assert(tidy_lines(lines)[k] == tidy_lines(init)[k]);
            }
        }
    }
}

/// Cleaned Markdown holds no zero-width blank and no white space at its ends, its lines are tidy,
/// and it stays as it is when it is cleaned again.
pub proof fn cleaned_markdown_is_tidy(input: Seq<char>)
    ensures
        ({
            let output = cleaned_markdown(input);
            &&& !output.contains('\u{200b}')
            &&& output == text::trimmed(output)
            &&& output.len() > 0 ==> !text::white_space(output.first()) && !text::white_space(
                output.last(),
            )
            &&& is_tidy(text::lines_of(output))
            &&& !text::occurs("\n\n\n"@, output)
            &&& cleaned_markdown(output) == output
        }),
{
    reveal_strlit("");
    reveal_strlit("\n");
    let blankless = text::replaced(input, '\u{200b}', ""@);
    let lines = text::lines_of(blankless);
    let tidy = tidy_lines(lines);
    let output = cleaned_markdown(input);
    text::lemma_replaced_lacks(input, '\u{200b}', ""@, '\u{200b}');
    text::lemma_lines_lack(blankless, '\u{200b}');
    text::lemma_lines_lack_feeds(blankless);
    lemma_tidy_lines(lines);
    lemma_tidy_lacks(lines, '\u{200b}');
    assert(!"\n"@.contains('\u{200b}'));
    text::lemma_joined_lacks(tidy, "\n"@, '\u{200b}');
    text::lemma_trimmed(text::joined(tidy, "\n"@));
    text::lemma_replaced_absent(output, '\u{200b}', ""@);
    if tidy.len() > 0 {
        let left = trimmed_lines(tidy);
        lemma_trimmed_lines(tidy);
        assert forall|i: int| 0 <= i < left.len() implies text::one_line(#[trigger] left[i]) by {}
        text::lemma_lines_of_lines(left);
        lemma_tidy_fixed(left);
        lemma_tidy_runs(left);
        text::lemma_trimmed_fixed(output);
    } else {
        reveal_strlit("\n\n\n");
        assert(output =~= seq![]);
        assert(text::lines_of(output) =~= seq![]);
        assert(tidy_lines(text::lines_of(output)) =~= seq![]);
    }
}

/// The lines that hold more than white space, without the white space at their ends.
pub open spec fn shown_lines(lines: Seq<Seq<char>>) -> Seq<Seq<char>>
    decreases lines.len(),
{
    if lines.len() == 0 {
        seq![]
    } else {
        let before = shown_lines(lines.drop_last());
        if text::blank(lines.last()) {
            before
        } else {
            before.push(text::trimmed_end(lines.last()))
        }
    }
}

/// Lines without the white space before the first.
pub open spec fn outdented(lines: Seq<Seq<char>>) -> Seq<Seq<char>> {
    if lines.len() == 0 {
        lines
    } else {
        lines.update(0, text::stripped_start(lines[0], text::CharClass::WhiteSpace))
    }
}

/// A text that is not blank keeps something when its end is trimmed, and trimming its end again
/// takes nothing away.
proof fn lemma_trimmed_end(line: Seq<char>)
    requires
        !text::blank(line),
    ensures
        !text::blank(text::trimmed_end(line)),
        text::trimmed_end(text::trimmed_end(line)) == text::trimmed_end(line),
{
    let kept = text::trimmed_end(line);
    text::lemma_trimmed(line);
    text::lemma_trimmed(kept);
    text::lemma_stripped_end(line, text::CharClass::WhiteSpace);
    if kept.len() == 0 {
        assert forall|i: int| 0 <= i < line.len() implies text::white_space(#[trigger] line[i]) by {}
    } else {
        assert(!text::white_space(kept[kept.len() - 1]));
    }
}

/// Tidying keeps the lines that hold something.
proof fn lemma_tidy_shows(lines: Seq<Seq<char>>)
    ensures
        shown_lines(tidy_lines(lines)) == shown_lines(lines),
    decreases lines.len(),
{
    if lines.len() > 0 {
        let init = lines.drop_last();
        let last = lines.last();
        let before = tidy_lines(init);
        lemma_tidy_shows(init);
        if !text::blank(last) {
            lemma_trimmed_end(last);
            assert(before.push(text::trimmed_end(last)).drop_last() =~= before);
        } else {
            let empty: Seq<char> = seq![];
            text::lemma_trimmed(empty);
            assert(text::blank(empty));
            assert(before.push(empty).drop_last() =~= before);
        }
    }
}

/// A first line that holds something is the first that is shown.
proof fn lemma_shown_front(lines: Seq<Seq<char>>)
    requires
        lines.len() > 0,
        !text::blank(lines[0]),
    ensures
        shown_lines(lines) == seq![text::trimmed_end(lines[0])] + shown_lines(lines.drop_first()),
    decreases lines.len(),
{
    let rest = lines.drop_first();
    let first = seq![text::trimmed_end(lines[0])];
    if lines.len() == 1 {
        assert(shown_lines(lines.drop_last()) =~= seq![]);
        assert(shown_lines(rest) =~= seq![]);
        assert(shown_lines(lines) =~= first + shown_lines(rest));
    } else {
        let init = lines.drop_last();
        lemma_shown_front(init);
        assert(init.drop_first() =~= rest.drop_last());
        assert(rest.last() == lines.last());
        assert(shown_lines(lines) =~= first + shown_lines(rest));
    }
}

/// A line that ends in no white space holds something and is shown as it is.
proof fn lemma_closed_line(line: Seq<char>)
    requires
        line.len() > 0,
        !text::white_space(line.last()),
    ensures
        !text::blank(line),
        text::trimmed_end(line) == line,
{
    text::lemma_trimmed(line);
    assert(!text::white_space(line[line.len() - 1]));
}

/// Another first line is shown in place of the first.
proof fn lemma_shown_first(lines: Seq<Seq<char>>, start: Seq<char>)
    requires
        lines.len() > 0,
        lines[0].len() > 0,
        !text::white_space(lines[0].last()),
        start.len() > 0,
        !text::white_space(start.last()),
    ensures
        shown_lines(lines).len() > 0,
        shown_lines(lines)[0] == lines[0],
        shown_lines(lines.update(0, start)) == shown_lines(lines).update(0, start),
{
    let other = lines.update(0, start);
    lemma_closed_line(lines[0]);
    lemma_closed_line(start);
    lemma_shown_front(lines);
    lemma_shown_front(other);
    assert(other.drop_first() =~= lines.drop_first());
    let rest = shown_lines(lines.drop_first());
    assert((seq![lines[0]] + rest).update(0, start) =~= seq![start] + rest);
}

/// Trimming tidy lines as a whole keeps the lines that hold something, the first without the white
/// space before it.
proof fn lemma_trimmed_lines_show(lines: Seq<Seq<char>>)
    requires
        is_tidy(lines),
        lines.len() > 0,
    ensures
        shown_lines(trimmed_lines(lines)) == outdented(shown_lines(lines)),
{
    let core = filled_lines(lines);
    let left = trimmed_lines(lines);
    lemma_filled_lines(lines);
    lemma_unindented(core);
    assert(shown_lines(core) == shown_lines(lines)) by {
        if lines.last().len() == 0 {
            text::lemma_trimmed(lines.last());
        }
    }
    assert(!text::white_space(core[0].last()));
    assert(!text::white_space(left[0].last()));
    lemma_shown_first(core, left[0]);
}

/// Cleaning loses no text: the lines of cleaned Markdown that hold something are those of the text
/// without zero-width blanks, in order, each without the white space at its end, and the first
/// without the white space before it.
pub proof fn cleaning_loses_no_text(input: Seq<char>)
    ensures
        shown_lines(text::lines_of(cleaned_markdown(input))) == outdented(
            shown_lines(text::lines_of(text::replaced(input, '\u{200b}', ""@))),
        ),
{
    let blankless = text::replaced(input, '\u{200b}', ""@);
    let lines = text::lines_of(blankless);
    let tidy = tidy_lines(lines);
    let output = cleaned_markdown(input);
    text::lemma_lines_lack_feeds(blankless);
    lemma_tidy_lines(lines);
    lemma_tidy_shows(lines);
    if tidy.len() > 0 {
        let left = trimmed_lines(tidy);
        lemma_trimmed_lines(tidy);
        lemma_trimmed_lines_show(tidy);
        assert forall|i: int| 0 <= i < left.len() implies text::one_line(#[trigger] left[i]) by {}
        text::lemma_lines_of_lines(left);
    } else {
        assert(output =~= seq![]);
        assert(text::lines_of(output) =~= seq![]);
        assert(shown_lines(tidy) =~= seq![]);
    }
}

/// A tidy line is marked as one of a quotation.
proof fn lemma_quoted_line(line: Seq<char>)
    requires
        line.len() > 0 ==> !text::white_space(line.last()),
        !line.contains('\n'),
    ensures
        text::one_line(quoted_line(line)),
        text::begins(quoted_line(line), ">"@),
{
    reveal_strlit(">");
    reveal_strlit("> ");
    text::lemma_trimmed(line);
    text::lemma_stripped_end(line, text::CharClass::WhiteSpace);
    if !text::blank(line) {
        assert(line.len() > 0);
        assert(text::trimmed_end(line) == line);
        assert(!"> "@.contains('\n'));
        text::lemma_concat_lacks("> "@, line, '\n');
    }
    assert(quoted_line(line).take(1) =~= ">"@);
}

/// Lines with two line feeds behind them are these lines and an empty one.
proof fn lemma_lines_and_feeds(lines: Seq<Seq<char>>)
    requires
        lines.len() > 0,
        forall|i: int| 0 <= i < lines.len() ==> text::one_line(#[trigger] lines[i]),
    ensures
        text::lines_of(text::joined(lines, "\n"@) + "\n\n"@) == lines.push(seq![]),
{
    reveal_strlit("\n");
    reveal_strlit("\n\n");
    text::lemma_lines_of_joined(lines, "\n"@);
    assert(text::joined(lines, "\n"@) + "\n\n"@ =~= text::joined(lines, "\n"@) + "\n"@ + "\n"@);
    let end = "\n"@;
    text::lemma_position_is(end, '\n', 0);
    assert(end.take(0) =~= seq![]);
    assert(end.skip(1) =~= seq![]);
    assert(text::lines_of(end.skip(1)) =~= seq![]);
    assert(text::lines_of(end) =~= seq![seq![]]);
    assert(lines + seq![seq![]] =~= lines.push(seq![]));
}

/// Every line of a quotation is marked as one, and an empty line ends it.
pub proof fn quotations_are_marked(content: Seq<char>)
    ensures
        ({
            let lines = text::lines_of(blockquote_of(content));
            let inner = text::lines_of(cleaned_markdown(content));
            if inner.len() == 0 {
                lines.len() == 0
            } else {
                &&& lines == quoted_lines(inner).push(seq![])
                &&& forall|i: int| 0 <= i < inner.len() ==> text::begins(#[trigger] lines[i], ">"@)
            }
        }),
{
    let output = cleaned_markdown(content);
    let inner = text::lines_of(output);
    let quoted = quoted_lines(inner);
    cleaned_markdown_is_tidy(content);
    if output.len() > 0 {
        text::lemma_position(output, '\n');
        assert(inner.len() > 0);
        text::lemma_lines_lack_feeds(output);
        assert forall|i: int| 0 <= i < quoted.len() implies text::one_line(#[trigger] quoted[i])
            && text::begins(quoted[i], ">"@) by {
            lemma_quoted_line(inner[i]);
        }
        lemma_lines_and_feeds(quoted);
    } else {
        assert(output =~= seq![]);
        assert(inner =~= seq![]);
        assert(text::lines_of(blockquote_of(content)) =~= seq![]);
    }
}

/// Whether the character would end a link destination, or have a meaning of its own in it.
pub open spec fn ends_destination(c: char) -> bool {
    ||| c == '('
    ||| c == ')'
    ||| c == ' '
    ||| c == '\n'
    ||| c == '\r'
    ||| c == '\t'
    ||| c == '<'
    ||| c == '>'
    ||| c == '\\'
}

/// Nothing in the destination of an image ends it early.
pub proof fn destinations_are_whole(source: Seq<char>)
    ensures
        forall|i: int|
            0 <= i < destination_of(source).len() ==> !ends_destination(
                #[trigger] destination_of(source)[i],
            ),
{
    reveal_strlit("%28");
    reveal_strlit("%29");
    reveal_strlit("%20");
    reveal_strlit("%0A");
    reveal_strlit("%0D");
    reveal_strlit("%09");
    reveal_strlit("%3C");
    reveal_strlit("%3E");
    reveal_strlit("%5C");
    assert forall|i: int| 0 <= i < destination_of(source).len() implies !ends_destination(
        #[trigger] destination_of(source)[i],
    ) by {
        let c = destination_of(source)[i];
        if ends_destination(c) {
            assert forall|k: int| 0 <= k < source.len() implies !destination_chars()(
                #[trigger] source[k],
            ).contains(c) by {
                assert(destination_chars()(source[k]) == destination_char(source[k]));
            }
            text::lemma_expanded_lacks(source, destination_chars(), c);
            assert(destination_of(source).contains(c));
        }
    }
}

/// What becomes of a character of an image's description.
pub open spec fn alt_char(c: char) -> Seq<char> {
    if c == '\\' || c == '[' || c == ']' {
        seq!['\\', c]
    } else {
        seq![c]
    }
}

/// What becomes of the characters of an image's description.
pub open spec fn alt_chars() -> spec_fn(char) -> Seq<char> {
    |c: char| alt_char(c)
}

/// In the description of an image each bracket and each backslash is escaped once, and nothing
/// else is changed.
pub proof fn descriptions_are_escaped(alt: Seq<char>)
    ensures
        escaped_alt(alt) == text::expanded(alt, alt_chars()),
    decreases alt.len(),
{
    reveal_strlit("\\\\");
    reveal_strlit("\\[");
    reveal_strlit("\\]");
    if alt.len() > 0 {
        let init = alt.drop_last();
        let c = alt.last();
        descriptions_are_escaped(init);
        let slashes = text::replacement('\\', "\\\\"@);
        let opens = text::replacement('[', "\\["@);
        let closes = text::replacement(']', "\\]"@);
        let one = text::expanded(init, slashes);
        let two = text::expanded(one, opens);
        text::lemma_expanded_concat(one, slashes(c), opens);
        text::lemma_expanded_concat(two, text::expanded(slashes(c), opens), closes);
        text::lemma_expanded_few(c, c, opens);
        text::lemma_expanded_few('\\', c, closes);
        text::lemma_expanded_few(c, c, closes);
        assert("\\\\"@ =~= seq!['\\', '\\']);
        assert("\\["@ =~= seq!['\\', '[']);
        assert("\\]"@ =~= seq!['\\', ']']);
        assert(text::expanded(slashes(c), opens) =~= (if c == '[' {
            seq!['\\', '[']
        } else {
            slashes(c)
        }));
        assert(text::expanded(text::expanded(slashes(c), opens), closes) =~= alt_char(c));
        assert(alt_chars()(c) == alt_char(c));
    }
}

/// Whether images below an element of that name are left alone.
pub open spec fn shields(data: Markup) -> bool {
    ||| html::tagged(data, "script"@)
    ||| html::tagged(data, "style"@)
    ||| html::tagged(data, "noscript"@)
    ||| html::tagged(data, "pre"@)
    ||| html::tagged(data, "code"@)
}

/// The source of the node itself, where it is an image with one.
pub open spec fn own_source(data: Markup) -> Seq<Seq<char>> {
    match data {
        Markup::Element { tag, attributes } => if tag == "img"@ {
            match source_of(attributes) {
                Some(source) => seq![source],
                None => seq![],
            }
        } else {
            seq![]
        },
        _ => seq![],
    }
}

/// The sources of the images in a tree, in order, without those below a shielding element.
pub open spec fn sources_in_tree(node: MarkupNode) -> Seq<Seq<char>>
    decreases node,
{
    own_source(node.data) + (if shields(node.data) {
        seq![]
    } else {
        sources_in_row(node.children)
    })
}

/// The sources of the images in a row of trees.
pub open spec fn sources_in_row(nodes: Seq<MarkupNode>) -> Seq<Seq<char>>
    decreases nodes,
{
    if nodes.len() == 0 {
        seq![]
    } else {
        sources_in_row(nodes.drop_last()) + sources_in_tree(nodes.last())
    }
}

/// The document that holds a piece of HTML in its body.
pub open spec fn document_text(fragment: Seq<char>) -> Seq<char> {
    "<!doctype html><body>"@ + fragment + "</body>"@
}

/// Whether the document that holds a piece of HTML is short enough for the parser. A blank piece is
/// not parsed.
pub open spec fn parsable(fragment: Seq<char>) -> bool {
    text::blank(fragment) || document_text(fragment).len() <= html::MAX_DOCUMENT_CHARS
}

/// The document tree of a piece of HTML.
pub open spec fn document_of(fragment: Seq<char>) -> MarkupNode {
    html::tree_of(html::parsed_html(document_text(fragment)))
}

/// The Markdown of a document.
pub open spec fn document_markdown(document: MarkupNode, images: Replacements) -> Seq<char> {
    cleaned_markdown(rendered_in(html::body_of(document).children, images))
}

/// The Markdown of a piece of HTML.
pub open spec fn markdown_of(fragment: Seq<char>, images: Replacements) -> Seq<char> {
    if text::blank(fragment) {
        seq![]
    } else {
        document_markdown(document_of(fragment), images)
    }
}

/// The Markdown of a piece of HTML is clean: no zero-width blank, no white space at its ends, and
/// tidy lines.
pub proof fn converted_html_is_tidy(fragment: Seq<char>, images: Replacements)
    ensures
        ({
            let output = markdown_of(fragment, images);
            &&& !output.contains('\u{200b}')
            &&& is_tidy(text::lines_of(output))
            &&& cleaned_markdown(output) == output
        }),
{
    let input = rendered_in(html::body_of(document_of(fragment)).children, images);
    cleaned_markdown_is_tidy(input);
    if text::blank(fragment) {
        cleaned_markdown_is_tidy(seq![]);
        assert(text::replaced(seq![], '\u{200b}', ""@) =~= seq![]);
        assert(text::lines_of(seq![]) =~= seq![]);
        assert(tidy_lines(text::lines_of(seq![])) =~= seq![]);
        assert(cleaned_markdown(seq![]) =~= seq![]);
    }
}

/// The sources of the images of a piece of HTML.
pub open spec fn image_sources_of(fragment: Seq<char>) -> Seq<Seq<char>> {
    if text::blank(fragment) {
        seq![]
    } else {
        sources_in_tree(html::body_of(document_of(fragment)))
    }
}

/// The sources of all images in a tree, also of those that are not fetched.
pub open spec fn links_in_tree(node: MarkupNode) -> Seq<Seq<char>>
    decreases node,
{
    own_source(node.data) + links_in_row(node.children)
}

/// The sources of all images in a row of trees.
pub open spec fn links_in_row(nodes: Seq<MarkupNode>) -> Seq<Seq<char>>
    decreases nodes,
{
    if nodes.len() == 0 {
        seq![]
    } else {
        links_in_row(nodes.drop_last()) + links_in_tree(nodes.last())
    }
}

/// The sources of all images of a piece of HTML.
pub open spec fn image_links_of(fragment: Seq<char>) -> Seq<Seq<char>> {
    if text::blank(fragment) {
        seq![]
    } else {
        links_in_tree(html::body_of(document_of(fragment)))
    }
}

/// Whether the sources stand for the same links on both sides.
pub open spec fn agree(left: Replacements, right: Replacements, sources: Seq<Seq<char>>) -> bool {
    forall|i: int|
        0 <= i < sources.len() ==> images::resolved(left, #[trigger] sources[i])
            == images::resolved(right, sources[i])
}

/// What agrees on a list agrees on its parts.
pub proof fn lemma_agree_parts(
    left: Replacements,
    right: Replacements,
    first: Seq<Seq<char>>,
    second: Seq<Seq<char>>,
)
    requires
        agree(left, right, first + second),
    ensures
        agree(left, right, first),
        agree(left, right, second),
{
    assert forall|i: int| 0 <= i < first.len() implies images::resolved(left, #[trigger] first[i])
        == images::resolved(right, first[i]) by {
        assert((first + second)[i] == first[i]);
    }
    assert forall|i: int| 0 <= i < second.len() implies images::resolved(
        left,
        #[trigger] second[i],
    ) == images::resolved(right, second[i]) by {
        assert((first + second)[first.len() + i] == second[i]);
    }
}

/// The Markdown of a tree depends on the links of its images alone.
proof fn lemma_tree_depends(node: MarkupNode, left: Replacements, right: Replacements)
    requires
        agree(left, right, links_in_tree(node)),
    ensures
        rendered(node, left) == rendered(node, right),
    decreases node,
{
    lemma_agree_parts(left, right, own_source(node.data), links_in_row(node.children));
    lemma_row_depends(node.children, left, right);
    if let Markup::Element { tag, attributes } = node.data {
        if tag_of(tag) == Tag::Image {
            if let Some(source) = source_of(attributes) {
                assert(own_source(node.data)[0] == source);
            }
        }
    }
}

/// The Markdown of a row of trees depends on the links of their images alone.
proof fn lemma_row_depends(nodes: Seq<MarkupNode>, left: Replacements, right: Replacements)
    requires
        agree(left, right, links_in_row(nodes)),
    ensures
        rendered_in(nodes, left) == rendered_in(nodes, right),
        bullet_items(nodes, left) == bullet_items(nodes, right),
        filled_items(nodes, left) == filled_items(nodes, right),
        number_items(nodes, left) == number_items(nodes, right),
    decreases nodes,
{
    if nodes.len() > 0 {
        let last = nodes.last();
        lemma_agree_parts(left, right, links_in_row(nodes.drop_last()), links_in_tree(last));
        lemma_agree_parts(left, right, own_source(last.data), links_in_row(last.children));
        lemma_row_depends(nodes.drop_last(), left, right);
        lemma_tree_depends(last, left, right);
        lemma_row_depends(last.children, left, right);
    }
}

/// The Markdown of a piece of HTML depends on the links of its own images alone: what is recorded
/// for other images never changes it, whenever that happens.
pub proof fn markdown_depends_on_own_images(
    fragment: Seq<char>,
    left: Replacements,
    right: Replacements,
)
    requires
        agree(left, right, image_links_of(fragment)),
    ensures
        markdown_of(fragment, left) == markdown_of(fragment, right),
{
    if !text::blank(fragment) {
        let body = html::body_of(document_of(fragment));
        lemma_agree_parts(left, right, own_source(body.data), links_in_row(body.children));
        lemma_row_depends(body.children, left, right);
    }
}

/// Whether images below the node are left alone.
fn is_shield(node: &HtmlNode) -> (yes: bool)
    ensures
        yes == shields(node.data@),
{
    node.has_tag("script") || node.has_tag("style") || node.has_tag("noscript") || node.has_tag(
        "pre",
    ) || node.has_tag("code")
}

/// Adds the sources of the images in a tree, in order, without those below a shielding element.
fn collect_sources(node: &HtmlNode, sources: &mut Vec<String>)
    ensures
        text::texts(final(sources)@) == text::texts(old(sources)@) + sources_in_tree(node.model()),
    decreases node,
{
    let ghost start = text::texts(sources@);
    match &node.data {
        HtmlData::Element { tag, attributes } => {
            if text::same(tag.as_str(), "img") {
                if let Some(source) = image_source(attributes) {
                    sources.push(source);
                    assert(text::texts(sources@) =~= start + seq![source@]);
                }
            }
        },
        _ => {},
    }
    let ghost own = text::texts(sources@);
    assert(own =~= start + own_source(node.data@));
    if is_shield(node) {
        assert(own =~= start + sources_in_tree(node.model()));
        return;
    }
    let ghost nodes = node.model().children;
    let mut i: usize = 0;
    proof {
        html::lemma_models(node.children@);
    }
    assert(own =~= own + sources_in_row(nodes.take(0)));
    while i < node.children.len()
        invariant
            i <= node.children@.len(),
            nodes.len() == node.children@.len(),
            forall|k: int|
                0 <= k < nodes.len() ==> #[trigger] nodes[k] == node.children@[k].model(),
            text::texts(sources@) == own + sources_in_row(nodes.take(i as int)),
        decreases node.children@.len() - i,
    {
        assert(nodes.take(i + 1).drop_last() =~= nodes.take(i as int));
        assert(nodes.take(i + 1).last() == node.children@[i as int].model());
        collect_sources(&node.children[i], sources);
        i = i + 1;
        assert(text::texts(sources@) =~= own + sources_in_row(nodes.take(i as int)));
    }
    assert(nodes.take(i as int) =~= nodes);
    assert(own + sources_in_row(nodes) =~= start + sources_in_tree(node.model()));
}

/// The body of a document, or the document itself where it has none.
fn find_body(document: &HtmlNode) -> (body: &HtmlNode)
    ensures
        body.model() == html::body_of(document.model()),
{
    match document.find("body") {
        Some(body) => body,
        None => document,
    }
}

/// The sources of the images that a document shows.
pub fn document_image_sources(document: &HtmlNode) -> (sources: Vec<String>)
    ensures
        text::texts(sources@) == sources_in_tree(html::body_of(document.model())),
{
    let mut sources: Vec<String> = Vec::new();
    collect_sources(find_body(document), &mut sources);
    assert(text::texts(sources@) =~= sources_in_tree(html::body_of(document.model())));
    sources
}

/// The Markdown of a document.
pub fn render_document(document: &HtmlNode, images: &ImageExporter) -> (result: String)
    ensures
        result@ == document_markdown(document.model(), images@),
{
    cleanup_markdown(convert_children(find_body(document), images).as_str())
}

/// Whether a piece of HTML is short enough for the parser.
pub fn is_parsable(fragment: &str) -> (yes: bool)
    ensures
        yes == parsable(fragment@),
{
    proof {
        reveal_strlit("<!doctype html><body>");
        reveal_strlit("</body>");
    }
    fragment.unicode_len() <= html::MAX_DOCUMENT_CHARS - 28 || text::is_blank(fragment)
}

/// The document tree of a piece of HTML.
fn parse_fragment(fragment: &str) -> (document: HtmlNode)
    requires
        document_text(fragment@).len() <= html::MAX_DOCUMENT_CHARS,
    ensures
        document.model() == document_of(fragment@),
{
    html::parse_document(
        text::concat3("<!doctype html><body>", fragment, "</body>").as_str(),
    )
}

/// The sources of the images of a piece of HTML, in the order in which they are to be fetched.
pub fn html_image_sources(fragment: &str) -> (sources: Vec<String>)
    requires
        parsable(fragment@),
    ensures
        text::texts(sources@) == image_sources_of(fragment@),
{
    if text::is_blank(fragment) {
        let none: Vec<String> = Vec::new();
        assert(text::texts(none@) =~= seq![]);
        return none;
    }
    document_image_sources(&parse_fragment(fragment))
}

/// The Markdown of a piece of HTML, with the images as `images` has them.
pub fn html_to_markdown(fragment: &str, images: &ImageExporter) -> (result: String)
    requires
        parsable(fragment@),
    ensures
        result@ == markdown_of(fragment@, images@),
{
    if text::is_blank(fragment) {
        return String::new();
    }
    render_document(&parse_fragment(fragment), images)
}

} // verus!
