//! How one item of a collection becomes a Markdown file.

use vstd::prelude::*;

use crate::address;
use crate::cli::ImageMode;
use crate::images;
use crate::images::{ImageExporter, Replacements};
use crate::json;
use crate::json::JsonValue;
use crate::markdown;
use crate::text;
use crate::zhihu;
use crate::zhihu::{Author, CollectionItem, Content, ZHIHU_HOST};

verus! {

/// An item as it is written.
pub struct ExportedItem {
    /// The number of the item, from one.
    pub index: usize,
    pub title: String,
    pub url: Option<String>,
    /// The name of the file, without its ending.
    pub file_stem: String,
    pub markdown: String,
}

/// What `ExportedItem` stands for.
pub struct Entry {
    pub index: usize,
    pub title: Seq<char>,
    pub url: Option<Seq<char>>,
    pub stem: Seq<char>,
    pub markdown: Seq<char>,
}

impl View for ExportedItem {
    type V = Entry;

    open spec fn view(&self) -> Entry {
        Entry {
            index: self.index,
            title: self.title@,
            url: text::opt_text(self.url),
            stem: self.file_stem@,
            markdown: self.markdown@,
        }
    }
}

/// What a list of items stands for.
pub open spec fn entries(items: Seq<ExportedItem>) -> Seq<Entry> {
    Seq::new(items.len(), |i: int| items[i]@)
}

/// The text that a number or a text that is not blank stands for.
pub open spec fn value_text(value: Option<JsonValue>) -> Option<Seq<char>> {
    match value {
        Some(JsonValue::Number(number)) => Some(number@),
        Some(JsonValue::Text(text)) => json::filled(Some(text@)),
        _ => None,
    }
}

/// The text that a number or a text that is not blank stands for.
pub fn value_to_string(value: &JsonValue) -> (text: Option<String>)
    ensures
        text::opt_text(text) == value_text(Some(*value)),
{
    match value {
        JsonValue::Number(number) => Some(number.clone()),
        JsonValue::Text(text) => if text::is_blank(text.as_str()) {
            None
        } else {
            Some(text::trim(text.as_str()))
        },
        _ => None,
    }
}

/// The text of an optional value.
fn optional_value_to_string(value: &Option<JsonValue>) -> (text: Option<String>)
    ensures
        text::opt_text(text) == value_text(*value),
{
    match value {
        Some(value) => value_to_string(value),
        None => None,
    }
}

/// The title that the content gives: its own, or else that of its excerpt, or else that of its
/// question.
pub open spec fn given_title(content: Content) -> Option<Seq<char>> {
    if content.title is Some {
        text::opt_text(content.title)
    } else if content.excerpt_title is Some {
        text::opt_text(content.excerpt_title)
    } else {
        match content.question {
            Some(question) => text::opt_text(question.title),
            None => None,
        }
    }
}

/// The title of the content.
pub open spec fn title_of(content: Content) -> Seq<char> {
    match json::filled(given_title(content)) {
        Some(title) => title,
        None => "无标题"@,
    }
}

/// The title of the content; a substitute where it gives none or a blank one.
pub fn item_title(content: &Content) -> (title: String)
    ensures
        title@ == title_of(*content),
{
    let given = match &content.title {
        Some(title) => Some(title),
        None => match &content.excerpt_title {
            Some(title) => Some(title),
            None => match &content.question {
                Some(question) => question.title.as_ref(),
                None => None,
            },
        },
    };
    match given {
        Some(title) => if text::is_blank(title.as_str()) {
            "无标题".to_owned()
        } else {
            text::trim(title.as_str())
        },
        None => "无标题".to_owned(),
    }
}

/// The page of the author.
pub open spec fn author_page(author: Author) -> Option<Seq<char>> {
    match json::filled(text::opt_text(author.url_token)) {
        Some(token) => Some(ZHIHU_HOST@ + "/people/"@ + token),
        None => None,
    }
}

/// The page of the author, if the author has one.
pub fn author_url(author: &Author) -> (url: Option<String>)
    ensures
        text::opt_text(url) == author_page(*author),
{
    match &author.url_token {
        Some(token) => if text::is_blank(token.as_str()) {
            None
        } else {
            Some(text::concat3(ZHIHU_HOST, "/people/", text::trim(token.as_str()).as_str()))
        },
        None => None,
    }
}

/// The number of the question.
pub open spec fn question_id(content: Content) -> Option<Seq<char>> {
    match content.question {
        Some(question) => value_text(question.id),
        None => None,
    }
}

/// The page that the numbers of the content lead to, by its kind.
pub open spec fn canonical_url(content: Content) -> Option<Seq<char>> {
    let kind = text::opt_text(content.kind);
    let id = value_text(content.id);
    if id is None {
        None
    } else if kind == Some("answer"@) {
        match question_id(content) {
            Some(question) => Some(ZHIHU_HOST@ + "/question/"@ + question + "/answer/"@ + id->0),
            None => None,
        }
    } else if kind == Some("article"@) {
        Some("https://zhuanlan.zhihu.com/p/"@ + id->0)
    } else if kind == Some("zvideo"@) {
        Some(ZHIHU_HOST@ + "/zvideo/"@ + id->0)
    } else {
        None
    }
}

/// The address that the content gives, or else its question.
pub open spec fn given_url(content: Content) -> Option<Seq<char>> {
    let given = if content.url is Some {
        content.url
    } else {
        match content.question {
            Some(question) => question.url,
            None => None,
        }
    };
    match given {
        Some(url) => Some(zhihu::normalized_url(url@)),
        None => None,
    }
}

/// The page of the content.
pub open spec fn url_of(content: Content) -> Option<Seq<char>> {
    if canonical_url(content) is Some {
        canonical_url(content)
    } else {
        given_url(content)
    }
}

/// The page that the numbers of the content lead to.
fn find_canonical_url(content: &Content) -> (url: Option<String>)
    ensures
        text::opt_text(url) == canonical_url(*content),
{
    proof {
        reveal_strlit("answer");
        reveal_strlit("article");
        reveal_strlit("zvideo");
        assert("answer"@.len() == 6);
        assert("article"@.len() == 7);
        assert("zvideo"@[0] == 'z');
        assert("answer"@[0] == 'a');
    }
    let kind = match &content.kind {
        Some(kind) => kind.as_str(),
        None => return None,
    };
    let id = match optional_value_to_string(&content.id) {
        Some(id) => id,
        None => return None,
    };
    if text::same(kind, "answer") {
        let question = match &content.question {
            Some(question) => optional_value_to_string(&question.id),
            None => None,
        };
        match question {
            Some(question) => Some(
                text::concat5(
                    ZHIHU_HOST,
                    "/question/",
                    question.as_str(),
                    "/answer/",
                    id.as_str(),
                ),
            ),
            None => None,
        }
    } else if text::same(kind, "article") {
        Some(text::concat2("https://zhuanlan.zhihu.com/p/", id.as_str()))
    } else if text::same(kind, "zvideo") {
        Some(text::concat3(ZHIHU_HOST, "/zvideo/", id.as_str()))
    } else {
        None
    }
}

/// The page of the content: the one that its numbers lead to, or else the address that it gives.
pub fn item_url(content: &Content) -> (url: Option<String>)
    ensures
        text::opt_text(url) == url_of(*content),
{
    if let Some(url) = find_canonical_url(content) {
        return Some(url);
    }
    let given = match &content.url {
        Some(url) => Some(url),
        None => match &content.question {
            Some(question) => question.url.as_ref(),
            None => None,
        },
    };
    match given {
        Some(url) => Some(zhihu::normalize_zhihu_url(url.as_str())),
        None => None,
    }
}

/// What a block has to say in HTML.
pub open spec fn block_html(members: Seq<(String, JsonValue)>) -> Option<Seq<char>> {
    json::filled(json::text_of(json::either_member(members, "content"@, "own_text"@)))
}

/// What the HTML of a block becomes; nothing where nothing is left of it.
pub open spec fn block_markdown(
    members: Seq<(String, JsonValue)>,
    images: Replacements,
) -> Option<Seq<char>> {
    match block_html(members) {
        Some(html) => json::filled(Some(markdown::markdown_of(html, images))),
        None => None,
    }
}

/// Whether the HTML of a block is short enough for the parser.
pub open spec fn parsable_block(block: JsonValue) -> bool {
    match block {
        JsonValue::Object(members) => block_html(members@) matches Some(html) ==> markdown::parsable(
            html,
        ),
        _ => true,
    }
}

/// Whether the HTML of each block is short enough for the parser.
pub open spec fn parsable_blocks(blocks: Seq<JsonValue>) -> bool {
    forall|i: int| 0 <= i < blocks.len() ==> parsable_block(#[trigger] blocks[i])
}

/// Whether the text of an item is short enough for the parser.
pub open spec fn parsable_content(content: Option<JsonValue>) -> bool {
    match content {
        Some(JsonValue::Text(html)) => markdown::parsable(html@),
        Some(JsonValue::Array(blocks)) => parsable_blocks(blocks@),
        _ => true,
    }
}

/// Whether an item is short enough for the parser. The text of a video is not parsed.
pub open spec fn parsable_item(item: CollectionItem) -> bool {
    match item.content {
        Some(content) => kind_of(content) == "zvideo"@ || parsable_content(content.content),
        None => true,
    }
}

/// The address that a block leads to.
pub open spec fn block_url(members: Seq<(String, JsonValue)>) -> Option<Seq<char>> {
    match json::filled(json::text_of(json::either_member(members, "url"@, "original_url"@))) {
        Some(url) => Some(zhihu::normalized_url(url)),
        None => None,
    }
}

/// The title of a block.
pub open spec fn block_title(members: Seq<(String, JsonValue)>) -> Option<Seq<char>> {
    json::filled(json::text_of(json::either_member(members, "title"@, "data_draft_title"@)))
}

/// Whether a block is an image.
pub open spec fn is_image(members: Seq<(String, JsonValue)>) -> bool {
    json::text_of(json::member(members, "type"@)) == Some("image"@)
}

/// The link that a block without text becomes.
pub open spec fn block_link(
    url: Seq<char>,
    title: Option<Seq<char>>,
    image: bool,
    images: Replacements,
) -> Seq<char> {
    if image {
        let alt = match title {
            Some(title) => title,
            None => "图片"@,
        };
        "!["@ + alt + "]("@ + images::resolved(images, url) + ")"@
    } else {
        match title {
            Some(title) => "["@ + title + "]("@ + url + ")"@,
            None => url,
        }
    }
}

/// What a block becomes: its text, or else the link that it gives.
pub open spec fn block_of(block: JsonValue, images: Replacements) -> Option<Seq<char>> {
    match block {
        JsonValue::Object(members) => if block_markdown(members@, images) is Some {
            block_markdown(members@, images)
        } else {
            match block_url(members@) {
                Some(url) => Some(
                    block_link(url, block_title(members@), is_image(members@), images),
                ),
                None => None,
            }
        },
        _ => None,
    }
}

/// What the blocks become, without those that become nothing.
pub open spec fn blocks_of(blocks: Seq<JsonValue>, images: Replacements) -> Seq<Seq<char>>
    decreases blocks.len(),
{
    if blocks.len() == 0 {
        seq![]
    } else {
        let before = blocks_of(blocks.drop_last(), images);
        match block_of(blocks.last(), images) {
            Some(text) => before.push(text),
            None => before,
        }
    }
}

/// What the text of an item becomes: HTML, or a list of blocks.
pub open spec fn content_markdown(content: Option<JsonValue>, images: Replacements) -> Option<
    Seq<char>,
> {
    match content {
        Some(JsonValue::Text(html)) => if text::blank(html@) {
            None
        } else {
            Some(markdown::markdown_of(html@, images))
        },
        Some(JsonValue::Array(blocks)) => {
            let rendered = text::joined(blocks_of(blocks@, images), "\n\n"@);
            if text::blank(rendered) {
                None
            } else {
                Some(rendered)
            }
        },
        _ => None,
    }
}

/// Whether the block is an image.
fn has_image_type(members: &Vec<(String, JsonValue)>) -> (yes: bool)
    ensures
        yes == is_image(members@),
{
    match json::find_member(members, "type") {
        Some(JsonValue::Text(kind)) => text::same(kind.as_str(), "image"),
        _ => false,
    }
}

/// The address that a block leads to.
fn find_block_url(members: &Vec<(String, JsonValue)>) -> (url: Option<String>)
    ensures
        text::opt_text(url) == block_url(members@),
{
    match json::filled_member(members, "url", "original_url") {
        Some(url) => Some(zhihu::normalize_zhihu_url(url.as_str())),
        None => None,
    }
}

/// What the HTML of a block becomes.
fn render_block_html(members: &Vec<(String, JsonValue)>, images: &ImageExporter) -> (text: Option<
    String,
>)
    requires
        parsable_block(JsonValue::Object(*members)),
    ensures
        text::opt_text(text) == block_markdown(members@, images@),
{
    match json::filled_member(members, "content", "own_text") {
        Some(html) => {
            let text = markdown::html_to_markdown(html.as_str(), images);
            if text::is_blank(text.as_str()) {
                None
            } else {
                Some(text::trim(text.as_str()))
            }
        },
        None => None,
    }
}

/// What a block becomes: its text, or else the link that it gives.
pub fn render_content_block(block: &JsonValue, images: &ImageExporter) -> (text: Option<String>)
    requires
        parsable_block(*block),
    ensures
        text::opt_text(text) == block_of(*block, images@),
{
    let members = match block {
        JsonValue::Object(members) => members,
        _ => return None,
    };
    if let Some(text) = render_block_html(members, images) {
        return Some(text);
    }
    let url = match find_block_url(members) {
        Some(url) => url,
        None => return None,
    };
    let title = json::filled_member(members, "title", "data_draft_title");
    if has_image_type(members) {
        let alt = match &title {
            Some(title) => title.as_str(),
            None => "图片",
        };
        Some(text::concat5("![", alt, "](", images.resolve(url.as_str()), ")"))
    } else {
        match title {
            Some(title) => Some(
                text::concat5("[", title.as_str(), "](", url.as_str(), ")"),
            ),
            None => Some(url),
        }
    }
}

/// What the blocks become, without those that become nothing.
fn render_blocks(blocks: &Vec<JsonValue>, images: &ImageExporter) -> (texts: Vec<String>)
    requires
        parsable_blocks(blocks@),
    ensures
        text::texts(texts@) == blocks_of(blocks@, images@),
{
    let mut texts: Vec<String> = Vec::new();
    let mut i: usize = 0;
    assert(text::texts(texts@) =~= blocks_of(blocks@.take(0), images@));
    while i < blocks.len()
        invariant
            i <= blocks@.len(),
            parsable_blocks(blocks@),
            text::texts(texts@) == blocks_of(blocks@.take(i as int), images@),
        decreases blocks@.len() - i,
    {
        assert(blocks@.take(i + 1).drop_last() =~= blocks@.take(i as int));
        let ghost before = text::texts(texts@);
        if let Some(text) = render_content_block(&blocks[i], images) {
            texts.push(text);
            assert(text::texts(texts@) =~= before.push(text@));
        }
        i = i + 1;
    }
    assert(blocks@.take(i as int) =~= blocks@);
    texts
}

/// What the text of an item becomes; nothing where there is none.
pub fn content_to_markdown(content: &JsonValue, images: &ImageExporter) -> (text: Option<String>)
    requires
        parsable_content(Some(*content)),
    ensures
        text::opt_text(text) == content_markdown(Some(*content), images@),
{
    match content {
        JsonValue::Text(html) => if text::is_blank(html.as_str()) {
            None
        } else {
            Some(markdown::html_to_markdown(html.as_str(), images))
        },
        JsonValue::Array(blocks) => {
            let rendered = text::join(&render_blocks(blocks, images), "\n\n");
            if text::is_blank(rendered.as_str()) {
                None
            } else {
                Some(rendered)
            }
        },
        _ => None,
    }
}

/// A line with a label, if there is something to say.
pub open spec fn labelled(label: Seq<char>, value: Option<Seq<char>>) -> Seq<char> {
    match value {
        Some(value) => label + value + "\n"@,
        None => seq![],
    }
}

/// The kind of the content.
pub open spec fn kind_of(content: Content) -> Seq<char> {
    match content.kind {
        Some(kind) => kind@,
        None => "unknown"@,
    }
}

/// The name of the author, without the white space around it.
pub open spec fn author_name(author: Option<Author>) -> Option<Seq<char>> {
    match author {
        Some(author) => match author.name {
            Some(name) => Some(text::trimmed(name@)),
            None => None,
        },
        None => None,
    }
}

/// What the author says of themselves.
pub open spec fn author_headline(author: Option<Author>) -> Option<Seq<char>> {
    match author {
        Some(author) => json::filled(text::opt_text(author.headline)),
        None => None,
    }
}

/// The page of an optional author.
pub open spec fn author_home(author: Option<Author>) -> Option<Seq<char>> {
    match author {
        Some(author) => author_page(author),
        None => None,
    }
}

/// A point in time as it is written.
pub open spec fn time_text(time: Option<i64>) -> Option<Seq<char>> {
    match time {
        Some(time) => Some(text::signed_decimal(time as int)),
        None => None,
    }
}

/// What stands above the text: the title, and what is known of the item.
pub open spec fn head_of(index: usize, content: Content) -> Seq<char> {
    "# "@ + title_of(content) + "\n\n"@ + labelled(
        "- 序号: "@,
        Some(text::decimal(index as nat)),
    ) + labelled("- 类型: "@, Some(kind_of(content))) + labelled(
        "- 原文链接: "@,
        url_of(content),
    ) + labelled("- 作者: "@, author_name(content.author)) + labelled(
        "- 作者主页: "@,
        author_home(content.author),
    ) + labelled("- 作者简介: "@, author_headline(content.author)) + labelled(
        "- 创建时间: "@,
        time_text(content.created_time),
    ) + labelled("- 更新时间: "@, time_text(content.updated_time)) + "\n"@
}

/// The text with a line feed at its end.
pub open spec fn ended(text: Seq<char>) -> Seq<char> {
    if text.len() > 0 && text.last() == '\n' {
        text
    } else {
        text + "\n"@
    }
}

/// The text of the item: what its content becomes, or else its excerpt, or else a note why there is
/// none.
pub open spec fn body_of(content: Content, images: Replacements) -> Seq<char> {
    if kind_of(content) == "zvideo"@ {
        "视频条目通常不包含正文，已保留标题和链接。\n"@
    } else {
        match content_markdown(content.content, images) {
            Some(markdown) => ended(markdown),
            None => match json::filled(text::opt_text(content.excerpt)) {
                Some(excerpt) => excerpt + "\n"@,
                None => "接口未返回正文。\n"@,
            },
        }
    }
}

/// What an item becomes under its number.
pub open spec fn entry_of(index: usize, item: CollectionItem, images: Replacements) -> Entry {
    match item.content {
        None => Entry {
            index,
            title: "[内容不可用]"@,
            url: None,
            stem: seq![],
            markdown: "# "@ + "[内容不可用]"@
                + "\n\n该收藏条目已删除、不可见，或接口没有返回内容。\n"@,
        },
        Some(content) => Entry {
            index,
            title: title_of(content),
            url: url_of(content),
            stem: seq![],
            markdown: head_of(index, content) + body_of(content, images),
        },
    }
}

/// Appends a line with a label, if there is something to say.
pub(crate) fn push_labelled(output: &mut String, label: &str, value: &Option<String>)
    ensures
        final(output)@ == old(output)@ + labelled(label@, text::opt_text(*value)),
{
    match value {
        Some(value) => {
            let line = text::concat3(label, value.as_str(), "\n");
            output.append(line.as_str());
        },
        None => {
            assert(output@ + seq![] =~= output@);
        },
    }
}

/// The name of the author.
fn find_author_name(author: &Option<Author>) -> (name: Option<String>)
    ensures
        text::opt_text(name) == author_name(*author),
{
    match author {
        Some(author) => match &author.name {
            Some(name) => Some(text::trim(name.as_str())),
            None => None,
        },
        None => None,
    }
}

/// What the author says of themselves.
fn find_author_headline(author: &Option<Author>) -> (headline: Option<String>)
    ensures
        text::opt_text(headline) == author_headline(*author),
{
    match author {
        Some(author) => match &author.headline {
            Some(headline) => if text::is_blank(headline.as_str()) {
                None
            } else {
                Some(text::trim(headline.as_str()))
            },
            None => None,
        },
        None => None,
    }
}

/// A point in time as it is written.
fn write_time(time: Option<i64>) -> (text: Option<String>)
    ensures
        text::opt_text(text) == time_text(time),
{
    match time {
        Some(time) => Some(text::signed_decimal_text(time)),
        None => None,
    }
}

/// What stands above the text.
fn render_head(index: usize, content: &Content) -> (head: String)
    ensures
        head@ == head_of(index, *content),
{
    let kind = match &content.kind {
        Some(kind) => kind.clone(),
        None => "unknown".to_owned(),
    };
    let home = match &content.author {
        Some(author) => author_url(author),
        None => None,
    };
    let mut output = text::concat3("# ", item_title(content).as_str(), "\n\n");
    push_labelled(&mut output, "- 序号: ", &Some(text::decimal_text(index as u64)));
    push_labelled(&mut output, "- 类型: ", &Some(kind));
    push_labelled(&mut output, "- 原文链接: ", &item_url(content));
    push_labelled(&mut output, "- 作者: ", &find_author_name(&content.author));
    push_labelled(&mut output, "- 作者主页: ", &home);
    push_labelled(&mut output, "- 作者简介: ", &find_author_headline(&content.author));
    push_labelled(&mut output, "- 创建时间: ", &write_time(content.created_time));
    push_labelled(&mut output, "- 更新时间: ", &write_time(content.updated_time));
    output.append("\n");
    output
}

/// The text with a line feed at its end.
fn end_line(text: String) -> (result: String)
    ensures
        result@ == ended(text@),
{
    let chars = text::to_chars(text.as_str());
    if chars.len() > 0 && chars[chars.len() - 1] == '\n' {
        text
    } else {
        text::concat2(text.as_str(), "\n")
    }
}

/// The text of the item.
fn render_body(content: &Content, images: &ImageExporter) -> (body: String)
    requires
        parsable_item((CollectionItem { content: Some(*content) })),
    ensures
        body@ == body_of(*content, images@),
{
    if is_video(content) {
        return "视频条目通常不包含正文，已保留标题和链接。\n".to_owned();
    }
    let markdown = match &content.content {
        Some(value) => content_to_markdown(value, images),
        None => None,
    };
    if let Some(markdown) = markdown {
        return end_line(markdown);
    }
    match &content.excerpt {
        Some(excerpt) => if text::is_blank(excerpt.as_str()) {
            "接口未返回正文。\n".to_owned()
        } else {
            text::concat2(text::trim(excerpt.as_str()).as_str(), "\n")
        },
        None => "接口未返回正文。\n".to_owned(),
    }
}

/// Whether the content is a video.
fn is_video(content: &Content) -> (yes: bool)
    ensures
        yes == (kind_of(*content) == "zvideo"@),
{
    match &content.kind {
        Some(kind) => text::same(kind.as_str(), "zvideo"),
        None => {
            proof {
                reveal_strlit("unknown");
                reveal_strlit("zvideo");
                assert("unknown"@.len() == 7);
                assert("zvideo"@.len() == 6);
            }
            false
        },
    }
}

/// Whether the HTML of a block is short enough for the parser.
fn is_parsable_block(block: &JsonValue) -> (yes: bool)
    ensures
        yes == parsable_block(*block),
{
    match block {
        JsonValue::Object(members) => match json::filled_member(members, "content", "own_text") {
            Some(html) => markdown::is_parsable(html.as_str()),
            None => true,
        },
        _ => true,
    }
}

/// Whether the HTML of each block is short enough for the parser.
fn are_parsable_blocks(blocks: &Vec<JsonValue>) -> (yes: bool)
    ensures
        yes == parsable_blocks(blocks@),
{
    let mut i: usize = 0;
    while i < blocks.len()
        invariant
            i <= blocks@.len(),
            forall|k: int| 0 <= k < i ==> parsable_block(#[trigger] blocks@[k]),
        decreases blocks@.len() - i,
    {
        if !is_parsable_block(&blocks[i]) {
            assert(!parsable_block(blocks@[i as int]));
            return false;
        }
        i = i + 1;
    }
    true
}

/// Whether the text of an item is short enough for the parser.
pub fn is_parsable_content(content: &JsonValue) -> (yes: bool)
    ensures
        yes == parsable_content(Some(*content)),
{
    match content {
        JsonValue::Text(html) => markdown::is_parsable(html.as_str()),
        JsonValue::Array(blocks) => are_parsable_blocks(blocks),
        _ => true,
    }
}

/// Whether an item is short enough for the parser: to be asked before its images are looked for and
/// before it is rendered.
pub fn is_parsable_item(item: &CollectionItem) -> (yes: bool)
    ensures
        yes == parsable_item(*item),
{
    match &item.content {
        Some(content) => is_video(content) || match &content.content {
            Some(value) => is_parsable_content(value),
            None => true,
        },
        None => true,
    }
}

/// What an item becomes under its number. The images of the item stand as `images` has them.
pub fn render_item(index: usize, item: CollectionItem, images: &ImageExporter) -> (exported:
    ExportedItem)
    requires
        parsable_item(item),
    ensures
        exported@ == entry_of(index, item, images@),
{
    let content = match item.content {
        Some(content) => content,
        None => {
            return ExportedItem {
                index,
                title: "[内容不可用]".to_owned(),
                url: None,
                file_stem: String::new(),
                markdown: text::concat3(
                    "# ",
                    "[内容不可用]",
                    "\n\n该收藏条目已删除、不可见，或接口没有返回内容。\n",
                ),
            };
        },
    };
    let head = render_head(index, &content);
    let body = render_body(&content, images);
    ExportedItem {
        index,
        title: item_title(&content),
        url: item_url(&content),
        file_stem: String::new(),
        markdown: text::concat2(head.as_str(), body.as_str()),
    }
}

/// The sources of the images of a block, in the order in which they are fetched: those of its
/// HTML, and its own where it becomes an image.
pub open spec fn block_sources(block: JsonValue, images: Replacements) -> Seq<Seq<char>> {
    match block {
        JsonValue::Object(members) => {
            let in_html = match block_html(members@) {
                Some(html) => markdown::image_sources_of(html),
                None => seq![],
            };
            let own = match block_url(members@) {
                Some(url) => if block_markdown(members@, images) is None && is_image(members@) {
                    seq![url]
                } else {
                    seq![]
                },
                None => seq![],
            };
            in_html + own
        },
        _ => seq![],
    }
}

/// The sources of the images of the blocks.
pub open spec fn blocks_sources(blocks: Seq<JsonValue>, images: Replacements) -> Seq<Seq<char>>
    decreases blocks.len(),
{
    if blocks.len() == 0 {
        seq![]
    } else {
        blocks_sources(blocks.drop_last(), images) + block_sources(blocks.last(), images)
    }
}

/// The sources of the images of an item.
pub open spec fn item_sources(item: CollectionItem, images: Replacements) -> Seq<Seq<char>> {
    match item.content {
        Some(content) => if kind_of(content) == "zvideo"@ {
            seq![]
        } else {
            match content.content {
                Some(JsonValue::Text(html)) => markdown::image_sources_of(html@),
                Some(JsonValue::Array(blocks)) => blocks_sources(blocks@, images),
                _ => seq![],
            }
        },
        None => seq![],
    }
}

/// The first source that is still to be fetched; the number of sources where there is none.
pub open spec fn first_wanted(sources: Seq<Seq<char>>, images: ImageExporter) -> int
    decreases sources.len(),
{
    if sources.len() == 0 || images.wants(sources[0], address::parsed_url(sources[0])) {
        0
    } else {
        1 + first_wanted(sources.drop_first(), images)
    }
}

/// The sources of the images of a block.
fn find_block_sources(block: &JsonValue, images: &ImageExporter) -> (sources: Vec<String>)
    requires
        parsable_block(*block),
    ensures
        text::texts(sources@) == block_sources(*block, images@),
{
    let mut sources: Vec<String> = Vec::new();
    assert(text::texts(sources@) =~= Seq::empty());
    let members = match block {
        JsonValue::Object(members) => members,
        _ => return sources,
    };
    if let Some(html) = json::filled_member(members, "content", "own_text") {
        sources = markdown::html_image_sources(html.as_str());
    }
    let ghost in_html = text::texts(sources@);
    assert(in_html + seq![] =~= in_html);
    if has_image_type(members) {
        if render_block_html(members, images).is_none() {
            if let Some(url) = find_block_url(members) {
                sources.push(url);
                assert(text::texts(sources@) =~= in_html + seq![url@]);
            }
        }
    }
    sources
}

/// The sources of the images of an item, in the order in which they are fetched.
pub fn item_image_sources(item: &CollectionItem, images: &ImageExporter) -> (sources: Vec<String>)
    requires
        parsable_item(*item),
    ensures
        text::texts(sources@) == item_sources(*item, images@),
{
    let mut sources: Vec<String> = Vec::new();
    assert(text::texts(sources@) =~= Seq::empty());
    let content = match &item.content {
        Some(content) => content,
        None => return sources,
    };
    if is_video(content) {
        return sources;
    }
    match &content.content {
        Some(JsonValue::Text(html)) => markdown::html_image_sources(html.as_str()),
        Some(JsonValue::Array(blocks)) => {
            let mut i: usize = 0;
            assert(text::texts(sources@) =~= blocks_sources(blocks@.take(0), images@));
            while i < blocks.len()
                invariant
                    i <= blocks@.len(),
                    parsable_blocks(blocks@),
                    text::texts(sources@) == blocks_sources(blocks@.take(i as int), images@),
                decreases blocks@.len() - i,
            {
                assert(blocks@.take(i + 1).drop_last() =~= blocks@.take(i as int));
                let ghost before = text::texts(sources@);
                let mut more = find_block_sources(&blocks[i], images);
                let ghost added = more@;
                sources.append(&mut more);
                assert(text::texts(sources@) =~= before + text::texts(added));
                i = i + 1;
            }
            assert(blocks@.take(i as int) =~= blocks@);
            sources
        },
        _ => sources,
    }
}

/// The next image of the item that is to be fetched; none where all is ready.
pub open spec fn wanted_image(item: CollectionItem, images: ImageExporter) -> Option<Seq<char>> {
    let sources = item_sources(item, images@);
    let next = first_wanted(sources, images);
    if 0 <= next < sources.len() {
        Some(sources[next])
    } else {
        None
    }
}

/// The next image of the item that is to be fetched and recorded before the item is rendered; none
/// where all is ready.
pub fn next_image(item: &CollectionItem, images: &ImageExporter) -> (source: Option<String>)
    requires
        parsable_item(*item),
    ensures
        text::opt_text(source) == wanted_image(*item, *images),
{
    let sources = item_image_sources(item, images);
    let ghost all = text::texts(sources@);
    let mut i: usize = 0;
    assert(all.skip(0) =~= all);
    while i < sources.len()
        invariant
            i <= sources@.len(),
            all == text::texts(sources@),
            all == item_sources(*item, images@),
            first_wanted(all, *images) == i + first_wanted(all.skip(i as int), *images),
        decreases sources@.len() - i,
    {
        assert(all.skip(i as int)[0] == all[i as int]);
        assert(all.skip(i as int).drop_first() =~= all.skip(i + 1));
        if images.prepare(sources[i].as_str()) {
            return Some(sources[i].clone());
        }
        i = i + 1;
    }
    None
}

/// What was recorded for an image stands: an image that was tried, with or without success, is not
/// fetched again; the link that it got stands in the Markdown, and its own where it got none; and
/// nothing changes for other images.
pub proof fn tried_images_are_not_fetched(
    before: ImageExporter,
    after: ImageExporter,
    source: Seq<char>,
    replacement: Option<Seq<char>>,
    other: Seq<char>,
)
    requires
        after@ == before@.insert(source, replacement),
        after.kept_as() == before.kept_as(),
        other != source,
    ensures
        !after.wants(source, address::parsed_url(source)),
        images::resolved(after@, source) == (match replacement {
            Some(link) => link,
            None => source,
        }),
        after.wants(other, address::parsed_url(other)) == before.wants(
            other,
            address::parsed_url(other),
        ),
        images::resolved(after@, other) == images::resolved(before@, other),
{
}

/// Where images stay on the web, none is ever fetched, and every link stands as it is.
pub proof fn remote_images_are_left_alone(images: ImageExporter, source: Seq<char>)
    requires
        images.wf(),
        images.kept_as() == ImageMode::Remote,
    ensures
        !images.wants(source, address::parsed_url(source)),
        images::resolved(images@, source) == source,
{
}

/// The links of all images of a block.
pub open spec fn block_links(block: JsonValue) -> Seq<Seq<char>> {
    match block {
        JsonValue::Object(members) => {
            let in_html = match block_html(members@) {
                Some(html) => markdown::image_links_of(html),
                None => seq![],
            };
            let own = match block_url(members@) {
                Some(url) => seq![url],
                None => seq![],
            };
            in_html + own
        },
        _ => seq![],
    }
}

/// The links of all images of the blocks.
pub open spec fn blocks_links(blocks: Seq<JsonValue>) -> Seq<Seq<char>>
    decreases blocks.len(),
{
    if blocks.len() == 0 {
        seq![]
    } else {
        blocks_links(blocks.drop_last()) + block_links(blocks.last())
    }
}

/// The links of all images of an item.
pub open spec fn item_links(item: CollectionItem) -> Seq<Seq<char>> {
    match item.content {
        Some(content) => match content.content {
            Some(JsonValue::Text(html)) => markdown::image_links_of(html@),
            Some(JsonValue::Array(blocks)) => blocks_links(blocks@),
            _ => seq![],
        },
        None => seq![],
    }
}

/// What the blocks become depends on the links of their images alone.
proof fn lemma_blocks_depend(blocks: Seq<JsonValue>, left: Replacements, right: Replacements)
    requires
        markdown::agree(left, right, blocks_links(blocks)),
    ensures
        blocks_of(blocks, left) == blocks_of(blocks, right),
    decreases blocks.len(),
{
    if blocks.len() > 0 {
        let last = blocks.last();
        markdown::lemma_agree_parts(
            left,
            right,
            blocks_links(blocks.drop_last()),
            block_links(last),
        );
        lemma_blocks_depend(blocks.drop_last(), left, right);
        if let JsonValue::Object(members) = last {
            let in_html = match block_html(members@) {
                Some(html) => markdown::image_links_of(html),
                None => seq![],
            };
            let own = match block_url(members@) {
                Some(url) => seq![url],
                None => seq![],
            };
            markdown::lemma_agree_parts(left, right, in_html, own);
            if let Some(html) = block_html(members@) {
                markdown::markdown_depends_on_own_images(html, left, right);
            }
            if let Some(url) = block_url(members@) {
                assert(own[0] == url);
            }
        }
    }
}

/// What an item becomes depends on the links of its own images alone: images that are recorded for
/// other items never change it.
pub proof fn item_depends_on_own_images(
    index: usize,
    item: CollectionItem,
    left: Replacements,
    right: Replacements,
)
    requires
        markdown::agree(left, right, item_links(item)),
    ensures
        entry_of(index, item, left) == entry_of(index, item, right),
{
    if let Some(content) = item.content {
        match content.content {
            Some(JsonValue::Text(html)) => {
                markdown::markdown_depends_on_own_images(html@, left, right);
            },
            Some(JsonValue::Array(blocks)) => {
                lemma_blocks_depend(blocks@, left, right);
            },
            _ => {},
        }
    }
}

/// The text of an item ends with a line feed.
proof fn lemma_body_ends(content: Content, images: Replacements)
    ensures
        body_of(content, images).len() > 0,
        body_of(content, images).last() == '\n',
{
    reveal_strlit("\n");
    reveal_strlit("视频条目通常不包含正文，已保留标题和链接。\n");
    reveal_strlit("接口未返回正文。\n");
}

/// The head begins with the title.
proof fn lemma_head_begins(index: usize, content: Content)
    ensures
        text::begins(head_of(index, content), "# "@ + title_of(content) + "\n"@),
{
    reveal_strlit("\n");
    reveal_strlit("\n\n");
    let start = "# "@ + title_of(content) + "\n"@;
    assert(head_of(index, content).take(start.len() as int) =~= start);
}

/// The head holds the line with the link.
proof fn lemma_head_links(index: usize, content: Content)
    ensures
        text::occurs(labelled("- 原文链接: "@, url_of(content)), head_of(index, content)),
{
    let number = labelled("- 序号: "@, Some(text::decimal(index as nat)));
    let kind = labelled("- 类型: "@, Some(kind_of(content)));
    let link = labelled("- 原文链接: "@, url_of(content));
    let name = labelled("- 作者: "@, author_name(content.author));
    let home = labelled("- 作者主页: "@, author_home(content.author));
    let headline = labelled("- 作者简介: "@, author_headline(content.author));
    let created = labelled("- 创建时间: "@, time_text(content.created_time));
    let updated = labelled("- 更新时间: "@, time_text(content.updated_time));
    let before = "# "@ + title_of(content) + "\n\n"@ + number + kind;
    let after = name + home + headline + created + updated + "\n"@;
    lemma_grouped(before + link, name, home, headline, created, updated, "\n"@);
    text::lemma_occurs(before, link, after);
}

/// What is put together step by step is put together.
proof fn lemma_grouped(
    first: Seq<char>,
    a: Seq<char>,
    b: Seq<char>,
    c: Seq<char>,
    d: Seq<char>,
    e: Seq<char>,
    f: Seq<char>,
)
    ensures
        first + a + b + c + d + e + f == first + (a + b + c + d + e + f),
{
    assert(first + a + b + c + d + e + f =~= first + (a + b + c + d + e + f));
}

/// Every item, also a video and one that is gone, becomes a text that begins with its title, holds
/// the link to its page where it has one, and ends with a line feed.
pub proof fn every_item_keeps_title_and_link(
    index: usize,
    item: CollectionItem,
    images: Replacements,
)
    ensures
        ({
            let entry = entry_of(index, item, images);
            &&& text::begins(entry.markdown, "# "@ + entry.title + "\n"@)
            &&& entry.markdown.last() == '\n'
            &&& entry.url is Some ==> text::occurs(
                labelled("- 原文链接: "@, entry.url),
                entry.markdown,
            )
        }),
{
    let entry = entry_of(index, item, images);
    let start = "# "@ + entry.title + "\n"@;
    match item.content {
        None => {
            reveal_strlit("\n");
            reveal_strlit("\n\n该收藏条目已删除、不可见，或接口没有返回内容。\n");
            assert(entry.markdown.take(start.len() as int) =~= start);
        },
        Some(content) => {
            let head = head_of(index, content);
            let body = body_of(content, images);
            lemma_body_ends(content, images);
            lemma_head_begins(index, content);
            lemma_head_links(index, content);
            assert(entry.markdown == head + body);
            assert(entry.markdown.last() == body.last());
            assert(entry.markdown.take(start.len() as int) =~= head.take(start.len() as int));
            text::lemma_occurs_in_part(labelled("- 原文链接: "@, url_of(content)), seq![], head, body);
            assert(seq![] + head + body =~= entry.markdown);
        },
    }
}

/// A link that is neither `http` nor `https`, such as an image that is part of the text already, is
/// never fetched, and stands as it is while nothing is recorded for it.
pub proof fn other_links_are_left_alone(images: ImageExporter, source: Seq<char>)
    requires
        address::parsed_url(source) matches Some(url) ==> url.scheme != "http"@ && url.scheme
            != "https"@,
        !images@.contains_key(source),
    ensures
        !images.wants(source, address::parsed_url(source)),
        images::resolved(images@, source) == source,
{
}

} // verus!
