//! What an item says is what its file says.

use vstd::prelude::*;

use crate::images::Replacements;
use crate::item;
use crate::json;
use crate::json::JsonValue;
use crate::laws::fetched;
use crate::markdown;
use crate::text;
use crate::zhihu;
use crate::zhihu::{CollectionItem, Content};

verus! {

/// A member is found by its name: the first of that name, if there is one.
pub proof fn members_are_found_by_name(members: Seq<(String, JsonValue)>, name: Seq<char>)
    ensures
        json::member(members, name) is None <==> forall|i: int|
            0 <= i < members.len() ==> (#[trigger] members[i]).0@ != name,
        forall|i: int|
            0 <= i < members.len() && (#[trigger] members[i]).0@ == name && (forall|j: int|
                0 <= j < i ==> (#[trigger] members[j]).0@ != name) ==> json::member(members, name)
                == Some(members[i].1),
    decreases members.len(),
{
    if members.len() > 0 && members[0].0@ != name {
        let rest = members.drop_first();
        members_are_found_by_name(rest, name);
        assert(forall|i: int| 0 <= i < rest.len() ==> rest[i] == members[i + 1]);
        assert forall|i: int|
            0 <= i < members.len() && (#[trigger] members[i]).0@ == name && (forall|j: int|
                0 <= j < i ==> (#[trigger] members[j]).0@ != name) implies json::member(
            members,
            name,
        ) == Some(members[i].1) by {
            assert(rest[i - 1] == members[i]);
        }
        if json::member(members, name) is None {
            assert forall|i: int| 0 <= i < members.len() implies (#[trigger] members[i]).0@
                != name by {
                if i > 0 {
                    assert(rest[i - 1].0@ != name);
                }
            }
        }
    } else if members.len() > 0 {
        assert(members[0].0@ == name);
    }
}

/// Where an image is shown from: where it was kept, or else where it came from.
pub open spec fn shown_target(images: Replacements, target: Seq<char>) -> Seq<char> {
    if images.contains_key(target) && images[target] is Some {
        images[target]->0
    } else {
        target
    }
}

/// A block whose text leaves something in Markdown is that, without the white space around it,
/// whatever else the block holds. The text stands under `content`; `own_text` counts only where
/// there is no `content`.
pub proof fn blocks_with_text_show_it(
    members: Vec<(String, JsonValue)>,
    images: Replacements,
    html: Seq<char>,
)
    requires
        fetched::text_under_either(members@, "content"@, "own_text"@) == Some(html),
        !text::blank(markdown::markdown_of(html, images)),
    ensures
        item::block_of(JsonValue::Object(members), images) == Some(
            text::trimmed(markdown::markdown_of(html, images)),
        ),
{
}

/// A block without text but with an address and a title shows both: the title as the label in front
/// of the address, be it a link or an image. The address stands under `url`, the title under
/// `title`; `original_url` and `data_draft_title` count only where those are missing.
pub proof fn blocks_with_title_show_it(
    members: Vec<(String, JsonValue)>,
    images: Replacements,
    url: Seq<char>,
    title: Seq<char>,
)
    requires
        !fetched::says_something(members@, images),
        fetched::text_under_either(members@, "url"@, "original_url"@) == Some(url),
        fetched::text_under_either(members@, "title"@, "data_draft_title"@) == Some(title),
    ensures
        ({
            let target = zhihu::normalized_url(url);
            match json::member(members@, "type"@) {
                Some(JsonValue::Text(kind)) if kind@ == "image"@ => item::block_of(
                    JsonValue::Object(members),
                    images,
                ) == Some(
                    seq!['!', '['] + title + seq![']', '('] + shown_target(images, target) + seq![')'],
                ),
                _ => item::block_of(JsonValue::Object(members), images) == Some(
                    seq!['['] + title + seq![']', '('] + target + seq![')'],
                ),
            }
        }),
{
    lemma_brackets();
}

/// A block without text and title shows its address: an image under a name of its own, anything
/// else bare. A block without text and address shows nothing, and neither does what is no object.
pub proof fn blocks_without_title_show_their_address(
    members: Vec<(String, JsonValue)>,
    images: Replacements,
)
    requires
        !fetched::says_something(members@, images),
        fetched::text_under_either(members@, "title"@, "data_draft_title"@) is None,
    ensures
        ({
            let shown = item::block_of(JsonValue::Object(members), images);
            match fetched::text_under_either(members@, "url"@, "original_url"@) {
                Some(url) => {
                    let target = zhihu::normalized_url(url);
                    match json::member(members@, "type"@) {
                        Some(JsonValue::Text(kind)) if kind@ == "image"@ => shown == Some(
                            seq!['!', '[', '图', '片', ']', '('] + shown_target(images, target) + seq![')'],
                        ),
                        _ => shown == Some(target),
                    }
                },
                None => shown is None,
            }
        }),
{
    lemma_brackets();
    reveal_strlit("图片");
    assert("!["@ + "图片"@ + "]("@ =~= seq!['!', '[', '图', '片', ']', '(']);
}

/// What the pieces of a link are.
proof fn lemma_brackets()
    ensures
        "!["@ == seq!['!', '['],
        "["@ == seq!['['],
        "]("@ == seq![']', '('],
        ")"@ == seq![')'],
{
    reveal_strlit("![");
    reveal_strlit("[");
    reveal_strlit("](");
    reveal_strlit(")");
    assert("!["@ =~= seq!['!', '[']);
    assert("["@ =~= seq!['[']);
    assert("]("@ =~= seq![']', '(']);
    assert(")"@ =~= seq![')']);
}

/// The blocks come out one by one and in order: what two lists of blocks become in a row is what
/// they become each.
pub proof fn blocks_come_in_order(
    first: Seq<JsonValue>,
    second: Seq<JsonValue>,
    images: Replacements,
)
    ensures
        item::blocks_of(first + second, images) == item::blocks_of(first, images)
            + item::blocks_of(second, images),
    decreases second.len(),
{
    if second.len() == 0 {
        assert(first + second =~= first);
        assert(item::blocks_of(first, images) + item::blocks_of(second, images)
            =~= item::blocks_of(first, images));
    } else {
        blocks_come_in_order(first, second.drop_last(), images);
        assert((first + second).drop_last() =~= first + second.drop_last());
        assert((first + second).last() == second.last());
        assert(item::blocks_of(first + second, images) =~= item::blocks_of(first, images)
            + item::blocks_of(second, images));
    }
}

/// One block alone gives what it shows, or nothing.
pub proof fn a_block_stands_for_itself(block: JsonValue, images: Replacements)
    ensures
        item::block_of(block, images) matches Some(shown) ==> item::blocks_of(seq![block], images)
            == seq![shown],
        item::block_of(block, images) is None ==> item::blocks_of(seq![block], images).len() == 0,
{
    let alone = seq![block];
    assert(alone.drop_last() =~= seq![]);
    assert(alone.last() == block);
    assert(item::blocks_of(alone.drop_last(), images) =~= seq![]);
    if let Some(shown) = item::block_of(block, images) {
        assert(item::blocks_of(alone, images) =~= seq![shown]);
    }
}

/// The Markdown of a row of blocks that show something is what each shows, with an empty line
/// between two.
pub proof fn blocks_are_set_apart(
    first: Seq<JsonValue>,
    second: Seq<JsonValue>,
    images: Replacements,
)
    requires
        item::blocks_of(first, images).len() > 0,
        item::blocks_of(second, images).len() > 0,
    ensures
        text::joined(item::blocks_of(first + second, images), "\n\n"@) == text::joined(
            item::blocks_of(first, images),
            "\n\n"@,
        ) + seq!['\n', '\n'] + text::joined(item::blocks_of(second, images), "\n\n"@),
{
    blocks_come_in_order(first, second, images);
    reveal_strlit("\n\n");
    assert("\n\n"@ =~= seq!['\n', '\n']);
    lemma_joined_concat(
        item::blocks_of(first, images),
        item::blocks_of(second, images),
        "\n\n"@,
    );
}

/// Joining two lists of parts puts a separator between them.
pub proof fn lemma_joined_concat(
    first: Seq<Seq<char>>,
    second: Seq<Seq<char>>,
    separator: Seq<char>,
)
    requires
        first.len() > 0,
        second.len() > 0,
    ensures
        text::joined(first + second, separator) == text::joined(first, separator) + separator
            + text::joined(second, separator),
    decreases second.len(),
{
    let both = first + second;
    assert(both.last() == second.last());
    assert(both.drop_last() =~= first + second.drop_last());
    if second.len() > 1 {
        lemma_joined_concat(first, second.drop_last(), separator);
    } else {
        assert(both.drop_last() =~= first);
        assert(second.drop_last() =~= seq![]);
    }
    assert(text::joined(both, separator) =~= text::joined(first, separator) + separator
        + text::joined(second, separator));
}

/// The Markdown that an item has to show: that of its HTML, or that of its blocks, one after the
/// other with an empty line between; none where there is neither, where the HTML is blank, or where
/// the blocks leave nothing.
pub open spec fn shown_markdown(value: Option<JsonValue>, images: Replacements) -> Option<
    Seq<char>,
> {
    match value {
        Some(JsonValue::Text(html)) => if text::blank(html@) {
            None
        } else {
            Some(markdown::markdown_of(html@, images))
        },
        Some(JsonValue::Array(blocks)) => {
            let rows = text::joined(item::blocks_of(blocks@, images), seq!['\n', '\n']);
            if text::blank(rows) {
                None
            } else {
                Some(rows)
            }
        },
        _ => None,
    }
}

/// Whether the content is a video.
pub open spec fn is_video(content: Content) -> bool {
    content.kind matches Some(kind) && kind@ == "zvideo"@
}

/// Where the content gives Markdown and is no video, the file ends with all of it and a line feed,
/// whatever the excerpt says.
pub proof fn files_end_with_the_whole_text(
    index: usize,
    item: CollectionItem,
    images: Replacements,
    shown: Seq<char>,
)
    requires
        item.content is Some,
        !is_video(item.content->0),
        shown_markdown(item.content->0.content, images) == Some(shown),
    ensures
        ({
            let file = item::entry_of(index, item, images).markdown;
            let whole = if text::ends(shown, seq!['\n']) {
                shown
            } else {
                shown.push('\n')
            };
            &&& file.len() >= whole.len()
            &&& file.skip(file.len() - whole.len()) == whole
        }),
{
    let content = item.content->0;
    lemma_kinds(content);
    reveal_strlit("\n\n");
    reveal_strlit("\n");
    assert("\n\n"@ =~= seq!['\n', '\n']);
    assert(item::content_markdown(content.content, images) == Some(shown));
    let file = item::entry_of(index, item, images).markdown;
    let head = item::head_of(index, content);
    let body = item::body_of(content, images);
    if shown.len() > 0 && shown.last() == '\n' {
        assert(shown.skip(shown.len() - 1) =~= seq!['\n']);
    } else if text::ends(shown, seq!['\n']) {
        assert(shown.skip(shown.len() - 1)[0] == '\n');
    }
    assert(shown + "\n"@ =~= shown.push('\n'));
    assert(file == head + body);
    assert(file.skip(file.len() - body.len()) =~= body);
}

/// What stands above the text does not depend on the excerpt.
proof fn lemma_same_head(index: usize, left: Content, right: Content)
    requires
        (Content { excerpt: right.excerpt, ..left }) == right,
    ensures
        item::head_of(index, left) == item::head_of(index, right),
{
    assert(item::title_of(left) == item::title_of(right));
    assert(item::kind_of(left) == item::kind_of(right));
    assert(item::canonical_url(left) == item::canonical_url(right));
    assert(item::given_url(left) == item::given_url(right));
    assert(item::url_of(left) == item::url_of(right));
    assert(left.author == right.author);
    assert(left.created_time == right.created_time);
    assert(left.updated_time == right.updated_time);
}

/// Two items that differ in their excerpt alone give the same file, unless the content gives no
/// Markdown.
pub proof fn excerpts_stand_in_for_missing_text_only(
    index: usize,
    left: Content,
    right: Content,
    images: Replacements,
)
    requires
        (Content { excerpt: right.excerpt, ..left }) == right,
        shown_markdown(left.content, images) is Some || is_video(left),
    ensures
        item::entry_of(index, CollectionItem { content: Some(left) }, images) == item::entry_of(
            index,
            CollectionItem { content: Some(right) },
            images,
        ),
{
    lemma_same_head(index, left, right);
    lemma_same_body(left, right, images);
    assert(item::title_of(left) == item::title_of(right));
    assert(item::url_of(left) == item::url_of(right));
}

/// Where the content gives Markdown, or is a video, the text does not depend on the excerpt.
proof fn lemma_same_body(left: Content, right: Content, images: Replacements)
    requires
        (Content { excerpt: right.excerpt, ..left }) == right,
        shown_markdown(left.content, images) is Some || is_video(left),
    ensures
        item::body_of(left, images) == item::body_of(right, images),
{
    lemma_kinds(left);
    lemma_kinds(right);
    reveal_strlit("\n\n");
    assert("\n\n"@ =~= seq!['\n', '\n']);
    assert(left.content == right.content);
    assert(item::kind_of(left) == item::kind_of(right));
    assert(item::content_markdown(left.content, images) == shown_markdown(left.content, images));
}

/// Where the content gives no Markdown and is no video, the file ends with the excerpt and a line
/// feed, if there is one that is not blank.
pub proof fn files_without_text_end_with_the_excerpt(
    index: usize,
    item: CollectionItem,
    images: Replacements,
    excerpt: Seq<char>,
)
    requires
        item.content is Some,
        !is_video(item.content->0),
        shown_markdown(item.content->0.content, images) is None,
        text::opt_text(item.content->0.excerpt) == Some(excerpt),
        !text::blank(excerpt),
    ensures
        ({
            let file = item::entry_of(index, item, images).markdown;
            let last = text::trimmed(excerpt).push('\n');
            &&& file.len() >= last.len()
            &&& file.skip(file.len() - last.len()) == last
        }),
{
    let content = item.content->0;
    lemma_kinds(content);
    reveal_strlit("\n\n");
    reveal_strlit("\n");
    assert("\n\n"@ =~= seq!['\n', '\n']);
    let file = item::entry_of(index, item, images).markdown;
    let head = item::head_of(index, content);
    let body = item::body_of(content, images);
    assert(body =~= text::trimmed(excerpt).push('\n'));
    assert(file == head + body);
    assert(file.skip(file.len() - body.len()) =~= body);
}

/// A video, and an item that says nothing at all, end with a note.
pub proof fn files_without_any_text_say_so(
    index: usize,
    item: CollectionItem,
    images: Replacements,
)
    requires
        item.content is Some,
        is_video(item.content->0) || shown_markdown(item.content->0.content, images) is None && (
        text::opt_text(item.content->0.excerpt) matches Some(excerpt) ==> text::blank(excerpt)),
    ensures
        ({
            let file = item::entry_of(index, item, images).markdown;
            let note = if is_video(item.content->0) {
                "视频条目通常不包含正文，已保留标题和链接。\n"@
            } else {
                "接口未返回正文。\n"@
            };
            &&& file.len() >= note.len()
            &&& file.skip(file.len() - note.len()) == note
        }),
{
    let content = item.content->0;
    lemma_kinds(content);
    reveal_strlit("\n\n");
    assert("\n\n"@ =~= seq!['\n', '\n']);
    let file = item::entry_of(index, item, images).markdown;
    let head = item::head_of(index, content);
    let body = item::body_of(content, images);
    assert(file == head + body);
    assert(file.skip(file.len() - body.len()) =~= body);
}

/// What has no kind is no video.
proof fn lemma_kinds(content: Content)
    ensures
        is_video(content) <==> item::kind_of(content) == "zvideo"@,
{
    reveal_strlit("unknown");
    reveal_strlit("zvideo");
    assert("unknown"@.len() == 7 && "zvideo"@.len() == 6);
}

} // verus!
