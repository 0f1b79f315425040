//! What is known of an item stands at the head of its file.

use vstd::prelude::*;

use crate::images::Replacements;
use crate::item;
use crate::json::JsonValue;
use crate::text;
use crate::zhihu;
use crate::zhihu::{Author, CollectionItem, Content, Question};

verus! {

/// A text without the white space around it, if anything is left.
pub open spec fn something(given: Option<String>) -> Option<Seq<char>> {
    match given {
        Some(given) => if text::trimmed(given@).len() == 0 {
            None
        } else {
            Some(text::trimmed(given@))
        },
        None => None,
    }
}

/// A line for what is known, and none for what is not.
pub open spec fn line_on(label: Seq<char>, known: Option<Seq<char>>) -> Seq<char> {
    match known {
        Some(known) => label + known + seq!['\n'],
        None => seq![],
    }
}

/// A number stands for itself as it is written, a text for what is left without the white space
/// around it; nothing else stands for a text.
pub proof fn values_stand_for_texts(value: JsonValue)
    ensures
        match value {
            JsonValue::Number(number) => item::value_text(Some(value)) == Some(number@),
            JsonValue::Text(own) => item::value_text(Some(value)) == something(Some(own)),
            _ => item::value_text(Some(value)) is None,
        },
        item::value_text(None) is None,
{
}

/// The title of an item is its own; that of its excerpt counts only where it has none, and that of
/// its question only where it has neither. A blank title, or none, is replaced.
pub proof fn titles_are_taken_in_order(index: usize, item: CollectionItem, images: Replacements)
    requires
        item.content is Some,
    ensures
        ({
            let content = item.content->0;
            let given = if content.title is Some {
                something(content.title)
            } else if content.excerpt_title is Some {
                something(content.excerpt_title)
            } else if content.question is Some {
                something(content.question->0.title)
            } else {
                None
            };
            item::entry_of(index, item, images).title == (match given {
                Some(title) => title,
                None => seq!['无', '标', '题'],
            })
        }),
{
    reveal_strlit("无标题");
    assert("无标题"@ =~= seq!['无', '标', '题']);
}

/// An answer is found under its question, an article in its column, a video by its number; any of
/// them only where the numbers are known.
pub open spec fn found_by_number(content: Content) -> Option<Seq<char>> {
    match (content.kind, item::value_text(content.id)) {
        (Some(kind), Some(id)) => if kind@ == "answer"@ {
            match content.question {
                Some(question) => match item::value_text(question.id) {
                    Some(number) => Some(
                        "https://www.zhihu.com"@ + "/question/"@ + number + "/answer/"@ + id,
                    ),
                    None => None,
                },
                None => None,
            }
        } else if kind@ == "article"@ {
            Some("https://zhuanlan.zhihu.com/p/"@ + id)
        } else if kind@ == "zvideo"@ {
            Some("https://www.zhihu.com"@ + "/zvideo/"@ + id)
        } else {
            None
        },
        _ => None,
    }
}

/// An item leads to the page that its numbers give, whatever address it names; only without them it
/// leads to the address that it names, and without one to that of its question, both absolute.
pub proof fn numbers_lead_before_addresses(
    index: usize,
    item: CollectionItem,
    images: Replacements,
)
    requires
        item.content is Some,
    ensures
        ({
            let content = item.content->0;
            let led = item::entry_of(index, item, images).url;
            match found_by_number(content) {
                Some(page) => led == Some(page),
                None => match content.url {
                    Some(url) => led == Some(zhihu::normalized_url(url@)),
                    None => match content.question {
                        Some(Question { url: Some(url), .. }) => led == Some(
                            zhihu::normalized_url(url@),
                        ),
                        _ => led is None,
                    },
                },
            }
        }),
{
}

/// The page of an author is that of their token, and there is none without one.
pub proof fn authors_are_found_by_token(author: Author)
    ensures
        match something(author.url_token) {
            Some(token) => item::author_page(author) == Some(
                "https://www.zhihu.com"@ + "/people/"@ + token,
            ),
            None => item::author_page(author) is None,
        },
{
}

/// What the file of an item begins with: the title, then a line for each thing that is known of it.
pub open spec fn known_of(
    index: usize,
    content: Content,
    title: Seq<char>,
    url: Option<Seq<char>>,
) -> Seq<char> {
    seq!['#', ' '] + title + seq!['\n', '\n'] + line_on(
        "- 序号: "@,
        Some(text::decimal(index as nat)),
    ) + line_on(
        "- 类型: "@,
        Some(
            match content.kind {
                Some(kind) => kind@,
                None => "unknown"@,
            },
        ),
    ) + line_on("- 原文链接: "@, url) + line_on(
        "- 作者: "@,
        match content.author {
            Some(Author { name: Some(name), .. }) => Some(text::trimmed(name@)),
            _ => None,
        },
    ) + line_on(
        "- 作者主页: "@,
        match content.author {
            Some(author) => item::author_page(author),
            _ => None,
        },
    ) + line_on(
        "- 作者简介: "@,
        match content.author {
            Some(author) => something(author.headline),
            _ => None,
        },
    ) + line_on(
        "- 创建时间: "@,
        match content.created_time {
            Some(time) => Some(text::signed_decimal(time as int)),
            None => None,
        },
    ) + line_on(
        "- 更新时间: "@,
        match content.updated_time {
            Some(time) => Some(text::signed_decimal(time as int)),
            None => None,
        },
    ) + seq!['\n']
}

/// The file of an item begins with its title and with all that is known of it, a line for each
/// thing: the number, the kind, the page, the author, their page and headline, and when it was made
/// and changed. What is not known has no line.
pub proof fn files_begin_with_what_is_known(
    index: usize,
    item: CollectionItem,
    images: Replacements,
)
    requires
        item.content is Some,
    ensures
        ({
            let entry = item::entry_of(index, item, images);
            text::begins(
                entry.markdown,
                known_of(index, item.content->0, entry.title, entry.url),
            )
        }),
        item::entry_of(index, item, images).index == index,
{
    let content = item.content->0;
    let entry = item::entry_of(index, item, images);
    let head = known_of(index, content, entry.title, entry.url);
    lemma_lines();
    assert(item::head_of(index, content) =~= head);
    assert(entry.markdown.take(head.len() as int) =~= head);
}

/// Lines are written alike.
pub proof fn lemma_lines()
    ensures
        forall|label: Seq<char>, known: Option<Seq<char>>|
            #[trigger] item::labelled(label, known) == line_on(label, known),
        "# "@ == seq!['#', ' '],
        "\n\n"@ == seq!['\n', '\n'],
        "\n"@ == seq!['\n'],
{
    reveal_strlit("# ");
    reveal_strlit("\n\n");
    reveal_strlit("\n");
    assert("# "@ =~= seq!['#', ' ']);
    assert("\n\n"@ =~= seq!['\n', '\n']);
    assert("\n"@ =~= seq!['\n']);
}

/// An item whose content is gone keeps its number and has a file that says so.
pub proof fn missing_items_are_told(index: usize, item: CollectionItem, images: Replacements)
    requires
        item.content is None,
    ensures
        ({
            let entry = item::entry_of(index, item, images);
            &&& entry.index == index
            &&& entry.title == "[内容不可用]"@
            &&& entry.url is None
            &&& text::begins(entry.markdown, seq!['#', ' '] + entry.title)
            &&& text::ends(
                entry.markdown,
                "\n\n该收藏条目已删除、不可见，或接口没有返回内容。\n"@,
            )
        }),
{
    lemma_lines();
    let entry = item::entry_of(index, item, images);
    let start = seq!['#', ' '] + entry.title;
    let end = "\n\n该收藏条目已删除、不可见，或接口没有返回内容。\n"@;
    assert(entry.markdown.take(start.len() as int) =~= start);
    assert(entry.markdown.skip(entry.markdown.len() - end.len()) =~= end);
}

} // verus!
