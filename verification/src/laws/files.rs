//! What the files of a collection are called, and what they hold.

use vstd::prelude::*;

use crate::export;
use crate::export::{Progress, Volume};
use crate::item::Entry;
use crate::laws::heads;
use crate::text;
use crate::text::CharClass;
use crate::zhihu::Paging;

verus! {

/// The characters that may not stand in a name.
pub open spec fn signs() -> Seq<char> {
    seq!['/', '\\', ':', '*', '?', '"', '<', '>', '|', '[', ']', '#', '^', '\r', '\n', '\t']
}

/// Just these characters may not stand in a name.
pub proof fn signs_are_forbidden(c: char)
    ensures
        export::forbidden(c) <==> signs().contains(c),
{
    let all = signs();
    assert(all[0] == '/' && all[1] == '\\' && all[2] == ':' && all[3] == '*');
    assert(all[4] == '?' && all[5] == '"' && all[6] == '<' && all[7] == '>');
    assert(all[8] == '|' && all[9] == '[' && all[10] == ']' && all[11] == '#');
    assert(all[12] == '^' && all[13] == '\r' && all[14] == '\n' && all[15] == '\t');
    if all.contains(c) {
        let i = choose|i: int| 0 <= i < all.len() && all[i] == c;
        assert(0 <= i < 16);
    }
}

/// The name for a text keeps it from the first character that is neither white space nor a dot on:
/// character by character, with `_` for those that may not stand there, for 80 characters or until
/// nothing but white space and dots is left.
pub proof fn names_keep_the_text(input: Seq<char>, k: int) -> (at: int)
    requires
        0 <= k < input.len(),
        export::forbidden(input[k]) || (!text::white_space(input[k]) && input[k] != '.'),
    ensures
        ({
            let name = export::sanitized(input);
            &&& 0 <= at <= k
            &&& 0 < name.len() <= 80
            &&& at + name.len() <= input.len()
            &&& forall|i: int|
                0 <= i < name.len() ==> #[trigger] name[i] == (if export::forbidden(
                    input[at + i],
                ) {
                    '_'
                } else {
                    input[at + i]
                })
            &&& forall|i: int|
                0 <= i < at ==> text::white_space(#[trigger] input[i]) || input[i] == '.'
            &&& name.len() < 80 ==> k < at + name.len() && forall|i: int|
                at + name.len() <= i < input.len() ==> text::white_space(#[trigger] input[i])
                    || input[i] == '.'
        }),
{
    let dot = CharClass::Only('.');
    let mapped = export::name_chars(input);
    let start = text::stripped_start(mapped, CharClass::WhiteSpace);
    let trimmed = text::trimmed(mapped);
    let undotted = text::stripped_start(trimmed, dot);
    let whole = export::undotted(trimmed);
    let name = export::sanitized(input);
    text::lemma_stripped_start(mapped, CharClass::WhiteSpace);
    text::lemma_stripped_end(start, CharClass::WhiteSpace);
    text::lemma_stripped_start(trimmed, dot);
    text::lemma_stripped_end(undotted, dot);
    let left = mapped.len() - start.len();
    let dots = trimmed.len() - undotted.len();
    let at = left + dots;
    assert(!text::white_space('_') && '_' != '.');
    assert(mapped[k] == export::name_char(input[k]));
    assert(!text::white_space(mapped[k]) && mapped[k] != '.');
    assert(left <= k);
    assert(start[k - left] == mapped[k]);
    assert(k - left < trimmed.len());
    assert(trimmed[k - left] == mapped[k]);
    assert(dots <= k - left);
    assert(undotted[k - left - dots] == mapped[k]);
    assert(k - at < whole.len());
    assert forall|i: int| 0 <= i < whole.len() implies #[trigger] whole[i] == mapped[at + i] by {
        assert(whole[i] == undotted[i]);
        assert(undotted[i] == trimmed[dots + i]);
        assert(trimmed[dots + i] == start[dots + i]);
    }
    assert forall|i: int| 0 <= i < at implies text::white_space(#[trigger] input[i]) || input[i]
        == '.' by {
        lemma_outside(input, i);
        if i >= left {
            assert(trimmed[i - left] == start[i - left]);
            assert(dot.has(trimmed[i - left]));
            assert(start[i - left] == mapped[i]);
        } else {
            assert(CharClass::WhiteSpace.has(mapped[i]));
        }
    }
    if name.len() < 80 {
        assert forall|i: int| at + name.len() <= i < input.len() implies text::white_space(
            #[trigger] input[i],
        ) || input[i] == '.' by {
            lemma_outside(input, i);
            if i - left < trimmed.len() {
                assert(undotted[i - at] == trimmed[i - left]);
                assert(dot.has(undotted[i - at]));
                assert(trimmed[i - left] == start[i - left]);
                assert(start[i - left] == mapped[i]);
            } else {
                assert(CharClass::WhiteSpace.has(start[i - left]));
                assert(start[i - left] == mapped[i]);
            }
        }
    }
    at
}

/// What is white space or a dot in a name was that before.
proof fn lemma_outside(input: Seq<char>, i: int)
    requires
        0 <= i < input.len(),
    ensures
        ({
            let c = export::name_chars(input)[i];
            text::white_space(c) || c == '.' ==> text::white_space(input[i]) || input[i] == '.'
        }),
{
    assert(!text::white_space('_'));
}

/// A text that can stand as a name stands as it is; a longer one keeps its first 80 characters.
pub proof fn plain_texts_are_their_names(input: Seq<char>)
    requires
        input.len() > 0,
        export::plain_name(input),
        !text::white_space(input.first()) && !text::white_space(input.last()),
        input.first() != '.' && input.last() != '.',
    ensures
        input.len() <= 80 ==> export::sanitized(input) == input,
        input.len() > 80 ==> export::sanitized(input) == input.take(80),
{
    let dot = CharClass::Only('.');
    let mapped = export::name_chars(input);
    assert(mapped =~= input);
    text::lemma_trimmed_fixed(mapped);
    assert(text::stripped_start(mapped, dot) == mapped);
    assert(text::stripped_end(mapped, dot) == mapped);
}

/// The folder of a collection has its title for a name, or its number where there is no title, and
/// stands below the directory that was named, or below the current one.
pub proof fn folders_are_named_by_title(root: Seq<char>, collection_id: Seq<char>, title: Seq<char>)
    requires
        !text::blank(export::sanitized(title)),
    ensures
        export::output_dir(None, collection_id, Some(title)) == export::sanitized(title),
        export::output_dir(None, collection_id, None) == collection_id,
        root.len() > 0 && root.last() != '/' ==> export::output_dir(
            Some(root),
            collection_id,
            Some(title),
        ) == root + seq!['/'] + export::sanitized(title),
        root.len() > 0 && root.last() == '/' ==> export::output_dir(
            Some(root),
            collection_id,
            Some(title),
        ) == root + export::sanitized(title),
{
    export::sanitized_names_are_plain(title);
    let name = export::sanitized(title);
    reveal_strlit("/");
    assert("/"@ =~= seq!['/']);
    if name[0] == '/' {
        assert(export::forbidden(name[0]));
    }
    if text::begins(name, "/"@) {
        assert(name.take(1)[0] == '/');
    }
    if text::ends(root, "/"@) {
        assert(root.skip(root.len() - 1)[0] == '/');
    }
    if root.len() > 0 && root.last() == '/' {
        assert(root.skip(root.len() - 1) =~= seq!['/']);
    }
}

/// The numbers of the items are wide enough for each of them, two digits at least, and no wider
/// than the last one where that has more.
pub proof fn numbers_are_as_wide_as_the_last(count: nat, index: nat)
    requires
        1 <= index <= count,
    ensures
        text::decimal(index).len() <= export::number_width(count),
        export::number_width(count) >= 2,
        export::number_width(count) > 2 ==> export::number_width(count) == text::decimal(
            count,
        ).len(),
{
    text::lemma_decimal_len(index, count);
}

/// The name of the file of an item begins with its number, filled up with zeros to the width of the
/// collection, and goes on with `_` and the name for its title.
pub proof fn stems_hold_number_and_title(index: nat, title: Seq<char>, width: nat)
    requires
        text::decimal(index).len() <= width,
    ensures
        ({
            let stem = export::stem_of(index, title, width);
            &&& stem.len() == width + 1 + export::sanitized(title).len()
            &&& text::all_digits(stem.take(width as int))
            &&& text::digits_value(stem.take(width as int)) == index
            &&& stem[width as int] == '_'
            &&& stem.skip(width as int + 1) == export::sanitized(title)
        }),
{
    reveal_strlit("_");
    let digits = text::decimal(index);
    let number = text::padded_start(digits, '0', width as int);
    let stem = export::stem_of(index, title, width);
    text::lemma_decimal_value(index);
    text::lemma_padded_value(digits, width as int);
    assert(number.len() == width);
    assert(stem.take(width as int) =~= number);
    assert(stem.skip(width as int + 1) =~= export::sanitized(title));
    assert forall|i: int| 0 <= i < number.len() implies '0' <= #[trigger] number[i] <= '9' by {
        if i >= width - digits.len() {
            assert(number[i] == digits[i - (width - digits.len())]);
        }
    }
}

/// The character as it stands in a link.
pub open spec fn link_char(c: char) -> char {
    if c == '|' {
        '｜'
    } else if c == '[' {
        '［'
    } else if c == ']' {
        '］'
    } else {
        c
    }
}

/// A title stands in a link character by character, without the white space around it; only what
/// would end the link is written in full width. A blank title is replaced.
pub proof fn aliases_keep_the_title(title: Seq<char>)
    ensures
        text::blank(title) ==> export::alias_of(title) == seq!['无', '标', '题'],
        !text::blank(title) ==> export::alias_of(title) == Seq::new(
            text::trimmed(title).len(),
            |i: int| link_char(text::trimmed(title)[i]),
        ),
{
    let own = text::trimmed(title);
    reveal_strlit("｜");
    reveal_strlit("［");
    reveal_strlit("］");
    reveal_strlit("无标题");
    assert("｜"@ =~= seq!['｜']);
    assert("［"@ =~= seq!['［']);
    assert("］"@ =~= seq!['］']);
    assert("无标题"@ =~= seq!['无', '标', '题']);
    let first = text::replaced(own, '|', seq!['｜']);
    let second = text::replaced(first, '[', seq!['［']);
    let third = text::replaced(second, ']', seq!['］']);
    lemma_replaced_char(own, '|', '｜');
    lemma_replaced_char(first, '[', '［');
    lemma_replaced_char(second, ']', '］');
    assert(third =~= Seq::new(own.len(), |i: int| link_char(own[i])));
}

/// Replacing a character by one other changes it where it stands, and nothing else.
proof fn lemma_replaced_char(given: Seq<char>, from: char, to: char)
    ensures
        text::replaced(given, from, seq![to]) == Seq::new(
            given.len(),
            |i: int|
                if given[i] == from {
                    to
                } else {
                    given[i]
                },
        ),
    decreases given.len(),
{
    let image = Seq::new(
        given.len(),
        |i: int|
            if given[i] == from {
                to
            } else {
                given[i]
            },
    );
    if given.len() > 0 {
        lemma_replaced_char(given.drop_last(), from, to);
    }
    assert(text::replaced(given, from, seq![to]) =~= image);
}

/// The index lists the items one by one and in order, each on a line of its own with its number and
/// a link to its file under its title.
pub proof fn index_lines_come_in_order(first: Seq<Entry>, second: Seq<Entry>)
    ensures
        export::index_lines(first + second) == export::index_lines(first) + export::index_lines(
            second,
        ),
        first.len() == 1 ==> export::index_lines(first) == text::decimal(first[0].index as nat)
            + seq!['.', ' ', '[', '['] + first[0].stem + seq!['|'] + export::alias_of(
            first[0].title,
        ) + seq![']', ']', '\n'],
    decreases second.len(),
{
    if second.len() == 0 {
        assert(first + second =~= first);
        assert(export::index_lines(first) + export::index_lines(second) =~= export::index_lines(
            first,
        ));
    } else {
        index_lines_come_in_order(first, second.drop_last());
        assert((first + second).drop_last() =~= first + second.drop_last());
        assert((first + second).last() == second.last());
        assert(export::index_lines(first + second) =~= export::index_lines(first)
            + export::index_lines(second));
    }
    if first.len() == 1 {
        reveal_strlit(". [[");
        reveal_strlit("|");
        reveal_strlit("]]\n");
        assert(". [["@ =~= seq!['.', ' ', '[', '[']);
        assert("|"@ =~= seq!['|']);
        assert("]]\n"@ =~= seq![']', ']', '\n']);
        assert(export::index_lines(first.drop_last()) =~= seq![]);
        assert(export::index_lines(first) =~= export::index_line(first[0]));
    }
}

/// The index begins with the title of the collection, its address, how many items were reported, if
/// any number was, and how many there are; and ends with the lines of the items.
pub proof fn the_index_tells_of_the_collection(volume: Volume)
    ensures
        text::begins(
            export::index_of(volume),
            seq!['#', ' '] + volume.title + seq!['\n', '\n'] + heads::line_on(
                "- 收藏夹链接: https://www.zhihu.com/collection/"@,
                Some(volume.collection_id),
            ) + heads::line_on(
                "- 接口报告条目数: "@,
                match volume.total {
                    Some(total) => Some(text::decimal(total as nat)),
                    None => None,
                },
            ) + heads::line_on("- 导出条目数: "@, Some(text::decimal(volume.entries.len()))) + seq!['\n'],
        ),
        text::ends(
            export::index_of(volume),
            seq!['#', '#', ' ', '目', '录', '\n', '\n'] + export::index_lines(volume.entries),
        ),
{
    heads::lemma_lines();
    reveal_strlit("\n## 目录\n\n");
    assert("\n## 目录\n\n"@ =~= seq!['\n'] + seq!['#', '#', ' ', '目', '录', '\n', '\n']);
    let index = export::index_of(volume);
    let start = seq!['#', ' '] + volume.title + seq!['\n', '\n'] + heads::line_on(
        "- 收藏夹链接: https://www.zhihu.com/collection/"@,
        Some(volume.collection_id),
    ) + heads::line_on(
        "- 接口报告条目数: "@,
        match volume.total {
            Some(total) => Some(text::decimal(total as nat)),
            None => None,
        },
    ) + heads::line_on("- 导出条目数: "@, Some(text::decimal(volume.entries.len()))) + seq!['\n'];
    let end = seq!['#', '#', ' ', '目', '录', '\n', '\n'] + export::index_lines(volume.entries);
    assert(index =~= start + end);
    assert(index.take(start.len() as int) =~= start);
    assert(index.skip(index.len() - end.len()) =~= end);
}

/// The list of addresses has those of the items that have one, in order and as they are, each with
/// a line feed behind it.
pub proof fn addresses_come_in_order(first: Seq<Entry>, second: Seq<Entry>)
    ensures
        export::shown_urls(first + second) == export::shown_urls(first) + export::shown_urls(
            second,
        ),
        first.len() == 1 ==> match first[0].url {
            Some(url) => if text::trimmed(url).len() > 0 {
                export::shown_urls(first) == seq![url]
            } else {
                export::shown_urls(first).len() == 0
            },
            None => export::shown_urls(first).len() == 0,
        },
    decreases second.len(),
{
    if second.len() == 0 {
        assert(first + second =~= first);
        assert(export::shown_urls(first) + export::shown_urls(second) =~= export::shown_urls(
            first,
        ));
    } else {
        addresses_come_in_order(first, second.drop_last());
        assert((first + second).drop_last() =~= first + second.drop_last());
        assert((first + second).last() == second.last());
        assert(export::shown_urls(first + second) =~= export::shown_urls(first)
            + export::shown_urls(second));
    }
    if first.len() == 1 {
        assert(export::shown_urls(first.drop_last()) =~= seq![]);
        if let Some(url) = first[0].url {
            if !text::blank(url) {
                assert(export::shown_urls(first) =~= seq![url]);
            }
        }
    }
}

/// The files of a collection are the index, the list of addresses where it was asked for, and one
/// file for each item, with all of its text and no other.
pub proof fn every_item_is_written(volume: Volume, export_links: bool, i: int)
    ensures
        ({
            let files = export::files_of(volume, export_links);
            let common: int = if export_links {
                2
            } else {
                1
            };
            &&& files.len() == common + volume.entries.len()
            &&& files[0].name == "00_index.md"@
            &&& files[0].content == export::index_of(volume)
            &&& export_links ==> files[1].name == "links.txt"@ && files[1].content
                == export::links_of(volume)
            &&& 0 <= i < volume.entries.len() ==> files[common + i].name == volume.entries[i].stem
                + seq!['.', 'm', 'd'] && files[common + i].content == volume.entries[i].markdown
        }),
{
    reveal_strlit(".md");
    assert(".md"@ =~= seq!['.', 'm', 'd']);
}

/// The names of the files are all that the items get in the end; what they say stays as it is.
pub proof fn naming_leaves_the_items_alone(entries: Seq<Entry>, i: int)
    requires
        0 <= i < entries.len(),
    ensures
        export::named(entries).len() == entries.len(),
        export::named(entries)[i].index == entries[i].index,
        export::named(entries)[i].title == entries[i].title,
        export::named(entries)[i].url == entries[i].url,
        export::named(entries)[i].markdown == entries[i].markdown,
        export::named(entries)[i].stem == export::stem_of(
            entries[i].index as nat,
            entries[i].title,
            export::number_width(entries.len()),
        ),
{
}

/// A finished collection has its title without the white space around it, its number and total as
/// they are, and all of its items.
pub proof fn collections_are_bound_whole(
    progress: Progress,
    collection_id: Seq<char>,
    title: Seq<char>,
)
    ensures
        ({
            let volume = export::bound(progress, collection_id, title);
            &&& volume.title == text::trimmed(title)
            &&& volume.collection_id == collection_id
            &&& volume.total == progress.total
            &&& volume.entries.len() == progress.entries.len()
            &&& volume.entries == export::named(progress.entries)
        }),
{
}

/// A page may hold from 1 to 100 items. Nothing comes after a page that is empty, that says it is
/// the last, or with which there are as many items as were reported; after any other there is a
/// next one.
pub proof fn pages_end_by_what_they_say(progress: Progress, empty: bool, paging: Option<Paging>)
    ensures
        export::valid_limit(progress.limit) <==> 0 < progress.limit < 101,
        export::finished(progress, empty, paging) <==> {
            ||| empty
            ||| paging is Some && paging->0.is_end == Some(true)
            ||| progress.total is Some && progress.entries.len() >= progress.total->0
        },
        export::begun(progress, paging).total == (if progress.total is Some {
            progress.total
        } else if paging is Some {
            paging->0.totals
        } else {
            None
        }),
{
}

} // verus!
