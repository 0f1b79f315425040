//! How Markdown is tidied, and where it comes from.

use vstd::prelude::*;

use crate::html;
use crate::html::MarkupNode;
use crate::images::Replacements;
use crate::markdown;
use crate::text;

verus! {

/// Whether all lines are blank.
pub open spec fn all_blank(lines: Seq<Seq<char>>) -> bool {
    forall|i: int| 0 <= i < lines.len() ==> text::blank(#[trigger] lines[i])
}

/// Lines that show something stay, each without the white space at its end. Blank lines between two
/// of them become one empty line, and where there is none, none comes in between. Blank lines at
/// the start go.
pub proof fn blank_lines_become_one(
    before: Seq<Seq<char>>,
    line: Seq<char>,
    gap: Seq<Seq<char>>,
    next: Seq<char>,
)
    requires
        !text::blank(line),
        !text::blank(next),
        all_blank(gap),
    ensures
        markdown::tidy_lines(before.push(line)) == markdown::tidy_lines(before).push(
            text::trimmed_end(line),
        ),
        markdown::tidy_lines((before.push(line) + gap).push(next)) == markdown::tidy_lines(
            before.push(line),
        ) + (if gap.len() == 0 {
            seq![]
        } else {
            seq![seq![]]
        }) + seq![text::trimmed_end(next)],
        markdown::tidy_lines(gap).len() == 0,
{
    let start = before.push(line);
    assert(start.drop_last() =~= before);
    lemma_gap(start, gap);
    lemma_no_gap(gap);
    let whole = (start + gap).push(next);
    assert(whole.drop_last() =~= start + gap);
    let filled = if gap.len() == 0 {
        Seq::<Seq<char>>::empty()
    } else {
        seq![seq![]]
    };
    assert(markdown::tidy_lines(whole) =~= markdown::tidy_lines(start) + filled + seq![
        text::trimmed_end(next),
    ]);
}

/// Blank lines at the start go.
proof fn lemma_no_gap(gap: Seq<Seq<char>>)
    requires
        all_blank(gap),
    ensures
        markdown::tidy_lines(gap).len() == 0,
    decreases gap.len(),
{
    if gap.len() > 0 {
        let init = gap.drop_last();
        assert forall|i: int| 0 <= i < init.len() implies text::blank(#[trigger] init[i]) by {
            assert(init[i] == gap[i]);
        }
        lemma_no_gap(init);
        assert(text::blank(gap[gap.len() - 1]));
    }
}

/// Blank lines behind a line that shows something become one empty line.
proof fn lemma_gap(start: Seq<Seq<char>>, gap: Seq<Seq<char>>)
    requires
        start.len() > 0,
        !text::blank(start.last()),
        all_blank(gap),
    ensures
        markdown::tidy_lines(start + gap) == markdown::tidy_lines(start) + (if gap.len() == 0 {
            seq![]
        } else {
            seq![seq![]]
        }),
        text::trimmed_end(start.last()).len() > 0,
    decreases gap.len(),
{
    lemma_end_kept(start.last());
    if gap.len() == 0 {
        assert(start + gap =~= start);
        assert(markdown::tidy_lines(start) + Seq::<Seq<char>>::empty() =~= markdown::tidy_lines(
            start,
        ));
    } else {
        let init = gap.drop_last();
        assert forall|i: int| 0 <= i < init.len() implies text::blank(#[trigger] init[i]) by {
            assert(init[i] == gap[i]);
        }
        lemma_gap(start, init);
        assert((start + gap).drop_last() =~= start + init);
        assert((start + gap).last() == gap[gap.len() - 1]);
        let before = markdown::tidy_lines(start + init);
        assert(before.len() > 0);
        if init.len() == 0 {
            assert(before =~= markdown::tidy_lines(start));
            assert(before.last() == text::trimmed_end(start.last()));
            assert(before.push(seq![]) =~= before + seq![seq![]]);
        } else {
            assert(before.last() =~= seq![]);
        }
    }
}

/// Something is left of a line that is not blank without the white space at its end.
proof fn lemma_end_kept(line: Seq<char>)
    requires
        !text::blank(line),
    ensures
        text::trimmed_end(line).len() > 0,
{
    text::lemma_trimmed(line);
    text::lemma_stripped_end(line, text::CharClass::WhiteSpace);
    if text::trimmed_end(line).len() == 0 {
        assert forall|i: int| 0 <= i < line.len() implies text::white_space(#[trigger] line[i]) by {
            assert(text::CharClass::WhiteSpace.has(line[i]));
        }
    }
}

/// Lines that are tidy stay as they are.
proof fn lemma_tidy_stays(lines: Seq<Seq<char>>)
    requires
        markdown::is_tidy(lines),
    ensures
        markdown::tidy_lines(lines) == lines,
    decreases lines.len(),
{
    if lines.len() > 0 {
        let init = lines.drop_last();
        let last = lines[lines.len() - 1];
        assert forall|i: int| 0 <= i < init.len() && (#[trigger] init[i]).len() > 0 implies
            !text::white_space(init[i].last()) && !init[i].contains('\n') by {
            assert(init[i] == lines[i]);
        }
        assert forall|i: int| 0 <= i < init.len() - 1 implies (#[trigger] init[i]).len() > 0
            || init[i + 1].len() > 0 by {
            assert(init[i] == lines[i] && init[i + 1] == lines[i + 1]);
        }
        assert(init.len() > 0 ==> init[0] == lines[0]);
        lemma_tidy_stays(init);
        text::lemma_trimmed(last);
        if last.len() > 0 {
            assert(!text::white_space(last[last.len() - 1]));
            assert(text::trimmed_end(last) == last);
            assert(init.push(last) =~= lines);
        } else {
            assert(init.len() > 0);
            assert(lines[init.len() - 1].len() > 0 || lines[init.len() - 1 + 1].len() > 0);
            assert(init.last() == lines[init.len() - 1]);
            assert(last =~= seq![]);
            assert(init.push(seq![]) =~= lines);
        }
    }
}

/// Markdown that is tidy stays as it is, character by character: lines that show something without
/// white space at their ends, and at most one empty line between two.
pub proof fn tidy_markdown_stays(lines: Seq<Seq<char>>)
    requires
        lines.len() > 0,
        markdown::is_tidy(lines),
        lines.last().len() > 0,
        !text::white_space(lines[0].first()),
        forall|i: int| 0 <= i < lines.len() ==> text::one_line(#[trigger] lines[i]),
        forall|i: int| 0 <= i < lines.len() ==> !(#[trigger] lines[i]).contains('\u{200b}'),
    ensures
        markdown::cleaned_markdown(text::joined(lines, seq!['\n'])) == text::joined(
            lines,
            seq!['\n'],
        ),
{
    reveal_strlit("\n");
    assert("\n"@ =~= seq!['\n']);
    let whole = text::joined(lines, "\n"@);
    assert(!"\n"@.contains('\u{200b}'));
    text::lemma_joined_lacks(lines, "\n"@, '\u{200b}');
    text::lemma_replaced_absent(whole, '\u{200b}', ""@);
    text::lemma_lines_of_lines(lines);
    lemma_tidy_stays(lines);
    assert(lines[0].len() > 0);
    assert(lines[lines.len() - 1].len() > 0);
    text::lemma_joined_ends(lines, "\n"@);
    text::lemma_trimmed_fixed(whole);
}

/// A text is put on one line from the lines that show something, in order, each without the white
/// space around it.
pub proof fn lines_are_put_in_a_row(first: Seq<Seq<char>>, second: Seq<Seq<char>>)
    ensures
        markdown::kept_lines(first + second) == markdown::kept_lines(first) + markdown::kept_lines(
            second,
        ),
        first.len() == 1 ==> (if text::trimmed(first[0]).len() > 0 {
            markdown::kept_lines(first) == seq![text::trimmed(first[0])]
        } else {
            markdown::kept_lines(first).len() == 0
        }),
    decreases second.len(),
{
    if second.len() == 0 {
        assert(first + second =~= first);
        assert(markdown::kept_lines(first) + markdown::kept_lines(second) =~= markdown::kept_lines(
            first,
        ));
    } else {
        lines_are_put_in_a_row(first, second.drop_last());
        assert((first + second).drop_last() =~= first + second.drop_last());
        assert((first + second).last() == second.last());
        assert(markdown::kept_lines(first + second) =~= markdown::kept_lines(first)
            + markdown::kept_lines(second));
    }
    if first.len() == 1 {
        assert(markdown::kept_lines(first.drop_last()) =~= seq![]);
        if !text::blank(first[0]) {
            assert(markdown::kept_lines(first) =~= seq![text::trimmed(first[0])]);
        }
    }
}

/// Between two lines that are put in a row stands one blank and nothing else.
pub proof fn one_blank_stands_between_lines(line: Seq<char>, next: Seq<char>)
    requires
        !line.contains('\n'),
        !next.contains('\n'),
        !text::blank(line),
        !text::blank(next),
    ensures
        markdown::cleaned_inline(line + seq!['\n'] + next) == text::trimmed(line) + seq![' ']
            + text::trimmed(next),
        markdown::cleaned_inline(line) == text::trimmed(line),
{
    reveal_strlit(" ");
    assert(" "@ =~= seq![' ']);
    text::lemma_trimmed(line);
    text::lemma_trimmed(next);
    assert(line.len() > 0 && next.len() > 0);
    let whole = line + seq!['\n'] + next;
    let at = line.len() as int;
    assert(whole[at] == '\n');
    assert forall|i: int| 0 <= i < at implies whole[i] != '\n' by {
        assert(whole[i] == line[i]);
        assert(line.contains(line[i]));
    }
    text::lemma_position_is(whole, '\n', at);
    assert(whole.take(at) =~= line);
    assert(whole.skip(at + 1) =~= next);
    lemma_alone(line);
    lemma_alone(next);
    let own = text::chomped(line);
    lemma_chomped(line);
    assert(text::lines_of(whole) =~= seq![own, next]);
    lines_are_put_in_a_row(seq![own], seq![next]);
    lines_are_put_in_a_row(seq![next], seq![]);
    lines_are_put_in_a_row(seq![line], seq![]);
    assert(seq![own] + seq![next] =~= seq![own, next]);
    let kept = markdown::kept_lines(text::lines_of(whole));
    assert(kept =~= seq![text::trimmed(line), text::trimmed(next)]);
    assert(kept.drop_last() =~= seq![text::trimmed(line)]);
    assert(text::joined(seq![text::trimmed(line)], " "@) == text::trimmed(line));
    assert(kept.last() == text::trimmed(next));
    assert(text::joined(kept, " "@) =~= text::trimmed(line) + seq![' '] + text::trimmed(next));
}

/// A text without a line feed is one line.
proof fn lemma_alone(line: Seq<char>)
    requires
        !line.contains('\n'),
        line.len() > 0,
    ensures
        text::lines_of(line) == seq![line],
{
    assert forall|i: int| 0 <= i < line.len() implies line[i] != '\n' by {
        assert(line.contains(line[i]));
    }
    text::lemma_position_is(line, '\n', line.len() as int);
}

/// A carriage return at the end is white space at the end.
proof fn lemma_chomped(line: Seq<char>)
    ensures
        text::trimmed(text::chomped(line)) == text::trimmed(line),
{
    if line.len() > 0 && line.last() == '\r' {
        assert(text::white_space('\r'));
        let class = text::CharClass::WhiteSpace;
        let init = line.drop_last();
        lemma_start_kept(init, '\r');
        let start = text::stripped_start(line, class);
        if text::blank(line) {
            text::lemma_trimmed(line);
            text::lemma_trimmed(init);
            assert forall|i: int| 0 <= i < init.len() implies text::white_space(
                #[trigger] init[i],
            ) by {
                assert(init[i] == line[i]);
            }
            assert(text::trimmed(init) =~= text::trimmed(line));
        } else {
            assert(init.push('\r') =~= line);
            assert(start == text::stripped_start(init, class).push('\r'));
            assert(start.drop_last() =~= text::stripped_start(init, class));
        }
    }
}

/// The start of a text is stripped as without its last character, where something is left.
proof fn lemma_start_kept(init: Seq<char>, c: char)
    ensures
        !text::blank(init.push(c)) && text::white_space(c) ==> text::stripped_start(
            init.push(c),
            text::CharClass::WhiteSpace,
        ) == text::stripped_start(init, text::CharClass::WhiteSpace).push(c),
{
    let class = text::CharClass::WhiteSpace;
    let whole = init.push(c);
    if !text::blank(whole) && text::white_space(c) {
        text::lemma_trimmed(whole);
        text::lemma_trimmed(init);
        text::lemma_stripped_start(init, class);
        let k = choose|k: int| 0 <= k < whole.len() && !text::white_space(#[trigger] whole[k]);
        assert(k < init.len());
        assert(whole[k] == init[k]);
        if text::stripped_start(init, class).len() == 0 {
            assert(class.has(init[k]));
        }
        text::lemma_stripped_start_concat(init, seq![c], class);
        assert(init + seq![c] =~= whole);
        assert(text::stripped_start(init, class) + seq![c] =~= text::stripped_start(
            init,
            class,
        ).push(c));
    }
}

/// An element is looked for in the order of the document: a node before what stands below it, and
/// what stands first in a row before what comes behind.
pub proof fn elements_are_found_in_order(
    node: MarkupNode,
    first: Seq<MarkupNode>,
    second: Seq<MarkupNode>,
    tag: Seq<char>,
)
    ensures
        html::first_tagged(node, tag) == (if node.data is Element && node.data->tag == tag {
            Some(node)
        } else {
            html::first_tagged_in(node.children, tag)
        }),
        html::first_tagged_in(first + second, tag) == (if html::first_tagged_in(
            first,
            tag,
        ) is Some {
            html::first_tagged_in(first, tag)
        } else {
            html::first_tagged_in(second, tag)
        }),
        html::first_tagged_in(seq![node], tag) == html::first_tagged(node, tag),
        html::first_tagged(node, "body"@) matches Some(body) ==> html::body_of(node) == body,
        html::first_tagged(node, "body"@) is None ==> html::body_of(node) == node,
    decreases first.len(),
{
    if first.len() == 0 {
        assert(first + second =~= second);
    } else {
        elements_are_found_in_order(node, first.drop_first(), second, tag);
        assert((first + second).drop_first() =~= first.drop_first() + second);
        assert((first + second)[0] == first[0]);
    }
    assert(seq![node].drop_first() =~= seq![]);
    assert(html::first_tagged_in(seq![], tag) is None);
}

/// The parser gets the whole piece of HTML, as the body of a document; and its Markdown is that of
/// what stands in the body, tidied. A blank piece gives none.
pub proof fn html_is_parsed_whole(fragment: Seq<char>, images: Replacements)
    ensures
        markdown::document_text(fragment) == "<!doctype html><body>"@ + fragment + "</body>"@,
        markdown::document_of(fragment) == html::tree_of(
            html::parsed_html("<!doctype html><body>"@ + fragment + "</body>"@),
        ),
        !text::blank(fragment) ==> markdown::markdown_of(fragment, images)
            == markdown::cleaned_markdown(
            markdown::rendered_in(
                html::body_of(markdown::document_of(fragment)).children,
                images,
            ),
        ),
        text::blank(fragment) ==> markdown::markdown_of(fragment, images).len() == 0,
{
}

} // verus!
