//! The characters that a reader sees: cleaning and converting lose none of them.

use vstd::prelude::*;

use crate::markdown;
use crate::text;

verus! {

/// Whether the character is seen: it is neither white space nor a zero-width blank.
pub open spec fn seen(c: char) -> bool {
    !text::white_space(c) && c != '\u{200b}'
}

/// The characters of a text that are seen, in order.
pub open spec fn marks(text: Seq<char>) -> Seq<char>
    decreases text.len(),
{
    if text.len() == 0 {
        seq![]
    } else if seen(text.last()) {
        marks(text.drop_last()).push(text.last())
    } else {
        marks(text.drop_last())
    }
}

/// The characters of several texts that are seen, in order.
pub open spec fn marks_in(texts: Seq<Seq<char>>) -> Seq<char>
    decreases texts.len(),
{
    if texts.len() == 0 {
        seq![]
    } else {
        marks_in(texts.drop_last()) + marks(texts.last())
    }
}

/// Whether the characters of `part` stand in `whole` in the same order, with others between them or
/// none.
pub open spec fn within(part: Seq<char>, whole: Seq<char>) -> bool
    decreases whole.len(),
{
    if part.len() == 0 {
        true
    } else if whole.len() == 0 {
        false
    } else {
        ||| part.last() == whole.last() && within(part.drop_last(), whole.drop_last())
        ||| within(part, whole.drop_last())
    }
}

/// What is seen of a whole is what is seen of its parts.
pub proof fn lemma_marks_concat(first: Seq<char>, second: Seq<char>)
    ensures
        marks(first + second) == marks(first) + marks(second),
    decreases second.len(),
{
    if second.len() == 0 {
        assert(first + second =~= first);
        assert(marks(first) + marks(second) =~= marks(first));
    } else {
        lemma_marks_concat(first, second.drop_last());
        assert((first + second).drop_last() =~= first + second.drop_last());
        assert((first + second).last() == second.last());
        assert(marks(first + second) =~= marks(first) + marks(second));
    }
}

/// Nothing is seen of a text that holds nothing to be seen.
pub proof fn lemma_marks_none(text: Seq<char>)
    requires
        forall|i: int| 0 <= i < text.len() ==> !seen(#[trigger] text[i]),
    ensures
        marks(text) == Seq::<char>::empty(),
    decreases text.len(),
{
    if text.len() > 0 {
        let init = text.drop_last();
        assert forall|i: int| 0 <= i < init.len() implies !seen(#[trigger] init[i]) by {
            assert(init[i] == text[i]);
        }
        lemma_marks_none(init);
        assert(!seen(text[text.len() - 1]));
    }
}

/// White space at the ends is not seen.
pub proof fn lemma_marks_stripped(text: Seq<char>)
    ensures
        marks(text::stripped_start(text, text::CharClass::WhiteSpace)) == marks(text),
        marks(text::trimmed_end(text)) == marks(text),
        marks(text::trimmed(text)) == marks(text),
{
    let class = text::CharClass::WhiteSpace;
    let start = text::stripped_start(text, class);
    lemma_marks_start(text);
    lemma_marks_end(text);
    lemma_marks_end(start);
}

/// White space at the start is not seen.
proof fn lemma_marks_start(text: Seq<char>)
    ensures
        marks(text::stripped_start(text, text::CharClass::WhiteSpace)) == marks(text),
{
    let kept = text::stripped_start(text, text::CharClass::WhiteSpace);
    text::lemma_stripped_start(text, text::CharClass::WhiteSpace);
    let gone = text.take(text.len() - kept.len());
    assert(gone + kept =~= text);
    lemma_marks_concat(gone, kept);
    lemma_marks_none(gone);
    assert(marks(gone) + marks(kept) =~= marks(kept));
}

/// White space at the end is not seen.
proof fn lemma_marks_end(text: Seq<char>)
    ensures
        marks(text::stripped_end(text, text::CharClass::WhiteSpace)) == marks(text),
{
    let kept = text::stripped_end(text, text::CharClass::WhiteSpace);
    text::lemma_stripped_end(text, text::CharClass::WhiteSpace);
    let gone = text.skip(kept.len() as int);
    assert(kept + gone =~= text);
    lemma_marks_concat(kept, gone);
    assert forall|i: int| 0 <= i < gone.len() implies !seen(#[trigger] gone[i]) by {
        assert(gone[i] == text[kept.len() + i]);
    }
    lemma_marks_none(gone);
    assert(marks(kept) + marks(gone) =~= marks(kept));
}

/// What is seen of the first text comes first.
pub proof fn lemma_marks_in_front(texts: Seq<Seq<char>>)
    requires
        texts.len() > 0,
    ensures
        marks_in(texts) == marks(texts[0]) + marks_in(texts.drop_first()),
    decreases texts.len(),
{
    let rest = texts.drop_first();
    if texts.len() == 1 {
        assert(marks_in(texts.drop_last()) =~= seq![]);
        assert(marks_in(rest) =~= seq![]);
        assert(marks_in(texts) =~= marks(texts[0]) + marks_in(rest));
    } else {
        lemma_marks_in_front(texts.drop_last());
        assert(texts.drop_last().drop_first() =~= rest.drop_last());
        assert(rest.last() == texts.last());
        assert(marks_in(texts) =~= marks(texts[0]) + marks_in(rest));
    }
}

/// What is seen of a text is what is seen of its lines.
pub proof fn lemma_marks_lines(text: Seq<char>)
    ensures
        marks_in(text::lines_of(text)) == marks(text),
    decreases text.len(),
{
    let lines = text::lines_of(text);
    if text.len() > 0 {
        let at = text::position(text, '\n');
        text::lemma_position(text, '\n');
        if at >= text.len() {
            assert(lines == seq![text]);
            assert(lines.drop_last() =~= seq![]);
            assert(marks_in(lines.drop_last()) =~= seq![]);
            assert(marks_in(lines) =~= marks(text));
        } else {
            let line = text.take(at);
            let rest = text.skip(at + 1);
            let feed = text.skip(at).take(1);
            lemma_marks_lines(rest);
            lemma_marks_in_front(lines);
            assert(lines[0] == text::chomped(line));
            assert(lines.drop_first() =~= text::lines_of(rest));
            assert(marks(text::chomped(line)) == marks(line));
            assert(text =~= line + feed + rest);
            lemma_marks_concat(line + feed, rest);
            lemma_marks_concat(line, feed);
            lemma_marks_none(feed);
            assert(marks(line) + marks(feed) =~= marks(line));
        }
    } else {
        assert(lines =~= seq![]);
    }
}

/// What is seen of joined texts is what is seen of each, where nothing is seen of the separator.
pub proof fn lemma_marks_joined(parts: Seq<Seq<char>>, separator: Seq<char>)
    requires
        marks(separator) == Seq::<char>::empty(),
    ensures
        marks(text::joined(parts, separator)) == marks_in(parts),
    decreases parts.len(),
{
    if parts.len() == 1 {
        assert(marks_in(parts.drop_last()) =~= seq![]);
        assert(marks_in(parts) =~= marks(parts[0]));
    } else if parts.len() > 1 {
        let init = parts.drop_last();
        let before = text::joined(init, separator);
        lemma_marks_joined(init, separator);
        lemma_marks_concat(before, separator);
        lemma_marks_concat(before + separator, parts.last());
        assert(marks(before) + marks(separator) =~= marks(before));
    }
}

/// Nothing is seen of blanks and line feeds.
pub proof fn lemma_marks_separators()
    ensures
        marks(" "@) == Seq::<char>::empty(),
        marks("\n"@) == Seq::<char>::empty(),
        marks("\n\n"@) == Seq::<char>::empty(),
{
    reveal_strlit(" ");
    reveal_strlit("\n");
    reveal_strlit("\n\n");
    lemma_marks_none(" "@);
    lemma_marks_none("\n"@);
    lemma_marks_none("\n\n"@);
}

/// Nothing that is seen is lost with blank lines and with white space at the ends of lines.
proof fn lemma_marks_kept_lines(lines: Seq<Seq<char>>)
    ensures
        marks_in(markdown::kept_lines(lines)) == marks_in(lines),
    decreases lines.len(),
{
    if lines.len() > 0 {
        let before = markdown::kept_lines(lines.drop_last());
        lemma_marks_kept_lines(lines.drop_last());
        lemma_marks_stripped(lines.last());
        let line = text::trimmed(lines.last());
        assert(before.push(line).drop_last() =~= before);
        if text::blank(lines.last()) {
            assert(line =~= seq![]);
            assert(marks_in(lines) =~= marks_in(before));
        }
    }
}

/// Nothing that is seen is lost when lines are tidied.
proof fn lemma_marks_tidy_lines(lines: Seq<Seq<char>>)
    ensures
        marks_in(markdown::tidy_lines(lines)) == marks_in(lines),
    decreases lines.len(),
{
    if lines.len() > 0 {
        let before = markdown::tidy_lines(lines.drop_last());
        let empty: Seq<char> = seq![];
        lemma_marks_tidy_lines(lines.drop_last());
        lemma_marks_stripped(lines.last());
        assert(before.push(text::trimmed_end(lines.last())).drop_last() =~= before);
        assert(before.push(empty).drop_last() =~= before);
        if text::blank(lines.last()) {
            assert(text::trimmed(lines.last()) =~= empty);
            assert(marks_in(lines) =~= marks_in(before));
            assert(marks_in(before.push(empty)) =~= marks_in(before));
        }
    }
}

/// A zero-width blank is not seen.
proof fn lemma_marks_replaced(text: Seq<char>)
    ensures
        marks(text::replaced(text, '\u{200b}', ""@)) == marks(text),
    decreases text.len(),
{
    reveal_strlit("");
    if text.len() > 0 {
        let init = text.drop_last();
        let c = text.last();
        let image = text::replacement('\u{200b}', ""@);
        lemma_marks_replaced(init);
        lemma_marks_concat(text::expanded(init, image), image(c));
        if c == '\u{200b}' {
            assert(image(c) =~= seq![]);
            assert(marks(init) + marks(image(c)) =~= marks(init));
        } else {
            assert(image(c) =~= seq![c]);
            assert(seq![c].drop_last() =~= seq![]);
            assert(marks(seq![c].drop_last()) =~= seq![]);
            assert(marks(init) + marks(seq![c]) =~= marks(text));
        }
    }
}

/// Putting a text on one line loses nothing that is seen, and changes no order.
pub proof fn inline_text_keeps_what_is_seen(input: Seq<char>)
    ensures
        marks(markdown::cleaned_inline(input)) == marks(input),
{
    lemma_marks_separators();
    lemma_marks_lines(input);
    lemma_marks_kept_lines(text::lines_of(input));
    lemma_marks_joined(markdown::kept_lines(text::lines_of(input)), " "@);
}

/// Cleaning Markdown loses nothing that is seen, and changes no order.
pub proof fn cleaned_markdown_keeps_what_is_seen(input: Seq<char>)
    ensures
        marks(markdown::cleaned_markdown(input)) == marks(input),
{
    let blankless = text::replaced(input, '\u{200b}', ""@);
    let tidy = markdown::tidy_lines(text::lines_of(blankless));
    lemma_marks_separators();
    lemma_marks_replaced(input);
    lemma_marks_lines(blankless);
    lemma_marks_tidy_lines(text::lines_of(blankless));
    lemma_marks_joined(tidy, "\n"@);
    lemma_marks_stripped(text::joined(tidy, "\n"@));
}

/// A text stands in itself.
pub proof fn lemma_within_self(text: Seq<char>)
    ensures
        within(text, text),
    decreases text.len(),
{
    if text.len() > 0 {
        lemma_within_self(text.drop_last());
    }
}

/// What stands in a text stands in it with more behind it.
pub proof fn lemma_within_start(part: Seq<char>, whole: Seq<char>, more: Seq<char>)
    requires
        within(part, whole),
    ensures
        within(part, whole + more),
    decreases more.len(),
{
    if more.len() == 0 {
        assert(whole + more =~= whole);
    } else {
        lemma_within_start(part, whole, more.drop_last());
        assert((whole + more).drop_last() =~= whole + more.drop_last());
    }
}

/// Parts of two texts stand in the two texts together.
pub proof fn lemma_within_concat(
    first: Seq<char>,
    one: Seq<char>,
    second: Seq<char>,
    other: Seq<char>,
)
    requires
        within(first, one),
        within(second, other),
    ensures
        within(first + second, one + other),
    decreases other.len(),
{
    if second.len() == 0 {
        assert(first + second =~= first);
        lemma_within_start(first, one, other);
    } else {
        assert((one + other).drop_last() =~= one + other.drop_last());
        assert((one + other).last() == other.last());
        assert((first + second).drop_last() =~= first + second.drop_last());
        assert((first + second).last() == second.last());
        if second.last() == other.last() && within(second.drop_last(), other.drop_last()) {
            lemma_within_concat(first, one, second.drop_last(), other.drop_last());
        } else {
            lemma_within_concat(first, one, second, other.drop_last());
        }
    }
}

/// What stands in a text stands in it with more around it.
pub proof fn lemma_within_around(
    part: Seq<char>,
    before: Seq<char>,
    whole: Seq<char>,
    after: Seq<char>,
)
    requires
        within(part, whole),
    ensures
        within(part, before + whole + after),
{
    let none: Seq<char> = seq![];
    lemma_within_concat(none, before, part, whole);
    assert(none + part =~= part);
    lemma_within_start(part, before + whole, after);
}

/// What stands in a part stands in the whole.
pub proof fn lemma_within_chain(small: Seq<char>, middle: Seq<char>, large: Seq<char>)
    requires
        within(small, middle),
        within(middle, large),
    ensures
        within(small, large),
    decreases large.len(),
{
    if small.len() > 0 && middle.len() > 0 {
        if middle.last() == large.last() && within(middle.drop_last(), large.drop_last()) {
            if small.last() == middle.last() && within(small.drop_last(), middle.drop_last()) {
                lemma_within_chain(small.drop_last(), middle.drop_last(), large.drop_last());
            } else {
                lemma_within_chain(small, middle.drop_last(), large.drop_last());
            }
        } else {
            lemma_within_chain(small, middle, large.drop_last());
        }
    }
}

} // verus!
