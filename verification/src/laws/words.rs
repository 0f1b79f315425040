//! What the handling of plain text keeps.

use vstd::prelude::*;

use crate::laws::contents;
use crate::text;
use crate::text::CharClass;

verus! {

/// The characters that count as white space: the controls from the tab to the carriage return, the
/// blank, and the blanks and separators beyond ASCII.
pub open spec fn blanks() -> Seq<int> {
    seq![
        0x9, 0xa, 0xb, 0xc, 0xd, 0x20, 0x85, 0xa0, 0x1680, 0x2000, 0x2001, 0x2002, 0x2003, 0x2004,
        0x2005, 0x2006, 0x2007, 0x2008, 0x2009, 0x200a, 0x2028, 0x2029, 0x202f, 0x205f, 0x3000,
    ]
}

/// Just these characters count as white space.
pub proof fn blanks_are_white_space(c: char)
    ensures
        text::white_space(c) <==> blanks().contains(c as int),
{
    let all = blanks();
    let code = c as int;
    if text::white_space(c) {
        let at: int = if code <= 0xd {
            code - 9
        } else if 0x2000 <= code <= 0x200a {
            code - 0x2000 + 9
        } else if code == 0x20 {
            5
        } else if code == 0x85 {
            6
        } else if code == 0xa0 {
            7
        } else if code == 0x1680 {
            8
        } else if code == 0x2028 {
            20
        } else if code == 0x2029 {
            21
        } else if code == 0x202f {
            22
        } else if code == 0x205f {
            23
        } else {
            24
        };
        assert(all[at] == code);
    }
    if all.contains(code) {
        let i = choose|i: int| 0 <= i < all.len() && all[i] == code;
        assert(0 <= i < 25);
    }
}

/// Trimming takes white space away at both ends and nothing else: what is left stands in the text
/// between white space, and neither begins nor ends with any.
pub proof fn trimming_takes_white_space_alone(given: Seq<char>) -> (at: int)
    ensures
        0 <= at && at + text::trimmed(given).len() <= given.len(),
        text::trimmed(given) == given.subrange(at, at + text::trimmed(given).len()),
        forall|i: int| 0 <= i < at ==> text::white_space(#[trigger] given[i]),
        forall|i: int|
            at + text::trimmed(given).len() <= i < given.len() ==> text::white_space(
                #[trigger] given[i],
            ),
        text::trimmed(given).len() > 0 ==> !text::white_space(text::trimmed(given).first())
            && !text::white_space(text::trimmed(given).last()),
        text::blank(given) <==> forall|i: int|
            0 <= i < given.len() ==> text::white_space(#[trigger] given[i]),
{
    let class = CharClass::WhiteSpace;
    let start = text::stripped_start(given, class);
    let rest = text::trimmed(given);
    text::lemma_stripped_start(given, class);
    text::lemma_stripped_end(start, class);
    text::lemma_trimmed(given);
    let at = given.len() - start.len();
    assert(rest =~= given.subrange(at, at + rest.len()));
    assert forall|i: int| at + rest.len() <= i < given.len() implies text::white_space(
        #[trigger] given[i],
    ) by {
        assert(given[i] == start[i - at]);
    }
    at
}

/// A text begins with what it is put together from first, ends with what it is put together from
/// last, and holds what stands in between.
pub proof fn texts_hold_their_parts(front: Seq<char>, part: Seq<char>, rest: Seq<char>)
    ensures
        text::begins(part + rest, part),
        text::ends(front + part, part),
        text::occurs(part, front + part + rest),
{
    assert((part + rest).take(part.len() as int) =~= part);
    assert((front + part).skip(front.len() as int) =~= part);
    text::lemma_occurs(front, part, rest);
}

/// A text that begins or ends with another, or holds it somewhere, is put together from it and from
/// what is left.
pub proof fn texts_fall_into_parts(given: Seq<char>, part: Seq<char>)
    ensures
        text::begins(given, part) ==> given == part + given.skip(part.len() as int),
        text::ends(given, part) ==> given == given.take(given.len() - part.len()) + part,
        text::occurs(part, given) ==> exists|at: int|
            0 <= at && at + part.len() <= given.len() && #[trigger] given.subrange(
                at,
                at + part.len(),
            ) == part,
{
    if text::begins(given, part) {
        assert(given =~= given.take(part.len() as int) + given.skip(part.len() as int));
    }
    if text::ends(given, part) {
        let at = given.len() - part.len();
        assert(given =~= given.take(at) + given.skip(at));
    }
    if text::occurs(part, given) {
        let at = choose|at: int|
            0 <= at && at + part.len() <= given.len() && #[trigger] given.skip(at).take(
                part.len() as int,
            ) == part;
        assert(given.subrange(at, at + part.len()) =~= given.skip(at).take(part.len() as int));
    }
}

/// A text is made of digits where each of its characters is one of the ten.
pub proof fn digits_are_the_ten(given: Seq<char>)
    ensures
        text::all_digits(given) <==> forall|i: int|
            0 <= i < given.len() ==> 48 <= #[trigger] given[i] as int <= 57,
{
}

/// Splitting a text loses nothing: the parts hold no separator, and joined by it they are the text
/// again.
pub proof fn splitting_is_undone_by_joining(given: Seq<char>, c: char)
    ensures
        text::split_at(given, c).len() >= 1,
        text::joined(text::split_at(given, c), seq![c]) == given,
        forall|i: int|
            0 <= i < text::split_at(given, c).len() ==> !(#[trigger] text::split_at(
                given,
                c,
            )[i]).contains(c),
    decreases given.len(),
{
    let at = text::position(given, c);
    let parts = text::split_at(given, c);
    text::lemma_position(given, c);
    if at >= given.len() {
        assert(parts =~= seq![given]);
    } else {
        let rest = given.skip(at + 1);
        let head = seq![given.take(at)];
        splitting_is_undone_by_joining(rest, c);
        contents::lemma_joined_concat(head, text::split_at(rest, c), seq![c]);
        assert(parts =~= head + text::split_at(rest, c));
        assert(given.take(at) + seq![c] + rest =~= given);
        assert forall|i: int| 0 <= i < parts.len() implies !(#[trigger] parts[i]).contains(c) by {
            if i > 0 {
                assert(parts[i] == text::split_at(rest, c)[i - 1]);
            }
        }
    }
}

/// Joining puts the separator between the parts and nowhere else.
pub proof fn joining_puts_separators_between(
    first: Seq<Seq<char>>,
    second: Seq<Seq<char>>,
    separator: Seq<char>,
    part: Seq<char>,
)
    requires
        first.len() > 0,
        second.len() > 0,
    ensures
        text::joined(first + second, separator) == text::joined(first, separator) + separator
            + text::joined(second, separator),
        text::joined(seq![part], separator) == part,
        text::joined(seq![], separator).len() == 0,
{
    contents::lemma_joined_concat(first, second, separator);
}

/// A line feed ends a line, a carriage return in front of it included; what comes behind is read as
/// if it stood alone. Without a line feed there is one line, unless there is nothing.
pub proof fn line_feeds_end_lines(line: Seq<char>, rest: Seq<char>)
    requires
        !line.contains('\n'),
    ensures
        text::lines_of(line + seq!['\n'] + rest) == seq![
            if line.len() > 0 && line[line.len() - 1] == '\r' {
                line.take(line.len() - 1)
            } else {
                line
            },
        ] + text::lines_of(rest),
        line.len() > 0 ==> text::lines_of(line) == seq![line],
        line.len() == 0 ==> text::lines_of(line).len() == 0,
{
    let whole = line + seq!['\n'] + rest;
    assert(whole[line.len() as int] == '\n');
    assert forall|i: int| 0 <= i < line.len() implies whole[i] != '\n' by {
        assert(whole[i] == line[i]);
        assert(line.contains(line[i]));
    }
    text::lemma_position_is(whole, '\n', line.len() as int);
    assert(whole.take(line.len() as int) =~= line);
    assert(whole.skip(line.len() as int + 1) =~= rest);
    if line.len() > 0 {
        assert(line.drop_last() =~= line.take(line.len() - 1));
    }
    assert forall|i: int| 0 <= i < line.len() implies line[i] != '\n' by {
        assert(line.contains(line[i]));
    }
    text::lemma_position_is(line, '\n', line.len() as int);
}

/// A number is written in decimal digits that have its value, without needless zeros in front; with
/// a minus sign in front where it is negative.
pub proof fn numbers_are_written_by_value(n: nat)
    ensures
        text::all_digits(text::decimal(n)),
        text::digits_value(text::decimal(n)) == n,
        text::decimal(n).len() >= 1,
        text::decimal(n).len() > 1 ==> text::decimal(n)[0] != '0',
        text::signed_decimal(n as int) == text::decimal(n),
        n > 0 ==> text::signed_decimal(-(n as int)) == seq!['-'] + text::decimal(n),
    decreases n,
{
    text::lemma_decimal_value(n);
    lemma_no_zero(n);
}

/// A number above zero does not begin with a zero.
proof fn lemma_no_zero(n: nat)
    ensures
        text::decimal(n).len() >= 1,
        n > 0 ==> text::decimal(n)[0] != '0',
        n == 0 ==> text::decimal(n).len() == 1,
    decreases n,
{
    if n >= 10 {
        lemma_no_zero(n / 10);
        assert(text::decimal(n)[0] == text::decimal(n / 10)[0]);
    } else {
        assert(text::decimal(n)[0] == text::digit(n));
    }
}

/// The digits of a value: those in front count ten times what they count alone, and each digit for
/// itself.
pub proof fn digits_count_by_place(digits: Seq<char>, last: char)
    requires
        '0' <= last <= '9',
    ensures
        text::digits_value(digits.push(last)) == 10 * text::digits_value(digits) + (last as int
            - 48),
        text::digits_value(seq![]) == 0,
{
    assert(digits.push(last).drop_last() =~= digits);
}

/// Filling up keeps the text, at the end or at the beginning, and gives it the width that was asked
/// for, or leaves it as it is where it is as wide already.
pub proof fn filling_up_keeps_the_text(given: Seq<char>, c: char, width: int)
    ensures
        text::ends(text::padded_start(given, c, width), given),
        text::begins(text::padded_end(given, width), given),
        given.len() >= width ==> text::padded_start(given, c, width) == given && text::padded_end(
            given,
            width,
        ) == given,
        given.len() < width ==> text::padded_start(given, c, width).len() == width
            && text::padded_end(given, width).len() == width,
        forall|i: int|
            0 <= i < width - given.len() ==> #[trigger] text::padded_start(given, c, width)[i] == c,
        forall|i: int|
            given.len() <= i < width ==> #[trigger] text::padded_end(given, width)[i] == ' ',
{
    let start = text::padded_start(given, c, width);
    let end = text::padded_end(given, width);
    assert(start.skip(start.len() - given.len()) =~= given);
    assert(end.take(given.len() as int) =~= given);
    if given.len() >= width {
        assert(start =~= given);
        assert(end =~= given);
    }
}

/// Replacing a character leaves all others as they are, in their order.
pub proof fn replacing_leaves_the_others(
    first: Seq<char>,
    second: Seq<char>,
    from: char,
    to: Seq<char>,
)
    ensures
        text::replaced(first + second, from, to) == text::replaced(first, from, to)
            + text::replaced(second, from, to),
        first.len() == 1 ==> text::replaced(first, from, to) == (if first[0] == from {
            to
        } else {
            first
        }),
        !first.contains(from) ==> text::replaced(first, from, to) == first,
{
    let image = text::replacement(from, to);
    text::lemma_expanded_concat(first, second, image);
    if first.len() == 1 {
        assert(first.drop_last() =~= seq![]);
        assert(text::expanded(first.drop_last(), image) =~= seq![]);
        assert(text::expanded(first, image) =~= image(first[0]));
        assert(first =~= seq![first[0]]);
    }
    if !first.contains(from) {
        text::lemma_replaced_absent(first, from, to);
    }
}

} // verus!
