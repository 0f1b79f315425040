//! Text as a sequence of characters: the small operations that everything else is made of.

use vstd::prelude::*;

verus! {

/// `String::push` appends one character to the text.
pub assume_specification[ String::push ](target: &mut String, c: char)
    ensures
        final(target)@ == old(target)@.push(c),
;

/// The characters with the Unicode property `White_Space`.
pub open spec fn white_space(c: char) -> bool {
    ||| '\u{9}' <= c <= '\u{d}'
    ||| c == ' '
    ||| c == '\u{85}'
    ||| c == '\u{a0}'
    ||| c == '\u{1680}'
    ||| '\u{2000}' <= c <= '\u{200a}'
    ||| c == '\u{2028}'
    ||| c == '\u{2029}'
    ||| c == '\u{202f}'
    ||| c == '\u{205f}'
    ||| c == '\u{3000}'
}

/// Whether `c` has the Unicode property `White_Space`.
pub fn is_white_space(c: char) -> (yes: bool)
    ensures
        yes == white_space(c),
{
    ('\u{9}' <= c && c <= '\u{d}') || c == ' ' || c == '\u{85}' || c == '\u{a0}' || c
        == '\u{1680}' || ('\u{2000}' <= c && c <= '\u{200a}') || c == '\u{2028}' || c == '\u{2029}'
        || c == '\u{202f}' || c == '\u{205f}' || c == '\u{3000}'
}

/// A class of characters to strip from the ends of a text.
#[derive(Clone, Copy)]
pub enum CharClass {
    WhiteSpace,
    Only(char),
}

impl CharClass {
    /// Whether `c` belongs to the class.
    pub open spec fn has(self, c: char) -> bool {
        match self {
            CharClass::WhiteSpace => white_space(c),
            CharClass::Only(only) => c == only,
        }
    }

    fn matches(&self, c: char) -> (yes: bool)
        ensures
            yes == self.has(c),
    {
        match self {
            CharClass::WhiteSpace => is_white_space(c),
            CharClass::Only(only) => c == *only,
        }
    }
}

/// `text` without its leading characters of `class`.
pub open spec fn stripped_start(text: Seq<char>, class: CharClass) -> Seq<char>
    decreases text.len(),
{
    if text.len() > 0 && class.has(text.first()) {
        stripped_start(text.drop_first(), class)
    } else {
        text
    }
}

/// `text` without its trailing characters of `class`.
pub open spec fn stripped_end(text: Seq<char>, class: CharClass) -> Seq<char>
    decreases text.len(),
{
    if text.len() > 0 && class.has(text.last()) {
        stripped_end(text.drop_last(), class)
    } else {
        text
    }
}

/// `text` without its leading and trailing white space.
pub open spec fn trimmed(text: Seq<char>) -> Seq<char> {
    stripped_end(stripped_start(text, CharClass::WhiteSpace), CharClass::WhiteSpace)
}

/// `text` without its trailing white space.
pub open spec fn trimmed_end(text: Seq<char>) -> Seq<char> {
    stripped_end(text, CharClass::WhiteSpace)
}

/// Whether `text` holds nothing but white space.
pub open spec fn blank(text: Seq<char>) -> bool {
    trimmed(text).len() == 0
}

/// The characters of `text`.
pub fn to_chars(text: &str) -> (chars: Vec<char>)
    ensures
        chars@ == text@,
{
    let mut chars: Vec<char> = Vec::new();
    for c in iter: text.chars()
        invariant
            chars@ == iter.seq().take(iter.index() as int),
            iter.seq() == text@,
    {
        chars.push(c);
    }
    chars
}

/// The text that the characters `from..to` spell.
pub fn substring(chars: &Vec<char>, from: usize, to: usize) -> (text: String)
    requires
        from <= to <= chars@.len(),
    ensures
        text@ == chars@.subrange(from as int, to as int),
{
    let mut text: String = String::new();
    let mut i: usize = from;
    while i < to
        invariant
            from <= i <= to <= chars@.len(),
            text@ == chars@.subrange(from as int, i as int),
        decreases to - i,
    {
        text.push(chars[i]);
        i = i + 1;
    }
    text
}

/// `text` without its leading characters of `class`.
pub fn strip_start(text: &str, class: CharClass) -> (stripped: String)
    ensures
        stripped@ == stripped_start(text@, class),
{
    let chars = to_chars(text);
    let mut from: usize = 0;
    assert(chars@.skip(0) =~= chars@);
    while from < chars.len() && class.matches(chars[from])
        invariant
            from <= chars@.len(),
            stripped_start(chars@, class) == stripped_start(chars@.skip(from as int), class),
        decreases chars@.len() - from,
    {
        assert(chars@.skip(from as int).drop_first() =~= chars@.skip(from + 1));
        from = from + 1;
    }
    assert(chars@.skip(from as int) =~= chars@.subrange(from as int, chars@.len() as int));
    substring(&chars, from, chars.len())
}

/// `text` without its trailing characters of `class`.
pub fn strip_end(text: &str, class: CharClass) -> (stripped: String)
    ensures
        stripped@ == stripped_end(text@, class),
{
    let chars = to_chars(text);
    let mut to: usize = chars.len();
    assert(chars@.take(to as int) =~= chars@);
    while to > 0 && class.matches(chars[to - 1])
        invariant
            to <= chars@.len(),
            stripped_end(chars@, class) == stripped_end(chars@.take(to as int), class),
        decreases to,
    {
        assert(chars@.take(to as int).drop_last() =~= chars@.take(to - 1));
        to = to - 1;
    }
    assert(chars@.take(to as int) =~= chars@.subrange(0, to as int));
    substring(&chars, 0, to)
}

/// `text` without its leading and trailing white space.
pub fn trim(text: &str) -> (result: String)
    ensures
        result@ == trimmed(text@),
{
    strip_end(strip_start(text, CharClass::WhiteSpace).as_str(), CharClass::WhiteSpace)
}

/// `text` without its trailing white space.
pub fn trim_end(text: &str) -> (result: String)
    ensures
        result@ == trimmed_end(text@),
{
    strip_end(text, CharClass::WhiteSpace)
}

/// Whether `text` holds nothing but white space.
pub fn is_blank(text: &str) -> (yes: bool)
    ensures
        yes == blank(text@),
{
    trim(text).as_str().is_empty()
}

/// The texts that a list of strings holds.
pub open spec fn texts(list: Seq<String>) -> Seq<Seq<char>> {
    Seq::new(list.len(), |i: int| list[i]@)
}

/// The text behind an optional string.
pub open spec fn opt_text(text: Option<String>) -> Option<Seq<char>> {
    match text {
        Some(text) => Some(text@),
        None => None,
    }
}

/// The text behind an optional string slice.
pub open spec fn opt_str(text: Option<&str>) -> Option<Seq<char>> {
    match text {
        Some(text) => Some(text@),
        None => None,
    }
}

/// The position of the first `c` in `text`, or its length where there is none.
pub open spec fn position(text: Seq<char>, c: char) -> int
    decreases text.len(),
{
    if text.len() == 0 || text.first() == c {
        0
    } else {
        1 + position(text.drop_first(), c)
    }
}

/// The parts of `text` between the separators `c`.
pub open spec fn split_at(text: Seq<char>, c: char) -> Seq<Seq<char>>
    decreases text.len(),
{
    if position(text, c) >= text.len() {
        seq![text]
    } else {
        proof {
            lemma_position(text, c);
        }
        seq![text.take(position(text, c))] + split_at(text.skip(position(text, c) + 1), c)
    }
}

/// A line without the carriage return before its line feed.
pub open spec fn chomped(line: Seq<char>) -> Seq<char> {
    if line.len() > 0 && line.last() == '\r' {
        line.drop_last()
    } else {
        line
    }
}

/// The lines of `text`: each ends at a line feed, which may follow a carriage return; the last
/// one may go without.
pub open spec fn lines_of(text: Seq<char>) -> Seq<Seq<char>>
    decreases text.len(),
{
    if text.len() == 0 {
        seq![]
    } else if position(text, '\n') >= text.len() {
        seq![text]
    } else {
        proof {
            lemma_position(text, '\n');
        }
        seq![chomped(text.take(position(text, '\n')))] + lines_of(
            text.skip(position(text, '\n') + 1),
        )
    }
}

/// `position` is the place of the first `c`.
pub proof fn lemma_position(text: Seq<char>, c: char)
    ensures
        0 <= position(text, c) <= text.len(),
        position(text, c) < text.len() ==> text[position(text, c)] == c,
        forall|i: int| 0 <= i < position(text, c) ==> text[i] != c,
    decreases text.len(),
{
    if text.len() > 0 && text.first() != c {
        let rest = text.drop_first();
        lemma_position(rest, c);
        assert forall|i: int| 0 <= i < position(text, c) implies text[i] != c by {
            if i > 0 {
                assert(text[i] == rest[i - 1]);
            }
        }
    }
}

/// The place of the first `c` is known by what stands there and before it.
pub proof fn lemma_position_is(text: Seq<char>, c: char, at: int)
    requires
        0 <= at <= text.len(),
        at < text.len() ==> text[at] == c,
        forall|i: int| 0 <= i < at ==> text[i] != c,
    ensures
        position(text, c) == at,
{
    lemma_position(text, c);
    if position(text, c) < at {
        assert(text[position(text, c)] != c);
    }
}

/// The parts joined, with `separator` between neighbours.
pub open spec fn joined(parts: Seq<Seq<char>>, separator: Seq<char>) -> Seq<char>
    decreases parts.len(),
{
    if parts.len() == 0 {
        seq![]
    } else if parts.len() == 1 {
        parts[0]
    } else {
        joined(parts.drop_last(), separator) + separator + parts.last()
    }
}

/// Each character of `text` replaced by what `image` makes of it.
pub open spec fn expanded(text: Seq<char>, image: spec_fn(char) -> Seq<char>) -> Seq<char>
    decreases text.len(),
{
    if text.len() == 0 {
        seq![]
    } else {
        expanded(text.drop_last(), image) + image(text.last())
    }
}

/// What becomes of a character where `from` is replaced by `to`.
pub open spec fn replacement(from: char, to: Seq<char>) -> spec_fn(char) -> Seq<char> {
    |c: char|
        if c == from {
            to
        } else {
            seq![c]
        }
}

/// `text` with every `from` replaced by `to`.
pub open spec fn replaced(text: Seq<char>, from: char, to: Seq<char>) -> Seq<char> {
    expanded(text, replacement(from, to))
}

/// Whether `pattern` stands somewhere in `text`.
pub open spec fn occurs(pattern: Seq<char>, text: Seq<char>) -> bool {
    exists|at: int|
        0 <= at && at + pattern.len() <= text.len() && #[trigger] text.skip(at).take(
            pattern.len() as int,
        ) == pattern
}

/// Whether `text` begins with `prefix`.
pub open spec fn begins(text: Seq<char>, prefix: Seq<char>) -> bool {
    prefix.len() <= text.len() && text.take(prefix.len() as int) == prefix
}

/// Whether `text` ends with `suffix`.
pub open spec fn ends(text: Seq<char>, suffix: Seq<char>) -> bool {
    suffix.len() <= text.len() && text.skip(text.len() - suffix.len()) == suffix
}

/// Whether every character of `text` is an ASCII digit.
pub open spec fn all_digits(text: Seq<char>) -> bool {
    forall|i: int| 0 <= i < text.len() ==> '0' <= #[trigger] text[i] <= '9'
}

/// The decimal digit for `n`, which is below ten.
pub open spec fn digit(n: nat) -> char {
    (n + 48) as char
}

/// `n` in decimal notation.
pub open spec fn decimal(n: nat) -> Seq<char>
    decreases n,
{
    if n < 10 {
        seq![digit(n)]
    } else {
        decimal(n / 10).push(digit(n % 10))
    }
}

/// `n` in decimal notation, after a minus sign where it is negative.
pub open spec fn signed_decimal(n: int) -> Seq<char> {
    if n < 0 {
        seq!['-'] + decimal((-n) as nat)
    } else {
        decimal(n as nat)
    }
}

/// `count` times the character `c`.
pub open spec fn repeated(c: char, count: int) -> Seq<char> {
    if count <= 0 {
        seq![]
    } else {
        Seq::new(count as nat, |i: int| c)
    }
}

/// `text` filled up with `c` in front to at least `width` characters.
pub open spec fn padded_start(text: Seq<char>, c: char, width: int) -> Seq<char> {
    repeated(c, width - text.len()) + text
}

/// `text` filled up with blanks behind to at least `width` characters.
pub open spec fn padded_end(text: Seq<char>, width: int) -> Seq<char> {
    text + repeated(' ', width - text.len())
}

/// The first characters of `text`, at most `count`.
pub open spec fn shortened(text: Seq<char>, count: int) -> Seq<char> {
    if text.len() <= count {
        text
    } else {
        text.take(count)
    }
}

/// The place of the first `c` at or after `from`.
fn find_char(chars: &Vec<char>, from: usize, c: char) -> (at: usize)
    requires
        from <= chars@.len(),
    ensures
        from <= at <= chars@.len(),
        at - from == position(chars@.skip(from as int), c),
{
    let mut at: usize = from;
    while at < chars.len() && chars[at] != c
        invariant
            from <= at <= chars@.len(),
            forall|i: int| from <= i < at ==> chars@[i] != c,
        decreases chars@.len() - at,
    {
        at = at + 1;
    }
    proof {
        lemma_position_is(chars@.skip(from as int), c, at - from);
    }
    at
}

/// The parts of `text` between the separators `c`.
pub fn split(text: &str, c: char) -> (parts: Vec<String>)
    ensures
        texts(parts@) == split_at(text@, c),
{
    let chars = to_chars(text);
    let mut parts: Vec<String> = Vec::new();
    let mut from: usize = 0;
    let mut more: bool = true;
    assert(chars@.skip(0) =~= chars@);
    assert(texts(parts@) + split_at(chars@, c) =~= split_at(chars@, c));
    while more
        invariant
            from <= chars@.len(),
            more ==> split_at(chars@, c) == texts(parts@) + split_at(chars@.skip(from as int), c),
            !more ==> split_at(chars@, c) == texts(parts@),
        decreases chars@.len() - from, more as int,
    {
        let at = find_char(&chars, from, c);
        let ghost rest = chars@.skip(from as int);
        let ghost before = texts(parts@);
        let part = substring(&chars, from, at);
        assert(part@ =~= rest.take(at - from));
        parts.push(part);
        assert(texts(parts@) =~= before.push(rest.take(at - from)));
        if at < chars.len() {
            assert(rest.skip(at - from + 1) =~= chars@.skip(at + 1));
            assert(before + (seq![rest.take(at - from)] + split_at(chars@.skip(at + 1), c))
                =~= texts(parts@) + split_at(chars@.skip(at + 1), c));
            from = at + 1;
        } else {
            assert(rest.take(at - from) =~= rest);
            assert(before + seq![rest] =~= texts(parts@));
            more = false;
        }
    }
    parts
}

/// The lines of `text`, without their line ends.
pub fn lines(text: &str) -> (parts: Vec<String>)
    ensures
        texts(parts@) == lines_of(text@),
{
    let chars = to_chars(text);
    let mut parts: Vec<String> = Vec::new();
    let mut from: usize = 0;
    assert(chars@.skip(0) =~= chars@);
    assert(texts(parts@) + lines_of(chars@) =~= lines_of(chars@));
    while from < chars.len()
        invariant
            from <= chars@.len(),
            lines_of(chars@) == texts(parts@) + lines_of(chars@.skip(from as int)),
        decreases chars@.len() - from,
    {
        let at = find_char(&chars, from, '\n');
        let ghost rest = chars@.skip(from as int);
        let ghost before = texts(parts@);
        if at < chars.len() {
            let to: usize = if at > from && chars[at - 1] == '\r' {
                at - 1
            } else {
                at
            };
            let part = substring(&chars, from, to);
            assert(part@ =~= chomped(rest.take(at - from)));
            parts.push(part);
            assert(texts(parts@) =~= before.push(chomped(rest.take(at - from))));
            assert(rest.skip(at - from + 1) =~= chars@.skip(at + 1));
            assert(before + (seq![chomped(rest.take(at - from))] + lines_of(chars@.skip(at + 1)))
                =~= texts(parts@) + lines_of(chars@.skip(at + 1)));
            from = at + 1;
        } else {
            let part = substring(&chars, from, at);
            assert(part@ =~= rest);
            parts.push(part);
            assert(texts(parts@) =~= before.push(rest));
            assert(chars@.skip(at as int) =~= seq![]);
            assert(before + seq![rest] =~= texts(parts@) + lines_of(chars@.skip(at as int)));
            from = at;
        }
    }
    assert(chars@.skip(from as int) =~= seq![]);
    assert(texts(parts@) + lines_of(chars@.skip(from as int)) =~= texts(parts@));
    parts
}

/// The parts joined, with `separator` between neighbours.
pub fn join(parts: &Vec<String>, separator: &str) -> (text: String)
    ensures
        text@ == joined(texts(parts@), separator@),
{
    let mut text: String = String::new();
    let mut i: usize = 0;
    let ghost all = texts(parts@);
    while i < parts.len()
        invariant
            i <= parts@.len(),
            all == texts(parts@),
            text@ == joined(all.take(i as int), separator@),
        decreases parts@.len() - i,
    {
        assert(all.take(i + 1).drop_last() =~= all.take(i as int));
        if i > 0 {
            text.append(separator);
        }
        text.append(parts[i].as_str());
        i = i + 1;
        if i == 1 {
            assert(text@ =~= all[0]);
        }
    }
    assert(all.take(i as int) =~= all);
    text
}

/// `text` with every `from` replaced by `to`.
pub fn replace(text: &str, from: char, to: &str) -> (result: String)
    ensures
        result@ == replaced(text@, from, to@),
{
    let chars = to_chars(text);
    let mut result: String = String::new();
    let mut i: usize = 0;
    let ghost image = replacement(from, to@);
    while i < chars.len()
        invariant
            i <= chars@.len(),
            image == replacement(from, to@),
            result@ == expanded(chars@.take(i as int), image),
        decreases chars@.len() - i,
    {
        assert(chars@.take(i + 1).drop_last() =~= chars@.take(i as int));
        if chars[i] == from {
            result.append(to);
        } else {
            result.push(chars[i]);
            assert(result@ =~= expanded(chars@.take(i as int), image) + seq![chars@[i as int]]);
        }
        i = i + 1;
    }
    assert(chars@.take(i as int) =~= chars@);
    result
}

/// Whether the two texts are the same.
pub fn same(left: &str, right: &str) -> (yes: bool)
    ensures
        yes == (left@ == right@),
{
    let ours = to_chars(left);
    let theirs = to_chars(right);
    if ours.len() != theirs.len() {
        return false;
    }
    let mut i: usize = 0;
    while i < ours.len()
        invariant
            ours@ == left@,
            theirs@ == right@,
            ours@.len() == theirs@.len(),
            i <= ours@.len(),
            forall|k: int| 0 <= k < i ==> ours@[k] == theirs@[k],
        decreases ours@.len() - i,
    {
        if ours[i] != theirs[i] {
            return false;
        }
        i = i + 1;
    }
    assert(ours@ =~= theirs@);
    true
}

/// Whether `pattern` stands in `chars` at `at`.
fn stands_at(chars: &Vec<char>, pattern: &Vec<char>, at: usize) -> (yes: bool)
    requires
        at + pattern@.len() <= chars@.len(),
    ensures
        yes == (chars@.skip(at as int).take(pattern@.len() as int) == pattern@),
{
    let count: usize = chars.len();
    let mut i: usize = 0;
    while i < pattern.len()
        invariant
            i <= pattern@.len(),
            count == chars@.len(),
            at + pattern@.len() <= count,
            forall|k: int| 0 <= k < i ==> chars@[at + k] == pattern@[k],
        decreases pattern@.len() - i,
    {
        if chars[at + i] != pattern[i] {
            assert(chars@.skip(at as int).take(pattern@.len() as int)[i as int] != pattern@[i as int]);
            return false;
        }
        i = i + 1;
    }
    assert(chars@.skip(at as int).take(pattern@.len() as int) =~= pattern@);
    true
}

/// Whether `pattern` stands somewhere in `text`.
pub fn contains(text: &str, pattern: &str) -> (yes: bool)
    ensures
        yes == occurs(pattern@, text@),
{
    let chars = to_chars(text);
    let wanted = to_chars(pattern);
    if wanted.len() > chars.len() {
        return false;
    }
    let last: usize = chars.len() - wanted.len();
    let mut at: usize = 0;
    let mut found: bool = stands_at(&chars, &wanted, 0);
    while !found && at < last
        invariant
            chars@ == text@,
            wanted@ == pattern@,
            at <= last,
            last + wanted@.len() == chars@.len(),
            found == (chars@.skip(at as int).take(wanted@.len() as int) == wanted@),
            forall|k: int|
                0 <= k < at ==> #[trigger] chars@.skip(k).take(wanted@.len() as int) != wanted@,
        decreases last - at,
    {
        at = at + 1;
        found = stands_at(&chars, &wanted, at);
    }
    found
}

/// Whether `text` begins with `prefix`.
pub fn starts_with(text: &str, prefix: &str) -> (yes: bool)
    ensures
        yes == begins(text@, prefix@),
{
    let chars = to_chars(text);
    let prefix = to_chars(prefix);
    assert(chars@.skip(0) =~= chars@);
    prefix.len() <= chars.len() && stands_at(&chars, &prefix, 0)
}

/// Whether `text` ends with `suffix`.
pub fn ends_with(text: &str, suffix: &str) -> (yes: bool)
    ensures
        yes == ends(text@, suffix@),
{
    let chars = to_chars(text);
    let suffix = to_chars(suffix);
    if suffix.len() > chars.len() {
        return false;
    }
    let at: usize = chars.len() - suffix.len();
    assert(chars@.skip(at as int).take(suffix@.len() as int) =~= chars@.skip(at as int));
    stands_at(&chars, &suffix, at)
}

/// Whether every character of `text` is an ASCII digit.
pub fn is_all_digits(text: &str) -> (yes: bool)
    ensures
        yes == all_digits(text@),
{
    let chars = to_chars(text);
    let mut i: usize = 0;
    while i < chars.len()
        invariant
            chars@ == text@,
            i <= chars@.len(),
            forall|k: int| 0 <= k < i ==> '0' <= #[trigger] chars@[k] <= '9',
        decreases chars@.len() - i,
    {
        if !('0' <= chars[i] && chars[i] <= '9') {
            return false;
        }
        i = i + 1;
    }
    true
}

/// The ASCII lower case of `c`.
pub open spec fn ascii_lower(c: char) -> char {
    if 'A' <= c <= 'Z' {
        (c as int + 32) as char
    } else {
        c
    }
}

/// `text` with its ASCII letters in lower case.
pub open spec fn lowered(text: Seq<char>) -> Seq<char> {
    Seq::new(text.len(), |i: int| ascii_lower(text[i]))
}

/// `text` with its ASCII letters in lower case.
pub fn to_ascii_lower(text: &str) -> (result: String)
    ensures
        result@ == lowered(text@),
{
    let chars = to_chars(text);
    let mut result: String = String::new();
    let mut i: usize = 0;
    while i < chars.len()
        invariant
            i <= chars@.len(),
            result@ == lowered(chars@).take(i as int),
        decreases chars@.len() - i,
    {
        let c = chars[i];
        if 'A' <= c && c <= 'Z' {
            result.push((c as u8 + 32) as char);
        } else {
            result.push(c);
        }
        i = i + 1;
        assert(result@ =~= lowered(chars@).take(i as int));
    }
    assert(lowered(chars@).take(i as int) =~= lowered(chars@));
    result
}

/// `n` in decimal notation.
pub fn decimal_text(n: u64) -> (text: String)
    ensures
        text@ == decimal(n as nat),
    decreases n,
{
    let last = (48 + (n % 10) as u8) as char;
    if n < 10 {
        let mut text: String = String::new();
        text.push(last);
        assert(text@ =~= seq![digit(n as nat)]);
        text
    } else {
        let mut text: String = decimal_text(n / 10);
        text.push(last);
        text
    }
}

/// `n` in decimal notation, after a minus sign where it is negative.
pub fn signed_decimal_text(n: i64) -> (text: String)
    ensures
        text@ == signed_decimal(n as int),
{
    if n >= 0 {
        decimal_text(n as u64)
    } else {
        let size: u64 = if n == i64::MIN {
            0x8000_0000_0000_0000
        } else {
            (-n) as u64
        };
        let mut text: String = String::new();
        text.push('-');
        assert(text@ =~= seq!['-']);
        text.append(decimal_text(size).as_str());
        text
    }
}

/// `count` times the character `c`.
pub fn repeat(c: char, count: usize) -> (text: String)
    ensures
        text@ == repeated(c, count as int),
{
    let mut text: String = String::new();
    let mut i: usize = 0;
    while i < count
        invariant
            i <= count,
            text@ == repeated(c, i as int),
        decreases count - i,
    {
        text.push(c);
        i = i + 1;
        assert(text@ =~= repeated(c, i as int));
    }
    text
}

/// `text` filled up with `c` in front to at least `width` characters.
pub fn pad_start(text: &str, c: char, width: usize) -> (result: String)
    ensures
        result@ == padded_start(text@, c, width as int),
{
    let count: usize = text.unicode_len();
    let mut result: String = repeat(
        c,
        if count < width {
            width - count
        } else {
            0
        },
    );
    result.append(text);
    result
}

/// `text` filled up with blanks behind to at least `width` characters.
pub fn pad_end(text: &str, width: usize) -> (result: String)
    ensures
        result@ == padded_end(text@, width as int),
{
    let count: usize = text.unicode_len();
    let fill = repeat(
        ' ',
        if count < width {
            width - count
        } else {
            0
        },
    );
    concat2(text, fill.as_str())
}

/// The first characters of `text`, at most `count`.
pub fn shorten(text: &str, count: usize) -> (result: String)
    ensures
        result@ == shortened(text@, count as int),
{
    let chars = to_chars(text);
    if chars.len() <= count {
        text.to_owned()
    } else {
        assert(chars@.subrange(0, count as int) =~= chars@.take(count as int));
        substring(&chars, 0, count)
    }
}

/// Two texts, one after the other.
pub fn concat2(a: &str, b: &str) -> (text: String)
    ensures
        text@ == a@ + b@,
{
    let mut text: String = a.to_owned();
    text.append(b);
    text
}

/// Three texts, one after the other.
pub fn concat3(a: &str, b: &str, c: &str) -> (text: String)
    ensures
        text@ == a@ + b@ + c@,
{
    let mut text: String = concat2(a, b);
    text.append(c);
    text
}

/// Four texts, one after the other.
pub fn concat4(a: &str, b: &str, c: &str, d: &str) -> (text: String)
    ensures
        text@ == a@ + b@ + c@ + d@,
{
    let mut text: String = concat3(a, b, c);
    text.append(d);
    text
}

/// Five texts, one after the other.
pub fn concat5(a: &str, b: &str, c: &str, d: &str, e: &str) -> (text: String)
    ensures
        text@ == a@ + b@ + c@ + d@ + e@,
{
    let mut text: String = concat4(a, b, c, d);
    text.append(e);
    text
}

/// The number that a row of digits stands for.
pub open spec fn digits_value(digits: Seq<char>) -> int
    decreases digits.len(),
{
    if digits.len() == 0 {
        0
    } else {
        10 * digits_value(digits.drop_last()) + (digits.last() as int - '0' as int)
    }
}

/// The decimal digits of a number stand for it.
pub proof fn lemma_decimal_value(n: nat)
    ensures
        digits_value(decimal(n)) == n,
        all_digits(decimal(n)),
        decimal(n).len() > 0,
    decreases n,
{
    if n >= 10 {
        lemma_decimal_value(n / 10);
        assert(decimal(n).drop_last() =~= decimal(n / 10));
    } else {
        assert(decimal(n).drop_last() =~= Seq::empty());
        assert(digits_value(decimal(n).drop_last()) == 0);
    }
}

/// Zeros in front do not change the number.
pub proof fn lemma_padded_value(digits: Seq<char>, width: int)
    requires
        all_digits(digits),
    ensures
        digits_value(padded_start(digits, '0', width)) == digits_value(digits),
        all_digits(padded_start(digits, '0', width)),
    decreases digits.len(), width,
{
    let padded = padded_start(digits, '0', width);
    if digits.len() > 0 {
        assert(padded.drop_last() =~= padded_start(digits.drop_last(), '0', width - 1));
        assert(all_digits(digits.drop_last()));
        lemma_padded_value(digits.drop_last(), width - 1);
    } else if width > 0 {
        assert(padded.drop_last() =~= padded_start(digits, '0', width - 1));
        lemma_padded_value(digits, width - 1);
        assert(padded.last() == '0');
    } else {
        assert(padded =~= digits);
    }
}

/// A greater number has no fewer digits.
pub proof fn lemma_decimal_len(n: nat, m: nat)
    requires
        n <= m,
    ensures
        decimal(n).len() <= decimal(m).len(),
    decreases m,
{
    if n >= 10 {
        lemma_decimal_len(n / 10, m / 10);
    } else {
        lemma_decimal_value(m);
    }
}

/// Stripping the start takes away characters of the class, as many as there are.
pub proof fn lemma_stripped_start(text: Seq<char>, class: CharClass)
    ensures
        stripped_start(text, class).len() <= text.len(),
        stripped_start(text, class) == text.skip(text.len() - stripped_start(text, class).len()),
        forall|i: int|
            0 <= i < text.len() - stripped_start(text, class).len() ==> class.has(
                #[trigger] text[i],
            ),
        stripped_start(text, class).len() > 0 ==> !class.has(stripped_start(text, class).first()),
    decreases text.len(),
{
    if text.len() > 0 && class.has(text.first()) {
        let rest = text.drop_first();
        lemma_stripped_start(rest, class);
        let gone = rest.len() - stripped_start(rest, class).len();
        assert(rest.skip(gone) =~= text.skip(gone + 1));
        assert forall|i: int| 0 <= i < gone + 1 implies class.has(#[trigger] text[i]) by {
            if i > 0 {
                assert(text[i] == rest[i - 1]);
            }
        }
    } else {
        assert(text.skip(0) =~= text);
    }
}

/// Stripping the end takes away characters of the class, as many as there are.
pub proof fn lemma_stripped_end(text: Seq<char>, class: CharClass)
    ensures
        stripped_end(text, class).len() <= text.len(),
        stripped_end(text, class) == text.take(stripped_end(text, class).len() as int),
        forall|i: int|
            stripped_end(text, class).len() <= i < text.len() ==> class.has(#[trigger] text[i]),
        stripped_end(text, class).len() > 0 ==> !class.has(stripped_end(text, class).last()),
    decreases text.len(),
{
    if text.len() > 0 && class.has(text.last()) {
        let init = text.drop_last();
        lemma_stripped_end(init, class);
        let kept = stripped_end(init, class).len() as int;
        assert(init.take(kept) =~= text.take(kept));
        assert forall|i: int| kept <= i < text.len() implies class.has(#[trigger] text[i]) by {
            if i < init.len() {
                assert(text[i] == init[i]);
            }
        }
    } else {
        assert(text.take(text.len() as int) =~= text);
    }
}

/// A trimmed text has no white space at its ends, and holds nothing but what the text holds.
/// Nothing is left only of a text that is white space throughout.
pub proof fn lemma_trimmed(text: Seq<char>)
    ensures
        trimmed(text).len() <= text.len(),
        trimmed(text).len() > 0 ==> !white_space(trimmed(text).first()) && !white_space(
            trimmed(text).last(),
        ),
        forall|c: char| #[trigger] trimmed(text).contains(c) ==> text.contains(c),
        blank(text) <==> forall|i: int| 0 <= i < text.len() ==> white_space(#[trigger] text[i]),
{
    let class = CharClass::WhiteSpace;
    let start = stripped_start(text, class);
    lemma_stripped_start(text, class);
    lemma_stripped_end(start, class);
    let gone = text.len() - start.len();
    assert forall|c: char| #[trigger] trimmed(text).contains(c) implies text.contains(c) by {
        let i = choose|i: int| 0 <= i < trimmed(text).len() && trimmed(text)[i] == c;
        assert(text[gone + i] == c);
    }
    if trimmed(text).len() > 0 {
        assert(trimmed(text).first() == start.first());
        assert(!white_space(text[gone]));
    } else {
        assert forall|i: int| 0 <= i < text.len() implies white_space(#[trigger] text[i]) by {
            if i >= gone {
                assert(text[i] == start[i - gone]);
            }
        }
    }
}

/// A text without white space at its ends is its own trimmed form.
pub proof fn lemma_trimmed_fixed(text: Seq<char>)
    requires
        text.len() > 0 ==> !white_space(text.first()) && !white_space(text.last()),
    ensures
        trimmed(text) == text,
{
}

/// Trimming twice is trimming once.
pub proof fn trimming_is_idempotent(text: Seq<char>)
    ensures
        trimmed(trimmed(text)) == trimmed(text),
{
    lemma_trimmed(text);
    lemma_trimmed_fixed(trimmed(text));
}

/// What no character becomes does not stand in the whole.
pub proof fn lemma_expanded_lacks(text: Seq<char>, image: spec_fn(char) -> Seq<char>, c: char)
    requires
        forall|i: int| 0 <= i < text.len() ==> !image(#[trigger] text[i]).contains(c),
    ensures
        !expanded(text, image).contains(c),
    decreases text.len(),
{
    if text.len() > 0 {
        let init = text.drop_last();
        assert forall|i: int| 0 <= i < init.len() implies !image(#[trigger] init[i]).contains(c) by {
            assert(init[i] == text[i]);
        }
        lemma_expanded_lacks(init, image, c);
        assert(!image(text[text.len() - 1]).contains(c));
        lemma_concat_lacks(expanded(init, image), image(text.last()), c);
    }
}

/// What stands in neither part does not stand in the whole.
pub proof fn lemma_concat_lacks(first: Seq<char>, second: Seq<char>, c: char)
    requires
        !first.contains(c),
        !second.contains(c),
    ensures
        !(first + second).contains(c),
{
    if (first + second).contains(c) {
        let i = choose|i: int| 0 <= i < (first + second).len() && (first + second)[i] == c;
        if i < first.len() {
            assert(first[i] == c);
        } else {
            assert(second[i - first.len()] == c);
        }
    }
}

/// A character that is replaced is gone, unless the replacement has it; one that the text lacks
/// only comes with the replacement.
pub proof fn lemma_replaced_lacks(text: Seq<char>, from: char, to: Seq<char>, c: char)
    requires
        c == from || !text.contains(c),
        !to.contains(c),
    ensures
        !replaced(text, from, to).contains(c),
{
    let image = replacement(from, to);
    assert forall|i: int| 0 <= i < text.len() implies !image(#[trigger] text[i]).contains(c) by {
        if text[i] != from {
            assert(image(text[i]) == seq![text[i]]);
            assert(text[i] != c);
        }
    }
    lemma_expanded_lacks(text, image, c);
}

/// Whether the text can stand on a line of its own: it holds no line feed and ends in no carriage
/// return.
pub open spec fn one_line(text: Seq<char>) -> bool {
    !text.contains('\n') && !(text.len() > 0 && text.last() == '\r')
}

/// No line of a text holds a line feed.
pub proof fn lemma_lines_lack_feeds(text: Seq<char>)
    ensures
        forall|i: int|
            0 <= i < lines_of(text).len() ==> !(#[trigger] lines_of(text)[i]).contains('\n'),
    decreases text.len(),
{
    if text.len() > 0 {
        let at = position(text, '\n');
        lemma_position(text, '\n');
        if at >= text.len() {
            assert(lines_of(text) == seq![text]);
        } else {
            let rest = text.skip(at + 1);
            lemma_lines_lack_feeds(rest);
            assert forall|i: int| 0 <= i < lines_of(text).len() implies !(
            #[trigger] lines_of(text)[i]).contains('\n') by {
                if i > 0 {
                    assert(lines_of(text)[i] == lines_of(rest)[i - 1]);
                } else {
                    let line = chomped(text.take(at));
                    assert(lines_of(text)[0] == line);
                    if line.contains('\n') {
                        let k = choose|k: int| 0 <= k < line.len() && line[k] == '\n';
                        assert(text[k] == '\n');
                    }
                }
            }
        }
    }
}

/// The first part and its separator stand in front of the others.
pub proof fn lemma_joined_front(parts: Seq<Seq<char>>, separator: Seq<char>)
    requires
        parts.len() >= 2,
    ensures
        joined(parts, separator) == parts[0] + separator + joined(parts.drop_first(), separator),
    decreases parts.len(),
{
    let rest = parts.drop_first();
    if parts.len() == 2 {
        assert(parts.drop_last() =~= seq![parts[0]]);
        assert(rest =~= seq![parts[1]]);
        assert(joined(parts.drop_last(), separator) == parts[0]);
        assert(joined(rest, separator) == parts[1]);
    } else {
        lemma_joined_front(parts.drop_last(), separator);
        assert(parts.drop_last().drop_first() =~= rest.drop_last());
        assert(joined(parts, separator) =~= parts[0] + separator + joined(rest, separator));
    }
}

/// Joined lines, and what comes after their line feed, fall apart again.
pub proof fn lemma_lines_of_joined(parts: Seq<Seq<char>>, rest: Seq<char>)
    requires
        parts.len() > 0,
        forall|i: int| 0 <= i < parts.len() ==> one_line(#[trigger] parts[i]),
    ensures
        lines_of(joined(parts, "\n"@) + "\n"@ + rest) == parts + lines_of(rest),
    decreases parts.len(),
{
    reveal_strlit("\n");
    let text = joined(parts, "\n"@) + "\n"@ + rest;
    let first = parts[0];
    let others = if parts.len() == 1 {
        rest
    } else {
        joined(parts.drop_first(), "\n"@) + "\n"@ + rest
    };
    if parts.len() > 1 {
        lemma_joined_front(parts, "\n"@);
        assert forall|i: int| 0 <= i < parts.drop_first().len() implies one_line(
            #[trigger] parts.drop_first()[i],
        ) by {
            assert(parts.drop_first()[i] == parts[i + 1]);
        }
        lemma_lines_of_joined(parts.drop_first(), rest);
    }
    assert(text =~= first + "\n"@ + others);
    let at = first.len() as int;
    assert(text[at] == '\n');
    assert forall|k: int| 0 <= k < at implies text[k] != '\n' by {
        assert(text[k] == first[k]);
    }
    lemma_position_is(text, '\n', at);
    assert(text.take(at) =~= first);
    assert(text.skip(at + 1) =~= others);
    assert(chomped(first) == first);
    assert(lines_of(text) == seq![first] + lines_of(others));
    if parts.len() > 1 {
        assert(seq![first] + (parts.drop_first() + lines_of(rest)) =~= parts + lines_of(rest));
    } else {
        assert(seq![first] + lines_of(rest) =~= parts + lines_of(rest));
    }
}

/// A text without a line feed is its own only line.
pub proof fn lemma_single_line(text: Seq<char>)
    requires
        text.len() > 0,
        !text.contains('\n'),
    ensures
        lines_of(text) == seq![text],
{
    lemma_position(text, '\n');
    if position(text, '\n') < text.len() {
        assert(text[position(text, '\n')] == '\n');
    }
}

/// Joined lines fall apart again, if something stands on the last one.
pub proof fn lemma_lines_of_lines(parts: Seq<Seq<char>>)
    requires
        parts.len() > 0,
        parts.last().len() > 0,
        forall|i: int| 0 <= i < parts.len() ==> one_line(#[trigger] parts[i]),
    ensures
        lines_of(joined(parts, "\n"@)) == parts,
{
    let last = parts.last();
    assert(one_line(parts[parts.len() - 1]));
    lemma_single_line(last);
    if parts.len() > 1 {
        let init = parts.drop_last();
        assert forall|i: int| 0 <= i < init.len() implies one_line(#[trigger] init[i]) by {
            assert(init[i] == parts[i]);
        }
        lemma_lines_of_joined(init, last);
        assert(init + seq![last] =~= parts);
    } else {
        assert(seq![last] =~= parts);
    }
}

/// What stands in no part and not in the separator does not stand in the whole.
pub proof fn lemma_joined_lacks(parts: Seq<Seq<char>>, separator: Seq<char>, c: char)
    requires
        forall|i: int| 0 <= i < parts.len() ==> !(#[trigger] parts[i]).contains(c),
        !separator.contains(c),
    ensures
        !joined(parts, separator).contains(c),
    decreases parts.len(),
{
    if parts.len() == 1 {
        assert(!parts[0].contains(c));
    } else if parts.len() > 1 {
        let init = parts.drop_last();
        assert forall|i: int| 0 <= i < init.len() implies !(#[trigger] init[i]).contains(c) by {
            assert(init[i] == parts[i]);
        }
        lemma_joined_lacks(init, separator, c);
        assert(!parts[parts.len() - 1].contains(c));
        lemma_concat_lacks(joined(init, separator), separator, c);
        lemma_concat_lacks(joined(init, separator) + separator, parts.last(), c);
    }
}

/// The whole begins as its first part does and ends as its last part does.
pub proof fn lemma_joined_ends(parts: Seq<Seq<char>>, separator: Seq<char>)
    requires
        parts.len() > 0,
        parts[0].len() > 0,
        parts.last().len() > 0,
    ensures
        joined(parts, separator).len() > 0,
        joined(parts, separator).first() == parts[0].first(),
        joined(parts, separator).last() == parts.last().last(),
{
    if parts.len() > 1 {
        lemma_joined_front(parts, separator);
    }
}

/// What a text lacks, its lines lack.
pub proof fn lemma_lines_lack(text: Seq<char>, c: char)
    requires
        !text.contains(c),
    ensures
        forall|i: int| 0 <= i < lines_of(text).len() ==> !(#[trigger] lines_of(text)[i]).contains(c),
    decreases text.len(),
{
    if text.len() > 0 {
        let at = position(text, '\n');
        lemma_position(text, '\n');
        if at >= text.len() {
            assert(lines_of(text) == seq![text]);
        } else {
            let rest = text.skip(at + 1);
            if rest.contains(c) {
                let k = choose|k: int| 0 <= k < rest.len() && rest[k] == c;
                assert(text[at + 1 + k] == c);
            }
            lemma_lines_lack(rest, c);
            assert forall|i: int| 0 <= i < lines_of(text).len() implies !(
            #[trigger] lines_of(text)[i]).contains(c) by {
                if i > 0 {
                    assert(lines_of(text)[i] == lines_of(rest)[i - 1]);
                } else {
                    let line = chomped(text.take(at));
                    assert(lines_of(text)[0] == line);
                    if line.contains(c) {
                        let k = choose|k: int| 0 <= k < line.len() && line[k] == c;
                        assert(text[k] == c);
                    }
                }
            }
        }
    }
}

/// Where a character does not occur, replacing it changes nothing.
pub proof fn lemma_replaced_absent(text: Seq<char>, from: char, to: Seq<char>)
    requires
        !text.contains(from),
    ensures
        replaced(text, from, to) == text,
    decreases text.len(),
{
    if text.len() > 0 {
        let init = text.drop_last();
        if init.contains(from) {
            let k = choose|k: int| 0 <= k < init.len() && init[k] == from;
            assert(text[k] == from);
        }
        lemma_replaced_absent(init, from, to);
        assert(text[text.len() - 1] == text.last());
        assert(text.last() != from);
        assert(replaced(text, from, to) =~= init + seq![text.last()]);
        assert(init + seq![text.last()] =~= text);
    }
}

/// The start of a whole is stripped as its first part is, where that part has something to stop at.
pub proof fn lemma_stripped_start_concat(first: Seq<char>, second: Seq<char>, class: CharClass)
    requires
        stripped_start(first, class).len() > 0,
    ensures
        stripped_start(first + second, class) == stripped_start(first, class) + second,
    decreases first.len(),
{
    assert((first + second).first() == first.first());
    if class.has(first.first()) {
        assert((first + second).drop_first() =~= first.drop_first() + second);
        lemma_stripped_start_concat(first.drop_first(), second, class);
    }
}

/// What becomes of a whole is what becomes of its parts.
pub proof fn lemma_expanded_concat(
    first: Seq<char>,
    second: Seq<char>,
    image: spec_fn(char) -> Seq<char>,
)
    ensures
        expanded(first + second, image) == expanded(first, image) + expanded(second, image),
    decreases second.len(),
{
    if second.len() == 0 {
        assert(first + second =~= first);
        assert(expanded(first, image) + expanded(second, image) =~= expanded(first, image));
    } else {
        let init = second.drop_last();
        lemma_expanded_concat(first, init, image);
        assert((first + second).drop_last() =~= first + init);
        assert(expanded(first, image) + expanded(second, image) =~= expanded(first + init, image)
            + image(second.last()));
    }
}

/// What becomes of one character, and of two.
pub proof fn lemma_expanded_few(a: char, b: char, image: spec_fn(char) -> Seq<char>)
    ensures
        expanded(seq![a], image) == image(a),
        expanded(seq![a, b], image) == image(a) + image(b),
{
    assert(seq![a].drop_last() =~= seq![]);
    assert(expanded(seq![], image) =~= seq![]);
    assert(expanded(seq![a], image) =~= image(a));
    assert(seq![a, b].drop_last() =~= seq![a]);
}

/// What stands between two texts occurs in the whole.
pub proof fn lemma_occurs(before: Seq<char>, pattern: Seq<char>, after: Seq<char>)
    ensures
        occurs(pattern, before + pattern + after),
{
    let whole = before + pattern + after;
    let at = before.len() as int;
    assert(whole.skip(at).take(pattern.len() as int) =~= pattern);
}

/// What occurs in a part occurs in the whole.
pub proof fn lemma_occurs_in_part(
    pattern: Seq<char>,
    before: Seq<char>,
    part: Seq<char>,
    after: Seq<char>,
)
    requires
        occurs(pattern, part),
    ensures
        occurs(pattern, before + part + after),
{
    let at = choose|at: int|
        0 <= at && at + pattern.len() <= part.len() && #[trigger] part.skip(at).take(
            pattern.len() as int,
        ) == pattern;
    let whole = before + part + after;
    assert(whole.skip(before.len() + at).take(pattern.len() as int) =~= part.skip(at).take(
        pattern.len() as int,
    ));
}

} // verus!
