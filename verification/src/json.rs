//! JSON values, as far as the rules read them.

use vstd::prelude::*;

use crate::text;

verus! {

/// A JSON value. A number is kept as it is written.
pub enum JsonValue {
    Null,
    Bool(bool),
    Number(String),
    Text(String),
    Array(Vec<JsonValue>),
    Object(Vec<(String, JsonValue)>),
}

/// The first member of that name.
pub open spec fn member(members: Seq<(String, JsonValue)>, name: Seq<char>) -> Option<JsonValue>
    decreases members.len(),
{
    if members.len() == 0 {
        None
    } else if members[0].0@ == name {
        Some(members[0].1)
    } else {
        member(members.drop_first(), name)
    }
}

/// The member of that name, or else the one of the other name.
pub open spec fn either_member(
    members: Seq<(String, JsonValue)>,
    name: Seq<char>,
    other: Seq<char>,
) -> Option<JsonValue> {
    if member(members, name) is Some {
        member(members, name)
    } else {
        member(members, other)
    }
}

/// The text that the value is, if it is one.
pub open spec fn text_of(value: Option<JsonValue>) -> Option<Seq<char>> {
    match value {
        Some(JsonValue::Text(text)) => Some(text@),
        _ => None,
    }
}

/// The text without the white space around it, unless nothing is left.
pub open spec fn filled(text: Option<Seq<char>>) -> Option<Seq<char>> {
    match text {
        Some(text) => if text::blank(text) {
            None
        } else {
            Some(text::trimmed(text))
        },
        None => None,
    }
}

/// The first member of that name.
pub fn find_member<'a>(members: &'a Vec<(String, JsonValue)>, name: &str) -> (value: Option<
    &'a JsonValue,
>)
    ensures
        match value {
            Some(value) => member(members@, name@) == Some(*value),
            None => member(members@, name@) is None,
        },
{
    let mut i: usize = 0;
    assert(members@.skip(0) =~= members@);
    while i < members.len()
        invariant
            i <= members@.len(),
            member(members@, name@) == member(members@.skip(i as int), name@),
        decreases members@.len() - i,
    {
        assert(members@.skip(i as int)[0] == members@[i as int]);
        assert(members@.skip(i as int).drop_first() =~= members@.skip(i + 1));
        if text::same(members[i].0.as_str(), name) {
            return Some(&members[i].1);
        }
        i = i + 1;
    }
    None
}

/// The text of a member, or else of the other, without the white space around it. A member that is
/// there and no text hides the other.
pub fn filled_member(members: &Vec<(String, JsonValue)>, name: &str, other: &str) -> (text: Option<
    String,
>)
    ensures
        text::opt_text(text) == filled(text_of(either_member(members@, name@, other@))),
{
    let value = match find_member(members, name) {
        Some(value) => Some(value),
        None => find_member(members, other),
    };
    match value {
        Some(JsonValue::Text(text)) => if text::is_blank(text.as_str()) {
            None
        } else {
            Some(text::trim(text.as_str()))
        },
        _ => None,
    }
}

} // verus!
