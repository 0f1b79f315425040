//! Paths as text, by the rules of Unix.

use vstd::prelude::*;

use crate::text;

verus! {

/// Whether the path begins at the root.
pub open spec fn absolute(path: Seq<char>) -> bool {
    path.len() > 0 && path[0] == '/'
}

/// The path `name` as seen from `base`.
pub open spec fn joined_path(base: Seq<char>, name: Seq<char>) -> Seq<char> {
    if absolute(name) {
        name
    } else if base.len() == 0 || base.last() == '/' {
        base + name
    } else {
        base + "/"@ + name
    }
}

/// The names on the way that count: a dot counts at the beginning only.
pub open spec fn counted_names(names: Seq<Seq<char>>) -> Seq<Seq<char>>
    decreases names.len(),
{
    if names.len() == 0 {
        seq![]
    } else {
        let before = counted_names(names.drop_last());
        let name = names.last();
        if name.len() == 0 || (name == "."@ && names.len() > 1) {
            before
        } else {
            before.push(name)
        }
    }
}

/// Whether two paths lead the same way: slashes that stand double or at the end do not count, nor
/// do dots on the way.
pub open spec fn same_way(left: Seq<char>, right: Seq<char>) -> bool {
    &&& absolute(left) == absolute(right)
    &&& counted_names(text::split_at(left, '/')) == counted_names(text::split_at(right, '/'))
}

/// Whether the path begins at the root.
pub fn is_absolute(path: &str) -> (yes: bool)
    ensures
        yes == absolute(path@),
{
    let chars = text::to_chars(path);
    chars.len() > 0 && chars[0] == '/'
}

/// The path `name` as seen from `base`.
pub fn join_path(base: &str, name: &str) -> (path: String)
    ensures
        path@ == joined_path(base@, name@),
{
    if is_absolute(name) {
        return name.to_owned();
    }
    let chars = text::to_chars(base);
    if chars.len() == 0 || chars[chars.len() - 1] == '/' {
        text::concat2(base, name)
    } else {
        text::concat3(base, "/", name)
    }
}

/// The names of a path that count.
fn path_names(path: &str) -> (names: Vec<String>)
    ensures
        text::texts(names@) == counted_names(text::split_at(path@, '/')),
{
    let parts = text::split(path, '/');
    let mut names: Vec<String> = Vec::new();
    let mut i: usize = 0;
    let ghost all = text::texts(parts@);
    assert(text::texts(names@) =~= counted_names(all.take(0)));
    while i < parts.len()
        invariant
            i <= parts@.len(),
            all == text::texts(parts@),
            text::texts(names@) == counted_names(all.take(i as int)),
        decreases parts@.len() - i,
    {
        assert(all.take(i + 1).drop_last() =~= all.take(i as int));
        let part = parts[i].as_str();
        let ghost before = text::texts(names@);
        proof {
            reveal_strlit("");
            assert(part@.len() == 0 ==> part@ =~= ""@);
        }
        if !text::same(part, "") && !(text::same(part, ".") && i > 0) {
            names.push(part.to_owned());
            assert(text::texts(names@) =~= before.push(part@));
        }
        i = i + 1;
    }
    assert(all.take(i as int) =~= all);
    names
}

/// Whether two lists hold the same texts.
fn same_texts(left: &Vec<String>, right: &Vec<String>) -> (yes: bool)
    ensures
        yes == (text::texts(left@) == text::texts(right@)),
{
    if left.len() != right.len() {
        assert(text::texts(left@).len() != text::texts(right@).len());
        return false;
    }
    let mut i: usize = 0;
    while i < left.len()
        invariant
            i <= left@.len(),
            left@.len() == right@.len(),
            forall|j: int| 0 <= j < i ==> (#[trigger] text::texts(left@)[j]) == text::texts(right@)[j],
        decreases left@.len() - i,
    {
        if !text::same(left[i].as_str(), right[i].as_str()) {
            assert(text::texts(left@)[i as int] != text::texts(right@)[i as int]);
            return false;
        }
        i = i + 1;
    }
    assert(text::texts(left@) =~= text::texts(right@));
    true
}

/// Whether two paths lead the same way.
pub fn is_same_way(left: &str, right: &str) -> (yes: bool)
    ensures
        yes == same_way(left@, right@),
{
    is_absolute(left) == is_absolute(right) && same_texts(&path_names(left), &path_names(right))
}

} // verus!
