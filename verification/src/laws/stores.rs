//! Where the cookies of Firefox are looked for, and what comes of it.

use vstd::prelude::*;

use crate::cookies::{BrowserCookie, CookieError, LoadedCookies};
use crate::firefox;
use crate::firefox::{ProfileStore, StoreRead};
use crate::paths;
use crate::text;

verus! {

/// A path is seen from where it starts: one that begins at the root stays as it is, any other comes
/// behind the start, with one slash between them.
pub proof fn paths_start_where_they_are_seen_from(base: Seq<char>, name: Seq<char>)
    ensures
        name.len() > 0 && name[0] == '/' ==> paths::joined_path(base, name) == name,
        !(name.len() > 0 && name[0] == '/') ==> {
            &&& base.len() == 0 ==> paths::joined_path(base, name) == name
            &&& base.len() > 0 && base.last() != '/' ==> paths::joined_path(base, name) == base
                + seq!['/'] + name
            &&& base.len() > 0 && base.last() == '/' ==> paths::joined_path(base, name) == base
                + name
        },
{
    reveal_strlit("/");
    assert("/"@ =~= seq!['/']);
    if base.len() == 0 {
        assert(base + name =~= name);
    }
}

/// Names that are empty do not count, nor does a dot that is not the first; any other name counts,
/// in its place.
pub proof fn names_on_the_way_count(names: Seq<Seq<char>>, name: Seq<char>)
    ensures
        name.len() == 0 ==> paths::counted_names(names.push(name)) == paths::counted_names(names),
        name == seq!['.'] && names.len() > 0 ==> paths::counted_names(names.push(name))
            == paths::counted_names(names),
        name.len() > 0 && (name != seq!['.'] || names.len() == 0) ==> paths::counted_names(
            names.push(name),
        ) == paths::counted_names(names).push(name),
{
    reveal_strlit(".");
    assert("."@ =~= seq!['.']);
    assert(names.push(name).drop_last() =~= names);
    assert(names.push(name).last() == name);
}

/// A path leads the same way as itself, and two paths that lead the same way begin alike.
pub proof fn ways_are_alike(left: Seq<char>, right: Seq<char>)
    ensures
        paths::same_way(left, left),
        paths::same_way(left, right) <==> paths::same_way(right, left),
        paths::same_way(left, right) ==> ((left.len() > 0 && left[0] == '/') == (right.len() > 0
            && right[0] == '/')),
        paths::same_way(left, right) <==> ((left.len() > 0 && left[0] == '/') == (right.len() > 0
            && right[0] == '/')) && paths::counted_names(text::split_at(left, '/'))
            == paths::counted_names(text::split_at(right, '/')),
{
}

/// The profiles are named by the lines that begin with `Path=`, in order, each by what stands
/// behind; white space around does not count. Other lines name none.
pub proof fn lines_name_profiles(first: Seq<Seq<char>>, second: Seq<Seq<char>>)
    ensures
        firefox::named_profiles(first + second) == firefox::named_profiles(first)
            + firefox::named_profiles(second),
        first.len() == 1 ==> {
            let line = text::trimmed(first[0]);
            if line.len() >= 5 && line.take(5) == seq!['P', 'a', 't', 'h', '='] {
                firefox::named_profiles(first) == seq![text::trimmed(line.skip(5))]
            } else {
                firefox::named_profiles(first).len() == 0
            }
        },
    decreases second.len(),
{
    if second.len() == 0 {
        assert(first + second =~= first);
        assert(firefox::named_profiles(first) + firefox::named_profiles(second)
            =~= firefox::named_profiles(first));
    } else {
        lines_name_profiles(first, second.drop_last());
        assert((first + second).drop_last() =~= first + second.drop_last());
        assert((first + second).last() == second.last());
        assert(firefox::named_profiles(first + second) =~= firefox::named_profiles(first)
            + firefox::named_profiles(second));
    }
    if first.len() == 1 {
        reveal_strlit("Path=");
        assert("Path="@ =~= seq!['P', 'a', 't', 'h', '=']);
        assert(firefox::named_profiles(first.drop_last()) =~= seq![]);
        let line = text::trimmed(first[0]);
        if text::begins(line, "Path="@) {
            assert(firefox::named_profiles(first) =~= seq![text::trimmed(line.skip(5))]);
        }
    }
}

/// The profiles are looked for where each way of installing Firefox puts them below the home
/// directory.
pub proof fn profiles_are_looked_for_at_home(home: Seq<char>)
    requires
        home.len() > 0,
        home.last() != '/',
    ensures
        firefox::profile_bases(home) == seq![
            home + seq!['/'] + ".config/mozilla/firefox"@,
            home + seq!['/'] + ".mozilla/firefox"@,
            home + seq!['/'] + ".var/app/org.mozilla.firefox/.mozilla/firefox"@,
            home + seq!['/'] + "snap/firefox/common/.mozilla/firefox"@,
        ],
{
    reveal_strlit("/");
    reveal_strlit(".config/mozilla/firefox");
    reveal_strlit(".mozilla/firefox");
    reveal_strlit(".var/app/org.mozilla.firefox/.mozilla/firefox");
    reveal_strlit("snap/firefox/common/.mozilla/firefox");
    assert("/"@ =~= seq!['/']);
    assert(".config/mozilla/firefox"@[0] == '.');
    assert(".mozilla/firefox"@[0] == '.');
    assert(".var/app/org.mozilla.firefox/.mozilla/firefox"@[0] == '.');
    assert("snap/firefox/common/.mozilla/firefox"@[0] == 's');
}

/// The stores below a directory are those of the profiles that are named, then those of the
/// directories there: one for each, in order.
pub proof fn profiles_have_a_store_each(
    base: Seq<char>,
    ini: Seq<char>,
    directories: Seq<Seq<char>>,
    i: int,
)
    ensures
        ({
            let named = firefox::named_profiles(text::lines_of(ini));
            let stores = firefox::profile_stores(base, Some(ini), directories);
            &&& stores.len() == named.len() + directories.len()
            &&& 0 <= i < named.len() ==> stores[i] == paths::joined_path(
                paths::joined_path(base, named[i]),
                "cookies.sqlite"@,
            )
            &&& 0 <= i < directories.len() ==> stores[named.len() + i] == paths::joined_path(
                paths::joined_path(base, directories[i]),
                "cookies.sqlite"@,
            ) && firefox::profile_stores(base, None, directories)[i] == stores[named.len() + i]
            &&& firefox::profile_stores(base, None, directories).len() == directories.len()
        }),
{
}

/// A store joins the others at the end, if it is there and none of them leads the same way; and the
/// others stay.
pub proof fn stores_join_at_the_end(dbs: Seq<Seq<char>>, path: Seq<char>, exists: bool)
    ensures
        firefox::with_store(dbs, path, exists) == (if exists && forall|i: int|
            0 <= i < dbs.len() ==> !paths::same_way(#[trigger] dbs[i], path) {
            dbs.push(path)
        } else {
            dbs
        }),
{
}

/// The stores of one directory join one after the other.
pub proof fn stores_join_one_by_one(
    dbs: Seq<Seq<char>>,
    first: Seq<ProfileStore>,
    second: Seq<ProfileStore>,
)
    ensures
        firefox::with_stores(dbs, first + second) == firefox::with_stores(
            firefox::with_stores(dbs, first),
            second,
        ),
        first.len() == 1 ==> firefox::with_stores(dbs, first) == firefox::with_store(
            dbs,
            first[0].path@,
            first[0].exists,
        ),
    decreases second.len(),
{
    if second.len() == 0 {
        assert(first + second =~= first);
    } else {
        stores_join_one_by_one(dbs, first, second.drop_last());
        assert((first + second).drop_last() =~= first + second.drop_last());
        assert((first + second).last() == second.last());
    }
    if first.len() == 1 {
        assert(firefox::with_stores(dbs, first.drop_last()) == dbs);
    }
}

/// The cookies come from the default profile, if it could be read; otherwise from the first store
/// that could be, whatever comes after it; otherwise from none, and then every reason is given.
pub proof fn the_first_store_that_can_be_read_counts(
    primary: Result<Vec<BrowserCookie>, String>,
    reads: Seq<StoreRead>,
    outcome: Result<LoadedCookies, CookieError>,
    at: int,
)
    requires
        firefox::firefox_outcome(primary, reads, outcome),
        0 <= at <= reads.len(),
        forall|j: int| 0 <= j < at ==> (#[trigger] reads[j]).cookies is Err,
        at < reads.len() ==> reads[at].cookies is Ok,
    ensures
        match primary {
            Ok(cookies) => outcome matches Ok(loaded) && loaded.cookies == cookies
                && loaded.source@ == "Firefox"@,
            Err(reason) => if at < reads.len() {
                outcome matches Ok(loaded) && loaded.cookies == reads[at].cookies->Ok_0
                    && loaded.source@ == "Firefox ("@ + reads[at].path@ + seq![')']
            } else if reads.len() == 0 {
                outcome matches Err(CookieError::FirefoxFailed(why)) && why@ == reason@
            } else {
                outcome matches Err(CookieError::FirefoxStoresFailed(why, others)) && why@
                    == reason@ && others@ == text::joined(
                    Seq::new(
                        reads.len(),
                        |i: int| reads[i].path@ + seq![':', ' '] + reads[i].cookies->Err_0@,
                    ),
                    seq![' ', '|', ' '],
                )
            },
        },
{
    lemma_first_read(reads, at);
    reveal_strlit(")");
    reveal_strlit(": ");
    reveal_strlit(" | ");
    assert(")"@ =~= seq![')']);
    assert(": "@ =~= seq![':', ' ']);
    assert(" | "@ =~= seq![' ', '|', ' ']);
    assert(firefox::failures(reads) =~= Seq::new(
        reads.len(),
        |i: int| reads[i].path@ + seq![':', ' '] + reads[i].cookies->Err_0@,
    ));
}

/// The first store that could be read is known by what came of it and of those before it.
proof fn lemma_first_read(reads: Seq<StoreRead>, at: int)
    requires
        0 <= at <= reads.len(),
        forall|j: int| 0 <= j < at ==> (#[trigger] reads[j]).cookies is Err,
        at < reads.len() ==> reads[at].cookies is Ok,
    ensures
        firefox::first_read(reads) == at,
    decreases reads.len(),
{
    if at > 0 {
        assert(reads[0].cookies is Err);
        let rest = reads.drop_first();
        assert forall|j: int| 0 <= j < at - 1 implies (#[trigger] rest[j]).cookies is Err by {
            assert(rest[j] == reads[j + 1]);
        }
        lemma_first_read(rest, at - 1);
    }
}

} // verus!
