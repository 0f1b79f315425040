//! Where Firefox keeps its cookies, and which of its stores counts.

use vstd::prelude::*;

use crate::cookies::{BrowserCookie, CookieError, LoadedCookies};
use crate::paths;
use crate::text;

verus! {

/// The directories that may hold the profiles.
pub open spec fn profile_bases(home: Seq<char>) -> Seq<Seq<char>> {
    seq![
        paths::joined_path(home, ".config/mozilla/firefox"@),
        paths::joined_path(home, ".mozilla/firefox"@),
        paths::joined_path(home, ".var/app/org.mozilla.firefox/.mozilla/firefox"@),
        paths::joined_path(home, "snap/firefox/common/.mozilla/firefox"@),
    ]
}

/// The directories that may hold the profiles.
pub fn firefox_profile_bases(home: &str) -> (bases: Vec<String>)
    ensures
        text::texts(bases@) == profile_bases(home@),
{
    let bases: Vec<String> = vec![
        paths::join_path(home, ".config/mozilla/firefox"),
        paths::join_path(home, ".mozilla/firefox"),
        paths::join_path(home, ".var/app/org.mozilla.firefox/.mozilla/firefox"),
        paths::join_path(home, "snap/firefox/common/.mozilla/firefox"),
    ];
    assert(text::texts(bases@) =~= profile_bases(home@));
    bases
}

/// The profiles that the lines of `profiles.ini` name.
pub open spec fn named_profiles(lines: Seq<Seq<char>>) -> Seq<Seq<char>>
    decreases lines.len(),
{
    if lines.len() == 0 {
        seq![]
    } else {
        let before = named_profiles(lines.drop_last());
        let line = text::trimmed(lines.last());
        if text::begins(line, "Path="@) {
            before.push(text::trimmed(line.skip(5)))
        } else {
            before
        }
    }
}

/// The cookie stores of the profiles, each seen from `base`.
pub open spec fn stores_in(base: Seq<char>, profiles: Seq<Seq<char>>) -> Seq<Seq<char>> {
    Seq::new(
        profiles.len(),
        |i: int| paths::joined_path(paths::joined_path(base, profiles[i]), "cookies.sqlite"@),
    )
}

/// The cookie stores that may be below `base`: those of the profiles that `profiles.ini` names,
/// then those of the directories there.
pub open spec fn profile_stores(
    base: Seq<char>,
    ini: Option<Seq<char>>,
    directories: Seq<Seq<char>>,
) -> Seq<Seq<char>> {
    let named = match ini {
        Some(ini) => stores_in(base, named_profiles(text::lines_of(ini))),
        None => seq![],
    };
    named + stores_in(base, directories)
}

/// The profiles that `profiles.ini` names.
fn ini_profiles(ini: &str) -> (profiles: Vec<String>)
    ensures
        text::texts(profiles@) == named_profiles(text::lines_of(ini@)),
{
    let lines = text::lines(ini);
    let ghost all = text::texts(lines@);
    let mut profiles: Vec<String> = Vec::new();
    let mut i: usize = 0;
    assert(text::texts(profiles@) =~= named_profiles(all.take(0)));
    while i < lines.len()
        invariant
            i <= lines@.len(),
            all == text::texts(lines@),
            text::texts(profiles@) == named_profiles(all.take(i as int)),
        decreases lines@.len() - i,
    {
        assert(all.take(i + 1).drop_last() =~= all.take(i as int));
        let line = text::trim(lines[i].as_str());
        let ghost before = text::texts(profiles@);
        if text::starts_with(line.as_str(), "Path=") {
            proof {
                reveal_strlit("Path=");
            }
            let chars = text::to_chars(line.as_str());
            let named = text::substring(&chars, 5, chars.len());
            assert(named@ =~= line@.skip(5));
            profiles.push(text::trim(named.as_str()));
            assert(text::texts(profiles@) =~= before.push(text::trimmed(line@.skip(5))));
        }
        i = i + 1;
    }
    assert(all.take(i as int) =~= all);
    profiles
}

/// Appends the cookie stores of the profiles.
fn push_stores(base: &str, profiles: &Vec<String>, stores: &mut Vec<String>)
    ensures
        text::texts(final(stores)@) == text::texts(old(stores)@) + stores_in(
            base@,
            text::texts(profiles@),
        ),
{
    let mut i: usize = 0;
    let ghost before = text::texts(stores@);
    let ghost added = stores_in(base@, text::texts(profiles@));
    assert(text::texts(stores@) =~= before + added.take(0));
    while i < profiles.len()
        invariant
            i <= profiles@.len(),
            added == stores_in(base@, text::texts(profiles@)),
            text::texts(stores@) == before + added.take(i as int),
        decreases profiles@.len() - i,
    {
        let ghost now = text::texts(stores@);
        let profile = paths::join_path(base, profiles[i].as_str());
        let store = paths::join_path(profile.as_str(), "cookies.sqlite");
        assert(store@ == added[i as int]);
        stores.push(store);
        assert(text::texts(stores@) =~= now.push(added[i as int]));
        assert(now.push(added[i as int]) =~= before + added.take(i + 1));
        i = i + 1;
    }
    assert(added.take(i as int) =~= added);
}

/// The cookie stores that may be below `base`, where `ini` is what `profiles.ini` holds and
/// `directories` are the directories there.
pub fn firefox_profile_stores(base: &str, ini: Option<&str>, directories: &Vec<String>) -> (stores:
    Vec<String>)
    ensures
        text::texts(stores@) == profile_stores(
            base@,
            text::opt_str(ini),
            text::texts(directories@),
        ),
{
    let mut stores: Vec<String> = Vec::new();
    assert(text::texts(stores@) =~= Seq::empty());
    if let Some(ini) = ini {
        let profiles = ini_profiles(ini);
        push_stores(base, &profiles, &mut stores);
        assert(text::texts(stores@) =~= stores_in(base@, named_profiles(text::lines_of(ini@))));
    }
    push_stores(base, directories, &mut stores);
    stores
}

/// A cookie store, and whether it is there.
pub struct ProfileStore {
    pub path: String,
    pub exists: bool,
}

/// Whether a store is among `dbs`.
pub open spec fn known(dbs: Seq<Seq<char>>, path: Seq<char>) -> bool {
    exists|i: int| 0 <= i < dbs.len() && paths::same_way(#[trigger] dbs[i], path)
}

/// The stores with one more, if it is there and not among them yet.
pub open spec fn with_store(dbs: Seq<Seq<char>>, path: Seq<char>, exists: bool) -> Seq<Seq<char>> {
    if exists && !known(dbs, path) {
        dbs.push(path)
    } else {
        dbs
    }
}

/// The stores with those that are there.
pub open spec fn with_stores(dbs: Seq<Seq<char>>, stores: Seq<ProfileStore>) -> Seq<Seq<char>>
    decreases stores.len(),
{
    if stores.len() == 0 {
        dbs
    } else {
        with_store(
            with_stores(dbs, stores.drop_last()),
            stores.last().path@,
            stores.last().exists,
        )
    }
}

/// The stores of all directories that are there.
pub open spec fn all_stores(bases: Seq<Vec<ProfileStore>>) -> Seq<Seq<char>>
    decreases bases.len(),
{
    if bases.len() == 0 {
        seq![]
    } else {
        with_stores(all_stores(bases.drop_last()), bases.last()@)
    }
}

/// Whether a store is among `dbs`.
fn is_known(dbs: &Vec<String>, path: &str) -> (yes: bool)
    ensures
        yes == known(text::texts(dbs@), path@),
{
    let mut i: usize = 0;
    while i < dbs.len()
        invariant
            i <= dbs@.len(),
            forall|j: int|
                0 <= j < i ==> !paths::same_way(#[trigger] text::texts(dbs@)[j], path@),
        decreases dbs@.len() - i,
    {
        if paths::is_same_way(dbs[i].as_str(), path) {
            assert(paths::same_way(text::texts(dbs@)[i as int], path@));
            return true;
        }
        i = i + 1;
    }
    false
}

/// Appends a store, if it is there and not among the others yet.
pub fn push_cookie_db(path: String, exists: bool, dbs: &mut Vec<String>)
    ensures
        text::texts(final(dbs)@) == with_store(text::texts(old(dbs)@), path@, exists),
{
    let ghost before = text::texts(dbs@);
    if exists && !is_known(dbs, path.as_str()) {
        dbs.push(path);
        assert(text::texts(dbs@) =~= before.push(path@));
    }
}

/// Appends the stores of a directory that are there.
pub fn collect_firefox_cookie_dbs(stores: Vec<ProfileStore>, dbs: &mut Vec<String>)
    ensures
        text::texts(final(dbs)@) == with_stores(text::texts(old(dbs)@), stores@),
{
    let ghost before = text::texts(dbs@);
    for store in iter: stores
        invariant
            iter.seq() == stores@,
            text::texts(dbs@) == with_stores(before, stores@.take(iter.index() as int)),
    {
        assert(stores@.take(iter.index() + 1).drop_last() =~= stores@.take(iter.index() as int));
        push_cookie_db(store.path, store.exists, dbs);
    }
    assert(stores@.take(stores@.len() as int) =~= stores@);
}

/// The stores that are there, from the directories one after the other.
pub fn firefox_cookie_db_candidates(bases: Vec<Vec<ProfileStore>>) -> (dbs: Vec<String>)
    ensures
        text::texts(dbs@) == all_stores(bases@),
{
    let mut dbs: Vec<String> = Vec::new();
    assert(text::texts(dbs@) =~= all_stores(bases@.take(0)));
    for stores in iter: bases
        invariant
            iter.seq() == bases@,
            text::texts(dbs@) == all_stores(bases@.take(iter.index() as int)),
    {
        assert(bases@.take(iter.index() + 1).drop_last() =~= bases@.take(iter.index() as int));
        collect_firefox_cookie_dbs(stores, &mut dbs);
    }
    assert(bases@.take(bases@.len() as int) =~= bases@);
    dbs
}

/// Whether no two stores lead the same way.
pub open spec fn distinct(dbs: Seq<Seq<char>>) -> bool {
    forall|i: int, j: int|
        0 <= i < j < dbs.len() ==> !paths::same_way(#[trigger] dbs[i], #[trigger] dbs[j])
}

/// Whether the path is one of the stores that are there.
pub open spec fn offered(stores: Seq<ProfileStore>, path: Seq<char>) -> bool {
    exists|i: int|
        0 <= i < stores.len() && (#[trigger] stores[i]).exists && stores[i].path@ == path
}

/// Whether the path is one of the stores of a directory that are there.
pub open spec fn offered_somewhere(bases: Seq<Vec<ProfileStore>>, path: Seq<char>) -> bool {
    exists|i: int| 0 <= i < bases.len() && offered((#[trigger] bases[i])@, path)
}

/// The stores of one directory join the others once each.
proof fn lemma_with_stores(dbs: Seq<Seq<char>>, stores: Seq<ProfileStore>)
    requires
        distinct(dbs),
    ensures
        distinct(with_stores(dbs, stores)),
        forall|path: Seq<char>|
            known(dbs, path) || offered(stores, path) ==> #[trigger] known(
                with_stores(dbs, stores),
                path,
            ),
        forall|i: int|
            0 <= i < with_stores(dbs, stores).len() ==> dbs.contains(
                #[trigger] with_stores(dbs, stores)[i],
            ) || offered(stores, with_stores(dbs, stores)[i]),
    decreases stores.len(),
{
    if stores.len() > 0 {
        let init = stores.drop_last();
        let last = stores.last();
        let before = with_stores(dbs, init);
        let after = with_stores(dbs, stores);
        lemma_with_stores(dbs, init);
        assert forall|path: Seq<char>| known(dbs, path) || offered(stores, path) implies known(
            after,
            path,
        ) by {
            if known(before, path) {
                let i = choose|i: int|
                    0 <= i < before.len() && paths::same_way(#[trigger] before[i], path);
                assert(after[i] == before[i]);
            } else {
                let k = choose|k: int|
                    0 <= k < stores.len() && (#[trigger] stores[k]).exists && stores[k].path@
                        == path;
                if k < init.len() {
                    assert(init[k] == stores[k]);
                    assert(offered(init, path));
                }
                assert(last.path@ == path && last.exists);
                assert(after == before.push(path));
                assert(paths::same_way(after[before.len() as int], path));
            }
        }
        assert forall|i: int| 0 <= i < after.len() implies dbs.contains(#[trigger] after[i])
            || offered(stores, after[i]) by {
            if i < before.len() {
                assert(after[i] == before[i]);
                if offered(init, before[i]) {
                    let k = choose|k: int|
                        0 <= k < init.len() && (#[trigger] init[k]).exists && init[k].path@
                            == before[i];
                    assert(stores[k] == init[k]);
                }
            } else {
                assert(stores[stores.len() - 1].path@ == after[i]);
            }
        }
    } else {
        assert forall|i: int| 0 <= i < dbs.len() implies dbs.contains(#[trigger] dbs[i]) by {}
    }
}

/// No store is tried twice, each store that is there is tried, by this path or by another that
/// leads the same way, and nothing else is tried.
pub proof fn each_store_counts_once(bases: Seq<Vec<ProfileStore>>)
    ensures
        distinct(all_stores(bases)),
        forall|path: Seq<char>| #[trigger]
            offered_somewhere(bases, path) ==> known(all_stores(bases), path),
        forall|i: int|
            0 <= i < all_stores(bases).len() ==> offered_somewhere(
                bases,
                #[trigger] all_stores(bases)[i],
            ),
    decreases bases.len(),
{
    if bases.len() > 0 {
        let init = bases.drop_last();
        let before = all_stores(init);
        let after = all_stores(bases);
        each_store_counts_once(init);
        lemma_with_stores(before, bases.last()@);
        assert forall|path: Seq<char>| #[trigger] offered_somewhere(bases, path) implies known(
            after,
            path,
        ) by {
            let k = choose|k: int| 0 <= k < bases.len() && offered((#[trigger] bases[k])@, path);
            if k < init.len() {
                assert(init[k] == bases[k]);
                assert(offered_somewhere(init, path));
                assert(known(before, path));
            }
        }
        assert forall|i: int| 0 <= i < after.len() implies offered_somewhere(
            bases,
            #[trigger] after[i],
        ) by {
            if offered(bases.last()@, after[i]) {
                assert(bases[bases.len() - 1] == bases.last());
            } else {
                let j = choose|j: int| 0 <= j < before.len() && before[j] == after[i];
                assert(offered_somewhere(init, before[j]));
                let k = choose|k: int|
                    0 <= k < init.len() && offered((#[trigger] init[k])@, before[j]);
                assert(bases[k] == init[k]);
            }
        }
    }
}

/// What came of reading one store.
pub struct StoreRead {
    pub path: String,
    pub cookies: Result<Vec<BrowserCookie>, String>,
}

/// The first store that could be read; the number of stores if there is none.
pub open spec fn first_read(reads: Seq<StoreRead>) -> int
    decreases reads.len(),
{
    if reads.len() == 0 || reads[0].cookies is Ok {
        0
    } else {
        1 + first_read(reads.drop_first())
    }
}

/// The stores with the reasons why they could not be read.
pub open spec fn failures(reads: Seq<StoreRead>) -> Seq<Seq<char>> {
    Seq::new(reads.len(), |i: int| reads[i].path@ + ": "@ + reads[i].cookies->Err_0@)
}

/// What comes of the search: the profile that is used by default counts first, then the first
/// store that could be read.
pub open spec fn firefox_outcome(
    primary: Result<Vec<BrowserCookie>, String>,
    reads: Seq<StoreRead>,
    outcome: Result<LoadedCookies, CookieError>,
) -> bool {
    match primary {
        Ok(cookies) => {
            outcome matches Ok(loaded) && loaded.source@ == "Firefox"@ && loaded.cookies == cookies
        },
        Err(reason) => if reads.len() == 0 {
            outcome matches Err(CookieError::FirefoxFailed(why)) && why@ == reason@
        } else if first_read(reads) < reads.len() {
            let read = reads[first_read(reads)];
            outcome matches Ok(loaded) && loaded.source@ == "Firefox ("@ + read.path@ + ")"@
                && Ok::<Vec<BrowserCookie>, String>(loaded.cookies) == read.cookies
        } else {
            outcome matches Err(CookieError::FirefoxStoresFailed(why, others)) && why@ == reason@
                && others@ == text::joined(failures(reads), " | "@)
        },
    }
}

/// Where nothing could be read so far, the first store that could be read comes later.
proof fn lemma_first_read(reads: Seq<StoreRead>, count: int)
    requires
        0 <= count <= reads.len(),
        forall|j: int| 0 <= j < count ==> (#[trigger] reads[j]).cookies is Err,
    ensures
        first_read(reads) == count + first_read(reads.skip(count)),
    decreases count,
{
    if count > 0 {
        lemma_first_read(reads.drop_first(), count - 1);
        assert(reads.drop_first().skip(count - 1) =~= reads.skip(count));
    } else {
        assert(reads.skip(0) =~= reads);
    }
}

/// The cookies of Firefox. `primary` is what its default profile gave; `reads` is what came of
/// the other stores, in order, up to the first that could be read.
pub fn load_firefox_cookies(
    primary: Result<Vec<BrowserCookie>, String>,
    reads: Vec<StoreRead>,
) -> (outcome: Result<LoadedCookies, CookieError>)
    ensures
        firefox_outcome(primary, reads@, outcome),
{
    match primary {
        Ok(cookies) => Ok(LoadedCookies { source: "Firefox".to_owned(), cookies }),
        Err(reason) => {
            if reads.len() == 0 {
                return Err(CookieError::FirefoxFailed(reason));
            }
            let mut errors: Vec<String> = Vec::new();
            assert(text::texts(errors@) =~= failures(reads@).take(0));
            for read in iter: reads
                invariant
                    iter.seq() == reads@,
                    reads@.len() > 0,
                    primary == Err::<Vec<BrowserCookie>, String>(reason),
                    forall|j: int|
                        0 <= j < iter.index() ==> (#[trigger] reads@[j]).cookies is Err,
                    text::texts(errors@) == failures(reads@).take(iter.index() as int),
            {
                let ghost i = iter.index() as int;
                match read.cookies {
                    Ok(cookies) => {
                        proof {
                            lemma_first_read(reads@, i);
                            assert(reads@.skip(i)[0] == reads@[i]);
                        }
                        return Ok(
                            LoadedCookies {
                                source: text::concat3("Firefox (", read.path.as_str(), ")"),
                                cookies,
                            },
                        );
                    },
                    Err(error) => {
                        let ghost before = text::texts(errors@);
                        errors.push(
                            text::concat3(read.path.as_str(), ": ", error.as_str()),
                        );
                        assert(text::texts(errors@) =~= before.push(failures(reads@)[i]));
                        assert(before.push(failures(reads@)[i]) =~= failures(reads@).take(i + 1));
                    },
                }
            }
            proof {
                lemma_first_read(reads@, reads@.len() as int);
                assert(failures(reads@).take(reads@.len() as int) =~= failures(reads@));
            }
            Err(CookieError::FirefoxStoresFailed(reason, text::join(&errors, " | ")))
        },
    }
}

} // verus!
