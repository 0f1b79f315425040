//! Which cookies are sent, and how.

use vstd::prelude::*;

use crate::cookies;
use crate::cookies::{
    BrowserCookie, Cookie, CookieError, CookieHeader, CookieOptions, CookiePlan, CookieRead, Header,
    LoadedCookies,
};
use crate::cli::BrowserChoice;
use crate::order;
use crate::text;

verus! {

/// Whether the text is the name, an equals sign and the whole value.
pub open spec fn spells(part: Seq<char>, cookie: Cookie) -> bool {
    let name = cookie.name.len() as int;
    &&& part.len() == cookie.name.len() + 1 + cookie.value.len()
    &&& part.take(name) == cookie.name
    &&& part[name] == '='
    &&& part.skip(name + 1) == cookie.value
}

/// A header that was built holds a part for each cookie that is sent, in order, with `; ` between
/// two, and each part is the name, an equals sign and the whole value, however long. It counts the
/// cookies, names its source, and says whether a cookie by the name of `z_c0` is among them.
pub proof fn headers_hold_the_whole_cookies(
    source: Seq<char>,
    cookies: Seq<Cookie>,
    now: u64,
    header: CookieHeader,
)
    requires
        cookies::built(source, cookies, now, Ok::<CookieHeader, CookieError>(header)),
        cookies::sent_cookies(cookies, now).len() <= usize::MAX,
    ensures
        ({
            let sent = cookies::sent_cookies(cookies, now);
            &&& exists|parts: Seq<Seq<char>>|
                header.value@ == #[trigger] text::joined(parts, "; "@) && parts.len()
                    == sent.len() && forall|k: int|
                    0 <= k < sent.len() ==> spells(#[trigger] parts[k], sent[k])
            &&& header.count == sent.len()
            &&& header.source@ == source
            &&& header.has_login_cookie <==> exists|k: int|
                0 <= k < sent.len() && (#[trigger] sent[k]).name == seq!['z', '_', 'c', '0']
        }),
{
    let sent = cookies::sent_cookies(cookies, now);
    let parts = cookies::cookie_pairs(sent);
    reveal_strlit("; ");
    reveal_strlit("=");
    reveal_strlit("z_c0");
    assert("; "@ =~= seq![';', ' ']);
    assert("z_c0"@ =~= seq!['z', '_', 'c', '0']);
    assert forall|k: int| 0 <= k < sent.len() implies spells(#[trigger] parts[k], sent[k]) by {
        let name = sent[k].name.len() as int;
        assert(parts[k] == sent[k].name + "="@ + sent[k].value);
        assert(parts[k].take(name) =~= sent[k].name);
        assert(parts[k].skip(name + 1) =~= sent[k].value);
    }
    assert(header@ == cookies::header_of(source, sent));
    assert(header.value@ == text::joined(parts, "; "@));
    assert(header.has_login_cookie == cookies::has_name(sent, "z_c0"@));
}

/// One cookie more adds its name, an equals sign and its whole value at the end, behind `; ` where
/// there are others, and leaves what was there as it was.
pub proof fn headers_grow_by_whole_cookies(source: Seq<char>, sent: Seq<Cookie>, cookie: Cookie)
    ensures
        ({
            let before = cookies::header_of(source, sent).value;
            let after = cookies::header_of(source, sent.push(cookie)).value;
            after == (if sent.len() == 0 {
                seq![]
            } else {
                before + seq![';', ' ']
            }) + cookie.name.push('=') + cookie.value
        }),
{
    let more = sent.push(cookie);
    let pairs = cookies::cookie_pairs(more);
    reveal_strlit("; ");
    reveal_strlit("=");
    assert("; "@ =~= seq![';', ' ']);
    assert(pairs.drop_last() =~= cookies::cookie_pairs(sent));
    assert(pairs.last() == cookie.name + "="@ + cookie.value);
    assert(pairs.last() =~= cookie.name.push('=') + cookie.value);
    let before = cookies::header_of(source, sent).value;
    let after = cookies::header_of(source, more).value;
    if sent.len() == 0 {
        assert(after =~= seq![] + cookie.name.push('=') + cookie.value);
    } else {
        assert(after =~= before + seq![';', ' '] + cookie.name.push('=') + cookie.value);
    }
}

/// A domain is one of Zhihu where it is `zhihu.com` or ends in `.zhihu.com`, and no other is.
pub proof fn domains_are_zhihu_or_below(domain: Seq<char>)
    ensures
        cookies::zhihu_domain(domain) <==> domain == "zhihu.com"@ || (domain.len() >= 10
            && domain.skip(domain.len() - 10) == ".zhihu.com"@),
{
    let class = text::CharClass::Only('.');
    let host = text::stripped_start(domain, class);
    text::lemma_stripped_start(domain, class);
    let gone = domain.len() - host.len();
    reveal_strlit("zhihu.com");
    reveal_strlit(".zhihu.com");
    assert("zhihu.com"@.len() == 9 && "zhihu.com"@[0] == 'z');
    assert(".zhihu.com"@.len() == 10 && ".zhihu.com"@[0] == '.');
    assert(".zhihu.com"@ =~= seq!['.'] + "zhihu.com"@);
    let tail = domain.skip(domain.len() - 10);
    if domain.len() >= 10 && tail == ".zhihu.com"@ {
        let at = domain.len() - 10;
        assert(domain[at + 1] == tail[1]);
        assert(".zhihu.com"@[1] == 'z');
        assert(gone <= at + 1) by {
            if gone > at + 1 {
                assert(class.has(domain[at + 1]));
            }
        }
        if gone == at + 1 {
            assert(host =~= tail.skip(1));
            assert(tail.skip(1) =~= "zhihu.com"@);
        } else {
            assert(host.skip(host.len() - 10) =~= tail);
        }
    }
    if domain == "zhihu.com"@ {
        assert(gone == 0) by {
            if gone > 0 {
                assert(class.has(domain[0]));
            }
        }
        assert(host =~= domain);
    }
    if host == "zhihu.com"@ && gone > 0 {
        assert(class.has(domain[gone - 1]));
        assert(domain[gone - 1] == '.');
        assert(tail =~= seq!['.'] + host);
    }
    if host == "zhihu.com"@ && gone == 0 {
        assert(domain =~= host);
    }
    if text::ends(host, ".zhihu.com"@) {
        assert(host.skip(host.len() - 10) =~= tail);
    }
}

/// A cookie can be sent where it has a name, is of a domain of Zhihu and ends later than now or
/// never; and no other can.
pub proof fn living_cookies_can_be_sent(cookie: Cookie, now: u64)
    ensures
        cookies::usable(cookie, now) <==> cookie.name.len() > 0 && (cookie.domain == "zhihu.com"@ || (
        cookie.domain.len() >= 10 && cookie.domain.skip(cookie.domain.len() - 10)
            == ".zhihu.com"@)) && match cookie.expires {
            Some(end) => end > now,
            None => true,
        },
{
    domains_are_zhihu_or_below(cookie.domain);
}

/// A dot in front of the domain counts for nothing; otherwise the longer domain is the more
/// specific, and where the domains are equally long, the longer path.
pub proof fn longer_cookies_are_more_specific(cookie: Cookie)
    ensures
        cookies::specificity(Cookie { domain: seq!['.'] + cookie.domain, ..cookie })
            == cookies::specificity(cookie),
        !text::begins(cookie.domain, seq!['.']) ==> cookies::specificity(cookie) == (
            vstd::utf8::encode_utf8(cookie.domain).len() as int,
            vstd::utf8::encode_utf8(cookie.path).len() as int,
        ),
{
    let dotted = seq!['.'] + cookie.domain;
    assert(dotted.first() == '.');
    assert(dotted.drop_first() =~= cookie.domain);
    if cookie.domain.len() > 0 && cookie.domain.first() == '.' {
        assert(cookie.domain.take(1) =~= seq!['.']);
    }
}

/// What is kept of cookies that stand by specificity stands by specificity.
proof fn lemma_kept_in_order(sorted: Seq<Cookie>, now: u64)
    requires
        forall|i: int, j: int|
            0 <= i < j < sorted.len() ==> cookies::as_specific(
                #[trigger] sorted[i],
                #[trigger] sorted[j],
            ),
    ensures
        forall|i: int|
            0 <= i < cookies::first_usable(sorted, now).len() ==> sorted.contains(
                #[trigger] cookies::first_usable(sorted, now)[i],
            ),
        forall|i: int, j: int|
            0 <= i < j < cookies::first_usable(sorted, now).len() ==> cookies::as_specific(
                #[trigger] cookies::first_usable(sorted, now)[i],
                #[trigger] cookies::first_usable(sorted, now)[j],
            ),
    decreases sorted.len(),
{
    if sorted.len() > 0 {
        let init = sorted.drop_last();
        let before = cookies::first_usable(init, now);
        let after = cookies::first_usable(sorted, now);
        assert forall|i: int, j: int| 0 <= i < j < init.len() implies cookies::as_specific(
            #[trigger] init[i],
            #[trigger] init[j],
        ) by {
            assert(init[i] == sorted[i] && init[j] == sorted[j]);
        }
        lemma_kept_in_order(init, now);
        assert forall|i: int| 0 <= i < after.len() implies sorted.contains(#[trigger] after[i]) by {
            if i < before.len() {
                assert(after[i] == before[i]);
                let k = choose|k: int| 0 <= k < init.len() && init[k] == before[i];
                assert(sorted[k] == before[i]);
            } else {
                assert(sorted[sorted.len() - 1] == after[i]);
            }
        }
        assert forall|i: int, j: int| 0 <= i < j < after.len() implies cookies::as_specific(
            #[trigger] after[i],
            #[trigger] after[j],
        ) by {
            assert(after[i] == before[i]);
            if j < before.len() {
                assert(after[j] == before[j]);
            } else {
                let k = choose|k: int| 0 <= k < init.len() && init[k] == before[i];
                assert(sorted[k] == before[i]);
                assert(after[j] == sorted[sorted.len() - 1]);
            }
        }
    }
}

/// The cookies are sent by how specific they are, the most specific first.
pub proof fn specific_cookies_come_first(cookies: Seq<Cookie>, now: u64, k: int, l: int)
    requires
        cookies::measurable(cookies),
        0 <= k < l < cookies::sent_cookies(cookies, now).len(),
    ensures
        cookies::as_specific(
            cookies::sent_cookies(cookies, now)[k],
            cookies::sent_cookies(cookies, now)[l],
        ),
{
    let keys = cookies::specificities(cookies);
    let places = order::sort_order(keys);
    let sorted = cookies::by_specificity(cookies);
    order::sorting_is_stable(keys);
    assert forall|i: int, j: int| 0 <= i < j < sorted.len() implies cookies::as_specific(
        #[trigger] sorted[i],
        #[trigger] sorted[j],
    ) by {
        assert(order::in_order(keys, places[i], places[j]));
        assert(places.contains(places[i]) && places.contains(places[j]));
        assert(sorted[i] == cookies[places[i]] && sorted[j] == cookies[places[j]]);
    }
    lemma_kept_in_order(sorted, now);
}

/// How many parts are named adds up over the parts, and one part counts where it holds an equals
/// sign.
pub proof fn named_parts_are_counted(first: Seq<Seq<char>>, second: Seq<Seq<char>>)
    ensures
        cookies::named_parts(first + second) == cookies::named_parts(first) + cookies::named_parts(
            second,
        ),
        first.len() == 1 ==> cookies::named_parts(first) == (if first[0].contains('=') {
            1nat
        } else {
            0nat
        }),
    decreases second.len(),
{
    if second.len() == 0 {
        assert(first + second =~= first);
    } else {
        named_parts_are_counted(first, second.drop_last());
        assert((first + second).drop_last() =~= first + second.drop_last());
        assert((first + second).last() == second.last());
    }
    if first.len() == 1 {
        assert(cookies::named_parts(first.drop_last()) == 0);
        let part = first[0];
        reveal_strlit("=");
        assert("="@ =~= seq!['=']);
        if part.contains('=') {
            let i = choose|i: int| 0 <= i < part.len() && part[i] == '=';
            assert(part.subrange(i, i + 1) =~= seq!['=']);
            text::lemma_occurs(part.take(i), "="@, part.skip(i + 1));
            assert(part.take(i) + "="@ + part.skip(i + 1) =~= part);
        }
        if text::occurs("="@, part) {
            lemma_holds_sign(part);
        }
    }
}

/// A part in which the sign occurs holds it.
proof fn lemma_holds_sign(part: Seq<char>)
    requires
        text::occurs("="@, part),
    ensures
        part.contains('='),
{
    reveal_strlit("=");
    assert("="@.len() == 1);
    let i = choose|i: int|
        0 <= i && i + "="@.len() <= part.len() && #[trigger] part.skip(i).take("="@.len() as int)
            == "="@;
    assert(part.skip(i).take(1)[0] == '=');
    assert(part[i] == '=');
}

/// Cookies that were given are sent as they are, without the white space around them, as one
/// header of their own: with the parts between semicolons that hold an equals sign counted, and the
/// login cookie where a part begins with `z_c0=`. They are refused where they are blank, and where
/// there is no login cookie and none of that was asked for.
pub proof fn given_cookies_are_sent_unchanged(
    options: CookieOptions,
    now: u64,
    outcome: Result<CookieHeader, CookieError>,
)
    requires
        options.cookie is Some,
        cookies::resolution(options, CookieRead::Nothing, now, outcome),
    ensures
        ({
            let cookie = text::trimmed(options.cookie->0@);
            let parts = text::split_at(cookie, ';');
            let login = exists|i: int|
                0 <= i < parts.len() && text::begins(
                    text::trimmed(#[trigger] parts[i]),
                    seq!['z', '_', 'c', '0', '='],
                );
            match outcome {
                Ok(header) => cookie.len() > 0 && header.value@ == cookie && header.source@
                    == "--cookie"@ && header.has_login_cookie == login && (login
                    || options.allow_anonymous),
                Err(CookieError::EmptyCookie) => cookie.len() == 0,
                Err(CookieError::Anonymous(source)) => cookie.len() > 0 && source@ == "--cookie"@
                    && !login && !options.allow_anonymous,
                Err(_) => false,
            }
        }),
{
    reveal_strlit("z_c0=");
    assert("z_c0="@ =~= seq!['z', '_', 'c', '0', '=']);
}

/// What could not be read is reported for that reason: of the store that was named by its reason,
/// and of a browser as it was.
pub proof fn failures_are_passed_on(
    options: CookieOptions,
    reason: String,
    error: CookieError,
    now: u64,
    outcome: Result<CookieHeader, CookieError>,
)
    ensures
        cookies::resolution(options, CookieRead::Database(Err(reason)), now, outcome) ==> (
        outcome matches Err(CookieError::DatabaseFailed(named)) && named@ == reason@),
        cookies::resolution(options, CookieRead::Browser(Err(error)), now, outcome) ==> outcome
            == Err::<CookieHeader, CookieError>(error),
{
}

/// The cookies of a store, and those of a browser, are sent as a header of their source: whole, and
/// only with the login cookie, unless that is not asked for.
pub proof fn sources_are_sent_as_they_were_read(
    options: CookieOptions,
    stored: Vec<BrowserCookie>,
    loaded: LoadedCookies,
    now: u64,
    outcome: Result<CookieHeader, CookieError>,
)
    ensures
        cookies::resolution(options, CookieRead::Database(Ok(stored)), now, outcome) ==> settled(
            "custom cookie DB"@,
            cookies::cookie_views(stored@),
            now,
            options.allow_anonymous,
            outcome,
        ),
        cookies::resolution(options, CookieRead::Browser(Ok(loaded)), now, outcome) ==> settled(
            loaded.source@,
            cookies::cookie_views(loaded.cookies@),
            now,
            options.allow_anonymous,
            outcome,
        ),
{
}

/// Whether that comes of the cookies of a source: the header of those that can be sent; a refusal
/// where there are none, or where the login cookie is missing and asked for.
pub open spec fn settled(
    source: Seq<char>,
    read: Seq<Cookie>,
    now: u64,
    allow_anonymous: bool,
    outcome: Result<CookieHeader, CookieError>,
) -> bool {
    let sent = cookies::sent_cookies(read, now);
    match outcome {
        Ok(header) => cookies::built(source, read, now, outcome) && (allow_anonymous
            || header.has_login_cookie),
        Err(CookieError::NoUsableCookie(named)) => sent.len() == 0 && named@ == source,
        Err(CookieError::Anonymous(named)) => sent.len() > 0 && !allow_anonymous && named@ == source
            && forall|k: int|
            0 <= k < sent.len() ==> (#[trigger] sent[k]).name != "z_c0"@,
        Err(_) => false,
    }
}

/// Of all browsers the best header is sent, and the login cookie is asked for unless it was said
/// that none is needed. Where none has it, all that was found is told.
pub proof fn all_browsers_are_weighed(
    options: CookieOptions,
    attempts: Vec<Result<CookieHeader, CookieError>>,
    now: u64,
    outcome: Result<CookieHeader, CookieError>,
)
    requires
        cookies::resolution(options, CookieRead::Browsers(attempts), now, outcome),
    ensures
        ({
            let found = cookies::found_headers(attempts@);
            match outcome {
                Ok(header) => found.contains(header@) && (options.allow_anonymous
                    || header.has_login_cookie) && forall|i: int|
                    0 <= i < found.len() ==> cookies::as_good(header@, #[trigger] found[i]),
                Err(CookieError::NoLoginCookie(words)) => !options.allow_anonymous && (forall|i: int|
                    0 <= i < found.len() ==> !(#[trigger] found[i]).login) && words@
                    == cookies::diagnostics_of(cookies::ranked(found)),
                Err(CookieError::NoCookie) => options.allow_anonymous && found.len() == 0,
                Err(_) => false,
            }
        }),
{
    let found = cookies::found_headers(attempts@);
    assert forall|i: int| 0 <= i < found.len() && outcome is Ok implies found.contains(
        outcome->Ok_0@,
    ) && cookies::as_good(outcome->Ok_0@, #[trigger] found[i]) by {
        cookies::the_best_header_is_chosen(found, !options.allow_anonymous, outcome, i);
    }
    assert forall|i: int| 0 <= i < found.len() && outcome is Err implies !(
    #[trigger] found[i]).login by {
        cookies::the_best_header_is_chosen(found, !options.allow_anonymous, outcome, i);
    }
    if let Ok(header) = outcome {
        if found.len() == 0 {
            assert(cookies::first_login(cookies::ranked(found)) is None);
        } else {
            cookies::the_best_header_is_chosen(found, !options.allow_anonymous, outcome, 0);
            assert(found.contains(header@));
        }
    }
}

/// The cookies of a browser come whole and under its name; what could not be read is reported with
/// the browser and the reason.
pub proof fn browsers_are_read_whole(
    browser: BrowserChoice,
    read: Option<Result<Vec<BrowserCookie>, String>>,
    outcome: Result<LoadedCookies, CookieError>,
)
    requires
        cookies::browser_outcome(browser, read, outcome),
    ensures
        match outcome {
            Ok(loaded) => read == Some(Ok::<Vec<BrowserCookie>, String>(loaded.cookies))
                && loaded.source@ == browser.label(),
            Err(CookieError::BrowserFailed(named, reason)) => named == browser && read == Some(
                Err::<Vec<BrowserCookie>, String>(reason),
            ),
            Err(CookieError::SafariElsewhere) => read is None,
            Err(_) => false,
        },
{
}

/// Where no browser is chosen, each of them is looked at once, Chrome first; where one is, it alone
/// is.
pub proof fn browsers_are_looked_at_once(browser: BrowserChoice, i: int, j: int)
    ensures
        ({
            let all = cookies::looked_at(BrowserChoice::Auto);
            &&& all.len() == 12
            &&& all[0] == BrowserChoice::Chrome
            &&& browser != BrowserChoice::Auto ==> all.contains(browser) && cookies::looked_at(
                browser,
            ) == seq![browser]
            &&& 0 <= i < j < all.len() ==> all[i] != all[j]
            &&& !all.contains(BrowserChoice::Auto)
        }),
{
    let all = cookies::looked_at(BrowserChoice::Auto);
    assert(all[0] == BrowserChoice::Chrome && all[1] == BrowserChoice::Edge);
    assert(all[2] == BrowserChoice::Chromium && all[3] == BrowserChoice::Brave);
    assert(all[4] == BrowserChoice::Firefox && all[5] == BrowserChoice::LibreWolf);
    assert(all[6] == BrowserChoice::Vivaldi && all[7] == BrowserChoice::Opera);
    assert(all[8] == BrowserChoice::OperaGx && all[9] == BrowserChoice::Arc);
    assert(all[10] == BrowserChoice::Zen && all[11] == BrowserChoice::Safari);
}

/// What is named on the command line counts: a header before a store, a store before a browser; and
/// a key file is of use for a store alone.
pub proof fn the_command_line_decides(options: CookieOptions)
    ensures
        options.cookie is Some <==> cookies::planned(options) == Some(CookiePlan::Given),
        options.cookie is None && options.has_cookies_db <==> cookies::planned(options) == Some(
            CookiePlan::Database,
        ),
        options.cookie is None && !options.has_cookies_db && options.has_key_file
            <==> cookies::planned(options) is None,
        cookies::planned(options) == Some(CookiePlan::Browsers) ==> options.browser
            == BrowserChoice::Auto,
        cookies::planned(options) matches Some(CookiePlan::Browser(browser)) ==> browser
            == options.browser && browser != BrowserChoice::Auto,
{
}

/// The headers that were found are those of the browsers that gave one, in the order of the
/// browsers.
pub proof fn found_headers_come_in_order(
    first: Seq<Result<CookieHeader, CookieError>>,
    second: Seq<Result<CookieHeader, CookieError>>,
)
    ensures
        cookies::found_headers(first + second) == cookies::found_headers(first)
            + cookies::found_headers(second),
        first.len() == 1 ==> match first[0] {
            Ok(header) => cookies::found_headers(first) == seq![header@],
            Err(_) => cookies::found_headers(first).len() == 0,
        },
    decreases second.len(),
{
    if second.len() == 0 {
        assert(first + second =~= first);
        assert(cookies::found_headers(first) + cookies::found_headers(second)
            =~= cookies::found_headers(first));
    } else {
        found_headers_come_in_order(first, second.drop_last());
        assert((first + second).drop_last() =~= first + second.drop_last());
        assert((first + second).last() == second.last());
        assert(cookies::found_headers(first + second) =~= cookies::found_headers(first)
            + cookies::found_headers(second));
    }
    if first.len() == 1 {
        assert(cookies::found_headers(first.drop_last()) =~= seq![]);
        if let Ok(header) = first[0] {
            assert(cookies::found_headers(first) =~= seq![header@]);
        }
    }
}

/// Of headers that are equally good, that of the first browser is chosen.
pub proof fn the_first_of_equals_is_chosen(found: Seq<Header>) -> (at: int)
    requires
        found.len() > 0,
    ensures
        0 <= at < found.len(),
        cookies::ranked(found)[0] == found[at],
        forall|i: int| 0 <= i < at ==> !cookies::as_good(#[trigger] found[i], found[at]),
        forall|i: int| at <= i < found.len() ==> cookies::as_good(found[at], #[trigger] found[i]),
{
    let keys = cookies::header_ranks(found);
    let places = order::sort_order(keys);
    order::sorting_is_stable(keys);
    let at = places[0];
    assert(places.contains(at));
    assert forall|i: int| 0 <= i < at implies !cookies::as_good(#[trigger] found[i], found[at]) by {
        assert(places.contains(i));
        let p = choose|p: int| 0 <= p < places.len() && places[p] == i;
        assert(p > 0);
        assert(order::in_order(keys, places[0], places[p]));
    }
    assert forall|i: int| at <= i < found.len() implies cookies::as_good(
        found[at],
        #[trigger] found[i],
    ) by {
        assert(places.contains(i));
        let p = choose|p: int| 0 <= p < places.len() && places[p] == i;
        if p > 0 {
            assert(order::in_order(keys, places[0], places[p]));
        }
    }
    at
}

} // verus!
