//! Which cookies are sent: from the command line, from a cookie store, or from the browsers.

use vstd::prelude::*;

use crate::cli::BrowserChoice;
use crate::order;
use crate::text;

verus! {

/// A point in time.
#[verifier::external_type_specification]
#[verifier::external_body]
pub struct ExSystemTime(std::time::SystemTime);

/// The error of a clock that stands before the other point in time.
#[verifier::external_type_specification]
#[verifier::external_body]
pub struct ExSystemTimeError(std::time::SystemTimeError);

/// `SystemTime::now` reads the clock: nothing is known of what it says.
pub assume_specification[ std::time::SystemTime::now ]() -> (now: std::time::SystemTime);

/// Calls `SystemTime::duration_since` with the beginning of 1970, which fails for a point in time
/// before it. Nothing is claimed of the span.
#[verifier::external_body]
fn since_1970(time: &std::time::SystemTime) -> (span: Result<
    std::time::Duration,
    std::time::SystemTimeError,
>) {
    time.duration_since(std::time::UNIX_EPOCH)
}

/// `Duration::as_secs` counts the whole seconds. Nothing is claimed of it.
pub assume_specification[ std::time::Duration::as_secs ](span: &std::time::Duration) -> (seconds:
    u64);

/// Whether the clock can give these seconds: `SystemTime::now` gives a point in time, and the
/// seconds are those that `Duration::as_secs` counts in the span between the beginning of 1970 and
/// that point, or zero where the point lies before it.
pub closed spec fn told_by_the_clock(seconds: u64) -> bool {
    exists|
        time: std::time::SystemTime,
        span: Result<std::time::Duration, std::time::SystemTimeError>,
    |
        {
            &&& #[trigger] call_ensures(std::time::SystemTime::now, (), time)
            &&& #[trigger] call_ensures(since_1970, (&time,), span)
            &&& match span {
                Ok(span) => call_ensures(std::time::Duration::as_secs, (&span,), seconds),
                Err(_) => seconds == 0,
            }
        }
}

/// The seconds since the beginning of 1970, and zero while the clock stands before it.
pub fn unix_now() -> (seconds: u64)
    ensures
        told_by_the_clock(seconds),
{
    match since_1970(&std::time::SystemTime::now()) {
        Ok(span) => span.as_secs(),
        Err(_) => 0,
    }
}

/// A cookie as a browser keeps it.
pub struct BrowserCookie {
    pub domain: String,
    pub path: String,
    pub name: String,
    pub value: String,
    /// When it ends, in seconds since the beginning of 1970.
    pub expires: Option<u64>,
}

/// What `BrowserCookie` stands for.
pub struct Cookie {
    pub domain: Seq<char>,
    pub path: Seq<char>,
    pub name: Seq<char>,
    pub value: Seq<char>,
    pub expires: Option<u64>,
}

impl View for BrowserCookie {
    type V = Cookie;

    open spec fn view(&self) -> Cookie {
        Cookie {
            domain: self.domain@,
            path: self.path@,
            name: self.name@,
            value: self.value@,
            expires: self.expires,
        }
    }
}

/// What a list of cookies stands for.
pub open spec fn cookie_views(cookies: Seq<BrowserCookie>) -> Seq<Cookie> {
    Seq::new(cookies.len(), |i: int| cookies[i]@)
}

/// The cookies to send.
pub struct CookieHeader {
    /// Where they come from.
    pub source: String,
    /// The `Cookie` header.
    pub value: String,
    /// How many there are.
    pub count: usize,
    /// Whether the login cookie is among them.
    pub has_login_cookie: bool,
}

/// What `CookieHeader` stands for.
pub struct Header {
    pub source: Seq<char>,
    pub value: Seq<char>,
    pub count: usize,
    pub login: bool,
}

impl View for CookieHeader {
    type V = Header;

    open spec fn view(&self) -> Header {
        Header {
            source: self.source@,
            value: self.value@,
            count: self.count,
            login: self.has_login_cookie,
        }
    }
}

/// What a list of headers stands for.
pub open spec fn header_views(headers: Seq<CookieHeader>) -> Seq<Header> {
    Seq::new(headers.len(), |i: int| headers[i]@)
}

impl CookieHeader {
    /// The same header once more.
    fn duplicate(&self) -> (copy: CookieHeader)
        ensures
            copy@ == self@,
    {
        CookieHeader {
            source: self.source.clone(),
            value: self.value.clone(),
            count: self.count,
            has_login_cookie: self.has_login_cookie,
        }
    }
}

/// Why there are no cookies to send.
pub enum CookieError {
    /// The header on the command line is empty.
    EmptyCookie,
    /// A key file was named without a cookie store.
    KeyFileAlone,
    /// The source has no cookie for Zhihu that is still good.
    NoUsableCookie(String),
    /// No browser has the login cookie; the browsers that were read are described.
    NoLoginCookie(String),
    /// No browser has a cookie for Zhihu.
    NoCookie,
    /// The source has no login cookie.
    Anonymous(String),
    /// The cookie store could not be read.
    DatabaseFailed(String),
    /// The cookies of a browser could not be read.
    BrowserFailed(BrowserChoice, String),
    /// The cookies of Firefox could not be read, and no other store of it was found.
    FirefoxFailed(String),
    /// Neither the cookies of Firefox nor its other stores could be read.
    FirefoxStoresFailed(String, String),
    /// The browser exists on macOS only.
    SafariElsewhere,
    /// Not one browser could be read.
    NothingRead,
}

impl CookieError {
    /// The error in words.
    pub open spec fn words(self) -> Seq<char> {
        match self {
            CookieError::EmptyCookie => "--cookie 不能为空"@,
            CookieError::KeyFileAlone => "--key-file 只能和 --cookies-db 一起使用"@,
            CookieError::NoUsableCookie(source) => source@ + " 中没有可用的 zhihu.com Cookie"@,
            CookieError::NoLoginCookie(found) => "没有找到包含 z_c0 的知乎登录 Cookie。\n"@ + found@
                + "\n请先确认浏览器已登录知乎，或使用 --cookie 手动传入 Cookie header。也可以运行 --diagnose-cookies 查看各浏览器状态。"@,
            CookieError::NoCookie =>
                "没有找到 zhihu.com Cookie。请先在浏览器登录知乎，或使用 --cookie 手动传入 Cookie header。"@,
            CookieError::Anonymous(source) => source@
                + " 中没有 z_c0 登录 Cookie。知乎收藏夹接口通常需要登录态；请确认这个浏览器已登录知乎，或用 --cookie 手动传入包含 z_c0 的 Cookie header。需要强行匿名尝试时加 --allow-anonymous。"@,
            CookieError::DatabaseFailed(reason) => "读取自定义 Cookie DB 失败: "@ + reason@,
            CookieError::BrowserFailed(browser, reason) => "读取 "@ + browser.label()
                + " Cookie 失败: "@ + reason@,
            CookieError::FirefoxFailed(reason) => "读取 Firefox Cookie 失败: "@ + reason@
                + "; 未发现 fallback cookies.sqlite"@,
            CookieError::FirefoxStoresFailed(reason, others) => "读取 Firefox Cookie 失败: "@
                + reason@ + "; fallback 也失败: "@ + others@,
            CookieError::SafariElsewhere => "Safari Cookie 读取只支持 macOS"@,
            CookieError::NothingRead => "没有从任何浏览器读到 zhihu.com Cookie"@,
        }
    }

    /// The error in words.
    pub fn message(&self) -> (words: String)
        ensures
            words@ == self.words(),
    {
        match self {
            CookieError::EmptyCookie => "--cookie 不能为空".to_owned(),
            CookieError::KeyFileAlone => "--key-file 只能和 --cookies-db 一起使用".to_owned(),
            CookieError::NoUsableCookie(source) => text::concat2(
                source.as_str(),
                " 中没有可用的 zhihu.com Cookie",
            ),
            CookieError::NoLoginCookie(found) => text::concat3(
                "没有找到包含 z_c0 的知乎登录 Cookie。\n",
                found.as_str(),
                "\n请先确认浏览器已登录知乎，或使用 --cookie 手动传入 Cookie header。也可以运行 --diagnose-cookies 查看各浏览器状态。",
            ),
            CookieError::NoCookie => {
                "没有找到 zhihu.com Cookie。请先在浏览器登录知乎，或使用 --cookie 手动传入 Cookie header。".to_owned()
            },
            CookieError::Anonymous(source) => text::concat2(
                source.as_str(),
                " 中没有 z_c0 登录 Cookie。知乎收藏夹接口通常需要登录态；请确认这个浏览器已登录知乎，或用 --cookie 手动传入包含 z_c0 的 Cookie header。需要强行匿名尝试时加 --allow-anonymous。",
            ),
            CookieError::DatabaseFailed(reason) => text::concat2(
                "读取自定义 Cookie DB 失败: ",
                reason.as_str(),
            ),
            CookieError::BrowserFailed(browser, reason) => text::concat4(
                "读取 ",
                browser.name(),
                " Cookie 失败: ",
                reason.as_str(),
            ),
            CookieError::FirefoxFailed(reason) => text::concat3(
                "读取 Firefox Cookie 失败: ",
                reason.as_str(),
                "; 未发现 fallback cookies.sqlite",
            ),
            CookieError::FirefoxStoresFailed(reason, others) => text::concat4(
                "读取 Firefox Cookie 失败: ",
                reason.as_str(),
                "; fallback 也失败: ",
                others.as_str(),
            ),
            CookieError::SafariElsewhere => "Safari Cookie 读取只支持 macOS".to_owned(),
            CookieError::NothingRead => "没有从任何浏览器读到 zhihu.com Cookie".to_owned(),
        }
    }
}

/// How specific a cookie is: the length of its domain in bytes, without dots in front, and the
/// length of its path.
pub open spec fn specificity(cookie: Cookie) -> (int, int) {
    (
        vstd::utf8::encode_utf8(text::stripped_start(cookie.domain, text::CharClass::Only('.'))).len() as int,
        vstd::utf8::encode_utf8(cookie.path).len() as int,
    )
}

/// How specific the cookies are, one by one.
pub open spec fn specificities(cookies: Seq<Cookie>) -> Seq<(usize, usize)> {
    Seq::new(
        cookies.len(),
        |i: int| (specificity(cookies[i]).0 as usize, specificity(cookies[i]).1 as usize),
    )
}

/// The cookies in sorted order, the most specific first.
pub open spec fn by_specificity(cookies: Seq<Cookie>) -> Seq<Cookie> {
    Seq::new(
        cookies.len(),
        |i: int| cookies[order::sort_order(specificities(cookies))[i]],
    )
}

/// Whether the domain is that of Zhihu or one below it. Dots in front do not count.
pub open spec fn zhihu_domain(domain: Seq<char>) -> bool {
    let host = text::stripped_start(domain, text::CharClass::Only('.'));
    host == "zhihu.com"@ || text::ends(host, ".zhihu.com"@)
}

/// Whether the cookie is one for Zhihu, has a name, and has not expired.
pub open spec fn usable(cookie: Cookie, now: u64) -> bool {
    &&& zhihu_domain(cookie.domain)
    &&& cookie.name.len() > 0
    &&& !(cookie.expires matches Some(expires) && expires <= now)
}

/// Whether a cookie of that name is among `cookies`.
pub open spec fn has_name(cookies: Seq<Cookie>, name: Seq<char>) -> bool {
    exists|i: int| 0 <= i < cookies.len() && (#[trigger] cookies[i]).name == name
}

/// The usable cookies, the first one of each name.
pub open spec fn first_usable(cookies: Seq<Cookie>, now: u64) -> Seq<Cookie>
    decreases cookies.len(),
{
    if cookies.len() == 0 {
        seq![]
    } else {
        let before = first_usable(cookies.drop_last(), now);
        if usable(cookies.last(), now) && !has_name(before, cookies.last().name) {
            before.push(cookies.last())
        } else {
            before
        }
    }
}

/// The cookies that are sent: of each name the most specific one that is usable.
pub open spec fn sent_cookies(cookies: Seq<Cookie>, now: u64) -> Seq<Cookie> {
    first_usable(by_specificity(cookies), now)
}

/// The cookies as pairs of name and value.
pub open spec fn cookie_pairs(cookies: Seq<Cookie>) -> Seq<Seq<char>> {
    Seq::new(cookies.len(), |i: int| cookies[i].name + "="@ + cookies[i].value)
}

/// The header that sends the cookies.
pub open spec fn header_of(source: Seq<char>, sent: Seq<Cookie>) -> Header {
    Header {
        source,
        value: text::joined(cookie_pairs(sent), "; "@),
        count: sent.len() as usize,
        login: has_name(sent, "z_c0"@),
    }
}

/// What comes of the cookies of a source at the time `now`.
pub open spec fn built(
    source: Seq<char>,
    cookies: Seq<Cookie>,
    now: u64,
    outcome: Result<CookieHeader, CookieError>,
) -> bool {
    let sent = sent_cookies(cookies, now);
    match outcome {
        Ok(header) => sent.len() > 0 && header@ == header_of(source, sent),
        Err(CookieError::NoUsableCookie(named)) => sent.len() == 0 && named@ == source,
        Err(_) => false,
    }
}

/// The length of a text in bytes.
fn byte_len(text: &str) -> (count: usize)
    ensures
        count == vstd::utf8::encode_utf8(text@).len(),
{
    text.as_bytes().len()
}

/// How specific the cookies are, one by one.
fn rate_cookies(cookies: &Vec<BrowserCookie>) -> (keys: Vec<(usize, usize)>)
    ensures
        keys@ == specificities(cookie_views(cookies@)),
{
    let ghost all = cookie_views(cookies@);
    let mut keys: Vec<(usize, usize)> = Vec::new();
    let mut i: usize = 0;
    while i < cookies.len()
        invariant
            i <= cookies@.len(),
            all == cookie_views(cookies@),
            keys@ == specificities(all).take(i as int),
        decreases cookies@.len() - i,
    {
        let domain = text::strip_start(
            cookies[i].domain.as_str(),
            text::CharClass::Only('.'),
        );
        let key: (usize, usize) = (
            byte_len(domain.as_str()),
            byte_len(cookies[i].path.as_str()),
        );
        keys.push(key);
        i = i + 1;
        assert(keys@ =~= specificities(all).take(i as int));
    }
    assert(specificities(all).take(i as int) =~= specificities(all));
    keys
}

/// Whether `name` is among `names`.
fn is_named(names: &Vec<String>, name: &str) -> (yes: bool)
    ensures
        yes == (exists|i: int| 0 <= i < names@.len() && (#[trigger] names@[i])@ == name@),
{
    let mut i: usize = 0;
    while i < names.len()
        invariant
            i <= names@.len(),
            forall|k: int| 0 <= k < i ==> (#[trigger] names@[k])@ != name@,
        decreases names@.len() - i,
    {
        if text::same(names[i].as_str(), name) {
            return true;
        }
        i = i + 1;
    }
    false
}

/// Whether the domain is that of Zhihu or one below it.
fn is_zhihu_domain(domain: &str) -> (yes: bool)
    ensures
        yes == zhihu_domain(domain@),
{
    let host = text::strip_start(domain, text::CharClass::Only('.'));
    text::same(host.as_str(), "zhihu.com") || text::ends_with(host.as_str(), ".zhihu.com")
}

/// Whether the cookie is one for Zhihu, has a name, and has not expired.
fn is_usable(cookie: &BrowserCookie, now: u64) -> (yes: bool)
    ensures
        yes == usable(cookie@, now),
{
    if !is_zhihu_domain(cookie.domain.as_str()) || cookie.name.as_str().is_empty() {
        return false;
    }
    match cookie.expires {
        Some(expires) => expires > now,
        None => true,
    }
}

/// The header for the cookies of a source at the time `now`. Of each name it sends the most
/// specific cookie for Zhihu that has not expired.
pub fn build_cookie_header_at(source: &str, cookies: &Vec<BrowserCookie>, now: u64) -> (outcome:
    Result<CookieHeader, CookieError>)
    ensures
        built(source@, cookie_views(cookies@), now, outcome),
{
    let places = order::sort_places(&rate_cookies(cookies));
    let ghost sorted = by_specificity(cookie_views(cookies@));
    let ghost mut sent: Seq<Cookie> = seq![];
    let mut names: Vec<String> = Vec::new();
    let mut pairs: Vec<String> = Vec::new();
    let mut has_login_cookie: bool = false;
    let mut i: usize = 0;
    assert(sent =~= first_usable(sorted.take(0), now));
    assert(text::texts(pairs@) =~= cookie_pairs(sent));
    while i < places.len()
        invariant
            i <= places@.len(),
            places@.len() == cookies@.len(),
            sorted == by_specificity(cookie_views(cookies@)),
            forall|k: int|
                0 <= k < places@.len() ==> (#[trigger] places@[k]) as int == order::sort_order(
                    specificities(cookie_views(cookies@)),
                )[k],
            forall|k: int| 0 <= k < places@.len() ==> #[trigger] places@[k] < cookies@.len(),
            sent == first_usable(sorted.take(i as int), now),
            names@.len() == sent.len(),
            forall|k: int| 0 <= k < sent.len() ==> (#[trigger] names@[k])@ == sent[k].name,
            text::texts(pairs@) == cookie_pairs(sent),
            has_login_cookie == has_name(sent, "z_c0"@),
        decreases places@.len() - i,
    {
        let place: usize = places[i];
        let cookie = &cookies[place];
        assert(sorted.take(i + 1).drop_last() =~= sorted.take(i as int));
        assert(places@[i as int] as int == order::sort_order(
            specificities(cookie_views(cookies@)),
        )[i as int]);
        assert(sorted.take(i + 1).last() == cookie@);
        let known = is_named(&names, cookie.name.as_str());
        assert(known == has_name(sent, cookie@.name)) by {
            if known {
                let k = choose|k: int|
                    0 <= k < names@.len() && (#[trigger] names@[k])@ == cookie.name@;
                assert(sent[k].name == cookie@.name);
            }
            if has_name(sent, cookie@.name) {
                let k = choose|k: int|
                    0 <= k < sent.len() && (#[trigger] sent[k]).name == cookie@.name;
                assert(names@[k]@ == cookie.name@);
            }
        }
        if is_usable(cookie, now) && !known {
            let ghost before = sent;
            proof {
                sent = before.push(cookie@);
            }
            if text::same(cookie.name.as_str(), "z_c0") {
                has_login_cookie = true;
                assert(sent[before.len() as int].name == "z_c0"@);
            } else {
                assert(has_name(sent, "z_c0"@) == has_name(before, "z_c0"@)) by {
                    if has_name(before, "z_c0"@) {
                        let k = choose|k: int|
                            0 <= k < before.len() && (#[trigger] before[k]).name == "z_c0"@;
                        assert(sent[k].name == "z_c0"@);
                    }
                    if has_name(sent, "z_c0"@) {
                        let k = choose|k: int|
                            0 <= k < sent.len() && (#[trigger] sent[k]).name == "z_c0"@;
                        assert(before[k].name == "z_c0"@);
                    }
                }
            }
            names.push(cookie.name.clone());
            let ghost shown = text::texts(pairs@);
            let pair = text::concat3(cookie.name.as_str(), "=", cookie.value.as_str());
            pairs.push(pair);
            assert(text::texts(pairs@) =~= shown.push(pair@));
            assert(text::texts(pairs@) =~= cookie_pairs(sent));
        }
        i = i + 1;
    }
    assert(sorted.take(i as int) =~= sorted);
    assert(text::texts(pairs@).len() == sent.len());
    if pairs.len() == 0 {
        return Err(CookieError::NoUsableCookie(source.to_owned()));
    }
    Ok(
        CookieHeader {
            source: source.to_owned(),
            value: text::join(&pairs, "; "),
            count: pairs.len(),
            has_login_cookie,
        },
    )
}

/// The header for the cookies of a source at this moment.
pub fn build_cookie_header(source: &str, cookies: &Vec<BrowserCookie>) -> (outcome: Result<
    CookieHeader,
    CookieError,
>)
    ensures
        exists|now: u64|
            told_by_the_clock(now) && #[trigger] built(
                source@,
                cookie_views(cookies@),
                now,
                outcome,
            ),
{
    build_cookie_header_at(source, cookies, unix_now())
}

/// How many of the parts have an equals sign.
pub open spec fn named_parts(parts: Seq<Seq<char>>) -> nat
    decreases parts.len(),
{
    if parts.len() == 0 {
        0
    } else {
        named_parts(parts.drop_last()) + (if text::occurs("="@, parts.last()) {
            1nat
        } else {
            0nat
        })
    }
}

/// Whether one of the parts is the login cookie.
pub open spec fn has_login_part(parts: Seq<Seq<char>>) -> bool {
    exists|i: int|
        0 <= i < parts.len() && text::begins(text::trimmed(#[trigger] parts[i]), "z_c0="@)
}

/// The header that was given on the command line, without white space around it.
pub open spec fn given_header(cookie: Seq<char>) -> Header {
    Header {
        source: "--cookie"@,
        value: cookie,
        count: named_parts(text::split_at(cookie, ';')) as usize,
        login: has_login_part(text::split_at(cookie, ';')),
    }
}

/// How many of the parts have an equals sign.
fn count_named(parts: &Vec<String>) -> (count: usize)
    ensures
        count == named_parts(text::texts(parts@)),
{
    let ghost all = text::texts(parts@);
    let mut count: usize = 0;
    let mut i: usize = 0;
    while i < parts.len()
        invariant
            i <= parts@.len(),
            count <= i,
            all == text::texts(parts@),
            count == named_parts(all.take(i as int)),
        decreases parts@.len() - i,
    {
        assert(all.take(i + 1).drop_last() =~= all.take(i as int));
        if text::contains(parts[i].as_str(), "=") {
            count = count + 1;
        }
        i = i + 1;
    }
    assert(all.take(i as int) =~= all);
    count
}

/// Whether one of the parts is the login cookie.
fn finds_login(parts: &Vec<String>) -> (yes: bool)
    ensures
        yes == has_login_part(text::texts(parts@)),
{
    let ghost all = text::texts(parts@);
    let mut i: usize = 0;
    while i < parts.len()
        invariant
            i <= parts@.len(),
            all == text::texts(parts@),
            forall|k: int|
                0 <= k < i ==> !text::begins(text::trimmed(#[trigger] all[k]), "z_c0="@),
        decreases parts@.len() - i,
    {
        let part = text::trim(parts[i].as_str());
        if text::starts_with(part.as_str(), "z_c0=") {
            assert(text::begins(text::trimmed(all[i as int]), "z_c0="@));
            return true;
        }
        i = i + 1;
    }
    false
}

/// The header that was given on the command line.
pub fn read_given_header(raw: &str) -> (outcome: Result<CookieHeader, CookieError>)
    ensures
        match outcome {
            Ok(header) => !text::blank(raw@) && header@ == given_header(text::trimmed(raw@)),
            Err(error) => text::blank(raw@) && error == CookieError::EmptyCookie,
        },
{
    let cookie = text::trim(raw);
    if cookie.as_str().is_empty() {
        return Err(CookieError::EmptyCookie);
    }
    let parts = text::split(cookie.as_str(), ';');
    let count: usize = count_named(&parts);
    let has_login_cookie = finds_login(&parts);
    Ok(CookieHeader { source: "--cookie".to_owned(), value: cookie, count, has_login_cookie })
}

/// Whether the header may be sent: it has the login cookie, or none is asked for.
pub fn ensure_login_cookie(header: &CookieHeader, allow_anonymous: bool) -> (outcome: Result<
    (),
    CookieError,
>)
    ensures
        match outcome {
            Ok(_) => allow_anonymous || header@.login,
            Err(CookieError::Anonymous(source)) => {
                &&& !allow_anonymous
                &&& !header@.login
                &&& source@ == header@.source
            },
            Err(_) => false,
        },
{
    if allow_anonymous || header.has_login_cookie {
        Ok(())
    } else {
        Err(CookieError::Anonymous(header.source.clone()))
    }
}

/// The domains whose cookies are read.
pub fn zhihu_domains() -> (domains: Option<Vec<String>>)
    ensures
        domains matches Some(list) && text::texts(list@) == seq!["zhihu.com"@],
{
    let mut list: Vec<String> = Vec::new();
    list.push("zhihu.com".to_owned());
    assert(text::texts(list@) =~= seq!["zhihu.com"@]);
    Some(list)
}

/// The browsers in the order in which they are tried.
pub open spec fn browser_order() -> Seq<BrowserChoice> {
    seq![
        BrowserChoice::Chrome,
        BrowserChoice::Edge,
        BrowserChoice::Chromium,
        BrowserChoice::Brave,
        BrowserChoice::Firefox,
        BrowserChoice::LibreWolf,
        BrowserChoice::Vivaldi,
        BrowserChoice::Opera,
        BrowserChoice::OperaGx,
        BrowserChoice::Arc,
        BrowserChoice::Zen,
        BrowserChoice::Safari,
    ]
}

/// The browsers in the order in which they are tried.
pub fn auto_browser_order() -> (browsers: Vec<BrowserChoice>)
    ensures
        browsers@ == browser_order(),
{
    let browsers: Vec<BrowserChoice> = vec![
        BrowserChoice::Chrome,
        BrowserChoice::Edge,
        BrowserChoice::Chromium,
        BrowserChoice::Brave,
        BrowserChoice::Firefox,
        BrowserChoice::LibreWolf,
        BrowserChoice::Vivaldi,
        BrowserChoice::Opera,
        BrowserChoice::OperaGx,
        BrowserChoice::Arc,
        BrowserChoice::Zen,
        BrowserChoice::Safari,
    ];
    assert(browsers@ =~= browser_order());
    browsers
}

/// `yes` or `no`.
pub open spec fn yes_no(yes: bool) -> Seq<char> {
    if yes {
        "yes"@
    } else {
        "no"@
    }
}

fn say(yes: bool) -> (word: &'static str)
    ensures
        word@ == yes_no(yes),
{
    if yes {
        "yes"
    } else {
        "no"
    }
}

/// A header in a few words, without the cookies themselves.
pub open spec fn header_detail(header: Header) -> Seq<char> {
    header.source + ": "@ + text::decimal(header.count as nat) + " 个 Cookie, z_c0="@ + yes_no(
        header.login,
    )
}

/// The headers in a few words each.
pub open spec fn header_details(headers: Seq<Header>) -> Seq<Seq<char>> {
    Seq::new(headers.len(), |i: int| header_detail(headers[i]))
}

/// What was found in the browsers, in words.
pub open spec fn diagnostics_of(headers: Seq<Header>) -> Seq<char> {
    if headers.len() == 0 {
        "已尝试的浏览器都没有读到 zhihu.com Cookie。"@
    } else {
        "已读取: "@ + text::joined(header_details(headers), "; "@)
    }
}

/// What was found in the browsers, in words.
pub fn cookie_diagnostics(candidates: &Vec<CookieHeader>) -> (words: String)
    ensures
        words@ == diagnostics_of(header_views(candidates@)),
{
    if candidates.len() == 0 {
        return "已尝试的浏览器都没有读到 zhihu.com Cookie。".to_owned();
    }
    let ghost all = header_views(candidates@);
    let mut details: Vec<String> = Vec::new();
    let mut i: usize = 0;
    while i < candidates.len()
        invariant
            i <= candidates@.len(),
            all == header_views(candidates@),
            text::texts(details@) == header_details(all).take(i as int),
        decreases candidates@.len() - i,
    {
        let ghost before = text::texts(details@);
        let count = text::decimal_text(candidates[i].count as u64);
        let detail = text::concat5(
            candidates[i].source.as_str(),
            ": ",
            count.as_str(),
            " 个 Cookie, z_c0=",
            say(candidates[i].has_login_cookie),
        );
        details.push(detail);
        assert(text::texts(details@) =~= before.push(detail@));
        i = i + 1;
        assert(header_details(all).take(i as int) =~= before.push(detail@));
    }
    assert(header_details(all).take(i as int) =~= header_details(all));
    text::concat2("已读取: ", text::join(&details, "; ").as_str())
}

/// The headers that were found, in the order of the browsers.
pub open spec fn found_headers(attempts: Seq<Result<CookieHeader, CookieError>>) -> Seq<Header>
    decreases attempts.len(),
{
    if attempts.len() == 0 {
        seq![]
    } else {
        match attempts.last() {
            Ok(header) => found_headers(attempts.drop_last()).push(header@),
            Err(_) => found_headers(attempts.drop_last()),
        }
    }
}

/// What makes one header better than another: the login cookie, then the number of cookies.
pub open spec fn header_ranks(headers: Seq<Header>) -> Seq<(usize, usize)> {
    Seq::new(
        headers.len(),
        |i: int|
            (
                if headers[i].login {
                    1usize
                } else {
                    0usize
                },
                headers[i].count,
            ),
    )
}

/// The headers, the best first.
pub open spec fn ranked(headers: Seq<Header>) -> Seq<Header> {
    Seq::new(headers.len(), |i: int| headers[order::sort_order(header_ranks(headers))[i]])
}

/// The first header with the login cookie.
pub open spec fn first_login(headers: Seq<Header>) -> Option<Header>
    decreases headers.len(),
{
    if headers.len() == 0 {
        None
    } else if headers[0].login {
        Some(headers[0])
    } else {
        first_login(headers.drop_first())
    }
}

/// The choice among the headers that were found.
pub open spec fn best_outcome(
    found: Seq<Header>,
    require_login: bool,
    outcome: Result<CookieHeader, CookieError>,
) -> bool {
    match outcome {
        Ok(header) => if require_login {
            first_login(ranked(found)) == Some(header@)
        } else {
            found.len() > 0 && header@ == ranked(found)[0]
        },
        Err(CookieError::NoLoginCookie(words)) => {
            &&& require_login
            &&& first_login(ranked(found)) is None
            &&& words@ == diagnostics_of(ranked(found))
        },
        Err(CookieError::NoCookie) => !require_login && found.len() == 0,
        Err(_) => false,
    }
}

/// The headers that were found.
fn keep_found(attempts: Vec<Result<CookieHeader, CookieError>>) -> (found: Vec<CookieHeader>)
    ensures
        header_views(found@) == found_headers(attempts@),
{
    let ghost all = attempts@;
    let mut found: Vec<CookieHeader> = Vec::new();
    assert(header_views(found@) =~= found_headers(all.take(0)));
    for attempt in iter: attempts
        invariant
            iter.seq() == all,
            header_views(found@) == found_headers(all.take(iter.index() as int)),
    {
        let ghost next = all.take(iter.index() + 1);
        assert(next.drop_last() =~= all.take(iter.index() as int));
        assert(next.last() == attempt);
        match attempt {
            Ok(header) => {
                let ghost before = header_views(found@);
                found.push(header);
                assert(header_views(found@) =~= before.push(header@));
            },
            Err(_) => {},
        }
    }
    assert(all.take(all.len() as int) =~= all);
    found
}

/// The headers, the best first.
fn rank(found: &Vec<CookieHeader>) -> (sorted: Vec<CookieHeader>)
    ensures
        header_views(sorted@) == ranked(header_views(found@)),
{
    let ghost all = header_views(found@);
    let mut keys: Vec<(usize, usize)> = Vec::new();
    let mut i: usize = 0;
    while i < found.len()
        invariant
            i <= found@.len(),
            all == header_views(found@),
            keys@ == header_ranks(all).take(i as int),
        decreases found@.len() - i,
    {
        let key: (usize, usize) = (
            if found[i].has_login_cookie {
                1
            } else {
                0
            },
            found[i].count,
        );
        keys.push(key);
        i = i + 1;
        assert(keys@ =~= header_ranks(all).take(i as int));
    }
    assert(keys@ =~= header_ranks(all));
    let places = order::sort_places(&keys);
    let mut sorted: Vec<CookieHeader> = Vec::new();
    let mut k: usize = 0;
    while k < places.len()
        invariant
            k <= places@.len(),
            all == header_views(found@),
            places@.len() == found@.len(),
            keys@ == header_ranks(all),
            keys@.len() == found@.len(),
            forall|j: int|
                0 <= j < places@.len() ==> (#[trigger] places@[j]) as int == order::sort_order(
                    keys@,
                )[j],
            forall|j: int| 0 <= j < places@.len() ==> #[trigger] places@[j] < keys@.len(),
            header_views(sorted@) == ranked(all).take(k as int),
        decreases places@.len() - k,
    {
        let ghost before = header_views(sorted@);
        let place: usize = places[k];
        assert(places@[k as int] as int == order::sort_order(keys@)[k as int]);
        let header = found[place].duplicate();
        sorted.push(header);
        assert(header_views(sorted@) =~= before.push(header@));
        k = k + 1;
        assert(ranked(all).take(k as int) =~= before.push(header@));
    }
    assert(ranked(all).take(k as int) =~= ranked(all));
    sorted
}

/// The best of what the browsers gave: one with the login cookie before one without, then the one
/// with the most cookies, then the browser that was tried first.
pub fn best_auto_cookie_header(
    attempts: Vec<Result<CookieHeader, CookieError>>,
    require_login: bool,
) -> (outcome: Result<CookieHeader, CookieError>)
    ensures
        best_outcome(found_headers(attempts@), require_login, outcome),
{
    let found = keep_found(attempts);
    let sorted = rank(&found);
    let ghost all = header_views(sorted@);
    if !require_login {
        if sorted.len() == 0 {
            return Err(CookieError::NoCookie);
        }
        assert(all[0] == sorted@[0]@);
        return Ok(sorted[0].duplicate());
    }
    let mut i: usize = 0;
    assert(all.skip(0) =~= all);
    while i < sorted.len()
        invariant
            i <= sorted@.len(),
            all == header_views(sorted@),
            all == ranked(found_headers(attempts@)),
            require_login,
            first_login(all) == first_login(all.skip(i as int)),
        decreases sorted@.len() - i,
    {
        assert(all.skip(i as int)[0] == sorted@[i as int]@);
        assert(all.skip(i as int).drop_first() =~= all.skip(i + 1));
        if sorted[i].has_login_cookie {
            return Ok(sorted[i].duplicate());
        }
        i = i + 1;
    }
    Err(CookieError::NoLoginCookie(cookie_diagnostics(&sorted)))
}

/// The cookies that a browser gave, and where they were found.
pub struct LoadedCookies {
    pub source: String,
    pub cookies: Vec<BrowserCookie>,
}

/// What comes of reading a browser. `read` is nothing where the browser does not exist on this
/// system.
pub open spec fn browser_outcome(
    browser: BrowserChoice,
    read: Option<Result<Vec<BrowserCookie>, String>>,
    outcome: Result<LoadedCookies, CookieError>,
) -> bool {
    match read {
        Some(Ok(cookies)) => outcome matches Ok(loaded) && loaded.source@ == browser.label()
            && loaded.cookies == cookies,
        Some(Err(reason)) => outcome == Err::<LoadedCookies, CookieError>(
            CookieError::BrowserFailed(browser, reason),
        ),
        None => outcome == Err::<LoadedCookies, CookieError>(CookieError::SafariElsewhere),
    }
}

/// The cookies that a browser gave, under its name. `read` is nothing where the browser does not
/// exist on this system.
pub fn load_browser_cookies(
    browser: BrowserChoice,
    read: Option<Result<Vec<BrowserCookie>, String>>,
) -> (outcome: Result<LoadedCookies, CookieError>)
    requires
        browser != BrowserChoice::Auto,
        browser != BrowserChoice::Firefox,
        read is None ==> browser == BrowserChoice::Safari,
    ensures
        browser_outcome(browser, read, outcome),
{
    match read {
        Some(Ok(cookies)) => Ok(LoadedCookies { source: browser.name().to_owned(), cookies }),
        Some(Err(reason)) => Err(CookieError::BrowserFailed(browser, reason)),
        None => Err(CookieError::SafariElsewhere),
    }
}

/// The header for the cookies that a browser gave, at the time `now`.
pub fn load_browser_cookie_header_at(
    loaded: Result<LoadedCookies, CookieError>,
    now: u64,
) -> (outcome: Result<CookieHeader, CookieError>)
    ensures
        match loaded {
            Ok(loaded) => built(loaded.source@, cookie_views(loaded.cookies@), now, outcome),
            Err(error) => outcome == Err::<CookieHeader, CookieError>(error),
        },
{
    match loaded {
        Ok(loaded) => build_cookie_header_at(loaded.source.as_str(), &loaded.cookies, now),
        Err(error) => Err(error),
    }
}

/// The header for the cookies that a browser gave, at this moment.
pub fn load_browser_cookie_header(loaded: Result<LoadedCookies, CookieError>) -> (outcome: Result<
    CookieHeader,
    CookieError,
>)
    ensures
        match loaded {
            Ok(loaded) => exists|now: u64|
                told_by_the_clock(now) && #[trigger] built(
                    loaded.source@,
                    cookie_views(loaded.cookies@),
                    now,
                    outcome,
                ),
            Err(error) => outcome == Err::<CookieHeader, CookieError>(error),
        },
{
    load_browser_cookie_header_at(loaded, unix_now())
}

/// What the command line says about cookies.
pub struct CookieOptions {
    /// A header to send as it is.
    pub cookie: Option<String>,
    /// Whether a cookie store is named.
    pub has_cookies_db: bool,
    /// Whether a key file is named.
    pub has_key_file: bool,
    /// The browser to read.
    pub browser: BrowserChoice,
    /// Whether to go on without the login cookie.
    pub allow_anonymous: bool,
}

/// Where the cookies are to be read.
#[derive(Clone, Copy, Debug, PartialEq, Eq, Structural)]
pub enum CookiePlan {
    /// Nowhere: the command line has them.
    Given,
    /// In the cookie store that is named.
    Database,
    /// In all browsers.
    Browsers,
    /// In this browser.
    Browser(BrowserChoice),
}

/// Where the cookies are to be read; nothing where a key file was named for no store.
pub open spec fn planned(options: CookieOptions) -> Option<CookiePlan> {
    if options.cookie is Some {
        Some(CookiePlan::Given)
    } else if options.has_cookies_db {
        Some(CookiePlan::Database)
    } else if options.has_key_file {
        None
    } else if options.browser == BrowserChoice::Auto {
        Some(CookiePlan::Browsers)
    } else {
        Some(CookiePlan::Browser(options.browser))
    }
}

/// Where the cookies are to be read: the command line counts before the store, and the store
/// before the browsers.
pub fn plan_cookies(options: &CookieOptions) -> (plan: Result<CookiePlan, CookieError>)
    ensures
        match plan {
            Ok(plan) => planned(*options) == Some(plan),
            Err(error) => planned(*options) is None && error == CookieError::KeyFileAlone,
        },
{
    if options.cookie.is_some() {
        Ok(CookiePlan::Given)
    } else if options.has_cookies_db {
        Ok(CookiePlan::Database)
    } else if options.has_key_file {
        Err(CookieError::KeyFileAlone)
    } else {
        match options.browser {
            BrowserChoice::Auto => Ok(CookiePlan::Browsers),
            browser => Ok(CookiePlan::Browser(browser)),
        }
    }
}

/// What was read.
pub enum CookieRead {
    Nothing,
    Database(Result<Vec<BrowserCookie>, String>),
    Browsers(Vec<Result<CookieHeader, CookieError>>),
    Browser(Result<LoadedCookies, CookieError>),
}

/// Whether that was read which was planned.
pub open spec fn answers(read: CookieRead, plan: CookiePlan) -> bool {
    match plan {
        CookiePlan::Given => read is Nothing,
        CookiePlan::Database => read is Database,
        CookiePlan::Browsers => read is Browsers,
        CookiePlan::Browser(_) => read is Browser,
    }
}

/// What comes of a header in the end: without the login cookie it is sent only on demand.
pub open spec fn admitted(
    header: Header,
    allow_anonymous: bool,
    outcome: Result<CookieHeader, CookieError>,
) -> bool {
    if allow_anonymous || header.login {
        outcome matches Ok(sent) && sent@ == header
    } else {
        outcome matches Err(CookieError::Anonymous(source)) && source@ == header.source
    }
}

/// What comes of the cookies of a source in the end.
pub open spec fn admitted_from(
    source: Seq<char>,
    cookies: Seq<Cookie>,
    now: u64,
    allow_anonymous: bool,
    outcome: Result<CookieHeader, CookieError>,
) -> bool {
    let sent = sent_cookies(cookies, now);
    if sent.len() == 0 {
        outcome matches Err(CookieError::NoUsableCookie(named)) && named@ == source
    } else {
        admitted(header_of(source, sent), allow_anonymous, outcome)
    }
}

/// What comes of the options and of what was read.
pub open spec fn resolution(
    options: CookieOptions,
    read: CookieRead,
    now: u64,
    outcome: Result<CookieHeader, CookieError>,
) -> bool {
    match read {
        CookieRead::Nothing => {
            let raw = options.cookie->0@;
            if text::blank(raw) {
                outcome matches Err(CookieError::EmptyCookie)
            } else {
                admitted(given_header(text::trimmed(raw)), options.allow_anonymous, outcome)
            }
        },
        CookieRead::Database(Ok(cookies)) => admitted_from(
            "custom cookie DB"@,
            cookie_views(cookies@),
            now,
            options.allow_anonymous,
            outcome,
        ),
        CookieRead::Database(Err(reason)) => {
            outcome matches Err(CookieError::DatabaseFailed(named)) && named@ == reason@
        },
        CookieRead::Browsers(attempts) => best_outcome(
            found_headers(attempts@),
            !options.allow_anonymous,
            outcome,
        ),
        CookieRead::Browser(Ok(loaded)) => admitted_from(
            loaded.source@,
            cookie_views(loaded.cookies@),
            now,
            options.allow_anonymous,
            outcome,
        ),
        CookieRead::Browser(Err(error)) => outcome == Err::<CookieHeader, CookieError>(error),
    }
}

/// The first header with the login cookie has it.
proof fn lemma_first_login(headers: Seq<Header>)
    ensures
        first_login(headers) matches Some(header) ==> header.login,
    decreases headers.len(),
{
    if headers.len() > 0 {
        lemma_first_login(headers.drop_first());
    }
}

/// Holds back a header without the login cookie, unless that is wanted.
fn check_login(found: Result<CookieHeader, CookieError>, allow_anonymous: bool) -> (outcome: Result<
    CookieHeader,
    CookieError,
>)
    ensures
        match found {
            Ok(header) => admitted(header@, allow_anonymous, outcome),
            Err(error) => outcome == Err::<CookieHeader, CookieError>(error),
        },
{
    match found {
        Ok(header) => match ensure_login_cookie(&header, allow_anonymous) {
            Ok(_) => Ok(header),
            Err(error) => Err(error),
        },
        Err(error) => Err(error),
    }
}

/// The cookies to send, from the options and from what was read, at the time `now`.
pub fn resolve_cookie_header_at(options: &CookieOptions, read: CookieRead, now: u64) -> (outcome:
    Result<CookieHeader, CookieError>)
    requires
        planned(*options) matches Some(plan) && answers(read, plan),
    ensures
        resolution(*options, read, now, outcome),
{
    let allow_anonymous = options.allow_anonymous;
    match read {
        CookieRead::Nothing => match &options.cookie {
            Some(raw) => check_login(read_given_header(raw.as_str()), allow_anonymous),
            None => Err(CookieError::EmptyCookie),
        },
        CookieRead::Database(Ok(cookies)) => check_login(
            build_cookie_header_at("custom cookie DB", &cookies, now),
            allow_anonymous,
        ),
        CookieRead::Database(Err(reason)) => Err(CookieError::DatabaseFailed(reason)),
        CookieRead::Browsers(attempts) => {
            proof {
                lemma_first_login(ranked(found_headers(attempts@)));
            }
            check_login(best_auto_cookie_header(attempts, !allow_anonymous), allow_anonymous)
        },
        CookieRead::Browser(loaded) => check_login(
            load_browser_cookie_header_at(loaded, now),
            allow_anonymous,
        ),
    }
}

/// The cookies to send, from the options and from what was read, at this moment.
pub fn resolve_cookie_header(options: &CookieOptions, read: CookieRead) -> (outcome: Result<
    CookieHeader,
    CookieError,
>)
    requires
        planned(*options) matches Some(plan) && answers(read, plan),
    ensures
        exists|now: u64|
            told_by_the_clock(now) && #[trigger] resolution(*options, read, now, outcome),
{
    resolve_cookie_header_at(options, read, unix_now())
}

/// A line on a header for the reader, without the cookies themselves.
pub open spec fn diagnostic_line(header: Header) -> Seq<char> {
    text::padded_end(header.source, 36) + " zhihu.com Cookie: "@ + text::padded_start(
        text::decimal(header.count as nat),
        ' ',
        2,
    ) + ", z_c0: "@ + yes_no(header.login)
}

/// What is said of the header that is used, without the cookies themselves.
pub open spec fn summary_of(header: Header) -> Seq<char> {
    "使用 "@ + header.source + " 的 zhihu.com Cookie（"@ + text::decimal(header.count as nat)
        + " 个，"@ + (if header.login {
        "包含 "@
    } else {
        "未发现 "@
    }) + "登录 Cookie）"@
}

/// What is said of the header that is used, without the cookies themselves.
pub fn cookie_summary(header: &CookieHeader) -> (words: String)
    ensures
        words@ == summary_of(header@),
{
    let count = text::decimal_text(header.count as u64);
    let mut words = text::concat5(
        "使用 ",
        header.source.as_str(),
        " 的 zhihu.com Cookie（",
        count.as_str(),
        " 个，",
    );
    words.append(
        if header.has_login_cookie {
            "包含 "
        } else {
            "未发现 "
        },
    );
    words.append("登录 Cookie）");
    words
}

/// A line on a browser for the reader.
pub open spec fn browser_line(
    browser: BrowserChoice,
    attempt: Result<CookieHeader, CookieError>,
) -> Seq<char> {
    match attempt {
        Ok(header) => diagnostic_line(header@),
        Err(error) => text::padded_end(browser.label(), 36) + " 读取失败: "@ + error.words(),
    }
}

/// A line on a header for the reader, without the cookies themselves.
pub fn cookie_diagnostic_line(header: &CookieHeader) -> (line: String)
    ensures
        line@ == diagnostic_line(header@),
{
    let count = text::decimal_text(header.count as u64);
    text::concat5(
        text::pad_end(header.source.as_str(), 36).as_str(),
        " zhihu.com Cookie: ",
        text::pad_start(count.as_str(), ' ', 2).as_str(),
        ", z_c0: ",
        say(header.has_login_cookie),
    )
}

/// A line on a browser for the reader.
pub fn browser_diagnostic_line(
    browser: BrowserChoice,
    attempt: &Result<CookieHeader, CookieError>,
) -> (line: String)
    ensures
        line@ == browser_line(browser, *attempt),
{
    match attempt {
        Ok(header) => cookie_diagnostic_line(header),
        Err(error) => text::concat3(
            text::pad_end(browser.name(), 36).as_str(),
            " 读取失败: ",
            error.message().as_str(),
        ),
    }
}

/// The browsers that are looked at: the one that was chosen, or all.
pub open spec fn looked_at(browser: BrowserChoice) -> Seq<BrowserChoice> {
    if browser == BrowserChoice::Auto {
        browser_order()
    } else {
        seq![browser]
    }
}

/// The browsers that are looked at: the one that was chosen, or all.
pub fn diagnosed_browsers(browser: BrowserChoice) -> (browsers: Vec<BrowserChoice>)
    ensures
        browsers@ == looked_at(browser),
{
    match browser {
        BrowserChoice::Auto => auto_browser_order(),
        _ => {
            let browsers: Vec<BrowserChoice> = vec![browser];
            assert(browsers@ =~= seq![browser]);
            browsers
        },
    }
}

/// What the options and the store say, where no browser is read.
pub fn diagnose_source(options: &CookieOptions, read: CookieRead, now: u64) -> (outcome: Result<
    String,
    CookieError,
>)
    requires
        planned(*options) matches Some(plan) && answers(read, plan),
        read is Nothing || read is Database,
    ensures
        exists|header: Result<CookieHeader, CookieError>|
            resolution(CookieOptions { allow_anonymous: true, ..*options }, read, now, header) && (
            match header {
                Ok(header) => outcome matches Ok(line) && line@ == diagnostic_line(header@),
                Err(error) => outcome == Err::<String, CookieError>(error),
            }),
{
    let header = match read {
        CookieRead::Nothing => match &options.cookie {
            Some(raw) => read_given_header(raw.as_str()),
            None => Err(CookieError::EmptyCookie),
        },
        CookieRead::Database(Ok(cookies)) => build_cookie_header_at(
            "custom cookie DB",
            &cookies,
            now,
        ),
        CookieRead::Database(Err(reason)) => Err(CookieError::DatabaseFailed(reason)),
        _ => Err(CookieError::NothingRead),
    };
    assert(resolution(CookieOptions { allow_anonymous: true, ..*options }, read, now, header));
    match header {
        Ok(header) => Ok(cookie_diagnostic_line(&header)),
        Err(error) => Err(error),
    }
}

/// Whether at least one browser was read; otherwise the diagnosis has failed.
pub fn diagnose_browsers(attempts: &Vec<Result<CookieHeader, CookieError>>) -> (outcome: Result<
    (),
    CookieError,
>)
    ensures
        match outcome {
            Ok(_) => found_headers(attempts@).len() > 0,
            Err(error) => {
                &&& found_headers(attempts@).len() == 0
                &&& error == CookieError::NothingRead
            },
        },
{
    let mut i: usize = 0;
    while i < attempts.len()
        invariant
            i <= attempts@.len(),
            found_headers(attempts@.take(i as int)).len() == 0,
        decreases attempts@.len() - i,
    {
        assert(attempts@.take(i + 1).drop_last() =~= attempts@.take(i as int));
        if attempts[i].is_ok() {
            proof {
                lemma_found_grows(attempts@, i + 1);
            }
            return Ok(());
        }
        i = i + 1;
    }
    assert(attempts@.take(i as int) =~= attempts@);
    Err(CookieError::NothingRead)
}

/// What was found among the first attempts is found among all.
proof fn lemma_found_grows(attempts: Seq<Result<CookieHeader, CookieError>>, count: int)
    requires
        0 <= count <= attempts.len(),
    ensures
        found_headers(attempts.take(count)).len() <= found_headers(attempts).len(),
    decreases attempts.len(),
{
    if count == attempts.len() {
        assert(attempts.take(count) =~= attempts);
    } else {
        lemma_found_grows(attempts.drop_last(), count);
        assert(attempts.drop_last().take(count) =~= attempts.take(count));
    }
}

/// Whether the cookie `a` is at least as specific as the cookie `b`.
pub open spec fn as_specific(a: Cookie, b: Cookie) -> bool {
    ||| specificity(a).0 > specificity(b).0
    ||| specificity(a).0 == specificity(b).0 && specificity(a).1 >= specificity(b).1
}

/// Whether the lengths that cookies are sorted by are lengths that a text can have.
pub open spec fn measurable(cookies: Seq<Cookie>) -> bool {
    forall|i: int|
        0 <= i < cookies.len() ==> specificity(#[trigger] cookies[i]).0 <= usize::MAX
            && specificity(cookies[i]).1 <= usize::MAX
}

/// The cookies that are kept are usable.
proof fn lemma_kept_usable(cookies: Seq<Cookie>, now: u64, k: int)
    requires
        0 <= k < first_usable(cookies, now).len(),
    ensures
        usable(first_usable(cookies, now)[k], now),
    decreases cookies.len(),
{
    let before = first_usable(cookies.drop_last(), now);
    if k < before.len() {
        lemma_kept_usable(cookies.drop_last(), now, k);
        assert(first_usable(cookies, now)[k] == before[k]);
    }
}

/// The cookies that are kept have different names.
proof fn lemma_kept_names(cookies: Seq<Cookie>, now: u64, k: int, l: int)
    requires
        0 <= k < l < first_usable(cookies, now).len(),
    ensures
        first_usable(cookies, now)[k].name != first_usable(cookies, now)[l].name,
    decreases cookies.len(),
{
    let before = first_usable(cookies.drop_last(), now);
    let after = first_usable(cookies, now);
    assert(after[k] == before[k]);
    if l < before.len() {
        lemma_kept_names(cookies.drop_last(), now, k, l);
        assert(after[l] == before[l]);
    } else {
        assert(!has_name(before, after[l].name));
    }
}

/// The name of a usable cookie is kept.
proof fn lemma_name_kept(cookies: Seq<Cookie>, now: u64, i: int)
    requires
        0 <= i < cookies.len(),
        usable(cookies[i], now),
    ensures
        has_name(first_usable(cookies, now), cookies[i].name),
    decreases cookies.len(),
{
    let init = cookies.drop_last();
    let before = first_usable(init, now);
    let after = first_usable(cookies, now);
    let name = cookies[i].name;
    if i < init.len() {
        assert(init[i] == cookies[i]);
        lemma_name_kept(init, now, i);
    }
    if has_name(before, name) {
        let k = choose|k: int| 0 <= k < before.len() && (#[trigger] before[k]).name == name;
        assert(after[k] == before[k]);
    } else {
        assert(after[before.len() as int] == cookies[i]);
    }
}

/// Whether no usable cookie in front of the cookie at that place has its name.
pub open spec fn comes_first(cookies: Seq<Cookie>, now: u64, at: int) -> bool {
    forall|j: int|
        0 <= j < at && usable(#[trigger] cookies[j], now) ==> cookies[j].name != cookies[at].name
}

/// The place of a cookie that is kept: no usable cookie in front of it has its name.
proof fn lemma_first_place(cookies: Seq<Cookie>, now: u64, k: int) -> (at: int)
    requires
        0 <= k < first_usable(cookies, now).len(),
    ensures
        0 <= at < cookies.len(),
        cookies[at] == first_usable(cookies, now)[k],
        comes_first(cookies, now, at),
    decreases cookies.len(),
{
    let init = cookies.drop_last();
    let before = first_usable(init, now);
    let kept = first_usable(cookies, now)[k];
    if k < before.len() {
        let at = lemma_first_place(init, now, k);
        assert forall|j: int| 0 <= j < at && usable(#[trigger] cookies[j], now) implies cookies[j].name
            != cookies[at].name by {
            assert(init[j] == cookies[j]);
        }
        at
    } else {
        let at = cookies.len() - 1;
        assert forall|j: int| 0 <= j < at && usable(#[trigger] cookies[j], now) implies cookies[j].name
            != cookies[at].name by {
            assert(init[j] == cookies[j]);
            lemma_name_kept(init, now, j);
            assert(!has_name(before, kept.name));
        }
        at
    }
}

/// Every cookie that is sent is one of the source, is one for Zhihu, has a name and has not
/// expired; and of the usable cookies with its name it is the most specific.
pub proof fn the_most_specific_cookie_is_sent(cookies: Seq<Cookie>, now: u64, k: int, i: int)
    requires
        measurable(cookies),
        0 <= k < sent_cookies(cookies, now).len(),
        0 <= i < cookies.len(),
    ensures
        cookies.contains(sent_cookies(cookies, now)[k]),
        usable(sent_cookies(cookies, now)[k], now),
        usable(cookies[i], now) && cookies[i].name == sent_cookies(cookies, now)[k].name
            ==> as_specific(sent_cookies(cookies, now)[k], cookies[i]),
{
    let keys = specificities(cookies);
    let places = order::sort_order(keys);
    let sorted = by_specificity(cookies);
    let sent = sent_cookies(cookies, now)[k];
    order::sorting_is_stable(keys);
    let at = lemma_first_place(sorted, now, k);
    lemma_kept_usable(sorted, now, k);
    assert(places.contains(places[at]));
    assert(cookies[places[at]] == sent);
    if usable(cookies[i], now) && cookies[i].name == sent.name {
        assert(places.contains(i));
        let p = choose|p: int| 0 <= p < places.len() && places[p] == i;
        assert(sorted[p] == cookies[i]);
        assert(p >= at);
        if p > at {
            assert(order::in_order(keys, places[at], places[p]));
        }
    }
}

/// No two cookies that are sent have the same name, and each name of a usable cookie is sent.
pub proof fn each_name_is_sent_once(cookies: Seq<Cookie>, now: u64)
    ensures
        forall|k: int, l: int|
            0 <= k < l < sent_cookies(cookies, now).len() ==> (#[trigger] sent_cookies(
                cookies,
                now,
            )[k]).name != (#[trigger] sent_cookies(cookies, now)[l]).name,
        forall|i: int|
            0 <= i < cookies.len() && usable(#[trigger] cookies[i], now) ==> has_name(
                sent_cookies(cookies, now),
                cookies[i].name,
            ),
{
    let keys = specificities(cookies);
    let places = order::sort_order(keys);
    let sorted = by_specificity(cookies);
    order::sorting_is_stable(keys);
    assert forall|k: int, l: int| 0 <= k < l < sent_cookies(cookies, now).len() implies (
    #[trigger] sent_cookies(cookies, now)[k]).name != (#[trigger] sent_cookies(
        cookies,
        now,
    )[l]).name by {
        lemma_kept_names(sorted, now, k, l);
    }
    assert forall|i: int| 0 <= i < cookies.len() && usable(#[trigger] cookies[i], now) implies
        has_name(sent_cookies(cookies, now), cookies[i].name) by {
        assert(places.contains(i));
        let p = choose|p: int| 0 <= p < places.len() && places[p] == i;
        assert(sorted[p] == cookies[i]);
        lemma_name_kept(sorted, now, p);
    }
}

/// Whether the header `a` is at least as good as the header `b`: the login cookie counts before the
/// number of cookies.
pub open spec fn as_good(a: Header, b: Header) -> bool {
    ||| a.login && !b.login
    ||| a.login == b.login && a.count >= b.count
}

/// The header that is chosen among the browsers is one that was found, and none that was found is
/// better.
pub proof fn the_best_header_is_chosen(
    found: Seq<Header>,
    require_login: bool,
    outcome: Result<CookieHeader, CookieError>,
    i: int,
)
    requires
        best_outcome(found, require_login, outcome),
        0 <= i < found.len(),
    ensures
        match outcome {
            Ok(header) => found.contains(header@) && as_good(header@, found[i]) && (require_login
                ==> header.has_login_cookie),
            Err(_) => require_login && !found[i].login,
        },
{
    let keys = header_ranks(found);
    let places = order::sort_order(keys);
    let sorted = ranked(found);
    order::sorting_is_stable(keys);
    assert(places.contains(i));
    let p = choose|p: int| 0 <= p < places.len() && places[p] == i;
    assert(sorted[p] == found[i]);
    assert(places.contains(places[0]));
    assert(sorted[0] == found[places[0]]);
    if p > 0 {
        assert(order::in_order(keys, places[0], places[p]));
    }
    if require_login {
        lemma_first_login(sorted);
        if sorted[0].login {
            assert(first_login(sorted) == Some(sorted[0]));
        } else {
            assert forall|j: int| 0 <= j < sorted.len() implies !(#[trigger] sorted[j]).login by {
                if j > 0 {
                    assert(order::in_order(keys, places[0], places[j]));
                    assert(places.contains(places[j]));
                }
            }
            lemma_no_login(sorted);
        }
    }
}

/// Where no header has the login cookie, none is found.
proof fn lemma_no_login(headers: Seq<Header>)
    requires
        forall|j: int| 0 <= j < headers.len() ==> !(#[trigger] headers[j]).login,
    ensures
        first_login(headers) is None,
    decreases headers.len(),
{
    if headers.len() > 0 {
        let rest = headers.drop_first();
        assert forall|j: int| 0 <= j < rest.len() implies !(#[trigger] rest[j]).login by {
            assert(rest[j] == headers[j + 1]);
        }
        lemma_no_login(rest);
    }
}

/// Whether two headers differ in the cookies themselves at most.
pub open spec fn alike(a: Header, b: Header) -> bool {
    a.source == b.source && a.count == b.count && a.login == b.login
}

/// What is said of headers tells nothing of the cookies themselves: headers that differ in them
/// alone are described by the same words.
pub proof fn descriptions_hide_the_cookies(left: Seq<Header>, right: Seq<Header>)
    requires
        left.len() == right.len(),
        forall|i: int| 0 <= i < left.len() ==> alike(#[trigger] left[i], right[i]),
    ensures
        diagnostics_of(left) == diagnostics_of(right),
        forall|i: int|
            0 <= i < left.len() ==> diagnostic_line(#[trigger] left[i]) == diagnostic_line(right[i])
                && summary_of(left[i]) == summary_of(right[i]),
{
    assert(header_details(left) =~= header_details(right));
}

/// A header without the login cookie is sent on demand only.
pub proof fn anonymous_headers_are_held_back(
    options: CookieOptions,
    read: CookieRead,
    now: u64,
    outcome: Result<CookieHeader, CookieError>,
)
    requires
        resolution(options, read, now, outcome),
        outcome is Ok,
    ensures
        options.allow_anonymous || outcome->Ok_0.has_login_cookie,
{
    if let CookieRead::Browsers(attempts) = read {
        lemma_first_login(ranked(found_headers(attempts@)));
    }
}

} // verus!
