//! Which cookies are sent, and what is said of them.

use zhihu_collection_export::cli::BrowserChoice;
use zhihu_collection_export::cookies::{
    auto_browser_order, best_auto_cookie_header, browser_diagnostic_line, build_cookie_header,
    build_cookie_header_at, cookie_diagnostic_line, cookie_diagnostics, cookie_summary,
    diagnose_browsers, diagnose_source, diagnosed_browsers, ensure_login_cookie,
    load_browser_cookie_header, load_browser_cookie_header_at, load_browser_cookies, plan_cookies,
    resolve_cookie_header, resolve_cookie_header_at, unix_now, zhihu_domains, BrowserCookie,
    CookieError, CookieHeader, CookieOptions, CookiePlan, CookieRead, LoadedCookies,
};
use zhihu_collection_export::firefox::{
    collect_firefox_cookie_dbs, firefox_cookie_db_candidates, firefox_profile_bases,
    firefox_profile_stores, load_firefox_cookies, push_cookie_db, ProfileStore, StoreRead,
};
use zhihu_collection_export::paths::{is_absolute, is_same_way, join_path};

fn cookie(domain: &str, path: &str, name: &str, value: &str, expires: Option<u64>) -> BrowserCookie {
    BrowserCookie {
        domain: domain.to_string(),
        path: path.to_string(),
        name: name.to_string(),
        value: value.to_string(),
        expires,
    }
}

fn header(source: &str, count: usize, login: bool) -> CookieHeader {
    CookieHeader {
        source: source.to_string(),
        value: format!("secret of {source}"),
        count,
        has_login_cookie: login,
    }
}

fn options() -> CookieOptions {
    CookieOptions {
        cookie: None,
        has_cookies_db: false,
        has_key_file: false,
        browser: BrowserChoice::Auto,
        allow_anonymous: false,
    }
}

fn given(raw: &str) -> CookieOptions {
    CookieOptions { cookie: Some(raw.to_string()), ..options() }
}

#[test]
fn sends_the_most_specific_cookie_of_each_name() {
    let cookies = vec![
        cookie(".zhihu.com", "/", "a", "wide", None),
        cookie("www.zhihu.com", "/", "a", "narrow", None),
        cookie("www.zhihu.com", "/path", "a", "narrowest", Some(101)),
        cookie("www.zhihu.com", "/longer/path", "a", "expired", Some(100)),
        cookie("example.com", "/", "b", "elsewhere", None),
        cookie("zhihu.com", "/", "", "nameless", None),
        cookie("zhihu.com", "/", "z_c0", "login", None),
        cookie("..zhihu.com", "/", "z_c0", "later", None),
    ];
    let header = build_cookie_header_at("Test", &cookies, 100).ok().unwrap();
    assert_eq!(header.source, "Test");
    assert_eq!(header.value, "a=narrowest; z_c0=login");
    assert_eq!(header.count, 2);
    assert!(header.has_login_cookie);
}

#[test]
fn a_source_without_usable_cookies_is_an_error() {
    let cookies = vec![cookie("zhihu.com", "/", "a", "1", Some(5))];
    let error = build_cookie_header_at("Test", &cookies, 5).err().unwrap();
    assert_eq!(error.message(), "Test 中没有可用的 zhihu.com Cookie");
    assert!(build_cookie_header_at("Test", &cookies, 4).is_ok());
    assert!(build_cookie_header("Test", &cookies).is_err());
    let lasting = vec![cookie("zhihu.com", "/", "a", "1", Some(u64::MAX))];
    assert_eq!(build_cookie_header("Test", &lasting).ok().unwrap().value, "a=1");
    assert!(unix_now() > 1_600_000_000);
}

#[test]
fn plans_where_to_read() {
    assert!(matches!(plan_cookies(&options()), Ok(CookiePlan::Browsers)));
    assert!(matches!(plan_cookies(&given("")), Ok(CookiePlan::Given)));
    let stored = CookieOptions { has_cookies_db: true, has_key_file: true, ..options() };
    assert!(matches!(plan_cookies(&stored), Ok(CookiePlan::Database)));
    let alone = CookieOptions { has_key_file: true, ..options() };
    assert_eq!(
        plan_cookies(&alone).err().unwrap().message(),
        "--key-file 只能和 --cookies-db 一起使用"
    );
    let one = CookieOptions { browser: BrowserChoice::Zen, ..options() };
    assert!(matches!(plan_cookies(&one), Ok(CookiePlan::Browser(BrowserChoice::Zen))));
}

#[test]
fn takes_the_header_from_the_command_line() {
    let taken = resolve_cookie_header_at(&given(" z_c0=1; x; y=2 "), CookieRead::Nothing, 0);
    let taken = taken.ok().unwrap();
    assert_eq!(taken.source, "--cookie");
    assert_eq!(taken.value, "z_c0=1; x; y=2");
    assert_eq!(taken.count, 2);
    assert!(taken.has_login_cookie);
    let empty = resolve_cookie_header_at(&given("  "), CookieRead::Nothing, 0);
    assert_eq!(empty.err().unwrap().message(), "--cookie 不能为空");
    let anonymous = resolve_cookie_header(&given("a=1"), CookieRead::Nothing).err().unwrap();
    assert!(anonymous.message().starts_with("--cookie 中没有 z_c0 登录 Cookie。"));
    let allowed = CookieOptions { allow_anonymous: true, ..given("a=1") };
    assert!(resolve_cookie_header(&allowed, CookieRead::Nothing).is_ok());
}

#[test]
fn only_a_cookie_of_that_name_is_a_login() {
    let other = resolve_cookie_header(&given("xz_c0=1"), CookieRead::Nothing).err().unwrap();
    assert!(matches!(other, CookieError::Anonymous(source) if source == "--cookie"));
    let value = resolve_cookie_header(&given("a=z_c0=1"), CookieRead::Nothing);
    assert!(value.is_err());
    for raw in ["a=1; z_c0=x", "z_c0=x", "a=1;z_c0=", " z_c0=x ;a"] {
        let taken = resolve_cookie_header(&given(raw), CookieRead::Nothing).ok().unwrap();
        assert!(taken.has_login_cookie);
        assert_eq!(taken.value, raw.trim());
    }
    assert!(diagnose_source(&given("xz_c0=1"), CookieRead::Nothing, 0)
        .ok()
        .unwrap()
        .ends_with("z_c0: no"));
    assert!(diagnose_source(&given("a=1; z_c0=x"), CookieRead::Nothing, 0)
        .ok()
        .unwrap()
        .ends_with("z_c0: yes"));
}

#[test]
fn cookies_of_other_domains_are_not_sent() {
    for domain in ["evilzhihu.com", ".evilzhihu.com", "zhihu.com.evil.org", "zhihu.co", ""] {
        let cookies = vec![cookie(domain, "/", "z_c0", "v", None)];
        let error = build_cookie_header("S", &cookies).err().unwrap();
        assert_eq!(error.message(), "S 中没有可用的 zhihu.com Cookie");
    }
    for domain in ["zhihu.com", ".zhihu.com", "www.zhihu.com", ".a.b.zhihu.com"] {
        let cookies = vec![cookie(domain, "/", "z_c0", "v", None)];
        assert_eq!(build_cookie_header("S", &cookies).ok().unwrap().value, "z_c0=v");
    }
}

#[test]
fn takes_the_header_from_a_store() {
    let stored = CookieOptions { has_cookies_db: true, ..options() };
    let read = CookieRead::Database(Ok(vec![cookie("zhihu.com", "/", "z_c0", "1", None)]));
    let taken = resolve_cookie_header_at(&stored, read, 0).ok().unwrap();
    assert_eq!(taken.source, "custom cookie DB");
    assert_eq!(taken.value, "z_c0=1");
    let failed = CookieRead::Database(Err("locked".to_string()));
    assert_eq!(
        resolve_cookie_header_at(&stored, failed, 0).err().unwrap().message(),
        "读取自定义 Cookie DB 失败: locked"
    );
    assert_eq!(
        resolve_cookie_header_at(&stored, CookieRead::Database(Ok(vec![])), 0)
            .err()
            .unwrap()
            .message(),
        "custom cookie DB 中没有可用的 zhihu.com Cookie"
    );
}

#[test]
fn takes_the_header_from_a_browser() {
    let one = CookieOptions { browser: BrowserChoice::Chrome, ..options() };
    let loaded = |name: &str| {
        load_browser_cookies(
            BrowserChoice::Chrome,
            Some(Ok(vec![cookie("zhihu.com", "/", name, "1", None)])),
        )
    };
    let taken = resolve_cookie_header_at(&one, CookieRead::Browser(loaded("z_c0")), 0);
    assert_eq!(taken.ok().unwrap().source, "Chrome");
    let held = resolve_cookie_header_at(&one, CookieRead::Browser(loaded("a")), 0);
    assert!(matches!(held, Err(CookieError::Anonymous(source)) if source == "Chrome"));
    let failed = load_browser_cookies(BrowserChoice::OperaGx, Some(Err("no".to_string())));
    assert_eq!(failed.err().unwrap().message(), "读取 OperaGx Cookie 失败: no");
    let elsewhere = load_browser_cookies(BrowserChoice::Safari, None);
    assert_eq!(elsewhere.err().unwrap().message(), "Safari Cookie 读取只支持 macOS");
    assert_eq!(
        load_browser_cookie_header_at(loaded("a"), 0).ok().unwrap().value,
        "a=1"
    );
    assert_eq!(load_browser_cookie_header(loaded("b")).ok().unwrap().value, "b=1");
}

#[test]
fn chooses_the_best_browser() {
    let attempts = || {
        vec![
            Ok(header("Chrome", 9, false)),
            Err(CookieError::NothingRead),
            Ok(header("Edge", 3, true)),
            Ok(header("Brave", 5, true)),
            Ok(header("Arc", 5, true)),
        ]
    };
    assert_eq!(best_auto_cookie_header(attempts(), true).ok().unwrap().source, "Brave");
    assert_eq!(best_auto_cookie_header(attempts(), false).ok().unwrap().source, "Brave");
    let anonymous = || vec![Ok(header("Edge", 3, false)), Ok(header("Chrome", 9, false))];
    assert_eq!(best_auto_cookie_header(anonymous(), false).ok().unwrap().source, "Chrome");
    let error = best_auto_cookie_header(anonymous(), true).err().unwrap();
    assert_eq!(
        error.message(),
        "没有找到包含 z_c0 的知乎登录 Cookie。\n已读取: Chrome: 9 个 Cookie, z_c0=no; Edge: 3 个 Cookie, z_c0=no\n请先确认浏览器已登录知乎，或使用 --cookie 手动传入 Cookie header。也可以运行 --diagnose-cookies 查看各浏览器状态。"
    );
    assert_eq!(
        best_auto_cookie_header(vec![], false).err().unwrap().message(),
        "没有找到 zhihu.com Cookie。请先在浏览器登录知乎，或使用 --cookie 手动传入 Cookie header。"
    );
    let read = CookieRead::Browsers(attempts());
    assert_eq!(resolve_cookie_header(&options(), read).ok().unwrap().source, "Brave");
}

#[test]
fn the_login_cookie_is_needed_unless_waived() {
    assert!(ensure_login_cookie(&header("A", 1, true), false).is_ok());
    assert!(ensure_login_cookie(&header("A", 1, false), true).is_ok());
    assert_eq!(
        ensure_login_cookie(&header("A", 1, false), false).err().unwrap().message(),
        "A 中没有 z_c0 登录 Cookie。知乎收藏夹接口通常需要登录态；请确认这个浏览器已登录知乎，或用 --cookie 手动传入包含 z_c0 的 Cookie header。需要强行匿名尝试时加 --allow-anonymous。"
    );
}

#[test]
fn descriptions_do_not_show_cookies() {
    let shown = header("Chrome", 7, true);
    assert_eq!(
        cookie_diagnostic_line(&shown),
        format!("{:<36} zhihu.com Cookie: {:>2}, z_c0: {}", "Chrome", 7, "yes")
    );
    assert_eq!(
        cookie_diagnostic_line(&header("Firefox (a path that is longer than the column)", 123, false)),
        "Firefox (a path that is longer than the column) zhihu.com Cookie: 123, z_c0: no"
    );
    assert_eq!(
        browser_diagnostic_line(BrowserChoice::Edge, &Err(CookieError::NothingRead)),
        format!("{:<36} 读取失败: {}", "Edge", "没有从任何浏览器读到 zhihu.com Cookie")
    );
    assert_eq!(
        cookie_summary(&shown),
        "使用 Chrome 的 zhihu.com Cookie（7 个，包含 登录 Cookie）"
    );
    assert_eq!(
        cookie_summary(&header("Edge", 1, false)),
        "使用 Edge 的 zhihu.com Cookie（1 个，未发现 登录 Cookie）"
    );
    assert_eq!(
        cookie_diagnostics(&vec![]),
        "已尝试的浏览器都没有读到 zhihu.com Cookie。"
    );
    let words = cookie_diagnostics(&vec![shown]);
    assert_eq!(words, "已读取: Chrome: 7 个 Cookie, z_c0=yes");
    assert!(!words.contains("secret"));
}

#[test]
fn diagnoses_sources_and_browsers() {
    assert_eq!(
        diagnose_source(&given("a=1"), CookieRead::Nothing, 0).ok().unwrap(),
        format!("{:<36} zhihu.com Cookie: {:>2}, z_c0: {}", "--cookie", 1, "no")
    );
    assert_eq!(
        diagnose_source(&given(""), CookieRead::Nothing, 0).err().unwrap().message(),
        "--cookie 不能为空"
    );
    let stored = CookieOptions { has_cookies_db: true, ..options() };
    let read = CookieRead::Database(Ok(vec![cookie("zhihu.com", "/", "z_c0", "1", None)]));
    assert_eq!(
        diagnose_source(&stored, read, 0).ok().unwrap(),
        format!("{:<36} zhihu.com Cookie: {:>2}, z_c0: {}", "custom cookie DB", 1, "yes")
    );
    let failed = CookieRead::Database(Err("x".to_string()));
    assert!(diagnose_source(&stored, failed, 0).is_err());
    assert_eq!(diagnosed_browsers(BrowserChoice::Auto).len(), 12);
    assert!(diagnosed_browsers(BrowserChoice::Auto) == auto_browser_order());
    assert!(diagnosed_browsers(BrowserChoice::Arc) == vec![BrowserChoice::Arc]);
    assert!(diagnose_browsers(&vec![Err(CookieError::NoCookie), Ok(header("A", 1, false))]).is_ok());
    assert_eq!(
        diagnose_browsers(&vec![Err(CookieError::NoCookie)]).err().unwrap().message(),
        "没有从任何浏览器读到 zhihu.com Cookie"
    );
    assert_eq!(zhihu_domains(), Some(vec!["zhihu.com".to_string()]));
}

#[test]
fn joins_and_compares_paths() {
    assert!(is_absolute("/a") && !is_absolute("a") && !is_absolute(""));
    assert_eq!(join_path("a", "b"), "a/b");
    assert_eq!(join_path("a/", "b"), "a/b");
    assert_eq!(join_path("", "b"), "b");
    assert_eq!(join_path("a", "/b"), "/b");
    assert_eq!(join_path("a", ""), "a/");
    assert!(is_same_way("/a/b", "/a//./b/"));
    assert!(is_same_way("a/b", "a/./b"));
    assert!(!is_same_way("/a", "a"));
    assert!(!is_same_way("./a", "a"));
    assert!(!is_same_way("a/../b", "b"));
    assert!(!is_same_way("/", ""));
    for (left, right) in [
        ("/a/b", "/a//./b/"),
        ("./a", "a"),
        ("./a", "././a"),
        ("a/../b", "b"),
        ("/", ""),
        ("/.", "/"),
        (".", ""),
        ("a/.", "a"),
    ] {
        assert_eq!(
            is_same_way(left, right),
            std::path::Path::new(left) == std::path::Path::new(right)
        );
        assert_eq!(
            join_path(left, right),
            std::path::Path::new(left).join(right).to_string_lossy()
        );
    }
}

#[test]
fn looks_for_the_profiles_of_firefox() {
    assert_eq!(
        firefox_profile_bases("/home/a"),
        vec![
            "/home/a/.config/mozilla/firefox",
            "/home/a/.mozilla/firefox",
            "/home/a/.var/app/org.mozilla.firefox/.mozilla/firefox",
            "/home/a/snap/firefox/common/.mozilla/firefox",
        ]
    );
    let ini = "[Profile0]\nName=x\n  Path= one \r\nPath=/abs/two\nIsRelative=1\nXPath=no\nPath=";
    assert_eq!(
        firefox_profile_stores("/f", Some(ini), &vec!["three".to_string(), "one".to_string()]),
        vec![
            "/f/one/cookies.sqlite",
            "/abs/two/cookies.sqlite",
            "/f/cookies.sqlite",
            "/f/three/cookies.sqlite",
            "/f/one/cookies.sqlite",
        ]
    );
    assert_eq!(
        firefox_profile_stores("/f", None, &vec!["one".to_string()]),
        vec!["/f/one/cookies.sqlite"]
    );
}

fn store(path: &str, exists: bool) -> ProfileStore {
    ProfileStore { path: path.to_string(), exists }
}

#[test]
fn tries_each_store_once() {
    let mut dbs = vec!["/a/b".to_string()];
    push_cookie_db("/a/./b".to_string(), true, &mut dbs);
    push_cookie_db("/a/c".to_string(), false, &mut dbs);
    assert_eq!(dbs, vec!["/a/b"]);
    push_cookie_db("/a/d".to_string(), true, &mut dbs);
    assert_eq!(dbs, vec!["/a/b", "/a/d"]);
    collect_firefox_cookie_dbs(vec![store("/a//d", true), store("/a/e", true)], &mut dbs);
    assert_eq!(dbs, vec!["/a/b", "/a/d", "/a/e"]);
    assert_eq!(
        firefox_cookie_db_candidates(vec![
            vec![store("/1", true), store("/2", false)],
            vec![store("/3", true), store("//1", true), store("/2", true)],
        ]),
        vec!["/1", "/3", "/2"]
    );
    assert!(firefox_cookie_db_candidates(vec![]).is_empty());
}

#[test]
fn falls_back_to_other_stores_of_firefox() {
    let some = |name: &str| vec![cookie("zhihu.com", "/", name, "1", None)];
    let read = |path: &str, cookies| StoreRead { path: path.to_string(), cookies };
    let found = load_firefox_cookies(Ok(some("a")), vec![]).ok().unwrap();
    assert_eq!(found.source, "Firefox");
    assert_eq!(found.cookies[0].name, "a");
    assert_eq!(
        load_firefox_cookies(Err("no".to_string()), vec![]).err().unwrap().message(),
        "读取 Firefox Cookie 失败: no; 未发现 fallback cookies.sqlite"
    );
    let found = load_firefox_cookies(
        Err("no".to_string()),
        vec![read("/1", Err("x".to_string())), read("/2", Ok(some("b")))],
    )
    .ok()
    .unwrap();
    assert_eq!(found.source, "Firefox (/2)");
    assert_eq!(found.cookies[0].name, "b");
    assert_eq!(
        load_firefox_cookies(
            Err("no".to_string()),
            vec![read("/1", Err("x".to_string())), read("/2", Err("y".to_string()))],
        )
        .err()
        .unwrap()
        .message(),
        "读取 Firefox Cookie 失败: no; fallback 也失败: /1: x | /2: y"
    );
    let loaded = LoadedCookies { source: "Firefox (/2)".to_string(), cookies: some("c") };
    assert_eq!(
        load_browser_cookie_header(Ok(loaded)).ok().unwrap().source,
        "Firefox (/2)"
    );
}
