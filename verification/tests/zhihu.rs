//! Requests to the API, and what its answers mean.

use zhihu_collection_export::address::ParsedUrl;
use zhihu_collection_export::retry::{backoff, is_success, should_retry};
use zhihu_collection_export::zhihu::{
    choose_collection, collection_title, collection_url, excerpt, fetch_step,
    image_request_headers, misread_message, normalize_zhihu_url, page_url, parse_collection_id,
    zhihu_headers, ApiReply, CollectionInfo, CollectionInfoBody, FetchStep, BROWSER_USER_AGENT,
};

#[test]
fn parses_collection_id_from_url() {
    assert_eq!(
        parse_collection_id("https://www.zhihu.com/collection/997879559").unwrap(),
        "997879559"
    );
    assert_eq!(parse_collection_id("997879559").unwrap(), "997879559");
}

#[test]
fn parses_nested_collection_title_response() {
    let value: serde_json::Value =
        serde_json::from_str(r#"{"collection":{"title":"Linux"}}"#).unwrap();
    let title = |value: &serde_json::Value| value["title"].as_str().map(str::to_string);
    let info = CollectionInfo {
        title: title(&value),
        collection: Some(CollectionInfoBody { title: title(&value["collection"]) }),
    };
    assert_eq!(collection_title(&info).unwrap(), "Linux");
    assert_eq!(info.collection.unwrap().title.unwrap(), "Linux");
}

#[test]
fn the_title_at_the_top_hides_the_other() {
    let info = |top: Option<&str>, below: Option<&str>| CollectionInfo {
        title: top.map(str::to_string),
        collection: Some(CollectionInfoBody { title: below.map(str::to_string) }),
    };
    assert_eq!(collection_title(&info(Some(" A "), Some("B"))).unwrap(), "A");
    assert_eq!(collection_title(&info(Some(" "), Some("B"))), None);
    assert_eq!(collection_title(&info(None, Some(" B "))).unwrap(), "B");
    assert_eq!(collection_title(&info(None, None)), None);
    assert_eq!(collection_title(&CollectionInfo { title: None, collection: None }), None);
}

#[test]
fn finds_the_collection_in_other_forms() {
    assert_eq!(parse_collection_id("  42  ").unwrap(), "42");
    assert_eq!(parse_collection_id("").unwrap(), "");
    assert_eq!(
        parse_collection_id("https://www.zhihu.com/x/collection/7/extra?page=2").unwrap(),
        "7"
    );
    // A path that names no number is searched like any other text.
    assert_eq!(
        parse_collection_id("https://www.zhihu.com/collection/7x").unwrap(),
        "7"
    );
    assert_eq!(parse_collection_id("see www.zhihu.com/collection/8 there").unwrap(), "8");
    assert_eq!(
        parse_collection_id(" https://www.zhihu.com/question/1 ").unwrap_err(),
        "无法从参数中解析收藏夹 ID:  https://www.zhihu.com/question/1 "
    );
}

#[test]
fn the_path_counts_before_the_rest() {
    let url = |segments: &[&str]| {
        Some(ParsedUrl {
            scheme: "https".to_string(),
            segments: Some(segments.iter().map(|segment| segment.to_string()).collect()),
        })
    };
    let found = || Some("9".to_string());
    assert_eq!(choose_collection("1", &url(&["collection", "2"]), found()).unwrap(), "1");
    assert_eq!(choose_collection("x", &url(&["collection", "2"]), found()).unwrap(), "2");
    assert_eq!(
        choose_collection("x", &url(&["collection", "a", "collection", "3"]), found()).unwrap(),
        "3"
    );
    assert_eq!(choose_collection("x", &url(&["collection"]), found()).unwrap(), "9");
    assert_eq!(choose_collection("x", &url(&["collection", ""]), found()).unwrap(), "");
    assert_eq!(choose_collection("x", &None, None), None);
    let opaque = Some(ParsedUrl { scheme: "data".to_string(), segments: None });
    assert_eq!(choose_collection("x", &opaque, found()).unwrap(), "9");
}

#[test]
fn asks_for_pages_and_titles() {
    assert_eq!(
        page_url("123", 40, 20),
        "https://www.zhihu.com/api/v4/collections/123/items?offset=40&limit=20"
    );
    assert_eq!(collection_url("123"), "https://www.zhihu.com/api/v4/collections/123");
}

#[test]
fn normalizes_links() {
    assert_eq!(normalize_zhihu_url(" //pic.example/a "), "https://pic.example/a");
    assert_eq!(normalize_zhihu_url("/question/1"), "https://www.zhihu.com/question/1");
    assert_eq!(normalize_zhihu_url(" a "), "a");
    for raw in ["//a", "/a", "a", "", " / "] {
        let once = normalize_zhihu_url(raw);
        assert_eq!(normalize_zhihu_url(&once), once);
    }
}

#[test]
fn excerpts_end_with_dots_where_text_is_left_out() {
    assert_eq!(excerpt("a\nb\rc\td", 10), "a b c d");
    assert_eq!(excerpt("一二三", 3), "一二三");
    assert_eq!(excerpt("一二三四", 3), "一二三...");
    assert_eq!(excerpt("a", 0), "...");
    assert_eq!(excerpt("", 0), "");
    assert_eq!(
        misread_message("<html>\n"),
        "解析 JSON 失败，响应前 200 字符: <html> "
    );
}

#[test]
fn decides_about_replies() {
    let answer = |status: u16| ApiReply::Answer(status, "body".to_string());
    assert!(matches!(fetch_step(answer(200), 0, 3, 800), FetchStep::Parse(text) if text == "body"));
    assert!(matches!(fetch_step(answer(429), 0, 3, 800), FetchStep::Retry(800)));
    assert!(matches!(fetch_step(answer(503), 2, 3, 800), FetchStep::Retry(2400)));
    assert!(matches!(
        fetch_step(answer(503), 3, 3, 800),
        FetchStep::Refused(words) if words == "HTTP 503，响应前 200 字符: body"
    ));
    assert!(matches!(
        fetch_step(answer(403), 0, 3, 800),
        FetchStep::Refused(words) if words == "HTTP 403，响应前 200 字符: body"
    ));
    assert!(matches!(fetch_step(ApiReply::Failed, 0, 1, 0), FetchStep::Retry(300)));
    assert!(matches!(fetch_step(ApiReply::Failed, 1, 1, 0), FetchStep::Unanswered));
}

#[test]
fn pauses_grow() {
    assert_eq!(backoff(0, 5), 300);
    assert_eq!(backoff(100, 1), 300);
    assert_eq!(backoff(800, 0), 800);
    assert_eq!(backoff(800, 2), 2400);
    assert_eq!(backoff(u64::MAX, 1), u64::MAX);
    assert_eq!(backoff(1, u32::MAX), 4294967296);
    assert!(should_retry(429) && should_retry(500) && should_retry(599));
    assert!(!should_retry(428) && !should_retry(499) && !should_retry(600));
    assert!(is_success(200) && is_success(299) && !is_success(199) && !is_success(300));
}

#[test]
fn only_api_requests_carry_cookies() {
    let headers = zhihu_headers("z_c0=1", "5");
    let pairs: Vec<(&str, &str)> =
        headers.iter().map(|header| (header.name, header.value.as_str())).collect();
    assert_eq!(
        pairs,
        vec![
            ("user-agent", BROWSER_USER_AGENT),
            ("accept", "application/json, text/plain, */*"),
            ("accept-language", "zh-CN,zh;q=0.9,en;q=0.8"),
            ("referer", "https://www.zhihu.com/collection/5"),
            ("cookie", "z_c0=1"),
        ]
    );
    assert_eq!(
        BROWSER_USER_AGENT,
        "Mozilla/5.0 (Windows NT 10.0; Win64; x64) AppleWebKit/537.36 \
         (KHTML, like Gecko) Chrome/125.0.0.0 Safari/537.36"
    );
    let headers = image_request_headers();
    let pairs: Vec<(&str, &str)> =
        headers.iter().map(|header| (header.name, header.value.as_str())).collect();
    assert_eq!(
        pairs,
        vec![
            ("user-agent", BROWSER_USER_AGENT),
            ("referer", "https://www.zhihu.com"),
            ("accept", "image/*"),
        ]
    );
}
