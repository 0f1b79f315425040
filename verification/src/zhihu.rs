//! What the Zhihu API is asked, and what its answers mean.

use vstd::prelude::*;

use crate::address;
use crate::address::ParsedUrl;
use crate::json::JsonValue;
use crate::retry;
use crate::text;

verus! {

/// The site that serves the API and the pages.
pub const ZHIHU_HOST: &'static str = "https://www.zhihu.com";

/// The absolute form of a link as Zhihu writes it.
pub open spec fn normalized_url(raw: Seq<char>) -> Seq<char> {
    let url = text::trimmed(raw);
    if text::begins(url, "//"@) {
        "https:"@ + url
    } else if text::begins(url, "/"@) {
        ZHIHU_HOST@ + url
    } else {
        url
    }
}

/// The absolute form of a link as Zhihu writes it: a link without a scheme gets `https:`, and a
/// path gets the site in front.
pub fn normalize_zhihu_url(raw: &str) -> (url: String)
    ensures
        url@ == normalized_url(raw@),
{
    let url = text::trim(raw);
    if text::starts_with(url.as_str(), "//") {
        text::concat2("https:", url.as_str())
    } else if text::starts_with(url.as_str(), "/") {
        text::concat2(ZHIHU_HOST, url.as_str())
    } else {
        url
    }
}

/// The browser that the requests name.
pub const BROWSER_USER_AGENT: &'static str =
    "Mozilla/5.0 (Windows NT 10.0; Win64; x64) AppleWebKit/537.36 (KHTML, like Gecko) Chrome/125.0.0.0 Safari/537.36";

/// One page of the items of a collection.
pub struct CollectionPage {
    pub data: Vec<CollectionItem>,
    pub paging: Option<Paging>,
}

/// Where a page stands in the collection.
pub struct Paging {
    /// How many items there are in all.
    pub totals: Option<u64>,
    /// Whether this is the last page.
    pub is_end: Option<bool>,
}

/// One item of a collection.
pub struct CollectionItem {
    /// What was collected; nothing where it was deleted or is hidden.
    pub content: Option<Content>,
}

/// What was collected.
pub struct Content {
    pub id: Option<JsonValue>,
    pub kind: Option<String>,
    pub url: Option<String>,
    pub title: Option<String>,
    pub excerpt_title: Option<String>,
    pub content: Option<JsonValue>,
    pub excerpt: Option<String>,
    pub question: Option<Question>,
    pub author: Option<Author>,
    pub created_time: Option<i64>,
    pub updated_time: Option<i64>,
}

/// The question that an answer belongs to.
pub struct Question {
    pub id: Option<JsonValue>,
    pub title: Option<String>,
    pub url: Option<String>,
}

/// Who wrote it.
pub struct Author {
    pub name: Option<String>,
    pub headline: Option<String>,
    pub url_token: Option<String>,
}

/// What the API says of a collection.
pub struct CollectionInfo {
    pub title: Option<String>,
    pub collection: Option<CollectionInfoBody>,
}

/// What the API says of a collection, one level down.
pub struct CollectionInfoBody {
    pub title: Option<String>,
}

/// Where a page of the items is asked for.
pub open spec fn page_address(collection_id: Seq<char>, offset: u32, limit: u32) -> Seq<char> {
    collection_address(collection_id) + "/items?offset="@ + text::decimal(offset as nat)
        + "&limit="@ + text::decimal(limit as nat)
}

/// Where the collection itself is asked for.
pub open spec fn collection_address(collection_id: Seq<char>) -> Seq<char> {
    ZHIHU_HOST@ + "/api/v4/collections/"@ + collection_id
}

/// Where the collection itself is asked for.
pub fn collection_url(collection_id: &str) -> (url: String)
    ensures
        url@ == collection_address(collection_id@),
{
    text::concat3(ZHIHU_HOST, "/api/v4/collections/", collection_id)
}

/// Where a page of the items is asked for.
pub fn page_url(collection_id: &str, offset: u32, limit: u32) -> (url: String)
    ensures
        url@ == page_address(collection_id@, offset, limit),
{
    text::concat5(
        collection_url(collection_id).as_str(),
        "/items?offset=",
        text::decimal_text(offset as u64).as_str(),
        "&limit=",
        text::decimal_text(limit as u64).as_str(),
    )
}

/// The title that the API gives: the one at the top hides the one below.
pub open spec fn given_title(info: CollectionInfo) -> Option<Seq<char>> {
    if info.title is Some {
        text::opt_text(info.title)
    } else {
        match info.collection {
            Some(body) => text::opt_text(body.title),
            None => None,
        }
    }
}

/// The title of a collection, if the API gives one that is not blank.
pub open spec fn title_of(info: CollectionInfo) -> Option<Seq<char>> {
    match given_title(info) {
        Some(given) => if text::blank(given) {
            None
        } else {
            Some(text::trimmed(given))
        },
        None => None,
    }
}

/// The title of a collection, if the API gives one that is not blank.
pub fn collection_title(info: &CollectionInfo) -> (title: Option<String>)
    ensures
        text::opt_text(title) == title_of(*info),
{
    let given = match &info.title {
        Some(title) => Some(title),
        None => match &info.collection {
            Some(body) => body.title.as_ref(),
            None => None,
        },
    };
    match given {
        Some(title) => if text::is_blank(title.as_str()) {
            None
        } else {
            Some(text::trim(title.as_str()))
        },
        None => None,
    }
}

/// A character of an excerpt: what breaks a line becomes a blank.
pub open spec fn flat_char(c: char) -> char {
    if c == '\n' || c == '\r' || c == '\t' {
        ' '
    } else {
        c
    }
}

/// The beginning of a text on one line.
pub open spec fn excerpt_of(input: Seq<char>, max_chars: int) -> Seq<char> {
    let cleaned = input.map_values(|c: char| flat_char(c));
    if cleaned.len() > max_chars {
        cleaned.take(max_chars) + "..."@
    } else {
        cleaned
    }
}

/// The beginning of a text on one line: at most `max_chars` characters, and three dots where the
/// text goes on.
pub fn excerpt(input: &str, max_chars: usize) -> (result: String)
    ensures
        result@ == excerpt_of(input@, max_chars as int),
{
    let chars = text::to_chars(input);
    let ghost cleaned = input@.map_values(|c: char| flat_char(c));
    let mut result = String::new();
    let mut i: usize = 0;
    assert(result@ =~= cleaned.take(0));
    while i < chars.len() && i < max_chars
        invariant
            i <= chars@.len(),
            i <= max_chars,
            chars@ == input@,
            cleaned == input@.map_values(|c: char| flat_char(c)),
            result@ == cleaned.take(i as int),
        decreases chars@.len() - i,
    {
        let c = chars[i];
        result.push(if c == '\n' || c == '\r' || c == '\t' {
            ' '
        } else {
            c
        });
        assert(result@ =~= cleaned.take(i + 1));
        i = i + 1;
    }
    if chars.len() > max_chars {
        text::concat2(result.as_str(), "...")
    } else {
        assert(cleaned.take(i as int) =~= cleaned);
        result
    }
}

/// A link in its absolute form stays as it is.
pub proof fn normalizing_is_idempotent(raw: Seq<char>)
    ensures
        normalized_url(normalized_url(raw)) == normalized_url(raw),
{
    reveal_strlit("//");
    reveal_strlit("/");
    reveal_strlit("https:");
    reveal_strlit("https://www.zhihu.com");
    let url = text::trimmed(raw);
    let result = normalized_url(raw);
    text::lemma_trimmed(raw);
    if text::begins(url, "//"@) || text::begins(url, "/"@) {
        assert(url.len() > 0);
        assert(result.first() == 'h');
        assert(result.last() == url.last());
        assert(!text::white_space('h'));
        text::lemma_trimmed_fixed(result);
        assert(result.take(1)[0] == 'h');
        assert(result.take(2)[0] == 'h');
        assert("/"@[0] == '/');
        assert("//"@[0] == '/');
    } else {
        text::lemma_trimmed_fixed(result);
    }
}

/// An excerpt stands on one line and is short.
pub proof fn excerpts_are_short(input: Seq<char>, max_chars: int)
    requires
        max_chars >= 0,
    ensures
        excerpt_of(input, max_chars).len() <= max_chars + 3,
        forall|i: int|
            0 <= i < excerpt_of(input, max_chars).len() ==> {
                let c = #[trigger] excerpt_of(input, max_chars)[i];
                c != '\n' && c != '\r' && c != '\t'
            },
{
    reveal_strlit("...");
}

/// What came back from the API.
pub enum ApiReply {
    /// An answer with its status and its text.
    Answer(u16, String),
    /// Nothing: the request failed.
    Failed,
}

/// What to do about a reply of the API.
pub enum FetchStep {
    /// Read the text as JSON.
    Parse(String),
    /// Ask again after so many milliseconds.
    Retry(u64),
    /// Give up: the answer was an error, in words.
    Refused(String),
    /// Give up: there was no answer.
    Unanswered,
}

/// What is said of an answer that reports an error.
pub open spec fn refusal(status: u16, answer: Seq<char>) -> Seq<char> {
    "HTTP "@ + text::decimal(status as nat) + "，响应前 200 字符: "@ + excerpt_of(answer, 200)
}

/// What is said of an answer that is no JSON of the expected form.
pub open spec fn misread(answer: Seq<char>) -> Seq<char> {
    "解析 JSON 失败，响应前 200 字符: "@ + excerpt_of(answer, 200)
}

/// Whether that is to be done about the reply to the attempt of that number, which counts from zero.
pub open spec fn follows(
    reply: ApiReply,
    attempt: u32,
    retries: u32,
    delay_ms: u64,
    step: FetchStep,
) -> bool {
    match reply {
        ApiReply::Answer(status, answer) => if retry::successful(status) {
            step == FetchStep::Parse(answer)
        } else if retry::transient(status) && attempt < retries {
            step == FetchStep::Retry(retry::pause(delay_ms, attempt))
        } else {
            step matches FetchStep::Refused(words) && words@ == refusal(status, answer@)
        },
        ApiReply::Failed => if attempt < retries {
            step == FetchStep::Retry(retry::pause(delay_ms, attempt))
        } else {
            step == FetchStep::Unanswered
        },
    }
}

/// What is to be done about the reply to the attempt of that number, which counts from zero: an
/// answer is read, a trouble that may pass is met with another attempt while there are some left,
/// and anything else is final.
pub fn fetch_step(reply: ApiReply, attempt: u32, retries: u32, delay_ms: u64) -> (step: FetchStep)
    ensures
        follows(reply, attempt, retries, delay_ms, step),
        step is Retry ==> attempt < retries,
{
    match reply {
        ApiReply::Answer(status, answer) => if retry::is_success(status) {
            FetchStep::Parse(answer)
        } else if retry::should_retry(status) && attempt < retries {
            FetchStep::Retry(retry::backoff(delay_ms, attempt))
        } else {
            FetchStep::Refused(
                text::concat4(
                    "HTTP ",
                    text::decimal_text(status as u64).as_str(),
                    "，响应前 200 字符: ",
                    excerpt(answer.as_str(), 200).as_str(),
                ),
            )
        },
        ApiReply::Failed => if attempt < retries {
            FetchStep::Retry(retry::backoff(delay_ms, attempt))
        } else {
            FetchStep::Unanswered
        },
    }
}

/// What is said of an answer that is no JSON of the expected form.
pub fn misread_message(answer: &str) -> (words: String)
    ensures
        words@ == misread(answer@),
{
    text::concat2("解析 JSON 失败，响应前 200 字符: ", excerpt(answer, 200).as_str())
}

/// A header of a request.
pub struct RequestHeader {
    pub name: &'static str,
    pub value: String,
}

/// What a list of headers stands for: names and values.
pub open spec fn header_pairs(headers: Seq<RequestHeader>) -> Seq<(Seq<char>, Seq<char>)> {
    Seq::new(headers.len(), |i: int| (headers[i].name@, headers[i].value@))
}

/// The headers of the requests to the API, which carry the cookies.
pub open spec fn api_headers(cookie: Seq<char>, collection_id: Seq<char>) -> Seq<
    (Seq<char>, Seq<char>),
> {
    seq![
        ("user-agent"@, BROWSER_USER_AGENT@),
        ("accept"@, "application/json, text/plain, */*"@),
        ("accept-language"@, "zh-CN,zh;q=0.9,en;q=0.8"@),
        ("referer"@, ZHIHU_HOST@ + "/collection/"@ + collection_id),
        ("cookie"@, cookie),
    ]
}

/// The headers of the requests for images, which carry no cookies: they go to other hosts.
pub open spec fn image_headers() -> Seq<(Seq<char>, Seq<char>)> {
    seq![
        ("user-agent"@, BROWSER_USER_AGENT@),
        ("referer"@, ZHIHU_HOST@),
        ("accept"@, "image/*"@),
    ]
}

/// The headers of the requests to the API.
pub fn zhihu_headers(cookie_header: &str, collection_id: &str) -> (headers: Vec<RequestHeader>)
    ensures
        header_pairs(headers@) == api_headers(cookie_header@, collection_id@),
{
    let headers: Vec<RequestHeader> = vec![
        RequestHeader { name: "user-agent", value: BROWSER_USER_AGENT.to_owned() },
        RequestHeader { name: "accept", value: "application/json, text/plain, */*".to_owned() },
        RequestHeader { name: "accept-language", value: "zh-CN,zh;q=0.9,en;q=0.8".to_owned() },
        RequestHeader {
            name: "referer",
            value: text::concat3(ZHIHU_HOST, "/collection/", collection_id),
        },
        RequestHeader { name: "cookie", value: cookie_header.to_owned() },
    ];
    assert(header_pairs(headers@) =~= api_headers(cookie_header@, collection_id@));
    headers
}

/// The headers of the requests for images.
pub fn image_request_headers() -> (headers: Vec<RequestHeader>)
    ensures
        header_pairs(headers@) == image_headers(),
{
    let headers: Vec<RequestHeader> = vec![
        RequestHeader { name: "user-agent", value: BROWSER_USER_AGENT.to_owned() },
        RequestHeader { name: "referer", value: ZHIHU_HOST.to_owned() },
        RequestHeader { name: "accept", value: "image/*".to_owned() },
    ];
    assert(header_pairs(headers@) =~= image_headers());
    headers
}

/// A request for an image carries neither cookies nor credentials.
pub proof fn image_requests_are_anonymous(i: int)
    requires
        0 <= i < image_headers().len(),
    ensures
        image_headers()[i].0 != "cookie"@,
        image_headers()[i].0 != "authorization"@,
{
    reveal_strlit("user-agent");
    reveal_strlit("referer");
    reveal_strlit("accept");
    reveal_strlit("cookie");
    reveal_strlit("authorization");
    assert("user-agent"@.len() == 10);
    assert("referer"@.len() == 7);
    assert("accept"@[0] == 'a');
    assert("cookie"@[0] == 'c');
    assert("authorization"@.len() == 13);
}

/// The name of the collection in a path: the number after the first `collection` that has one.
pub open spec fn named_collection(segments: Seq<Seq<char>>) -> Option<Seq<char>>
    decreases segments.len(),
{
    if segments.len() < 2 {
        None
    } else if segments[0] == "collection"@ && text::all_digits(segments[1]) {
        Some(segments[1])
    } else {
        named_collection(segments.drop_first())
    }
}

/// The collection that the argument names, where `url` is the argument as a URL and `found` is
/// what looks like a collection anywhere in it.
pub open spec fn chosen_collection(
    argument: Seq<char>,
    url: Option<address::UrlParts>,
    found: Option<Seq<char>>,
) -> Option<Seq<char>> {
    let in_path = match url {
        Some(url) => match url.segments {
            Some(segments) => named_collection(segments),
            None => None,
        },
        None => None,
    };
    if text::all_digits(argument) {
        Some(argument)
    } else if in_path is Some {
        in_path
    } else {
        found
    }
}

/// The pattern of a collection in a text.
pub const COLLECTION_PATTERN: &'static str = "/collection/(\\d+)";

/// The number after the first `collection` that has one.
fn find_named_collection(segments: &Vec<String>) -> (id: Option<String>)
    ensures
        text::opt_text(id) == named_collection(text::texts(segments@)),
{
    let ghost all = text::texts(segments@);
    let mut i: usize = 0;
    assert(all.skip(0) =~= all);
    while segments.len() - i >= 2
        invariant
            i <= segments@.len(),
            all == text::texts(segments@),
            named_collection(all) == named_collection(all.skip(i as int)),
        decreases segments@.len() - i,
    {
        assert(all.skip(i as int).drop_first() =~= all.skip(i + 1));
        if text::same(segments[i].as_str(), "collection") && text::is_all_digits(
            segments[i + 1].as_str(),
        ) {
            return Some(segments[i + 1].clone());
        }
        i = i + 1;
    }
    None
}

/// The collection that the argument names: the number that it is, or else the number that its path
/// names, or else what looks like a collection in it.
pub fn choose_collection(argument: &str, url: &Option<ParsedUrl>, found: Option<String>) -> (id:
    Option<String>)
    ensures
        text::opt_text(id) == chosen_collection(
            argument@,
            address::opt_parts(*url),
            text::opt_text(found),
        ),
{
    if text::is_all_digits(argument) {
        return Some(argument.to_owned());
    }
    if let Some(url) = url {
        if let Some(segments) = &url.segments {
            if let Some(id) = find_named_collection(segments) {
                return Some(id);
            }
        }
    }
    found
}

/// The collection that the input names, where white space around it does not count.
pub open spec fn collection_in(input: Seq<char>) -> Option<Seq<char>> {
    let argument = text::trimmed(input);
    chosen_collection(
        argument,
        address::parsed_url(argument),
        address::captured_group(COLLECTION_PATTERN@, argument, 1),
    )
}

/// The number of the collection that the argument names, a number or an address.
pub fn parse_collection_id(input: &str) -> (id: Result<String, String>)
    ensures
        match id {
            Ok(id) => collection_in(input@) == Some(id@),
            Err(words) => collection_in(input@) is None && words@ == "无法从参数中解析收藏夹 ID: "@
                + input@,
        },
{
    let argument = text::trim(input);
    let url = address::parse_url(argument.as_str());
    let found = address::capture_group(COLLECTION_PATTERN, argument.as_str(), 1);
    match choose_collection(argument.as_str(), &url, found) {
        Some(id) => Ok(id),
        None => Err(text::concat2("无法从参数中解析收藏夹 ID: ", input)),
    }
}

} // verus!
