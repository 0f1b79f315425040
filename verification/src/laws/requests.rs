//! What is asked of Zhihu, and what is made of the replies.

use vstd::prelude::*;

use crate::address;
use crate::retry;
use crate::text;
use crate::zhihu;
use crate::zhihu::{ApiReply, CollectionInfo, FetchStep};

verus! {

/// A pause lasts as long as the number of the attempt, from one, times the delay; 300 ms at least,
/// and no longer than can be said.
pub proof fn pauses_grow_with_the_attempts(delay_ms: u64, attempt: u32)
    ensures
        300 <= delay_ms * (attempt + 1) <= u64::MAX ==> retry::pause(delay_ms, attempt) == delay_ms
            * (attempt + 1),
        delay_ms * (attempt + 1) < 300 ==> retry::pause(delay_ms, attempt) == 300,
        delay_ms * (attempt + 1) > u64::MAX ==> retry::pause(delay_ms, attempt) == u64::MAX,
        delay_ms >= 300 ==> retry::pause(delay_ms, 0) == delay_ms,
{
    assert(delay_ms * (0 + 1) == delay_ms) by (nonlinear_arith);
}

/// The statuses from 200 to 299 report success. 429 and those from 500 to 599 report a trouble that
/// may pass. No status reports both.
pub proof fn statuses_are_told_apart(status: u16)
    ensures
        retry::successful(status) <==> status / 100 == 2,
        retry::transient(status) <==> status == 429 || status / 100 == 5,
        !(retry::successful(status) && retry::transient(status)),
{
}

/// A successful answer is read whole, whatever the attempt. Any other is refused with its status
/// and the beginning of its text, unless it may pass and attempts are left; a request that failed
/// is repeated while attempts are left. Each attempt but the last is followed by a pause.
pub proof fn replies_are_acted_upon(
    status: u16,
    answer: String,
    attempt: u32,
    retries: u32,
    delay_ms: u64,
    step: FetchStep,
)
    ensures
        zhihu::follows(ApiReply::Answer(status, answer), attempt, retries, delay_ms, step) ==> match
        step {
            FetchStep::Parse(read) => 200 <= status <= 299 && read == answer,
            FetchStep::Retry(pause) => (status == 429 || 500 <= status <= 599) && attempt < retries
                && pause == retry::pause(delay_ms, attempt),
            FetchStep::Refused(words) => !(200 <= status <= 299) && (attempt >= retries || !(status
                == 429 || 500 <= status <= 599)) && text::begins(
                words@,
                "HTTP "@ + text::decimal(status as nat),
            ) && text::ends(words@, zhihu::excerpt_of(answer@, 200)),
            FetchStep::Unanswered => false,
        },
        zhihu::follows(ApiReply::Failed, attempt, retries, delay_ms, step) ==> match step {
            FetchStep::Retry(pause) => attempt < retries && pause == retry::pause(
                delay_ms,
                attempt,
            ),
            FetchStep::Unanswered => attempt >= retries,
            _ => false,
        },
{
    let number = text::decimal(status as nat);
    let shown = zhihu::excerpt_of(answer@, 200);
    let words = zhihu::refusal(status, answer@);
    assert(words.take(("HTTP "@ + number).len() as int) =~= "HTTP "@ + number);
    assert(words.skip(words.len() - shown.len()) =~= shown);
}

/// A text that is cut short keeps its beginning, character by character, but for what would break
/// the line; three dots tell that it goes on. A short text is kept whole. What is said of an answer
/// that cannot be read ends with its beginning.
pub proof fn excerpts_keep_the_beginning(input: Seq<char>, max_chars: int)
    requires
        max_chars >= 0,
    ensures
        ({
            let shown = zhihu::excerpt_of(input, max_chars);
            &&& input.len() <= max_chars ==> shown.len() == input.len()
            &&& input.len() > max_chars ==> shown.len() == max_chars + 3 && shown.skip(max_chars)
                == seq!['.', '.', '.']
            &&& forall|i: int|
                0 <= i < input.len() && i < max_chars ==> #[trigger] shown[i] == (if input[i] == '\n'
                    || input[i] == '\r' || input[i] == '\t' {
                    ' '
                } else {
                    input[i]
                })
        }),
        text::ends(zhihu::misread(input), zhihu::excerpt_of(input, 200)),
{
    reveal_strlit("...");
    assert("..."@ =~= seq!['.', '.', '.']);
    let shown = zhihu::excerpt_of(input, max_chars);
    if input.len() > max_chars {
        assert(shown.skip(max_chars) =~= seq!['.', '.', '.']);
    }
    let words = zhihu::misread(input);
    let last = zhihu::excerpt_of(input, 200);
    assert(words.skip(words.len() - last.len()) =~= last);
}

/// A link that begins with two slashes gets `https:` in front, one that begins with one slash the
/// site, and any other stays as it is; white space around it goes.
pub proof fn links_are_made_absolute(rest: Seq<char>, other: Seq<char>)
    requires
        rest.len() > 0 ==> !text::white_space(rest.last()),
        other.len() > 0 ==> other[0] != '/',
        other.len() > 0 ==> !text::white_space(other.first()) && !text::white_space(other.last()),
    ensures
        zhihu::normalized_url(seq!['/', '/'] + rest) == "https:"@ + seq!['/', '/'] + rest,
        (rest.len() == 0 || rest[0] != '/') ==> zhihu::normalized_url(seq!['/'] + rest)
            == "https://www.zhihu.com"@ + seq!['/'] + rest,
        zhihu::normalized_url(other) == other,
{
    reveal_strlit("//");
    reveal_strlit("/");
    assert("//"@ =~= seq!['/', '/']);
    assert("/"@ =~= seq!['/']);
    let double = seq!['/', '/'] + rest;
    let single = seq!['/'] + rest;
    assert(!text::white_space('/'));
    text::lemma_trimmed_fixed(double);
    text::lemma_trimmed_fixed(single);
    if other.len() > 0 {
        text::lemma_trimmed_fixed(other);
    } else {
        text::lemma_trimmed(other);
        assert(text::trimmed(other) =~= other);
    }
    assert(double.take(2) =~= seq!['/', '/']);
    assert(zhihu::normalized_url(double) =~= "https:"@ + seq!['/', '/'] + rest);
    assert(single.take(1) =~= seq!['/']);
    if rest.len() == 0 || rest[0] != '/' {
        if text::begins(single, "//"@) {
            assert(single.take(2)[1] == '/');
        }
        assert(zhihu::normalized_url(single) =~= "https://www.zhihu.com"@ + seq!['/'] + rest);
    }
    if text::begins(other, "/"@) {
        assert(other.take(1)[0] == '/');
    }
    if text::begins(other, "//"@) {
        assert(other.take(2)[0] == '/');
    }
}

/// White space around a link does not count.
pub proof fn white_space_around_links_goes(raw: Seq<char>)
    ensures
        zhihu::normalized_url(raw) == zhihu::normalized_url(text::trimmed(raw)),
{
    text::trimming_is_idempotent(raw);
}

/// A page is asked for under the number of the collection, from the item of that number on, and for
/// so many items.
pub proof fn pages_are_asked_for_by_number(collection_id: Seq<char>, offset: u32, limit: u32)
    ensures
        zhihu::collection_address(collection_id) == "https://www.zhihu.com"@
            + "/api/v4/collections/"@ + collection_id,
        text::begins(
            zhihu::page_address(collection_id, offset, limit),
            zhihu::collection_address(collection_id) + "/items?"@,
        ),
        text::ends(
            zhihu::page_address(collection_id, offset, limit),
            "?offset="@ + text::decimal(offset as nat) + "&limit="@ + text::decimal(limit as nat),
        ),
        zhihu::page_address(collection_id, offset, limit).len() == zhihu::collection_address(
            collection_id,
        ).len() + 21 + text::decimal(offset as nat).len() + text::decimal(limit as nat).len(),
{
    reveal_strlit("/items?offset=");
    reveal_strlit("/items?");
    reveal_strlit("?offset=");
    reveal_strlit("&limit=");
    let page = zhihu::page_address(collection_id, offset, limit);
    let start = zhihu::collection_address(collection_id) + "/items?"@;
    let end = "?offset="@ + text::decimal(offset as nat) + "&limit="@ + text::decimal(
        limit as nat,
    );
    assert(page.take(start.len() as int) =~= start);
    assert(page.skip(page.len() - end.len()) =~= end);
}

/// The title of a collection is the one at the top; the one below counts only where there is none
/// at the top. White space around it goes, and a blank title is none.
pub proof fn titles_at_the_top_count(info: CollectionInfo)
    ensures
        info.title matches Some(title) ==> zhihu::title_of(info) == (if text::trimmed(title@).len()
            == 0 {
            None
        } else {
            Some(text::trimmed(title@))
        }),
        info.title is None ==> (match info.collection {
            Some(body) => zhihu::title_of(info) == zhihu::title_of(
                CollectionInfo { title: body.title, collection: None },
            ),
            None => zhihu::title_of(info) is None,
        }),
{
}

/// A number names the collection of that number, whatever else might be made of it.
pub proof fn numbers_name_collections(input: Seq<char>)
    requires
        text::all_digits(text::trimmed(input)),
    ensures
        zhihu::collection_in(input) == Some(text::trimmed(input)),
{
}

/// In a path, the number behind the first `collection` that has one names the collection; where no
/// path does, what looks like a collection anywhere in the input does.
pub proof fn paths_name_collections(
    input: Seq<char>,
    segments: Seq<Seq<char>>,
    at: int,
)
    requires
        !text::all_digits(text::trimmed(input)),
        match address::parsed_url(text::trimmed(input)) {
            Some(url) => match url.segments {
                Some(found) => found == segments,
                None => segments.len() == 0,
            },
            None => segments.len() == 0,
        },
        0 <= at <= segments.len(),
        forall|i: int|
            0 <= i < at && i + 1 < segments.len() ==> !(#[trigger] segments[i] == "collection"@
                && text::all_digits(segments[i + 1])),
    ensures
        at + 1 < segments.len() && segments[at] == "collection"@ && text::all_digits(
            segments[at + 1],
        ) ==> zhihu::collection_in(input) == Some(segments[at + 1]),
        at == segments.len() ==> zhihu::collection_in(input) == address::captured_group(
            "/collection/(\\d+)"@,
            text::trimmed(input),
            1,
        ),
{
    lemma_named_collection(segments, at);
}

/// The first pair that names a collection is found.
proof fn lemma_named_collection(segments: Seq<Seq<char>>, at: int)
    requires
        0 <= at <= segments.len(),
        forall|i: int|
            0 <= i < at && i + 1 < segments.len() ==> !(#[trigger] segments[i] == "collection"@
                && text::all_digits(segments[i + 1])),
    ensures
        at + 1 < segments.len() && segments[at] == "collection"@ && text::all_digits(
            segments[at + 1],
        ) ==> zhihu::named_collection(segments) == Some(segments[at + 1]),
        at == segments.len() ==> zhihu::named_collection(segments) is None,
    decreases segments.len(),
{
    if segments.len() >= 2 && at > 0 {
        let rest = segments.drop_first();
        assert(!(segments[0] == "collection"@ && text::all_digits(segments[1])));
        assert forall|i: int|
            0 <= i < at - 1 && i + 1 < rest.len() implies !(#[trigger] rest[i] == "collection"@
            && text::all_digits(rest[i + 1])) by {
            assert(rest[i] == segments[i + 1] && rest[i + 1] == segments[i + 2]);
        }
        lemma_named_collection(rest, at - 1);
    }
}

/// The requests to the API carry the cookies whole, under the name of `cookie` and nowhere else,
/// and name the collection as the page that they come from.
pub proof fn api_requests_carry_the_cookies(cookie: Seq<char>, collection_id: Seq<char>)
    ensures
        zhihu::api_headers(cookie, collection_id).contains(("cookie"@, cookie)),
        zhihu::api_headers(cookie, collection_id).contains(
            (
                "referer"@,
                "https://www.zhihu.com"@ + "/collection/"@ + collection_id,
            ),
        ),
        forall|other: Seq<char>, i: int|
            0 <= i < 4 ==> zhihu::api_headers(cookie, collection_id)[i]
                == #[trigger] zhihu::api_headers(other, collection_id)[i],
        zhihu::image_headers().contains(("referer"@, "https://www.zhihu.com"@)),
{
    let headers = zhihu::api_headers(cookie, collection_id);
    assert(headers[4] == ("cookie"@, cookie));
    assert(headers[3].0 == "referer"@);
    assert(zhihu::image_headers()[1].0 == "referer"@);
}

} // verus!
