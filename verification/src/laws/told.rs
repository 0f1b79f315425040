//! What is told to the reader.

use vstd::prelude::*;

use crate::cli::BrowserChoice;
use crate::cookies;
use crate::cookies::{CookieError, CookieHeader, Header};
use crate::export;
use crate::export::Progress;
use crate::images::ImageError;
use crate::laws::contents;
use crate::text;
use crate::zhihu::Paging;

verus! {

/// What ends a text is found at its end, and what begins it at its beginning.
proof fn lemma_ends(first: Seq<char>, second: Seq<char>)
    ensures
        text::begins(first + second, first),
        text::ends(first + second, second),
{
    assert((first + second).take(first.len() as int) =~= first);
    assert((first + second).skip(first.len() as int) =~= second);
}

/// An error names where it arose, or why, and neither is cut short.
pub proof fn errors_tell_their_reason(
    source: String,
    reason: String,
    others: String,
    browser: BrowserChoice,
)
    ensures
        text::begins(CookieError::NoUsableCookie(source).words(), source@),
        text::begins(CookieError::Anonymous(source).words(), source@),
        text::ends(CookieError::DatabaseFailed(reason).words(), reason@),
        text::ends(CookieError::BrowserFailed(browser, reason).words(), reason@),
        text::begins(
            CookieError::BrowserFailed(browser, reason).words(),
            "读取 "@ + browser.label() + " Cookie 失败: "@,
        ),
        text::begins(
            CookieError::FirefoxFailed(reason).words(),
            "读取 Firefox Cookie 失败: "@ + reason@,
        ),
        text::begins(
            CookieError::FirefoxStoresFailed(reason, others).words(),
            "读取 Firefox Cookie 失败: "@ + reason@,
        ),
        text::ends(CookieError::FirefoxStoresFailed(reason, others).words(), others@),
        text::occurs(others@, CookieError::NoLoginCookie(others).words()),
        text::ends(ImageError::NotAnImage(reason).words(), reason@),
{
    lemma_ends(source@, " 中没有可用的 zhihu.com Cookie"@);
    lemma_ends(
        source@,
        " 中没有 z_c0 登录 Cookie。知乎收藏夹接口通常需要登录态；请确认这个浏览器已登录知乎，或用 --cookie 手动传入包含 z_c0 的 Cookie header。需要强行匿名尝试时加 --allow-anonymous。"@,
    );
    lemma_ends("读取自定义 Cookie DB 失败: "@, reason@);
    lemma_ends("读取 "@ + browser.label() + " Cookie 失败: "@, reason@);
    let failed = "读取 Firefox Cookie 失败: "@ + reason@;
    lemma_ends(failed, "; 未发现 fallback cookies.sqlite"@);
    lemma_ends(failed, "; fallback 也失败: "@ + others@);
    assert(CookieError::FirefoxStoresFailed(reason, others).words() =~= failed + (
    "; fallback 也失败: "@ + others@));
    lemma_ends(failed + "; fallback 也失败: "@, others@);
    text::lemma_occurs(
        "没有找到包含 z_c0 的知乎登录 Cookie。\n"@,
        others@,
        "\n请先确认浏览器已登录知乎，或使用 --cookie 手动传入 Cookie header。也可以运行 --diagnose-cookies 查看各浏览器状态。"@,
    );
    lemma_ends("响应不是图片: "@, reason@);
}

/// What is said of a header names its source and the number of its cookies, and tells whether the
/// login cookie is among them.
pub proof fn headers_are_described(header: Header)
    ensures
        text::begins(
            cookies::header_detail(header),
            header.source + ": "@ + text::decimal(header.count as nat),
        ),
        text::begins(cookies::diagnostic_line(header), header.source),
        header.login ==> text::ends(cookies::header_detail(header), "z_c0=yes"@) && text::ends(
            cookies::diagnostic_line(header),
            "z_c0: yes"@,
        ),
        !header.login ==> text::ends(cookies::header_detail(header), "z_c0=no"@) && text::ends(
            cookies::diagnostic_line(header),
            "z_c0: no"@,
        ),
        text::occurs(text::decimal(header.count as nat), cookies::diagnostic_line(header)),
        text::begins(
            cookies::summary_of(header),
            "使用 "@ + header.source + " 的 zhihu.com Cookie（"@ + text::decimal(
                header.count as nat,
            ) + " 个，"@,
        ),
        header.login ==> text::ends(cookies::summary_of(header), "包含 登录 Cookie）"@),
        !header.login ==> text::ends(cookies::summary_of(header), "未发现 登录 Cookie）"@),
{
    let count = text::decimal(header.count as nat);
    let word = cookies::yes_no(header.login);
    reveal_strlit("yes");
    reveal_strlit("no");
    reveal_strlit(" 个 Cookie, z_c0=");
    reveal_strlit(", z_c0: ");
    reveal_strlit("z_c0=yes");
    reveal_strlit("z_c0=no");
    reveal_strlit("z_c0: yes");
    reveal_strlit("z_c0: no");
    reveal_strlit("包含 ");
    reveal_strlit("未发现 ");
    reveal_strlit("登录 Cookie）");
    reveal_strlit("包含 登录 Cookie）");
    reveal_strlit("未发现 登录 Cookie）");
    let front = header.source + ": "@ + count;
    let detail = cookies::header_detail(header);
    lemma_ends(front, " 个 Cookie, z_c0="@ + word);
    assert(detail =~= front + (" 个 Cookie, z_c0="@ + word));
    let line = cookies::diagnostic_line(header);
    let padded = text::padded_end(header.source, 36);
    let number = text::padded_start(count, ' ', 2);
    lemma_ends(
        header.source,
        text::repeated(' ', 36 - header.source.len()) + " zhihu.com Cookie: "@ + number
            + ", z_c0: "@ + word,
    );
    assert(line =~= header.source + (text::repeated(' ', 36 - header.source.len())
        + " zhihu.com Cookie: "@ + number + ", z_c0: "@ + word));
    text::lemma_occurs(
        padded + " zhihu.com Cookie: "@ + text::repeated(' ', 2 - count.len()),
        count,
        ", z_c0: "@ + word,
    );
    assert(line =~= padded + " zhihu.com Cookie: "@ + text::repeated(' ', 2 - count.len()) + count
        + (", z_c0: "@ + word));
    let said = if header.login {
        "z_c0=yes"@
    } else {
        "z_c0=no"@
    };
    let shown = if header.login {
        "z_c0: yes"@
    } else {
        "z_c0: no"@
    };
    assert(detail.skip(detail.len() - said.len()) =~= said);
    assert(line.skip(line.len() - shown.len()) =~= shown);
    let summary = cookies::summary_of(header);
    let start = "使用 "@ + header.source + " 的 zhihu.com Cookie（"@ + count + " 个，"@;
    let end = if header.login {
        "包含 登录 Cookie）"@
    } else {
        "未发现 登录 Cookie）"@
    };
    assert(summary.take(start.len() as int) =~= start);
    assert(summary.skip(summary.len() - end.len()) =~= end);
}

/// What was found in the browsers is told of each header, in order.
pub proof fn every_header_is_described(first: Seq<Header>, second: Seq<Header>)
    requires
        first.len() > 0,
        second.len() > 0,
    ensures
        cookies::diagnostics_of(first + second) == cookies::diagnostics_of(first) + seq![';', ' ']
            + text::joined(cookies::header_details(second), "; "@),
        cookies::header_details(second).len() == second.len(),
        cookies::header_details(second)[0] == cookies::header_detail(second[0]),
{
    reveal_strlit("; ");
    assert("; "@ =~= seq![';', ' ']);
    let left = cookies::header_details(first);
    let right = cookies::header_details(second);
    contents::lemma_joined_concat(left, right, "; "@);
    assert(cookies::header_details(first + second) =~= left + right);
    assert(cookies::diagnostics_of(first + second) =~= cookies::diagnostics_of(first)
        + seq![';', ' '] + text::joined(right, "; "@));
}

/// Each browser is called by its name.
pub proof fn browsers_have_names()
    ensures
        BrowserChoice::Chrome.label() == "Chrome"@,
        BrowserChoice::Chromium.label() == "Chromium"@,
        BrowserChoice::Edge.label() == "Edge"@,
        BrowserChoice::Brave.label() == "Brave"@,
        BrowserChoice::Firefox.label() == "Firefox"@,
        BrowserChoice::LibreWolf.label() == "LibreWolf"@,
        BrowserChoice::Vivaldi.label() == "Vivaldi"@,
        BrowserChoice::Opera.label() == "Opera"@,
        BrowserChoice::OperaGx.label() == "OperaGx"@,
        BrowserChoice::Arc.label() == "Arc"@,
        BrowserChoice::Zen.label() == "Zen"@,
        BrowserChoice::Safari.label() == "Safari"@,
{
}

/// A browser is reported by what it gave: a header as such, an error under the name of the browser
/// and whole.
pub proof fn browsers_are_reported(
    browser: BrowserChoice,
    header: CookieHeader,
    error: CookieError,
)
    ensures
        cookies::browser_line(browser, Ok(header)) == cookies::diagnostic_line(header@),
        text::begins(cookies::browser_line(browser, Err(error)), browser.label()),
        text::ends(cookies::browser_line(browser, Err(error)), error.words()),
{
    let line = cookies::browser_line(browser, Err(error));
    lemma_ends(text::padded_end(browser.label(), 36) + " 读取失败: "@, error.words());
    assert(line.take(browser.label().len() as int) =~= browser.label());
}

/// How many items there are is told before the first page, and again until it is known.
pub proof fn totals_are_told_until_known(progress: Progress, paging: Option<Paging>, total: u64)
    ensures
        progress.total is Some ==> export::opening_words(progress, paging) is None,
        progress.total is None && paging is Some && paging->0.totals == Some(total)
            ==> export::opening_words(progress, paging) == Some(
            "收藏夹共 "@ + text::decimal(total as nat) + " 条，开始分页导出"@,
        ),
        progress.total is None && (paging is None || paging->0.totals is None)
            ==> export::opening_words(progress, paging) == Some(
            "未拿到总数，按分页结束标记导出"@,
        ),
{
}

/// The progress tells how many items there are so far, and how many in all where that is known.
pub proof fn progress_is_told(progress: Progress, total: u64)
    ensures
        export::progress_words(Progress { total: None, ..progress }) == "已处理 "@ + text::decimal(
            progress.entries.len(),
        ),
        export::progress_words(Progress { total: Some(total), ..progress }) == "已处理 "@
            + text::decimal(progress.entries.len()) + seq!['/'] + text::decimal(total as nat),
        text::occurs(text::decimal(total as nat), export::total_words(Some(total))),
{
    reveal_strlit("/");
    assert("/"@ =~= seq!['/']);
    text::lemma_occurs("收藏夹共 "@, text::decimal(total as nat), " 条，开始分页导出"@);
}

} // verus!
