//! From HTML to Markdown.

use zhihu_collection_export::cli::ImageMode;
use zhihu_collection_export::images::ImageExporter;
use zhihu_collection_export::html::{build_tree, parse_document, HtmlData, HtmlEdge};
use zhihu_collection_export::markdown::{
    blockquote, cleanup_inline, cleanup_markdown, heading, html_to_markdown, markdown_image,
    paragraph, render_document, wrap_inline,
};

fn converted(html: &str) -> String {
    html_to_markdown(html, &ImageExporter::new(ImageMode::Remote))
}

#[test]
fn converts_elements() {
    assert_eq!(converted(" "), "");
    assert_eq!(converted("a<br>b"), "a\nb");
    assert_eq!(converted("<h2>t</h2><p>a</p><hr><p>b</p>"), "## t\n\na\n\n---\n\nb");
    assert_eq!(converted("<em>a</em> <i>b</i> <del>c</del>"), "*a* *b* ~~c~~");
    assert_eq!(converted("<code>a`b</code>"), "`a\\`b`");
    assert_eq!(converted("<pre>a\n  b</pre>"), "```\na\n  b\n```");
    assert_eq!(converted("a<script>x</script><style>y</style>b"), "ab");
}

#[test]
fn converted_html_is_tidy() {
    let markdown = converted("<p> </p><p>a\u{200b} </p><br><br><br><p>b</p><br>");
    assert_eq!(markdown, "a\n\nb");
    assert_eq!(cleanup_markdown(&markdown), markdown);
}

#[test]
fn converts_links() {
    assert_eq!(converted("<a href=\"/q\">t</a>"), "[t](https://www.zhihu.com/q)");
    assert_eq!(converted("<a href=\"https://a.example\"></a>"), "<https://a.example>");
    assert_eq!(
        converted("<a href=\"https://a.example\">https://a.example</a>"),
        "<https://a.example>"
    );
    assert_eq!(converted("<a>t</a>"), "t");
}

#[test]
fn converts_lists() {
    assert_eq!(converted("<ul><li>a</li><li> </li><li>b</li></ul>"), "* a\n* b");
    assert_eq!(converted("<ol><li>a</li><li></li><li>b</li></ol>"), "1. a\n2. b");
}

#[test]
fn quotes_every_line() {
    assert_eq!(blockquote("a\n\n\nb  "), "> a\n>\n> b\n\n");
    assert_eq!(blockquote(" \n "), "");
    let quoted = blockquote("x\ny\n\nz");
    assert!(quoted.trim_end().lines().all(|line| line.starts_with('>')));
}

#[test]
fn puts_text_on_one_line() {
    assert_eq!(cleanup_inline("  a \n\n b\r\nc "), "a b c");
    assert_eq!(cleanup_inline(" \n "), "");
    for input in ["  a \n\n b", "x", "", "\u{3000}全\u{3000}角\n"] {
        let once = cleanup_inline(input);
        assert_eq!(cleanup_inline(&once), once);
    }
}

#[test]
fn tidies_markdown() {
    assert_eq!(cleanup_markdown("\n\n  a  \n\n\n\nb\u{200b}c \n \n"), "a\n\nbc");
    for input in ["\n a\n\n\nb", "\u{200b}", "x \n\ny\n", ""] {
        let once = cleanup_markdown(input);
        assert_eq!(cleanup_markdown(&once), once);
    }
}

#[test]
fn cleaning_keeps_every_line_that_holds_something() {
    let input = "\n  a \n\n\n\n \u{200b} \n  b\u{200b}c\t\r\n\n\n\nd\n";
    let output = cleanup_markdown(input);
    assert_eq!(output, "a\n\n  bc\n\nd");
    assert_eq!(output, output.trim());
    assert!(!output.contains("\n\n\n"));
    let shown: Vec<&str> = output.lines().filter(|line| !line.is_empty()).collect();
    assert_eq!(shown, vec!["a", "  bc", "d"]);
}

#[test]
fn wraps_what_is_not_blank() {
    assert_eq!(paragraph(" a "), "a\n\n");
    assert_eq!(paragraph(" "), "");
    assert_eq!(heading(3, " a\nb "), "### a b\n\n");
    assert_eq!(heading(3, " "), "");
    assert_eq!(wrap_inline("**", " a "), "**a**");
    assert_eq!(wrap_inline("**", " "), "");
}

#[test]
fn escapes_images() {
    assert_eq!(markdown_image("a\\[b]", "x"), "![a\\\\\\[b\\]](x)");
    assert_eq!(markdown_image(" \n", "x"), "![图片](x)");
    assert_eq!(
        markdown_image("a", "( )\n\r\t<>\\"),
        "![a](%28%20%29%0A%0D%09%3C%3E%5C)"
    );
}

#[test]
fn parses_a_document_into_a_tree() {
    let document = parse_document("<!doctype html><body><p>a<b>c</b></p></body>");
    let body = document.find("body").unwrap();
    assert!(body.has_tag("body"));
    assert_eq!(body.text(), "ac");
    assert_eq!(render_document(&document, &ImageExporter::new(ImageMode::Remote)), "a**c**");
}

#[test]
fn builds_a_tree_from_its_edges() {
    let element = |tag: &str| HtmlData::Element { tag: tag.to_string(), attributes: vec![] };
    let tree = build_tree(vec![
        HtmlEdge::Start(element("p")),
        HtmlEdge::Start(HtmlData::Text("a".to_string())),
        HtmlEdge::End,
        HtmlEdge::Start(HtmlData::Text("b".to_string())),
        HtmlEdge::End,
        HtmlEdge::End,
    ]);
    assert_eq!(tree.children.len(), 1);
    assert!(tree.children[0].has_tag("p"));
    assert_eq!(tree.children[0].children.len(), 2);
    assert_eq!(tree.text(), "ab");
}
