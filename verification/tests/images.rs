//! Which images are fetched, what counts as one, and what stands in for it.

use base64::engine::general_purpose::STANDARD;
use base64::Engine;
use sha2::{Digest, Sha256};
use zhihu_collection_export::cli::ImageMode;
use zhihu_collection_export::images::{
    content_type_of, download_step, read_image, sniff_image_type, DownloadStep, ImageError,
    ImageExporter, ImageReader, ImageReply, MAX_IMAGE_BYTES,
};
use zhihu_collection_export::markdown::html_image_sources;
use zhihu_collection_export::markdown::html_to_markdown;
use zhihu_collection_export::zhihu::image_request_headers;

const SVG: &[u8] = b"<svg xmlns=\"http://www.w3.org/2000/svg\"/>";

fn png() -> Vec<u8> {
    b"\x89PNG\r\n\x1a\n\0\0\0\rIHDR".to_vec()
}

struct Response {
    status: u16,
    length: Option<u64>,
    content_type: Option<&'static str>,
    body: Vec<u8>,
}

fn response(status: u16, content_type: Option<&'static str>, body: &[u8]) -> Response {
    Response { status, length: Some(body.len() as u64), content_type, body: body.to_vec() }
}

/// Prepares an image from the responses in order, and saves what is to be saved.
fn prepare(
    images: &mut ImageExporter,
    source: &str,
    responses: &mut Vec<Response>,
    retries: u32,
    saved: &mut Vec<(String, Vec<u8>)>,
) {
    if !images.prepare(source) {
        return;
    }
    let mut attempt = 0;
    loop {
        let response = responses.remove(0);
        match download_step(ImageReply::Status(response.status), attempt, retries, 0) {
            DownloadStep::Read => {
                let chunks: Vec<Vec<u8>> = response.body.chunks(7).map(<[u8]>::to_vec).collect();
                match read_image(response.length, response.content_type, &chunks) {
                    Ok(image) => {
                        let link = images.replacement(&image);
                        if link.starts_with("images/") {
                            let name = link.clone();
                            saved.retain(|(other, _)| *other != name);
                            saved.push((name, image.bytes().clone()));
                        }
                        images.record(source, Some(link));
                    }
                    Err(_) => images.record(source, None),
                }
                return;
            }
            DownloadStep::Retry(pause) => {
                assert!(pause >= 300);
                attempt += 1;
            }
            DownloadStep::Refused(_) | DownloadStep::Unanswered => {
                images.record(source, None);
                return;
            }
        }
    }
}

fn url(path: &str) -> String {
    format!("http://127.0.0.1:8080{path}")
}

#[test]
fn saves_images_with_relative_paths_and_reuses_duplicates() {
    let mut server = vec![
        response(200, Some("image/png"), &png()),
        response(200, Some("image/svg+xml"), SVG),
        response(200, Some("image/png"), &png()),
    ];
    let mut saved = Vec::new();
    let mut images = ImageExporter::new(ImageMode::Local);
    let first = url("/photo.png?version=1");
    let second = url("/photo.png?version=2");
    let duplicate = url("/another/photo.png");
    for source in [&first, &first, &second, &duplicate] {
        prepare(&mut images, source, &mut server, 0, &mut saved);
    }
    let first_path = images.resolve(&first).to_string();
    let second_path = images.resolve(&second).to_string();
    assert!(first_path.starts_with("images/"));
    assert!(first_path.ends_with(".png"));
    assert!(second_path.ends_with(".svg"));
    assert_ne!(first_path, second_path);
    assert_eq!(images.resolve(&duplicate), first_path);
    assert_eq!(first_path, format!("images/{:x}.png", Sha256::digest(png())));
    assert_eq!(saved.len(), 2);
    assert!(saved.contains(&(first_path, png())));
    assert!(saved.contains(&(second_path, SVG.to_vec())));
    assert!(server.is_empty());
}

#[test]
fn embeds_exact_bytes_with_mime_type_without_creating_files() {
    let mut server = vec![
        response(200, Some("IMAGE/SVG+XML; charset=utf-8"), SVG),
        response(200, Some("application/octet-stream"), &png()),
        response(200, None, &png()),
    ];
    let mut saved = Vec::new();
    let mut images = ImageExporter::new(ImageMode::Base64);
    for (path, mime, expected) in [
        ("/vector", "image/svg+xml", SVG.to_vec()),
        ("/binary", "image/png", png()),
        ("/no-header", "image/png", png()),
    ] {
        let source = url(path);
        prepare(&mut images, &source, &mut server, 0, &mut saved);
        prepare(&mut images, &source, &mut server, 0, &mut saved);
        let encoded = images
            .resolve(&source)
            .strip_prefix(&format!("data:{mime};base64,"))
            .unwrap();
        assert_eq!(STANDARD.decode(encoded).unwrap(), expected);
    }
    for source in [
        "data:image/png;base64,AAAA",
        "images/existing.png",
        "file:///tmp/image.png",
    ] {
        prepare(&mut images, source, &mut server, 0, &mut saved);
        assert_eq!(images.resolve(source), source);
    }
    assert!(server.is_empty());
    assert!(saved.is_empty());
}

#[test]
fn keeps_failed_urls_and_does_not_repeat_failed_requests() {
    let oversized = Response {
        status: 200,
        length: Some(MAX_IMAGE_BYTES as u64 + 1),
        content_type: Some("image/png"),
        body: Vec::new(),
    };
    let mut server = vec![
        response(404, None, b"missing"),
        response(200, Some("text/html"), b"<html>Login</html>"),
        response(200, Some("image/png"), b""),
        oversized,
        response(200, None, b"not an image"),
    ];
    let mut saved = Vec::new();
    let mut images = ImageExporter::new(ImageMode::Local);
    for path in ["/missing", "/login", "/empty", "/too-large", "/unknown"] {
        let source = url(path);
        prepare(&mut images, &source, &mut server, 3, &mut saved);
        prepare(&mut images, &source, &mut server, 3, &mut saved);
        assert_eq!(images.resolve(&source), source);
    }
    assert!(server.is_empty());
    assert!(saved.is_empty());
}

#[test]
fn retries_transient_http_errors() {
    let mut server = vec![
        response(503, None, b"unavailable"),
        response(429, None, b"slow down"),
        response(200, Some("image/png"), &png()),
    ];
    let mut saved = Vec::new();
    let mut images = ImageExporter::new(ImageMode::Base64);
    let source = url("/retry");
    prepare(&mut images, &source, &mut server, 2, &mut saved);
    assert!(images.resolve(&source).starts_with("data:image/png;base64,"));
    assert!(server.is_empty());
}

#[test]
fn image_requests_and_redirects_have_no_cookies() {
    let headers = image_request_headers();
    assert!(headers.iter().all(|header| header.name != "cookie"));
    assert!(headers.iter().all(|header| header.name != "authorization"));
    assert!(headers
        .iter()
        .any(|header| header.name == "referer" && header.value == "https://www.zhihu.com"));
}

#[test]
fn converts_basic_zhihu_html_to_markdown() {
    let html = r#"<p>你好 <strong>世界</strong></p><blockquote><p>引用</p></blockquote><p><img data-original="//pic.example/a.jpg"></p>"#;
    let images = ImageExporter::new(ImageMode::Remote);
    let markdown = html_to_markdown(html, &images);
    assert!(markdown.contains("你好 **世界**"));
    assert!(markdown.contains("> 引用"));
    assert!(markdown.contains("![图片](https://pic.example/a.jpg)"));
}

#[test]
fn handles_lazy_sources_and_escapes_image_syntax() {
    let images = ImageExporter::new(ImageMode::Remote);
    let markdown = html_to_markdown(
        r#"<img data-original=" " data-actualsrc="//pic.example/a (b).png" src="wrong.png" alt="A [B]"><img data-actualsrc="" src="/c.png"><img src="data:image/png;base64,AAAA"><img src=" ">"#,
        &images,
    );
    assert!(markdown.contains(r"![A \[B\]](https://pic.example/a%20%28b%29.png)"));
    assert!(markdown.contains("![图片](https://www.zhihu.com/c.png)"));
    assert!(markdown.contains("![图片](data:image/png;base64,AAAA)"));
    assert_eq!(markdown.matches("![").count(), 3);
    assert!(!markdown.contains("wrong.png"));
}

#[test]
fn keeps_failed_image_links_while_exporting_other_images() {
    let mut server = vec![
        response(404, None, b"missing"),
        response(200, Some("image/png"), &png()),
    ];
    let mut saved = Vec::new();
    let mut images = ImageExporter::new(ImageMode::Base64);
    let missing = url("/missing");
    let found = url("/found");
    let ignored = url("/ignored");
    let html = format!(
        "<img src=\"{missing}\" alt=\"丢失\"><img src=\"{found}\" alt=\"成功\"><code><img src=\"{ignored}\"></code><pre><img src=\"{ignored}\"></pre><a href=\"{ignored}\">链接</a><img src=\"{missing}\">"
    );
    assert_eq!(
        html_image_sources(&html),
        vec![missing.clone(), found.clone(), missing.clone()]
    );
    for source in html_image_sources(&html) {
        prepare(&mut images, &source, &mut server, 0, &mut saved);
    }
    let markdown = html_to_markdown(&html, &images);
    assert!(markdown.contains(&format!("![丢失]({missing})")));
    assert!(markdown.contains("![成功](data:image/png;base64,"));
    assert!(server.is_empty());
}

#[test]
fn remote_images_are_never_fetched() {
    let images = ImageExporter::new(ImageMode::Remote);
    assert!(!images.prepare("https://a.example/a.png"));
    assert_eq!(images.resolve("https://a.example/a.png"), "https://a.example/a.png");
    let images = ImageExporter::new(ImageMode::Local);
    assert!(images.prepare("https://a.example/a.png"));
    assert!(images.prepare("HTTP://a.example/a.png"));
    assert!(!images.prepare("ftp://a.example/a.png"));
    assert!(!images.prepare("not a link"));
}

#[test]
fn knows_images_by_their_first_bytes() {
    let cases: [(&[u8], Option<&str>); 14] = [
        (b"\x89PNG\r\n\x1a\n", Some("image/png")),
        (b"\x89PNG\r\n\x1a", None),
        (b"\xff\xd8\xff\xe0", Some("image/jpeg")),
        (b"GIF87a", Some("image/gif")),
        (b"GIF89a..", Some("image/gif")),
        (b"RIFF\0\0\0\0WEBP", Some("image/webp")),
        (b"RIFF\0\0\0\0WAVE", None),
        (b"BM", Some("image/bmp")),
        (b"II*\0", Some("image/tiff")),
        (b"MM\0*", Some("image/tiff")),
        (b"\0\0\x01\0", Some("image/vnd.microsoft.icon")),
        (b"\0\0\0\x1cftypavif", Some("image/avif")),
        (b"\0\0\0\x1cftypavis", Some("image/avif")),
        (b"", None),
    ];
    for (bytes, expected) in cases {
        assert_eq!(sniff_image_type(bytes), expected);
    }
}

#[test]
fn names_files_by_their_type() {
    for (media_type, extension) in [
        ("image/jpeg", "jpg"),
        ("image/jpg", "jpg"),
        ("image/png", "png"),
        ("image/gif", "gif"),
        ("image/webp", "webp"),
        ("image/svg+xml", "svg"),
        ("image/avif", "avif"),
        ("image/bmp", "bmp"),
        ("image/x-ms-bmp", "bmp"),
        ("image/tiff", "tiff"),
        ("image/x-icon", "ico"),
        ("image/vnd.microsoft.icon", "ico"),
        ("image/other", "img"),
    ] {
        let image = read_image(None, Some(media_type), &vec![b"x".to_vec()]).ok().unwrap();
        assert_eq!(image.media_type(), media_type);
        assert_eq!(image.extension(), extension);
        assert_eq!(image.bytes(), b"x");
    }
}

#[test]
fn embeds_bytes_in_standard_base64() {
    let images = ImageExporter::new(ImageMode::Base64);
    let cases: [(&[u8], &str); 7] = [
        (b"f", "Zg=="),
        (b"fo", "Zm8="),
        (b"foo", "Zm9v"),
        (b"foob", "Zm9vYg=="),
        (b"foobar", "Zm9vYmFy"),
        (b"\xfb\xff\xbf", "+/+/"),
        (b"\0\0\0", "AAAA"),
    ];
    for (bytes, encoded) in cases {
        let image = read_image(None, Some("image/png"), &vec![bytes.to_vec()]).ok().unwrap();
        assert_eq!(images.replacement(&image), format!("data:image/png;base64,{encoded}"));
    }
}

#[test]
fn reads_the_declared_type() {
    assert_eq!(content_type_of(Some(" Image/PNG ; q=1")), "image/png");
    assert_eq!(content_type_of(Some("")), "");
    assert_eq!(content_type_of(None), "");
}

#[test]
fn says_why_an_image_is_refused() {
    let words = |length: Option<u64>, content_type: Option<&str>, body: &[u8]| {
        read_image(length, content_type, &vec![body.to_vec()]).err().unwrap().message()
    };
    assert_eq!(
        words(Some(MAX_IMAGE_BYTES as u64 + 1), Some("image/png"), b"x"),
        "图片超过 50 MiB 上限"
    );
    assert_eq!(words(None, Some("image/png"), b""), "图片响应为空");
    assert_eq!(
        words(None, None, b"x"),
        "响应未提供图片 Content-Type，且无法识别图片格式"
    );
    assert_eq!(words(None, Some("text/html"), b"x"), "响应不是图片: text/html");
    assert_eq!(words(None, Some("image/"), b"x"), "响应不是图片: image/");
    assert_eq!(words(None, Some("image/a b"), b"x"), "响应不是图片: image/a b");
}

#[test]
fn the_limit_counts_while_reading() {
    let mut reader = ImageReader::start(None, Some("image/png")).ok().unwrap();
    let chunk = vec![0u8; MAX_IMAGE_BYTES];
    assert!(reader.push(&chunk).is_ok());
    assert!(matches!(reader.push(&[1]), Err(ImageError::TooLarge)));
    let mut reader = ImageReader::start(Some(MAX_IMAGE_BYTES as u64), None).ok().unwrap();
    assert!(reader.push(&png()).is_ok());
    assert_eq!(reader.finish().ok().unwrap().media_type(), "image/png");
}

#[test]
fn the_last_attempt_is_final() {
    assert!(matches!(download_step(ImageReply::Status(503), 2, 2, 0), DownloadStep::Refused(503)));
    assert!(matches!(download_step(ImageReply::Status(404), 0, 2, 0), DownloadStep::Refused(404)));
    assert!(matches!(download_step(ImageReply::Failed, 1, 2, 500), DownloadStep::Retry(1000)));
    assert!(matches!(download_step(ImageReply::Failed, 2, 2, 500), DownloadStep::Unanswered));
}
