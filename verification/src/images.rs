//! Which images are fetched, what a response is worth, and what stands in for a link.

use vstd::hash_map::StringHashMap;
use vstd::prelude::*;

use crate::address;
use crate::address::ParsedUrl;
use crate::cli::ImageMode;
use crate::encoding;
use crate::markdown;
use crate::retry;
use crate::text;

verus! {

/// The images of one export: how they are kept, and what each link became.
pub struct ImageExporter {
    mode: ImageMode,
    replacements: StringHashMap<Option<String>>,
}

/// The links that were tried, each with its replacement where it got one.
pub type Replacements = Map<Seq<char>, Option<Seq<char>>>;

/// What stands in the Markdown for the image link `source`.
pub open spec fn resolved(replacements: Replacements, source: Seq<char>) -> Seq<char> {
    if replacements.contains_key(source) && replacements[source] is Some {
        replacements[source]->0
    } else {
        source
    }
}

impl View for ImageExporter {
    type V = Replacements;

    /// The links that were tried, each with its replacement where it got one.
    closed spec fn view(&self) -> Replacements {
        self.replacements@.map_values(|kept: Option<String>| text::opt_text(kept))
    }
}

impl ImageExporter {
    /// How the images are kept.
    pub closed spec fn kept_as(&self) -> ImageMode {
        self.mode
    }

    /// Where images stay on the web, none was tried.
    #[verifier::type_invariant]
    pub open spec fn wf(self) -> bool {
        self.kept_as() == ImageMode::Remote ==> self@ =~= Map::<
            Seq<char>,
            Option<Seq<char>>,
        >::empty()
    }

    /// No image was tried yet.
    pub fn new(mode: ImageMode) -> (images: Self)
        ensures
            images.kept_as() == mode,
            images@ == Map::<Seq<char>, Option<Seq<char>>>::empty(),
    {
        let images = ImageExporter { mode, replacements: StringHashMap::new() };
        assert(images@ =~= Map::<Seq<char>, Option<Seq<char>>>::empty());
        images
    }

    /// What stands in the Markdown for the image link `source`.
    pub fn resolve<'a>(&'a self, source: &'a str) -> (link: &'a str)
        ensures
            link@ == resolved(self@, source@),
            self.kept_as() == ImageMode::Remote ==> link@ == source@,
    {
        proof {
            use_type_invariant(self);
        }
        match self.replacements.get(source) {
            Some(Some(link)) => link.as_str(),
            _ => source,
        }
    }

    /// Keeps what a link became, or that it could not be fetched.
    pub fn record(&mut self, source: &str, replacement: Option<String>)
        requires
            old(self).kept_as() != ImageMode::Remote,
        ensures
            final(self)@ == old(self)@.insert(source@, text::opt_text(replacement)),
            final(self).kept_as() == old(self).kept_as(),
    {
        let mut replacements: StringHashMap<Option<String>> = StringHashMap::new();
        std::mem::swap(&mut replacements, &mut self.replacements);
        replacements.insert(source.to_owned(), replacement);
        self.replacements = replacements;
        assert(self@ =~= old(self)@.insert(source@, text::opt_text(replacement)));
    }
}

/// The most bytes that an image may have.
pub const MAX_IMAGE_BYTES: usize = 50 * 1024 * 1024;

/// Whether `pattern` stands in `bytes` at `at`.
pub open spec fn bytes_at(bytes: Seq<u8>, at: int, pattern: Seq<u8>) -> bool {
    at + pattern.len() <= bytes.len() && bytes.subrange(at, at + pattern.len()) == pattern
}

/// The media type that the first bytes of an image give away.
pub open spec fn sniffed(bytes: Seq<u8>) -> Option<Seq<char>> {
    if bytes_at(bytes, 0, seq![0x89, 0x50, 0x4e, 0x47, 0x0d, 0x0a, 0x1a, 0x0a]) {
        Some("image/png"@)
    } else if bytes_at(bytes, 0, seq![0xff, 0xd8, 0xff]) {
        Some("image/jpeg"@)
    } else if bytes_at(bytes, 0, seq![0x47, 0x49, 0x46, 0x38, 0x37, 0x61]) || bytes_at(
        bytes,
        0,
        seq![0x47, 0x49, 0x46, 0x38, 0x39, 0x61],
    ) {
        Some("image/gif"@)
    } else if bytes_at(bytes, 0, seq![0x52, 0x49, 0x46, 0x46]) && bytes_at(
        bytes,
        8,
        seq![0x57, 0x45, 0x42, 0x50],
    ) {
        Some("image/webp"@)
    } else if bytes_at(bytes, 0, seq![0x42, 0x4d]) {
        Some("image/bmp"@)
    } else if bytes_at(bytes, 0, seq![0x49, 0x49, 0x2a, 0x00]) || bytes_at(
        bytes,
        0,
        seq![0x4d, 0x4d, 0x00, 0x2a],
    ) {
        Some("image/tiff"@)
    } else if bytes_at(bytes, 0, seq![0x00, 0x00, 0x01, 0x00]) {
        Some("image/vnd.microsoft.icon"@)
    } else if bytes_at(bytes, 4, seq![0x66, 0x74, 0x79, 0x70]) && (bytes_at(
        bytes,
        8,
        seq![0x61, 0x76, 0x69, 0x66],
    ) || bytes_at(bytes, 8, seq![0x61, 0x76, 0x69, 0x73])) {
        Some("image/avif"@)
    } else {
        None
    }
}

/// Whether `pattern` stands in `bytes` at `at`.
fn has_bytes(bytes: &[u8], at: usize, pattern: Vec<u8>) -> (yes: bool)
    requires
        at <= 8,
    ensures
        yes == bytes_at(bytes@, at as int, pattern@),
{
    if bytes.len() < at || bytes.len() - at < pattern.len() {
        return false;
    }
    let mut i: usize = 0;
    while i < pattern.len()
        invariant
            i <= pattern@.len(),
            at + pattern@.len() <= bytes@.len(),
            bytes@.len() <= usize::MAX,
            forall|k: int| 0 <= k < i ==> bytes@[at + k] == pattern@[k],
        decreases pattern@.len() - i,
    {
        if bytes[at + i] != pattern[i] {
            assert(bytes@.subrange(at as int, at + pattern@.len())[i as int] != pattern@[i as int]);
            return false;
        }
        i = i + 1;
    }
    assert(bytes@.subrange(at as int, at + pattern@.len()) =~= pattern@);
    true
}

/// The media type that the first bytes of an image give away.
pub fn sniff_image_type(bytes: &[u8]) -> (media_type: Option<&'static str>)
    ensures
        text::opt_str(media_type) == sniffed(bytes@),
{
    if has_bytes(bytes, 0, vec![0x89, 0x50, 0x4e, 0x47, 0x0d, 0x0a, 0x1a, 0x0a]) {
        Some("image/png")
    } else if has_bytes(bytes, 0, vec![0xff, 0xd8, 0xff]) {
        Some("image/jpeg")
    } else if has_bytes(bytes, 0, vec![0x47, 0x49, 0x46, 0x38, 0x37, 0x61]) || has_bytes(
        bytes,
        0,
        vec![0x47, 0x49, 0x46, 0x38, 0x39, 0x61],
    ) {
        Some("image/gif")
    } else if has_bytes(bytes, 0, vec![0x52, 0x49, 0x46, 0x46]) && has_bytes(
        bytes,
        8,
        vec![0x57, 0x45, 0x42, 0x50],
    ) {
        Some("image/webp")
    } else if has_bytes(bytes, 0, vec![0x42, 0x4d]) {
        Some("image/bmp")
    } else if has_bytes(bytes, 0, vec![0x49, 0x49, 0x2a, 0x00]) || has_bytes(
        bytes,
        0,
        vec![0x4d, 0x4d, 0x00, 0x2a],
    ) {
        Some("image/tiff")
    } else if has_bytes(bytes, 0, vec![0x00, 0x00, 0x01, 0x00]) {
        Some("image/vnd.microsoft.icon")
    } else if has_bytes(bytes, 4, vec![0x66, 0x74, 0x79, 0x70]) && (has_bytes(
        bytes,
        8,
        vec![0x61, 0x76, 0x69, 0x66],
    ) || has_bytes(bytes, 8, vec![0x61, 0x76, 0x69, 0x73])) {
        Some("image/avif")
    } else {
        None
    }
}

/// Why a response is no image to keep.
pub enum ImageError {
    /// It is larger than the limit.
    TooLarge,
    /// It is empty.
    Empty,
    /// It names no type, and its bytes give none away.
    UnknownFormat,
    /// It names another type.
    NotAnImage(String),
}

impl ImageError {
    /// The error in words.
    pub open spec fn words(self) -> Seq<char> {
        match self {
            ImageError::TooLarge => "图片超过 50 MiB 上限"@,
            ImageError::Empty => "图片响应为空"@,
            ImageError::UnknownFormat => "响应未提供图片 Content-Type，且无法识别图片格式"@,
            ImageError::NotAnImage(content_type) => "响应不是图片: "@ + content_type@,
        }
    }

    /// The error in words.
    pub fn message(&self) -> (words: String)
        ensures
            words@ == self.words(),
    {
        match self {
            ImageError::TooLarge => "图片超过 50 MiB 上限".to_owned(),
            ImageError::Empty => "图片响应为空".to_owned(),
            ImageError::UnknownFormat => "响应未提供图片 Content-Type，且无法识别图片格式".to_owned(),
            ImageError::NotAnImage(content_type) => text::concat2(
                "响应不是图片: ",
                content_type.as_str(),
            ),
        }
    }
}

/// The media type that a `Content-Type` header names, without its parameters.
pub open spec fn declared_type(header: Option<Seq<char>>) -> Seq<char> {
    match header {
        Some(value) => text::lowered(text::trimmed(text::split_at(value, ';')[0])),
        None => seq![],
    }
}

/// Whether `c` may stand in the name of an image type.
pub open spec fn type_char(c: char) -> bool {
    'a' <= c <= 'z' || 'A' <= c <= 'Z' || '0' <= c <= '9' || c == '.' || c == '+' || c == '-'
}

/// Whether the type is that of an image.
pub open spec fn image_type(content_type: Seq<char>) -> bool {
    &&& text::begins(content_type, "image/"@)
    &&& content_type.len() > 6
    &&& forall|i: int| 6 <= i < content_type.len() ==> type_char(#[trigger] content_type[i])
}

/// Whether the type says nothing about the bytes.
pub open spec fn untyped(content_type: Seq<char>) -> bool {
    content_type.len() == 0 || content_type == "application/octet-stream"@
}

/// The media type of a response: what its header names, or else what its bytes give away.
pub open spec fn media_type_of(content_type: Seq<char>, bytes: Seq<u8>) -> Option<Seq<char>> {
    if untyped(content_type) {
        sniffed(bytes)
    } else if image_type(content_type) {
        Some(content_type)
    } else {
        None
    }
}

/// The file name extension for a media type.
pub open spec fn extension_of(media_type: Seq<char>) -> Seq<char> {
    if media_type == "image/jpeg"@ || media_type == "image/jpg"@ {
        "jpg"@
    } else if media_type == "image/png"@ {
        "png"@
    } else if media_type == "image/gif"@ {
        "gif"@
    } else if media_type == "image/webp"@ {
        "webp"@
    } else if media_type == "image/svg+xml"@ {
        "svg"@
    } else if media_type == "image/avif"@ {
        "avif"@
    } else if media_type == "image/bmp"@ || media_type == "image/x-ms-bmp"@ {
        "bmp"@
    } else if media_type == "image/tiff"@ {
        "tiff"@
    } else if media_type == "image/x-icon"@ || media_type == "image/vnd.microsoft.icon"@ {
        "ico"@
    } else {
        "img"@
    }
}

/// The file name extension for a media type.
fn choose_extension(media_type: &str) -> (extension: &'static str)
    ensures
        extension@ == extension_of(media_type@),
{
    if text::same(media_type, "image/jpeg") || text::same(media_type, "image/jpg") {
        "jpg"
    } else if text::same(media_type, "image/png") {
        "png"
    } else if text::same(media_type, "image/gif") {
        "gif"
    } else if text::same(media_type, "image/webp") {
        "webp"
    } else if text::same(media_type, "image/svg+xml") {
        "svg"
    } else if text::same(media_type, "image/avif") {
        "avif"
    } else if text::same(media_type, "image/bmp") || text::same(media_type, "image/x-ms-bmp") {
        "bmp"
    } else if text::same(media_type, "image/tiff") {
        "tiff"
    } else if text::same(media_type, "image/x-icon") || text::same(media_type, "image/vnd.microsoft.icon") {
        "ico"
    } else {
        "img"
    }
}

/// The media type that a `Content-Type` header names, without its parameters.
pub fn content_type_of(header: Option<&str>) -> (content_type: String)
    ensures
        content_type@ == declared_type(text::opt_str(header)),
{
    match header {
        Some(value) => {
            let parts = text::split(value, ';');
            proof {
                lemma_split_first(value@, ';');
            }
            text::to_ascii_lower(text::trim(parts[0].as_str()).as_str())
        },
        None => String::new(),
    }
}

/// A text has a part before its first separator.
proof fn lemma_split_first(value: Seq<char>, c: char)
    ensures
        text::split_at(value, c).len() > 0,
{
}

/// Whether the type is that of an image.
fn is_image_type(content_type: &str) -> (yes: bool)
    ensures
        yes == image_type(content_type@),
{
    let chars = text::to_chars(content_type);
    if !text::starts_with(content_type, "image/") || chars.len() <= 6 {
        return false;
    }
    let mut i: usize = 6;
    while i < chars.len()
        invariant
            chars@ == content_type@,
            6 <= i <= chars@.len(),
            forall|k: int| 6 <= k < i ==> type_char(#[trigger] chars@[k]),
        decreases chars@.len() - i,
    {
        let c = chars[i];
        if !(('a' <= c && c <= 'z') || ('A' <= c && c <= 'Z') || ('0' <= c && c <= '9') || c == '.'
            || c == '+' || c == '-') {
            return false;
        }
        i = i + 1;
    }
    true
}

/// An image that was fetched. It is neither empty nor larger than the limit.
pub struct DownloadedImage {
    bytes: Vec<u8>,
    media_type: String,
    extension: &'static str,
}

impl DownloadedImage {
    #[verifier::type_invariant]
    closed spec fn within_limits(self) -> bool {
        &&& 0 < self.bytes@.len() <= MAX_IMAGE_BYTES
        &&& self.extension@ == extension_of(self.media_type@)
        &&& exists|content_type: Seq<char>| #[trigger]
            media_type_of(content_type, self.bytes@) == Some(self.media_type@)
    }

    /// The bytes of the image.
    pub closed spec fn content(&self) -> Seq<u8> {
        self.bytes@
    }

    /// The media type of the image.
    pub closed spec fn media(&self) -> Seq<char> {
        self.media_type@
    }

    /// The bytes of the image.
    pub fn bytes(&self) -> (bytes: &Vec<u8>)
        ensures
            bytes@ == self.content(),
            0 < bytes@.len() <= MAX_IMAGE_BYTES,
    {
        proof {
            use_type_invariant(self);
        }
        &self.bytes
    }

    /// The media type of the image.
    pub fn media_type(&self) -> (media_type: &str)
        ensures
            media_type@ == self.media(),
    {
        self.media_type.as_str()
    }

    /// The extension of the file that keeps the image.
    pub fn extension(&self) -> (extension: &'static str)
        ensures
            extension@ == extension_of(self.media()),
    {
        proof {
            use_type_invariant(self);
        }
        self.extension
    }
}

/// A response that is being read.
pub struct ImageReader {
    content_type: String,
    bytes: Vec<u8>,
}

impl ImageReader {
    /// The limit was kept so far.
    pub closed spec fn wf(&self) -> bool {
        self.bytes@.len() <= MAX_IMAGE_BYTES
    }

    /// The bytes that were read so far.
    pub closed spec fn received(&self) -> Seq<u8> {
        self.bytes@
    }

    /// The media type that the header named.
    pub closed spec fn declared(&self) -> Seq<char> {
        self.content_type@
    }

    /// Begins with the headers. A response that announces too many bytes is refused.
    pub fn start(content_length: Option<u64>, content_type: Option<&str>) -> (reader: Result<
        ImageReader,
        ImageError,
    >)
        ensures
            match reader {
                Ok(reader) => {
                    &&& !(content_length matches Some(length) && length > MAX_IMAGE_BYTES)
                    &&& reader.wf()
                    &&& reader.received() == Seq::<u8>::empty()
                    &&& reader.declared() == declared_type(text::opt_str(content_type))
                },
                Err(error) => {
                    &&& content_length matches Some(length) && length > MAX_IMAGE_BYTES
                    &&& error == ImageError::TooLarge
                },
            },
    {
        if let Some(length) = content_length {
            if length > MAX_IMAGE_BYTES as u64 {
                return Err(ImageError::TooLarge);
            }
        }
        Ok(ImageReader { content_type: content_type_of(content_type), bytes: Vec::new() })
    }

    /// Takes the next part of the body, unless it would exceed the limit.
    pub fn push(&mut self, chunk: &[u8]) -> (taken: Result<(), ImageError>)
        requires
            old(self).wf(),
        ensures
            final(self).wf(),
            final(self).declared() == old(self).declared(),
            match taken {
                Ok(_) => {
                    &&& old(self).received().len() + chunk@.len() <= MAX_IMAGE_BYTES
                    &&& final(self).received() == old(self).received() + chunk@
                },
                Err(error) => {
                    &&& old(self).received().len() + chunk@.len() > MAX_IMAGE_BYTES
                    &&& error == ImageError::TooLarge
                    &&& final(self).received() == old(self).received()
                },
            },
    {
        if chunk.len() > MAX_IMAGE_BYTES - self.bytes.len() {
            return Err(ImageError::TooLarge);
        }
        self.bytes.extend_from_slice(chunk);
        assert(self.bytes@ =~= old(self).bytes@ + chunk@);
        Ok(())
    }

    /// The image, once the body is read.
    pub fn finish(self) -> (image: Result<DownloadedImage, ImageError>)
        requires
            self.wf(),
        ensures
            read_outcome(self.declared(), self.received(), image),
    {
        if self.bytes.len() == 0 {
            return Err(ImageError::Empty);
        }
        let content_type = self.content_type;
        let bytes = self.bytes;
        let media_type: String = if content_type.as_str().is_empty() || text::same(
            content_type.as_str(),
            "application/octet-stream",
        ) {
            match sniff_image_type(bytes.as_slice()) {
                Some(media_type) => media_type.to_owned(),
                None => {
                    return Err(ImageError::UnknownFormat);
                },
            }
        } else if is_image_type(content_type.as_str()) {
            content_type.clone()
        } else {
            return Err(ImageError::NotAnImage(content_type));
        };
        assert(media_type_of(content_type@, bytes@) == Some(media_type@));
        let extension = choose_extension(media_type.as_str());
        Ok(DownloadedImage { bytes, media_type, extension })
    }
}

/// What comes of a response whose body was read within the limit.
pub open spec fn read_outcome(
    content_type: Seq<char>,
    bytes: Seq<u8>,
    outcome: Result<DownloadedImage, ImageError>,
) -> bool {
    match outcome {
        Ok(image) => {
            &&& bytes.len() > 0
            &&& image.content() == bytes
            &&& media_type_of(content_type, bytes) == Some(image.media())
        },
        Err(ImageError::Empty) => bytes.len() == 0,
        Err(ImageError::UnknownFormat) => bytes.len() > 0 && untyped(content_type) && sniffed(
            bytes,
        ) is None,
        Err(ImageError::NotAnImage(named)) => {
            &&& bytes.len() > 0
            &&& !untyped(content_type)
            &&& !image_type(content_type)
            &&& named@ == content_type
        },
        Err(ImageError::TooLarge) => false,
    }
}

/// The parts of a body, one after the other.
pub open spec fn body_of(chunks: Seq<Vec<u8>>) -> Seq<u8>
    decreases chunks.len(),
{
    if chunks.len() == 0 {
        seq![]
    } else {
        body_of(chunks.drop_last()) + chunks.last()@
    }
}

/// What comes of a response: one that announces or brings too many bytes is refused.
pub open spec fn response_outcome(
    content_length: Option<u64>,
    content_type: Option<Seq<char>>,
    bytes: Seq<u8>,
    outcome: Result<DownloadedImage, ImageError>,
) -> bool {
    if (content_length matches Some(length) && length > MAX_IMAGE_BYTES) || bytes.len()
        > MAX_IMAGE_BYTES {
        outcome matches Err(ImageError::TooLarge)
    } else {
        read_outcome(declared_type(content_type), bytes, outcome)
    }
}

/// A response is read as a whole, however its body was cut into parts.
pub fn read_image(
    content_length: Option<u64>,
    content_type: Option<&str>,
    chunks: &Vec<Vec<u8>>,
) -> (image: Result<DownloadedImage, ImageError>)
    ensures
        response_outcome(content_length, text::opt_str(content_type), body_of(chunks@), image),
{
    let mut reader = match ImageReader::start(content_length, content_type) {
        Ok(reader) => reader,
        Err(error) => {
            return Err(error);
        },
    };
    let mut i: usize = 0;
    while i < chunks.len()
        invariant
            i <= chunks@.len(),
            reader.wf(),
            reader.declared() == declared_type(text::opt_str(content_type)),
            reader.received() == body_of(chunks@.take(i as int)),
        decreases chunks@.len() - i,
    {
        assert(chunks@.take(i + 1).drop_last() =~= chunks@.take(i as int));
        assert(body_of(chunks@.take(i + 1)) == body_of(chunks@.take(i as int)) + chunks@[i as int]@);
        match reader.push(chunks[i].as_slice()) {
            Ok(_) => {},
            Err(error) => {
                proof {
                    lemma_body_grows(chunks@, i + 1);
                }
                return Err(error);
            },
        }
        i = i + 1;
    }
    assert(chunks@.take(i as int) =~= chunks@);
    reader.finish()
}

/// A body is no shorter than its first parts.
proof fn lemma_body_grows(chunks: Seq<Vec<u8>>, count: int)
    requires
        0 <= count <= chunks.len(),
    ensures
        body_of(chunks.take(count)).len() <= body_of(chunks).len(),
    decreases chunks.len(),
{
    if count == chunks.len() {
        assert(chunks.take(count) =~= chunks);
    } else {
        lemma_body_grows(chunks.drop_last(), count);
        assert(chunks.drop_last().take(count) =~= chunks.take(count));
    }
}

/// The path of the file that keeps an image, from the folder of the collection. The name is the
/// digest of the content.
pub open spec fn local_path(bytes: Seq<u8>, extension: Seq<char>) -> Seq<char> {
    "images/"@ + encoding::hex_of(encoding::sha256_of(bytes)) + "."@ + extension
}

/// The link that holds an image itself.
pub open spec fn data_link(bytes: Seq<u8>, media_type: Seq<char>) -> Seq<char> {
    "data:"@ + media_type + ";base64,"@ + encoding::base64_of(bytes)
}

/// What stands in for the link of an image that was fetched.
pub open spec fn stand_in(mode: ImageMode, image: &DownloadedImage) -> Seq<char> {
    if mode == ImageMode::Local {
        local_path(image.content(), extension_of(image.media()))
    } else {
        data_link(image.content(), image.media())
    }
}

/// Whether `c` may stand in what replaces an image link.
pub open spec fn link_char(c: char) -> bool {
    ||| 'a' <= c <= 'z'
    ||| 'A' <= c <= 'Z'
    ||| '0' <= c <= '9'
    ||| c == '.'
    ||| c == '+'
    ||| c == '-'
    ||| c == '/'
    ||| c == ':'
    ||| c == ';'
    ||| c == ','
    ||| c == '='
}

/// Whether `link` holds only what may stand in what replaces an image link.
pub open spec fn link_text(link: Seq<char>) -> bool {
    forall|i: int| 0 <= i < link.len() ==> link_char(#[trigger] link[i])
}

/// The name of an image type is fit for a link.
proof fn lemma_media_type_fits(content_type: Seq<char>, bytes: Seq<u8>)
    ensures
        media_type_of(content_type, bytes) matches Some(media_type) ==> link_text(media_type),
{
    reveal_strlit("image/");
    reveal_strlit("image/png");
    reveal_strlit("image/jpeg");
    reveal_strlit("image/gif");
    reveal_strlit("image/webp");
    reveal_strlit("image/bmp");
    reveal_strlit("image/tiff");
    reveal_strlit("image/vnd.microsoft.icon");
    reveal_strlit("image/avif");
    if !untyped(content_type) && image_type(content_type) {
        assert forall|i: int| 0 <= i < content_type.len() implies link_char(
            #[trigger] content_type[i],
        ) by {
            if i < 6 {
                assert(content_type[i] == content_type.take(6)[i]);
            }
        }
    }
}

/// A file name extension is fit for a link.
proof fn lemma_extension_fits(media_type: Seq<char>)
    ensures
        link_text(extension_of(media_type)),
{
    reveal_strlit("jpg");
    reveal_strlit("png");
    reveal_strlit("gif");
    reveal_strlit("webp");
    reveal_strlit("svg");
    reveal_strlit("avif");
    reveal_strlit("bmp");
    reveal_strlit("tiff");
    reveal_strlit("ico");
    reveal_strlit("img");
}

impl ImageExporter {
    /// Whether the link `source` is to be fetched, given what the URL parser makes of it.
    pub open spec fn wants(&self, source: Seq<char>, url: Option<address::UrlParts>) -> bool {
        &&& self.kept_as() != ImageMode::Remote
        &&& !self@.contains_key(source)
        &&& url matches Some(url) && (url.scheme == "http"@ || url.scheme == "https"@)
    }

    /// Whether the link `source` is to be fetched, given what the URL parser makes of it: only
    /// where images are kept, only once, and only over HTTP.
    pub fn needs_download(&self, source: &str, url: &Option<ParsedUrl>) -> (yes: bool)
        ensures
            yes == self.wants(source@, address::opt_parts(*url)),
    {
        match self.mode {
            ImageMode::Remote => {
                return false;
            },
            _ => {},
        }
        assert(self@.contains_key(source@) == self.replacements@.contains_key(source@));
        if self.replacements.contains_key(source) {
            return false;
        }
        match url {
            Some(url) => text::same(url.scheme.as_str(), "http") || text::same(
                url.scheme.as_str(),
                "https",
            ),
            None => false,
        }
    }

    /// Whether the link `source` is to be fetched.
    pub fn prepare(&self, source: &str) -> (fetch: bool)
        ensures
            fetch == self.wants(source@, address::parsed_url(source@)),
    {
        self.needs_download(source, &address::parse_url(source))
    }

    /// What stands in for the link of an image that was fetched: the path of the file that keeps
    /// it, or a link that holds it. It stands in the Markdown as it is, and in a link that holds
    /// the image no other bytes could have given it.
    pub fn replacement(&self, image: &DownloadedImage) -> (link: String)
        requires
            self.kept_as() != ImageMode::Remote,
        ensures
            link@ == stand_in(self.kept_as(), image),
            markdown::destination_of(link@) == link@,
            self.kept_as() == ImageMode::Base64 ==> forall|other: Seq<u8>| #[trigger]
                data_link(other, image.media()) == link@ ==> other == image.content(),
    {
        proof {
            use_type_invariant(image);
            let content_type = choose|content_type: Seq<char>| #[trigger]
                media_type_of(content_type, image.bytes@) == Some(image.media_type@);
            lemma_media_type_fits(content_type, image.bytes@);
            lemma_extension_fits(image.media_type@);
            reveal_strlit("images/");
            reveal_strlit(".");
            reveal_strlit("data:");
            reveal_strlit(";base64,");
        }
        let link: String = match self.mode {
            ImageMode::Local => {
                let digest = encoding::sha256(image.bytes.as_slice());
                let name = encoding::hex_lower(digest.as_slice());
                let link = text::concat4("images/", name.as_str(), ".", image.extension);
                assert(link_text(name@));
                assert(link_text(link@));
                link
            },
            _ => {
                let encoded = encoding::base64_encode(image.bytes.as_slice());
                let link = text::concat4(
                    "data:",
                    image.media_type.as_str(),
                    ";base64,",
                    encoded.as_str(),
                );
                let ghost head = "data:"@ + image.media_type@ + ";base64,"@;
                proof {
                    encoding::base64_texts_are_plain(image.bytes@);
                }
                assert(link_text(encoded@));
                assert(link_text(link@));
                assert forall|other: Seq<u8>| #[trigger]
                    data_link(other, image.media()) == link@ implies other == image.content() by {
                    assert(encoding::base64_of(other) =~= data_link(other, image.media()).skip(
                        head.len() as int,
                    ));
                    assert(encoded@ =~= link@.skip(head.len() as int));
                    encoding::base64_is_injective(other, image.bytes@);
                }
                link
            },
        };
        proof {
            lemma_plain_link(link@);
        }
        link
    }
}

/// What may replace an image link needs no escape in a link destination.
pub proof fn lemma_plain_link(link: Seq<char>)
    requires
        link_text(link),
    ensures
        markdown::destination_of(link) == link,
    decreases link.len(),
{
    if link.len() > 0 {
        lemma_plain_link(link.drop_last());
        let c = link[link.len() - 1];
        assert(link_char(c));
        assert(markdown::destination_char(c) == seq![c]);
        assert(link =~= link.drop_last() + seq![c]);
    }
}

/// What a request for an image came to.
pub enum ImageReply {
    /// An answer with this status.
    Status(u16),
    /// No answer.
    Failed,
}

/// What to do about a request for an image.
#[derive(PartialEq, Eq, Structural)]
pub enum DownloadStep {
    /// Read the image.
    Read,
    /// Ask once more, after so many milliseconds.
    Retry(u64),
    /// Give up for the status.
    Refused(u16),
    /// Give up for want of an answer.
    Unanswered,
}

/// What to do about the attempt of that number, which counts from zero.
pub open spec fn next_step(
    reply: ImageReply,
    attempt: u32,
    retries: u32,
    delay_ms: u64,
) -> DownloadStep {
    match reply {
        ImageReply::Status(status) => if retry::successful(status) {
            DownloadStep::Read
        } else if attempt < retries && retry::transient(status) {
            DownloadStep::Retry(retry::pause(delay_ms, attempt))
        } else {
            DownloadStep::Refused(status)
        },
        ImageReply::Failed => if attempt < retries {
            DownloadStep::Retry(retry::pause(delay_ms, attempt))
        } else {
            DownloadStep::Unanswered
        },
    }
}

/// What to do about the attempt of that number, which counts from zero.
pub fn download_step(reply: ImageReply, attempt: u32, retries: u32, delay_ms: u64) -> (step:
    DownloadStep)
    ensures
        step == next_step(reply, attempt, retries, delay_ms),
        step is Retry ==> attempt < retries,
{
    match reply {
        ImageReply::Status(status) => if retry::is_success(status) {
            DownloadStep::Read
        } else if attempt < retries && retry::should_retry(status) {
            DownloadStep::Retry(retry::backoff(delay_ms, attempt))
        } else {
            DownloadStep::Refused(status)
        },
        ImageReply::Failed => if attempt < retries {
            DownloadStep::Retry(retry::backoff(delay_ms, attempt))
        } else {
            DownloadStep::Unanswered
        },
    }
}

/// Images with the same bytes and the same type are kept as one: the same link stands for both.
pub proof fn equal_images_share_a_link(
    mode: ImageMode,
    first: &DownloadedImage,
    second: &DownloadedImage,
)
    requires
        first.content() == second.content(),
        first.media() == second.media(),
    ensures
        stand_in(mode, first) == stand_in(mode, second),
{
}

/// A saved image lies in the folder for images, and in none below it.
pub proof fn saved_images_stay_in_their_folder(bytes: Seq<u8>, media_type: Seq<char>)
    ensures
        ({
            let path = local_path(bytes, extension_of(media_type));
            text::begins(path, "images/"@) && !path.skip(7).contains('/')
        }),
{
    reveal_strlit("images/");
    reveal_strlit(".");
    reveal_strlit("jpg");
    reveal_strlit("png");
    reveal_strlit("gif");
    reveal_strlit("webp");
    reveal_strlit("svg");
    reveal_strlit("avif");
    reveal_strlit("bmp");
    reveal_strlit("tiff");
    reveal_strlit("ico");
    reveal_strlit("img");
    let extension = extension_of(media_type);
    let digits = encoding::hex_of(encoding::sha256_of(bytes));
    let path = local_path(bytes, extension);
    assert(path.take(7) =~= "images/"@);
    assert(path.skip(7) =~= digits + "."@ + extension);
    assert(!digits.contains('/')) by {
        assert forall|i: int| 0 <= i < digits.len() implies #[trigger] digits[i] != '/' by {
            assert(digits[i] == encoding::hex_digit(
                if i % 2 == 0 {
                    encoding::sha256_of(bytes)[i / 2] as int / 16
                } else {
                    encoding::sha256_of(bytes)[i / 2] as int % 16
                },
            ));
        }
    }
    text::lemma_concat_lacks(digits, "."@, '/');
    text::lemma_concat_lacks(digits + "."@, extension, '/');
}

} // verus!
