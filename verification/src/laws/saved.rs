//! Which images are kept, and how.

use vstd::prelude::*;

use crate::cli::ImageMode;
use crate::encoding;
use crate::images;
use crate::images::{DownloadStep, DownloadedImage, ImageError, ImageReply};
use crate::retry;
use crate::text;

verus! {

/// A byte after byte comparison tells whether a pattern stands somewhere.
pub proof fn patterns_stand_byte_by_byte(bytes: Seq<u8>, at: int, pattern: Seq<u8>)
    requires
        at >= 0,
    ensures
        images::bytes_at(bytes, at, pattern) <==> at + pattern.len() <= bytes.len() && forall|i: int|
            0 <= i < pattern.len() ==> bytes[at + i] == #[trigger] pattern[i],
{
    if at + pattern.len() <= bytes.len() {
        let part = bytes.subrange(at, at + pattern.len());
        if part == pattern {
            assert forall|i: int| 0 <= i < pattern.len() implies bytes[at + i]
                == #[trigger] pattern[i] by {
                assert(part[i] == pattern[i]);
            }
        }
        if forall|i: int| 0 <= i < pattern.len() ==> bytes[at + i] == #[trigger] pattern[i] {
            assert(part =~= pattern);
        }
    }
}

/// The first bytes tell the type of an image, whatever comes after them.
pub proof fn first_bytes_tell_the_type(rest: Seq<u8>)
    ensures
        images::sniffed(seq![0x89u8, 0x50, 0x4e, 0x47, 0x0d, 0x0a, 0x1a, 0x0a] + rest) == Some(
            "image/png"@,
        ),
        images::sniffed(seq![0xffu8, 0xd8, 0xff] + rest) == Some("image/jpeg"@),
        images::sniffed(seq![0x47u8, 0x49, 0x46, 0x38, 0x37, 0x61] + rest) == Some("image/gif"@),
        images::sniffed(seq![0x47u8, 0x49, 0x46, 0x38, 0x39, 0x61] + rest) == Some("image/gif"@),
        images::sniffed(seq![0x42u8, 0x4d] + rest) == Some("image/bmp"@),
        images::sniffed(seq![0x49u8, 0x49, 0x2a, 0x00] + rest) == Some("image/tiff"@),
        images::sniffed(seq![0x4du8, 0x4d, 0x00, 0x2a] + rest) == Some("image/tiff"@),
        images::sniffed(seq![0x00u8, 0x00, 0x01, 0x00] + rest) == Some("image/vnd.microsoft.icon"@),
{
    lemma_begins(seq![0x89u8, 0x50, 0x4e, 0x47, 0x0d, 0x0a, 0x1a, 0x0a], rest);
    lemma_begins(seq![0xffu8, 0xd8, 0xff], rest);
    lemma_begins(seq![0x47u8, 0x49, 0x46, 0x38, 0x37, 0x61], rest);
    lemma_begins(seq![0x47u8, 0x49, 0x46, 0x38, 0x39, 0x61], rest);
    lemma_begins(seq![0x42u8, 0x4d], rest);
    lemma_begins(seq![0x49u8, 0x49, 0x2a, 0x00], rest);
    lemma_begins(seq![0x4du8, 0x4d, 0x00, 0x2a], rest);
    lemma_begins(seq![0x00u8, 0x00, 0x01, 0x00], rest);
}

/// What stands in front of a row of bytes is where the row begins, and by its first byte nothing
/// that begins with another does.
proof fn lemma_begins(pattern: Seq<u8>, rest: Seq<u8>)
    requires
        pattern.len() > 0,
    ensures
        images::bytes_at(pattern + rest, 0, pattern),
        forall|other: Seq<u8>| #[trigger]
            images::bytes_at(pattern + rest, 0, other) && other.len() > 0 ==> other[0]
                == pattern[0],
        forall|other: Seq<u8>| #[trigger]
            images::bytes_at(pattern + rest, 0, other) && other.len() > 2 && pattern.len() > 2
                ==> other[2] == pattern[2],
{
    let whole = pattern + rest;
    assert(whole.subrange(0, pattern.len() as int) =~= pattern);
    assert forall|other: Seq<u8>| #[trigger] images::bytes_at(whole, 0, other) && other.len()
        > 0 implies other[0] == pattern[0] by {
        assert(whole.subrange(0, other.len() as int)[0] == whole[0]);
    }
    assert forall|other: Seq<u8>| #[trigger] images::bytes_at(whole, 0, other) && other.len() > 2
        && pattern.len() > 2 implies other[2] == pattern[2] by {
        assert(whole.subrange(0, other.len() as int)[2] == whole[2]);
    }
}

/// Two types are told by what stands a little further on.
pub proof fn later_bytes_tell_the_type(size: Seq<u8>, rest: Seq<u8>, last: u8)
    requires
        size.len() == 4,
    ensures
        images::sniffed(
            seq![0x52u8, 0x49, 0x46, 0x46] + size + seq![0x57u8, 0x45, 0x42, 0x50] + rest,
        ) == Some("image/webp"@),
        size[0] == 0 && size[2] == 0 && (last == 0x66 || last == 0x73) ==> images::sniffed(
            size + seq![0x66u8, 0x74, 0x79, 0x70, 0x61, 0x76, 0x69, last] + rest,
        ) == Some("image/avif"@),
{
    let riff = seq![0x52u8, 0x49, 0x46, 0x46];
    let webp = seq![0x57u8, 0x45, 0x42, 0x50];
    let first = riff + size + webp + rest;
    lemma_begins(riff, size + webp + rest);
    assert(first =~= riff + (size + webp + rest));
    assert(first.subrange(8, 12) =~= webp);
    let box_type = seq![0x66u8, 0x74, 0x79, 0x70];
    let brand = seq![0x61u8, 0x76, 0x69, last];
    let kind = seq![0x66u8, 0x74, 0x79, 0x70, 0x61, 0x76, 0x69, last];
    let second = size + kind + rest;
    lemma_begins(size, kind + rest);
    assert(second =~= size + (kind + rest));
    assert(second.subrange(4, 8) =~= box_type);
    assert(second.subrange(8, 12) =~= brand);
}

/// The type that a response names is what stands in front of the first semicolon, without white
/// space around it and in small letters.
pub proof fn parameters_do_not_count(name: Seq<char>, parameters: Seq<char>)
    requires
        !name.contains(';'),
    ensures
        images::declared_type(Some(name + seq![';'] + parameters)) == images::declared_type(
            Some(name),
        ),
        images::declared_type(Some(name)) == text::lowered(text::trimmed(name)),
        images::declared_type(None).len() == 0,
{
    let whole = name + seq![';'] + parameters;
    let at = name.len() as int;
    assert(whole[at] == ';');
    assert forall|i: int| 0 <= i < at implies whole[i] != ';' by {
        assert(whole[i] == name[i]);
        assert(name.contains(name[i]));
    }
    text::lemma_position_is(whole, ';', at);
    assert(whole.take(at) =~= name);
    assert(text::split_at(whole, ';')[0] == name);
    assert forall|i: int| 0 <= i < name.len() implies name[i] != ';' by {
        assert(name.contains(name[i]));
    }
    text::lemma_position_is(name, ';', at);
}

/// Small letters stay as they are, capital ones become small, and nothing else changes.
pub proof fn lowering_changes_capitals_alone(given: Seq<char>, i: int)
    requires
        0 <= i < given.len(),
    ensures
        text::lowered(given).len() == given.len(),
        !('A' <= given[i] <= 'Z') ==> text::lowered(given)[i] == given[i],
        'A' <= given[i] <= 'Z' ==> text::lowered(given)[i] as int == given[i] as int + 32,
{
}

/// A type is that of an image where it is `image/` and a name of letters, digits, dots, plus and
/// minus signs.
pub proof fn image_types_are_named(name: Seq<char>)
    ensures
        images::image_type("image/"@ + name) <==> name.len() > 0 && forall|i: int|
            0 <= i < name.len() ==> {
                let c = #[trigger] name[i];
                ||| 'a' <= c <= 'z'
                ||| 'A' <= c <= 'Z'
                ||| '0' <= c <= '9'
                ||| c == '.' || c == '+' || c == '-'
            },
{
    reveal_strlit("image/");
    let whole = "image/"@ + name;
    assert("image/"@.len() == 6);
    assert(whole.take(6) =~= "image/"@);
    assert(forall|i: int| 0 <= i < name.len() ==> #[trigger] name[i] == whole[i + 6]);
    if images::image_type(whole) {
        assert forall|i: int| 0 <= i < name.len() implies images::type_char(#[trigger] name[i]) by {
            assert(images::type_char(whole[i + 6]));
        }
    }
    if forall|i: int| 0 <= i < name.len() ==> images::type_char(#[trigger] name[i]) {
        assert forall|i: int| 6 <= i < whole.len() implies images::type_char(
            #[trigger] whole[i],
        ) by {
            assert(whole[i] == name[i - 6]);
        }
    }
}

/// An image has the type that its response names, whatever its bytes are; only where the response
/// names none, or that of any bytes, its bytes tell.
pub proof fn named_types_count_first(content_type: Seq<char>, bytes: Seq<u8>)
    ensures
        content_type.len() == 0 || content_type == "application/octet-stream"@
            ==> images::media_type_of(content_type, bytes) == images::sniffed(bytes),
        images::image_type(content_type) ==> images::media_type_of(content_type, bytes) == Some(
            content_type,
        ),
        !images::image_type(content_type) && content_type.len() > 0 && content_type
            != "application/octet-stream"@ ==> images::media_type_of(content_type, bytes) is None,
{
    reveal_strlit("image/");
    reveal_strlit("application/octet-stream");
    if images::image_type(content_type) {
        assert(content_type.take(6)[0] == 'i');
        assert("application/octet-stream"@[0] == 'a');
    }
}

/// A response is kept whole where it is an image of 50 MiB at most, and refused otherwise, for what
/// is wrong with it: announced or real size, emptiness, type.
pub proof fn responses_are_kept_whole(
    content_length: Option<u64>,
    content_type: Option<Seq<char>>,
    bytes: Seq<u8>,
    outcome: Result<DownloadedImage, ImageError>,
)
    requires
        images::response_outcome(content_length, content_type, bytes, outcome),
    ensures
        ({
            let named = images::declared_type(content_type);
            let too_large = bytes.len() > 52428800 || (content_length is Some && content_length->0
                > 52428800);
            match outcome {
                Ok(image) => !too_large && bytes.len() > 0 && image.content() == bytes
                    && images::media_type_of(named, bytes) == Some(image.media()),
                Err(ImageError::TooLarge) => too_large,
                Err(ImageError::Empty) => !too_large && bytes.len() == 0,
                Err(ImageError::UnknownFormat) => !too_large && bytes.len() > 0
                    && images::media_type_of(named, bytes) is None && (named.len() == 0 || named
                    == "application/octet-stream"@),
                Err(ImageError::NotAnImage(words)) => !too_large && bytes.len() > 0
                    && images::media_type_of(named, bytes) is None && named.len() > 0 && words@
                    == named,
            }
        }),
{
}

/// The parts of a body are put together in order, with nothing lost.
pub proof fn bodies_are_put_together(first: Seq<Vec<u8>>, second: Seq<Vec<u8>>)
    ensures
        images::body_of(first + second) == images::body_of(first) + images::body_of(second),
        first.len() == 1 ==> images::body_of(first) == first[0]@,
    decreases second.len(),
{
    if second.len() == 0 {
        assert(first + second =~= first);
        assert(images::body_of(first) + images::body_of(second) =~= images::body_of(first));
    } else {
        bodies_are_put_together(first, second.drop_last());
        assert((first + second).drop_last() =~= first + second.drop_last());
        assert((first + second).last() == second.last());
        assert(images::body_of(first + second) =~= images::body_of(first) + images::body_of(
            second,
        ));
    }
    if first.len() == 1 {
        assert(images::body_of(first.drop_last()) =~= seq![]);
        assert(images::body_of(first) =~= first[0]@);
    }
}

/// An image in a file is named by the digest of its bytes and by its type; an image in a link is
/// there with its type and all of its bytes.
pub proof fn images_are_kept_by_content(image: &DownloadedImage)
    ensures
        images::stand_in(ImageMode::Local, image) == "images/"@ + encoding::hex_of(
            encoding::sha256_of(image.content()),
        ) + seq!['.'] + images::extension_of(image.media()),
        images::stand_in(ImageMode::Base64, image) == "data:"@ + image.media() + ";base64,"@
            + encoding::base64_of(image.content()),
{
    reveal_strlit(".");
    assert("."@ =~= seq!['.']);
}

/// The extension is that of the type; a type that has none of its own gets `img`.
pub proof fn extensions_tell_the_type()
    ensures
        images::extension_of("image/jpeg"@) == "jpg"@,
        images::extension_of("image/jpg"@) == "jpg"@,
        images::extension_of("image/png"@) == "png"@,
        images::extension_of("image/gif"@) == "gif"@,
        images::extension_of("image/webp"@) == "webp"@,
        images::extension_of("image/svg+xml"@) == "svg"@,
        images::extension_of("image/avif"@) == "avif"@,
        images::extension_of("image/bmp"@) == "bmp"@,
        images::extension_of("image/x-ms-bmp"@) == "bmp"@,
        images::extension_of("image/tiff"@) == "tiff"@,
        images::extension_of("image/x-icon"@) == "ico"@,
        images::extension_of("image/vnd.microsoft.icon"@) == "ico"@,
        forall|other: Seq<char>|
            other.len() > 24 ==> #[trigger] images::extension_of(other) == "img"@,
{
    reveal_strlit("image/jpeg");
    reveal_strlit("image/jpg");
    reveal_strlit("image/png");
    reveal_strlit("image/gif");
    reveal_strlit("image/webp");
    reveal_strlit("image/svg+xml");
    reveal_strlit("image/avif");
    reveal_strlit("image/bmp");
    reveal_strlit("image/x-ms-bmp");
    reveal_strlit("image/tiff");
    reveal_strlit("image/x-icon");
    reveal_strlit("image/vnd.microsoft.icon");
    assert("image/jpeg"@.len() == 10 && "image/jpeg"@[6] == 'j');
    assert("image/jpg"@.len() == 9 && "image/jpg"@[6] == 'j');
    assert("image/png"@.len() == 9 && "image/png"@[6] == 'p');
    assert("image/gif"@.len() == 9 && "image/gif"@[6] == 'g');
    assert("image/webp"@.len() == 10 && "image/webp"@[6] == 'w');
    assert("image/svg+xml"@.len() == 13);
    assert("image/avif"@.len() == 10 && "image/avif"@[6] == 'a');
    assert("image/bmp"@.len() == 9 && "image/bmp"@[6] == 'b');
    assert("image/x-ms-bmp"@.len() == 14);
    assert("image/tiff"@.len() == 10 && "image/tiff"@[6] == 't');
    assert("image/x-icon"@.len() == 12);
    assert("image/vnd.microsoft.icon"@.len() == 24);
}

/// Each byte becomes two digits, that of its higher half first, and stands where it stood.
pub proof fn bytes_are_written_in_two_digits(bytes: Seq<u8>, i: int)
    requires
        0 <= i < bytes.len(),
    ensures
        encoding::hex_of(bytes).len() == 2 * bytes.len(),
        ({
            let digits = seq![
                '0', '1', '2', '3', '4', '5', '6', '7', '8', '9', 'a', 'b', 'c', 'd', 'e', 'f',
            ];
            &&& encoding::hex_of(bytes)[2 * i] == digits[bytes[i] as int / 16]
            &&& encoding::hex_of(bytes)[2 * i + 1] == digits[bytes[i] as int % 16]
        }),
{
    let digits = seq![
        '0', '1', '2', '3', '4', '5', '6', '7', '8', '9', 'a', 'b', 'c', 'd', 'e', 'f',
    ];
    assert forall|n: int| 0 <= n < 16 implies #[trigger] encoding::hex_digit(n) == digits[n] by {}
    assert((2 * i) / 2 == i && (2 * i + 1) / 2 == i);
    assert((2 * i) % 2 == 0 && (2 * i + 1) % 2 == 1);
    let high = bytes[i] as int / 16;
    let low = bytes[i] as int % 16;
    assert(encoding::hex_digit(high) == digits[high]);
    assert(encoding::hex_digit(low) == digits[low]);
}

/// A successful answer is read. A trouble that may pass, or no answer, is met with another attempt
/// after a pause while there are some left. Anything else is final.
pub proof fn image_replies_are_acted_upon(status: u16, attempt: u32, retries: u32, delay_ms: u64)
    ensures
        ({
            let pause = retry::pause(delay_ms, attempt);
            let passing = status == 429 || 500 <= status <= 599;
            &&& images::next_step(ImageReply::Status(status), attempt, retries, delay_ms) == (if 200
                <= status <= 299 {
                DownloadStep::Read
            } else if passing && attempt < retries {
                DownloadStep::Retry(pause)
            } else {
                DownloadStep::Refused(status)
            })
            &&& images::next_step(ImageReply::Failed, attempt, retries, delay_ms) == (if attempt
                < retries {
                DownloadStep::Retry(pause)
            } else {
                DownloadStep::Unanswered
            })
        }),
{
}

} // verus!
