//! Bytes as text.

use base64::Engine;
use sha2::Digest;
use vstd::prelude::*;

verus! {

/// The SHA-256 digest of `bytes`.
pub uninterp spec fn sha256_of(bytes: Seq<u8>) -> Seq<u8>;

/// Calls `sha2::Sha256::digest`. The digest depends on the bytes alone and goes by the name
/// `sha256_of`; it has thirty-two bytes.
#[verifier::external_body]
pub(crate) fn sha256(bytes: &[u8]) -> (digest: Vec<u8>)
    ensures
        digest@ == sha256_of(bytes@),
        digest@.len() == 32,
{
    sha2::Sha256::digest(bytes).to_vec()
}

/// The most bytes that are encoded at once.
pub const MAX_ENCODED_BYTES: usize = 0x2000_0000;

/// The character of the standard alphabet for `n`, which is below sixty-four.
pub open spec fn base64_digit(n: int) -> char {
    if n < 26 {
        (n + 65) as char
    } else if n < 52 {
        (n + 71) as char
    } else if n < 62 {
        (n - 4) as char
    } else if n == 62 {
        '+'
    } else {
        '/'
    }
}

/// The standard base64 text of `bytes`: three bytes become four characters of six bits each; where
/// one or two bytes are left, zero bits and the padding fill up.
pub open spec fn base64_of(bytes: Seq<u8>) -> Seq<char>
    decreases bytes.len(),
{
    if bytes.len() == 0 {
        seq![]
    } else {
        let a = bytes[0] as int;
        let b = if bytes.len() > 1 {
            bytes[1] as int
        } else {
            0
        };
        let c = if bytes.len() > 2 {
            bytes[2] as int
        } else {
            0
        };
        let third = if bytes.len() > 1 {
            base64_digit(b % 16 * 4 + c / 64)
        } else {
            '='
        };
        let fourth = if bytes.len() > 2 {
            base64_digit(c % 64)
        } else {
            '='
        };
        let rest = if bytes.len() > 3 {
            base64_of(bytes.skip(3))
        } else {
            seq![]
        };
        seq![base64_digit(a / 4), base64_digit(a % 4 * 16 + b / 16), third, fourth] + rest
    }
}

/// Whether `c` may stand in a base64 text.
pub open spec fn base64_char(c: char) -> bool {
    'A' <= c <= 'Z' || 'a' <= c <= 'z' || '0' <= c <= '9' || c == '+' || c == '/' || c == '='
}

/// The characters of the alphabet are different, and none is the padding.
proof fn lemma_base64_digit(n: int, m: int)
    requires
        0 <= n < 64,
        0 <= m < 64,
    ensures
        base64_char(base64_digit(n)),
        base64_digit(n) != '=',
        base64_digit(n) == base64_digit(m) ==> n == m,
{
}

/// A base64 text holds nothing but the characters of the alphabet and the padding.
pub proof fn base64_texts_are_plain(bytes: Seq<u8>)
    ensures
        forall|i: int|
            0 <= i < base64_of(bytes).len() ==> base64_char(#[trigger] base64_of(bytes)[i]),
    decreases bytes.len(),
{
    if bytes.len() > 0 {
        let a = bytes[0] as int;
        let b = if bytes.len() > 1 {
            bytes[1] as int
        } else {
            0
        };
        let c = if bytes.len() > 2 {
            bytes[2] as int
        } else {
            0
        };
        lemma_base64_digit(a / 4, 0);
        lemma_base64_digit(a % 4 * 16 + b / 16, 0);
        lemma_base64_digit(b % 16 * 4 + c / 64, 0);
        lemma_base64_digit(c % 64, 0);
        let rest = if bytes.len() > 3 {
            base64_of(bytes.skip(3))
        } else {
            seq![]
        };
        if bytes.len() > 3 {
            base64_texts_are_plain(bytes.skip(3));
        }
        assert forall|i: int| 0 <= i < base64_of(bytes).len() implies base64_char(
            #[trigger] base64_of(bytes)[i],
        ) by {
            if i >= 4 {
                assert(base64_of(bytes)[i] == rest[i - 4]);
            }
        }
    }
}

/// The first bytes of a text that is not empty, and what comes after them, are known by its base64
/// text.
proof fn lemma_base64_head(left: Seq<u8>, right: Seq<u8>)
    requires
        left.len() > 0,
        right.len() > 0,
        base64_of(left) == base64_of(right),
    ensures
        left[0] == right[0],
        left.len() == 1 <==> right.len() == 1,
        left.len() == 2 <==> right.len() == 2,
        left.len() > 1 ==> left[1] == right[1],
        left.len() > 2 ==> left[2] == right[2],
        left.len() > 3 <==> right.len() > 3,
        left.len() > 3 ==> base64_of(left.skip(3)) == base64_of(right.skip(3)),
{
    let one = base64_of(left);
    let other = base64_of(right);
    let (a, d) = (left[0] as int, right[0] as int);
    let (b, e) = (
        if left.len() > 1 {
            left[1] as int
        } else {
            0
        },
        if right.len() > 1 {
            right[1] as int
        } else {
            0
        },
    );
    let (c, f) = (
        if left.len() > 2 {
            left[2] as int
        } else {
            0
        },
        if right.len() > 2 {
            right[2] as int
        } else {
            0
        },
    );
    lemma_base64_digit(a / 4, d / 4);
    lemma_base64_digit(a % 4 * 16 + b / 16, d % 4 * 16 + e / 16);
    lemma_base64_digit(b % 16 * 4 + c / 64, e % 16 * 4 + f / 64);
    lemma_base64_digit(e % 16 * 4 + f / 64, 0);
    lemma_base64_digit(c % 64, f % 64);
    lemma_base64_digit(f % 64, 0);
    assert(one[0] == base64_digit(a / 4) && other[0] == base64_digit(d / 4));
    assert(one[1] == base64_digit(a % 4 * 16 + b / 16));
    assert(other[1] == base64_digit(d % 4 * 16 + e / 16));
    assert(a % 4 == d % 4 && b / 16 == e / 16);
    assert(one[2] == other[2] && one[3] == other[3]);
    assert(one[2] == (if left.len() > 1 {
        base64_digit(b % 16 * 4 + c / 64)
    } else {
        '='
    }));
    assert(other[2] == (if right.len() > 1 {
        base64_digit(e % 16 * 4 + f / 64)
    } else {
        '='
    }));
    assert(one[3] == (if left.len() > 2 {
        base64_digit(c % 64)
    } else {
        '='
    }));
    assert(other[3] == (if right.len() > 2 {
        base64_digit(f % 64)
    } else {
        '='
    }));
    lemma_base64_digit(b % 16 * 4 + c / 64, 0);
    if left.len() > 1 {
        assert(b % 16 * 4 + c / 64 == e % 16 * 4 + f / 64);
        assert(b % 16 == e % 16 && c / 64 == f / 64);
        assert(b == e);
    }
    if left.len() > 2 {
        assert(c % 64 == f % 64);
        assert(c == f);
    }
    if left.len() > 3 {
        assert(one.len() == 4 + base64_of(left.skip(3)).len());
        lemma_base64_filled(left.skip(3));
        assert(right.len() > 3);
    }
    if right.len() > 3 {
        assert(other.len() == 4 + base64_of(right.skip(3)).len());
        lemma_base64_filled(right.skip(3));
        assert(left.len() > 3);
        assert(one.skip(4) =~= base64_of(left.skip(3)));
        assert(other.skip(4) =~= base64_of(right.skip(3)));
    }
}

/// Bytes that are there give a text that is not empty.
proof fn lemma_base64_filled(bytes: Seq<u8>)
    requires
        bytes.len() > 0,
    ensures
        base64_of(bytes).len() >= 4,
{
}

/// No other bytes have the same base64 text.
pub proof fn base64_is_injective(left: Seq<u8>, right: Seq<u8>)
    requires
        base64_of(left) == base64_of(right),
    ensures
        left == right,
    decreases left.len(),
{
    if left.len() == 0 {
        if right.len() > 0 {
            lemma_base64_filled(right);
        }
        assert(left =~= right);
    } else {
        if right.len() == 0 {
            lemma_base64_filled(left);
        }
        lemma_base64_head(left, right);
        if left.len() > 3 {
            base64_is_injective(left.skip(3), right.skip(3));
            assert(left =~= left.take(3) + left.skip(3));
            assert(right =~= right.take(3) + right.skip(3));
            assert(left.take(3) =~= right.take(3));
        } else {
            assert(left =~= right);
        }
    }
}

/// Calls `Engine::encode` of `base64::engine::general_purpose::STANDARD`, which gives the base64
/// text in the standard alphabet, with padding. The call panics where the length of the text does
/// not fit the machine, so the number of bytes is bounded.
#[verifier::external_body]
pub(crate) fn base64_encode(bytes: &[u8]) -> (encoded: String)
    requires
        bytes@.len() <= MAX_ENCODED_BYTES,
    ensures
        encoded@ == base64_of(bytes@),
{
    base64::engine::general_purpose::STANDARD.encode(bytes)
}

/// The lower-case hexadecimal digit for `n`, which is below sixteen.
pub open spec fn hex_digit(n: int) -> char {
    if n < 10 {
        (n + 48) as char
    } else {
        (n + 87) as char
    }
}

/// Each byte as two lower-case hexadecimal digits.
pub open spec fn hex_of(bytes: Seq<u8>) -> Seq<char> {
    Seq::new(
        2 * bytes.len(),
        |i: int|
            if i % 2 == 0 {
                hex_digit(bytes[i / 2] as int / 16)
            } else {
                hex_digit(bytes[i / 2] as int % 16)
            },
    )
}

fn hex_char(n: u8) -> (c: char)
    requires
        n < 16,
    ensures
        c == hex_digit(n as int),
{
    if n < 10 {
        (n + 48) as char
    } else {
        (n + 87) as char
    }
}

/// Each byte as two lower-case hexadecimal digits.
pub fn hex_lower(bytes: &[u8]) -> (digits: String)
    ensures
        digits@ == hex_of(bytes@),
{
    let mut digits: String = String::new();
    let mut i: usize = 0;
    while i < bytes.len()
        invariant
            i <= bytes@.len(),
            digits@.len() == 2 * i,
            forall|k: int| 0 <= k < 2 * i ==> #[trigger] digits@[k] == hex_of(bytes@)[k],
        decreases bytes@.len() - i,
    {
        digits.push(hex_char(bytes[i] / 16));
        digits.push(hex_char(bytes[i] % 16));
        i = i + 1;
    }
    assert(digits@ =~= hex_of(bytes@));
    digits
}

} // verus!
