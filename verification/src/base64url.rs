//! Unpadded base64url text.

use base64::Engine;
use base64::engine::general_purpose::URL_SAFE_NO_PAD;
use vstd::prelude::*;

verus! {

/// The character that stands for six bits.
pub open spec fn sextet_char(v: int) -> char {
    if v < 26 {
        ('A' as int + v) as char
    } else if v < 52 {
        ('a' as int + v - 26) as char
    } else if v < 62 {
        ('0' as int + v - 52) as char
    } else if v == 62 {
        '-'
    } else {
        '_'
    }
}

/// The unpadded base64url text of `b`: four characters for each three bytes, and
/// two or three for the one or two that are left, filled up with zero bits.
pub open spec fn base64url(b: Seq<u8>) -> Seq<char>
    decreases b.len(),
{
    if b.len() == 0 {
        Seq::empty()
    } else if b.len() == 1 {
        seq![sextet_char(b[0] as int / 4), sextet_char(b[0] as int % 4 * 16)]
    } else if b.len() == 2 {
        seq![
            sextet_char(b[0] as int / 4),
            sextet_char(b[0] as int % 4 * 16 + b[1] as int / 16),
            sextet_char(b[1] as int % 16 * 4),
        ]
    } else {
        seq![
            sextet_char(b[0] as int / 4),
            sextet_char(b[0] as int % 4 * 16 + b[1] as int / 16),
            sextet_char(b[1] as int % 16 * 4 + b[2] as int / 64),
            sextet_char(b[2] as int % 64),
        ] + base64url(b.skip(3))
    }
}

/// What `base64` reports of a text that it cannot decode.
pub uninterp spec fn base64url_error(text: Seq<char>) -> Seq<char>;

/// `base64::Engine::decode` of `URL_SAFE_NO_PAD`: the bytes whose unpadded
/// base64url text is `text`. If there are none, because of a character, the length
/// or trailing bits that no such text has, an error, named `base64url_error`,
/// which depends on the text alone.
#[verifier::external_body]
pub(crate) fn decode_base64url(text: &str) -> (r: Result<Vec<u8>, String>)
    ensures
        match r {
            Ok(bytes) => base64url(bytes@) == text@,
            Err(message) => {
                &&& forall|b: Seq<u8>| #[trigger] base64url(b) != text@
                &&& message@ == base64url_error(text@)
            },
        },
{
    URL_SAFE_NO_PAD.decode(text).map_err(|error| error.to_string())
}

proof fn lemma_sextet_injective(a: int, b: int)
    requires
        0 <= a < 64,
        0 <= b < 64,
        sextet_char(a) == sextet_char(b),
    ensures
        a == b,
{
}

/// Different bytes have different base64url texts, so decoding a text gives back
/// the bytes that were encoded.
pub proof fn base64url_determines_bytes(a: Seq<u8>, b: Seq<u8>)
    requires
        base64url(a) == base64url(b),
    ensures
        a == b,
    decreases a.len(),
{
    let (s, t) = (base64url(a), base64url(b));
    lemma_length(a);
    lemma_length(b);
    if a.len() > 0 {
        assert(s[0] == t[0] && s[1] == t[1]);
        lemma_sextet_injective(a[0] as int / 4, b[0] as int / 4);
        if a.len() == 1 {
            lemma_sextet_injective(a[0] as int % 4 * 16, b[0] as int % 4 * 16);
            assert(a =~= b);
        } else {
            lemma_sextet_injective(
                a[0] as int % 4 * 16 + a[1] as int / 16,
                b[0] as int % 4 * 16 + b[1] as int / 16,
            );
            assert(a[0] == b[0]);
            assert(s[2] == t[2]);
            if a.len() == 2 {
                lemma_sextet_injective(a[1] as int % 16 * 4, b[1] as int % 16 * 4);
                assert(a =~= b);
            } else {
                lemma_sextet_injective(
                    a[1] as int % 16 * 4 + a[2] as int / 64,
                    b[1] as int % 16 * 4 + b[2] as int / 64,
                );
                assert(s[3] == t[3]);
                lemma_sextet_injective(a[2] as int % 64, b[2] as int % 64);
                assert(base64url(a.skip(3)) =~= s.skip(4));
                assert(base64url(b.skip(3)) =~= t.skip(4));
                base64url_determines_bytes(a.skip(3), b.skip(3));
                assert(a =~= a.take(3) + a.skip(3));
                assert(b =~= b.take(3) + b.skip(3));
                assert(a.take(3) =~= b.take(3));
            }
        }
    }
}

/// How long a base64url text is.
proof fn lemma_length(b: Seq<u8>)
    ensures
        base64url(b).len() == b.len() / 3 * 4 + (if b.len() % 3 == 0 {
            0nat
        } else {
            b.len() % 3 + 1
        }),
    decreases b.len(),
{
    if b.len() >= 3 {
        lemma_length(b.skip(3));
    }
}

/// The characters for six bits are the letters, upper case first, the digits, the hyphen
/// and the underscore.
pub proof fn sextets_have_their_characters(v: int)
    requires
        0 <= v < 64,
    ensures
        sextet_char(v) as u32 == (if v < 26 {
            65 + v
        } else if v < 52 {
            97 + (v - 26)
        } else if v < 62 {
            48 + (v - 52)
        } else if v == 62 {
            45
        } else {
            95
        }),
{
}

/// Three bytes and four characters stand for the same number of 24 bits; where bytes are
/// missing at the end, so are the characters that would hold none of their bits.
pub proof fn three_bytes_are_four_characters(
    x: u8,
    y: u8,
    z: u8,
    rest: Seq<u8>,
    a: int,
    b: int,
    c: int,
    d: int,
)
    requires
        0 <= a < 64,
        0 <= b < 64,
        0 <= c < 64,
        0 <= d < 64,
        65536 * x + 256 * y + z == 262144 * a + 4096 * b + 64 * c + d,
    ensures
        base64url(seq![x, y, z] + rest) == seq![
            sextet_char(a),
            sextet_char(b),
            sextet_char(c),
            sextet_char(d),
        ] + base64url(rest),
        z == 0 ==> base64url(seq![x, y]) == seq![sextet_char(a), sextet_char(b), sextet_char(c)],
        y == 0 && z == 0 ==> base64url(seq![x]) == seq![sextet_char(a), sextet_char(b)],
        base64url(Seq::empty()) == Seq::<char>::empty(),
{
    let (xi, yi, zi) = (x as int, y as int, z as int);
    assert(a == xi / 4);
    assert(b == xi % 4 * 16 + yi / 16);
    assert(c == yi % 16 * 4 + zi / 64);
    assert(d == zi % 64);
    let whole = seq![x, y, z] + rest;
    assert(whole.skip(3) =~= rest);
    assert(whole[0] == x && whole[1] == y && whole[2] == z);
}

} // verus!
