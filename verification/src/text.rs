//! Small verified bridge between byte sequences and `String` values.
//!
//! The engine's canonical form for path and name data in specifications is
//! the UTF-8 byte sequence of the string, `vstd::utf8::encode_utf8(s@)`.

use vstd::prelude::*;
use vstd::string::StringSliceAdditionalSpecFns;
use vstd::string::StrSliceExecFns;
use vstd::utf8::{
    valid_utf8, decode_utf8, encode_utf8, encode_utf8_valid_utf8, encode_utf8_decode_utf8,
    is_ascii_chars, is_ascii_chars_encode_utf8,
};
use crate::error::{OxenError, OxenErrorKind};

verus! {

/// The character sequence read off an ASCII byte sequence.
pub open spec fn chars_of_ascii(bytes: Seq<u8>) -> Seq<char> {
    Seq::new(bytes.len(), |i: int| bytes[i] as char)
}

/// Relies on `String::from_utf8`: it accepts exactly the byte sequences
/// that are valid UTF-8, and decodes them to the characters they encode.
#[verifier::external_body]
pub fn string_from_utf8(bytes: Vec<u8>) -> (r: Result<String, OxenError>)
    ensures
        match r {
            Ok(s) => valid_utf8(bytes@) && s@ == decode_utf8(bytes@),
            Err(e) => !valid_utf8(bytes@) && e.spec_kind() == OxenErrorKind::InvalidArgument,
        },
{
    match String::from_utf8(bytes) {
        Ok(s) => Ok(s),
        Err(_) => Err(OxenError::InvalidArgument("byte sequence is not valid UTF-8".to_string())),
    }
}

/// An ASCII byte sequence is valid UTF-8 and decodes to its bytes read
/// as characters, one for one.
pub proof fn lemma_ascii_bytes_decode(bytes: Seq<u8>)
    requires
        forall|i: int| 0 <= i < bytes.len() ==> bytes[i] < 0x80,
    ensures
        valid_utf8(bytes),
        decode_utf8(bytes) == chars_of_ascii(bytes),
        encode_utf8(chars_of_ascii(bytes)) == bytes,
{
    let chars = chars_of_ascii(bytes);
    assert(is_ascii_chars(chars)) by {
        assert forall|i: int| 0 <= i < chars.len() implies '\0' <= #[trigger] chars[i]
            <= '\u{7f}' by {
            assert(bytes[i] < 0x80);
        }
    }
    is_ascii_chars_encode_utf8(chars);
    assert(encode_utf8(chars) =~= bytes) by {
        assert forall|i: int| 0 <= i < bytes.len() implies encode_utf8(chars)[i]
            == bytes[i] by {
            assert(chars[i] as u8 == encode_utf8(chars)[i]);
            assert((bytes[i] as char) as u8 == bytes[i]);
        }
    }
    encode_utf8_valid_utf8(chars);
    encode_utf8_decode_utf8(chars);
}

/// UTF-8 encoding distributes over concatenation.
pub proof fn lemma_encode_utf8_concat(a: Seq<char>, b: Seq<char>)
    ensures
        encode_utf8(a + b) == encode_utf8(a) + encode_utf8(b),
    decreases a.len(),
{
    if a.len() == 0 {
        assert(a + b =~= b);
        assert(encode_utf8(a) =~= Seq::<u8>::empty());
        assert(encode_utf8(a) + encode_utf8(b) =~= encode_utf8(b));
    } else {
        lemma_encode_utf8_concat(a.drop_first(), b);
        assert((a + b).drop_first() =~= a.drop_first() + b);
        assert((a + b)[0] == a[0]);
        assert(encode_utf8(a + b) =~= encode_utf8(a) + encode_utf8(b));
    }
}

/// UTF-8 encoding is injective: strings with equal encodings are equal.
pub proof fn lemma_encode_utf8_injective(a: Seq<char>, b: Seq<char>)
    requires
        encode_utf8(a) == encode_utf8(b),
    ensures
        a == b,
{
    encode_utf8_decode_utf8(a);
    encode_utf8_decode_utf8(b);
}

/// Whether two strings spell the same characters.
pub fn str_eq(a: &str, b: &str) -> (r: bool)
    ensures
        r == (a@ == b@),
{
    let ab: &[u8] = a.as_bytes();
    let bb: &[u8] = b.as_bytes();
    if ab.len() != bb.len() {
        proof {
            if a@ == b@ {
                assert(a.spec_bytes() == b.spec_bytes());
            }
        }
        return false;
    }
    let n = ab.len();
    let mut i: usize = 0;
    while i < n
        invariant
            n == ab@.len(),
            n == bb@.len(),
            ab@ == a.spec_bytes(),
            bb@ == b.spec_bytes(),
            i <= n,
            forall|j: int| 0 <= j < i ==> ab@[j] == bb@[j],
        decreases n - i,
    {
        if ab[i] != bb[i] {
            proof {
                if a@ == b@ {
                    assert(a.spec_bytes() == b.spec_bytes());
                }
            }
            return false;
        }
        i = i + 1;
    }
    proof {
        assert(a.spec_bytes() =~= b.spec_bytes());
        lemma_encode_utf8_injective(a@, b@);
    }
    true
}

/// Concatenate two strings.
pub fn str_concat(a: &str, b: &str) -> (r: String)
    ensures
        r@ == a@ + b@,
{
    let mut bytes = a.as_bytes_vec();
    bytes.extend_from_slice(b.as_bytes());
    proof {
        assert(bytes@ =~= encode_utf8(a@) + encode_utf8(b@));
        lemma_encode_utf8_concat(a@, b@);
        encode_utf8_valid_utf8(a@ + b@);
        encode_utf8_decode_utf8(a@ + b@);
    }
    match string_from_utf8(bytes) {
        Ok(s) => s,
        Err(_) => {
            proof {
                assert(false);
            }
            String::new()
        },
    }
}

/// The decimal digit bytes of `n`, most significant first.
pub open spec fn dec_bytes_of(n: nat) -> Seq<u8>
    decreases n,
{
    if n < 10 {
        seq![(0x30 + n) as u8]
    } else {
        dec_bytes_of(n / 10) + seq![(0x30 + n % 10) as u8]
    }
}

/// The decimal rendering of `n`.
pub open spec fn dec_chars_of(n: nat) -> Seq<char> {
    chars_of_ascii(dec_bytes_of(n))
}

/// The same digit run read most significant first.
spec fn msb_of(rev: Seq<u8>) -> Seq<u8> {
    Seq::new(rev.len(), |j: int| rev[rev.len() - 1 - j])
}

/// Render `n` in decimal.
pub fn decimal_string(n: u64) -> (s: String)
    ensures
        s@ == dec_chars_of(n as nat),
{
    let mut rev: Vec<u8> = Vec::new();
    let mut m: u64 = n;
    while m >= 10
        invariant
            dec_bytes_of(n as nat) == dec_bytes_of(m as nat) + msb_of(rev@),
            forall|j: int| 0 <= j < rev@.len() ==> 0x30 <= #[trigger] rev@[j] <= 0x39,
        decreases m,
    {
        let d: u8 = 0x30 + (m % 10) as u8;
        let ghost rev0 = rev@;
        let ghost m0 = m as nat;
        rev.push(d);
        m = m / 10;
        proof {
            assert(msb_of(rev@) =~= seq![d] + msb_of(rev0));
            assert(dec_bytes_of(m0) == dec_bytes_of(m0 / 10) + seq![(0x30 + m0 % 10) as u8]);
            assert(dec_bytes_of(n as nat) =~= dec_bytes_of(m as nat) + msb_of(rev@));
        }
    }
    let d: u8 = 0x30 + m as u8;
    let ghost rev0 = rev@;
    rev.push(d);
    proof {
        assert(msb_of(rev@) =~= seq![d] + msb_of(rev0));
        assert(dec_bytes_of(m as nat) == seq![(0x30 + m as nat) as u8]);
        assert(dec_bytes_of(n as nat) =~= msb_of(rev@));
    }
    let mut bytes: Vec<u8> = Vec::new();
    let mut i: usize = rev.len();
    while i > 0
        invariant
            i <= rev@.len(),
            bytes@.len() == rev@.len() - i,
            forall|j: int| 0 <= j < bytes@.len() ==> bytes@[j] == msb_of(rev@)[j],
            forall|j: int| 0 <= j < rev@.len() ==> 0x30 <= #[trigger] rev@[j] <= 0x39,
        decreases i,
    {
        i = i - 1;
        bytes.push(rev[i]);
    }
    proof {
        assert(bytes@ =~= msb_of(rev@));
    }
    ascii_string(bytes)
}

/// Build a `String` from ASCII bytes; each byte becomes one character.
pub fn ascii_string(bytes: Vec<u8>) -> (s: String)
    requires
        forall|i: int| 0 <= i < bytes@.len() ==> bytes@[i] < 0x80,
    ensures
        s@ == chars_of_ascii(bytes@),
{
    proof {
        lemma_ascii_bytes_decode(bytes@);
    }
    let ghost target = chars_of_ascii(bytes@);
    match string_from_utf8(bytes) {
        Ok(s) => s,
        Err(_) => {
            proof {
                assert(false);
            }
            String::new()
        },
    }
}

} // verus!
