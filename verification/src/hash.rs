//! 128-bit content fingerprints.
//!
//! Every node payload and every blob is keyed by a 128-bit digest,
//! rendered as a 32-character lowercase hex string. The digest is a pure
//! function of the bytes it is given, which is what gives the Merkle tree
//! its structural-deduplication property.

use vstd::prelude::*;
use vstd::string::StringSliceAdditionalSpecFns;
use crate::error::{OxenError, OxenErrorKind};
use crate::text::{ascii_string, chars_of_ascii, lemma_ascii_bytes_decode};

verus! {

pub const FNV_OFFSET_BASIS: u128 = 0x6c62272e07bb014262b821756295c58d;

pub const FNV_PRIME: u128 = 0x0000000001000000000000000000013b;

/// One step of the FNV-1a fold: xor the byte in, multiply by the prime.
pub open spec fn fnv_step(h: u128, b: u8) -> u128 {
    vstd::wrapping::u128_specs::wrapping_mul(h ^ (b as u128), FNV_PRIME)
}

/// The 128-bit FNV-1a digest of a byte sequence.
pub open spec fn fnv128_of(bytes: Seq<u8>) -> u128
    decreases bytes.len(),
{
    if bytes.len() == 0 {
        FNV_OFFSET_BASIS
    } else {
        fnv_step(fnv128_of(bytes.drop_last()), bytes.last())
    }
}

/// Digest a buffer; the result depends on the bytes alone.
pub fn hash_buffer_128bit(buf: &[u8]) -> (h: u128)
    ensures
        h == fnv128_of(buf@),
{
    let n = buf.len();
    let mut h: u128 = FNV_OFFSET_BASIS;
    let mut i: usize = 0;
    while i < n
        invariant
            i <= n,
            n == buf@.len(),
            h == fnv128_of(buf@.subrange(0, i as int)),
        decreases n - i,
    {
        h = (h ^ (buf[i] as u128)).wrapping_mul(FNV_PRIME);
        proof {
            let pre = buf@.subrange(0, (i + 1) as int);
            assert(pre.drop_last() =~= buf@.subrange(0, i as int));
            assert(pre.last() == buf@[i as int]);
        }
        i = i + 1;
    }
    proof {
        assert(buf@.subrange(0, n as int) =~= buf@);
    }
    h
}

/// A 128-bit content digest used as the key of every store.
#[derive(Debug, Clone, Copy, PartialEq, Eq, Structural)]
pub struct MerkleHash {
    pub value: u128,
}

/// The ASCII byte of one hex digit value (lowercase).
pub open spec fn hex_digit_byte(d: u8) -> u8 {
    if d < 10 {
        (0x30 + d) as u8
    } else {
        (0x57 + d) as u8
    }
}

/// The `i`-th (most significant first) hex digit value of `v`.
pub open spec fn nibble_of(v: u128, i: int) -> u8 {
    ((v >> (((31 - i) * 4) as u128)) & 0xf) as u8
}

/// The 32 ASCII bytes of the lowercase hex rendering of `v`.
pub open spec fn hex_bytes_of(v: u128) -> Seq<u8> {
    Seq::new(32, |i: int| hex_digit_byte(nibble_of(v, i)))
}

/// The 32 characters of the lowercase hex rendering of `v`.
pub open spec fn hex_chars_of(v: u128) -> Seq<char> {
    chars_of_ascii(hex_bytes_of(v))
}

/// Whether `b` is a lowercase hex digit byte.
pub open spec fn is_hex_byte(b: u8) -> bool {
    (0x30 <= b && b <= 0x39) || (0x61 <= b && b <= 0x66)
}

/// The digit value of a lowercase hex digit byte.
pub open spec fn hex_byte_val(b: u8) -> u8 {
    if 0x30 <= b && b <= 0x39 {
        (b - 0x30) as u8
    } else {
        (b - 0x57) as u8
    }
}

/// The value read off a sequence of hex digit bytes, most significant first.
pub open spec fn hex_val_of(bytes: Seq<u8>) -> u128
    decreases bytes.len(),
{
    if bytes.len() == 0 {
        0
    } else {
        (hex_val_of(bytes.drop_last()) << 4) | (hex_byte_val(bytes.last()) as u128)
    }
}

/// Whether `bytes` is the hex rendering of some hash: 32 lowercase digits.
pub open spec fn is_hex_repr(bytes: Seq<u8>) -> bool {
    bytes.len() == 32 && forall|i: int| 0 <= i < 32 ==> is_hex_byte(#[trigger] bytes[i])
}

impl MerkleHash {
    pub fn new(value: u128) -> (h: MerkleHash)
        ensures
            h.value == value,
    {
        MerkleHash { value }
    }

    pub fn to_u128(&self) -> (v: u128)
        ensures
            v == self.value,
    {
        self.value
    }

    /// The 32-character lowercase hex rendering of this hash.
    pub fn to_hex_string(&self) -> (s: String)
        ensures
            s@ == hex_chars_of(self.value),
    {
        let bytes = hex_prefix_bytes(self.value, 32);
        proof {
            assert(bytes@ =~= hex_bytes_of(self.value));
        }
        ascii_string(bytes)
    }

    /// The first characters of the hex rendering, for compact display.
    pub fn to_short_str(&self) -> (s: String)
        ensures
            s@ == hex_chars_of(self.value).take(10),
    {
        let bytes = hex_prefix_bytes(self.value, 10);
        let s = ascii_string(bytes);
        proof {
            assert(s@ =~= hex_chars_of(self.value).take(10));
        }
        s
    }

    /// Parse a 32-character lowercase hex string back into a hash.
    ///
    /// Returns `Ok` exactly when the string's UTF-8 bytes are 32 lowercase
    /// hex digits, and then returns the value those digits spell.
    pub fn from_hex_str(s: &str) -> (r: Result<MerkleHash, OxenError>)
        ensures
            match r {
                Ok(h) => is_hex_repr(s.spec_bytes()) && h.value == hex_val_of(s.spec_bytes()),
                Err(e) => !is_hex_repr(s.spec_bytes()) && e.spec_kind()
                    == OxenErrorKind::InvalidArgument,
            },
    {
        let bytes = s.as_bytes();
        if bytes.len() != 32 {
            return Err(OxenError::InvalidArgument(String::new()));
        }
        let mut v: u128 = 0;
        let mut i: usize = 0;
        while i < 32
            invariant
                i <= 32,
                bytes@.len() == 32,
                bytes@ == s.spec_bytes(),
                forall|j: int| 0 <= j < i ==> is_hex_byte(#[trigger] bytes@[j]),
                v == hex_val_of(bytes@.subrange(0, i as int)),
            decreases 32 - i,
        {
            let b = bytes[i];
            let d: u8 = if 0x30 <= b && b <= 0x39 {
                b - 0x30
            } else if 0x61 <= b && b <= 0x66 {
                b - 0x57
            } else {
                return Err(OxenError::InvalidArgument(String::new()));
            };
            v = (v << 4) | (d as u128);
            proof {
                let pre = bytes@.subrange(0, (i + 1) as int);
                assert(pre.drop_last() =~= bytes@.subrange(0, i as int));
                assert(pre.last() == bytes@[i as int]);
            }
            i = i + 1;
        }
        proof {
            assert(bytes@.subrange(0, 32) =~= bytes@);
        }
        Ok(MerkleHash { value: v })
    }
}

/// The first `k` hex digit bytes of `v`, most significant first.
fn hex_prefix_bytes(v: u128, k: usize) -> (bytes: Vec<u8>)
    requires
        k <= 32,
    ensures
        bytes@ =~= hex_bytes_of(v).take(k as int),
        forall|i: int| 0 <= i < bytes@.len() ==> bytes@[i] < 0x80,
{
    let mut bytes: Vec<u8> = Vec::new();
    let mut i: usize = 0;
    while i < k
        invariant
            i <= k <= 32,
            bytes@.len() == i,
            forall|j: int| 0 <= j < i ==> bytes@[j] == hex_bytes_of(v)[j] && bytes@[j] < 0x80,
        decreases k - i,
    {
        let shift: u128 = ((31 - i) * 4) as u128;
        let x: u128 = (v >> shift) & 0xf;
        proof {
            assert((v >> shift) & 0xf < 16) by (bit_vector);
        }
        let nib: u8 = x as u8;
        let byte: u8 = if nib < 10 {
            0x30 + nib
        } else {
            0x57 + nib
        };
        bytes.push(byte);
        i = i + 1;
    }
    bytes
}

/// A single hex digit recovered from shifting: peeling the low nibble off
/// a shifted value and re-appending it is the identity.
proof fn lemma_shift_nibble(v: u128, s: u128, s2: u128)
    requires
        s <= 124,
        s2 == s + 4,
    ensures
        ((v >> s2) << 4) | ((v >> s) & 0xf) == v >> s,
{
    assert(s <= 124 && s2 == s + 4 ==> ((v >> s2) << 4) | ((v >> s) & 0xf) == v >> s)
        by (bit_vector);
}

/// Rendering a hash to hex and reading the digits back yields the hash:
/// the hex representation is faithful.
pub proof fn lemma_hex_round_trip(v: u128)
    ensures
        is_hex_repr(hex_bytes_of(v)),
        hex_val_of(hex_bytes_of(v)) == v,
{
    assert forall|i: int| 0 <= i < 32 implies is_hex_byte(#[trigger] hex_bytes_of(v)[i])
        && hex_byte_val(hex_bytes_of(v)[i]) == nibble_of(v, i) by {
        let s = ((31 - i) * 4) as u128;
        assert((v >> s) & 0xf < 16) by (bit_vector);
        assert(nibble_of(v, i) == ((v >> s) & 0xf) as u8);
    }
    lemma_hex_prefix_val(v, 32);
    assert(hex_bytes_of(v).take(32) =~= hex_bytes_of(v));
    assert(v >> 0 == v) by (bit_vector);
}

/// The first `k` hex digits of `v` spell `v`'s top `4 * k` bits.
proof fn lemma_hex_prefix_val(v: u128, k: int)
    requires
        0 <= k <= 32,
    ensures
        hex_val_of(hex_bytes_of(v).take(k)) == v >> ((128 - 4 * k) as u128),
    decreases k,
{
    if k == 0 {
        assert(v >> 128 == 0) by (bit_vector);
    } else {
        lemma_hex_prefix_val(v, k - 1);
        let pre = hex_bytes_of(v).take(k);
        assert(pre.drop_last() =~= hex_bytes_of(v).take(k - 1));
        assert(pre.last() == hex_bytes_of(v)[k - 1]);
        let s = (128 - 4 * k) as u128;
        let s2 = (128 - 4 * (k - 1)) as u128;
        let n = nibble_of(v, k - 1);
        assert((v >> s) & 0xf < 16) by (bit_vector);
        assert(n == ((v >> s) & 0xf) as u8);
        assert(hex_byte_val(hex_digit_byte(n)) == n);
        assert((31 - (k - 1)) * 4 == 128 - 4 * k);
        lemma_shift_nibble(v, s, s2);
    }
}

/// The hex rendering of a hash, decoded as a string, parses back to the
/// same hash.
pub proof fn lemma_hex_string_faithful(v: u128)
    ensures
        valid_utf8_hex(v),
        hex_val_of(vstd::utf8::encode_utf8(hex_chars_of(v))) == v,
        is_hex_repr(vstd::utf8::encode_utf8(hex_chars_of(v))),
{
    assert forall|i: int| 0 <= i < hex_bytes_of(v).len() implies #[trigger] hex_bytes_of(v)[i]
        < 0x80 by {
        let s = ((31 - i) * 4) as u128;
        assert((v >> s) & 0xf < 16) by (bit_vector);
        assert(nibble_of(v, i) == ((v >> s) & 0xf) as u8);
    }
    lemma_ascii_bytes_decode(hex_bytes_of(v));
    lemma_hex_round_trip(v);
}

/// Whether the hex characters of `v` encode back to its hex bytes.
pub open spec fn valid_utf8_hex(v: u128) -> bool {
    vstd::utf8::encode_utf8(hex_chars_of(v)) == hex_bytes_of(v)
}

} // verus!
