//! SHA-256 hashes, read as 256-bit numbers.

use vstd::prelude::*;
use crate::encoding::{enc_bytes, push_bytes};
use crate::encoding::be_bytes;
use crate::u256::{U256, be_value, hex_digit, le_bytes, lower_hex, lemma_big_endian_round_trip, lemma_from_big_endian_to_little_endian, lemma_view_injective, u256_bound};

verus! {

/// What `sha256::digest` returns for `data`: the digest in hex, as bytes.
pub uninterp spec fn sha256_hex(data: Seq<u8>) -> Seq<u8>;

/// `c` is one of `0-9a-f`.
pub open spec fn is_lower_hex_digit(c: u8) -> bool {
    (48 <= c <= 57) || (97 <= c <= 102)
}

/// `c` is one of `0-9a-fA-F`.
pub open spec fn is_hex_digit(c: u8) -> bool {
    (48 <= c <= 57) || (65 <= c <= 70) || (97 <= c <= 102)
}

/// The value of the hex digit `c`.
pub open spec fn hex_digit_value(c: u8) -> nat {
    if 48 <= c <= 57 {
        (c - 48) as nat
    } else if 65 <= c <= 70 {
        (c - 55) as nat
    } else {
        (c - 87) as nat
    }
}

/// The bytes that the hex digits `s` spell, two digits per byte.
pub open spec fn hex_decoded(s: Seq<u8>) -> Seq<u8> {
    Seq::new(
        s.len() / 2,
        |i: int| (hex_digit_value(s[2 * i]) * 16 + hex_digit_value(s[2 * i + 1])) as u8,
    )
}

/// The number that the SHA-256 digest of `data` denotes, most significant byte first.
pub open spec fn digest_value(data: Seq<u8>) -> nat {
    be_value(hex_decoded(sha256_hex(data)))
}

/// Calls `sha256::digest` on a byte slice. Its source returns `hex::encode` of the
/// SHA-256 digest: 64 lowercase hex digits. Which digits is named, not stated.
#[verifier::external_body]
fn sha256_digest(data: &[u8]) -> (r: Vec<u8>)
    ensures
        r@ == sha256_hex(data@),
        r@.len() == 64,
        forall|i: int| 0 <= i < 64 ==> is_lower_hex_digit(#[trigger] r@[i]),
{
    ::sha256::digest(data).into_bytes()
}

/// Calls `hex::decode`: it succeeds exactly on an even number of hex digits of
/// either case, and turns each pair of digits into one byte.
#[verifier::external_body]
fn hex_decode(s: &[u8]) -> (r: Option<Vec<u8>>)
    ensures
        r is Some <==> (s@.len() % 2 == 0 && forall|i: int|
            0 <= i < s@.len() ==> is_hex_digit(#[trigger] s@[i])),
        r matches Some(v) ==> v@ == hex_decoded(s@),
{
    ::hex::decode(s).ok()
}

/// Calls `String::from_utf8`. Every ASCII byte is a UTF-8 character of one
/// byte, so on ASCII bytes it succeeds, with one character per byte.
#[verifier::external_body]
fn ascii_string(bytes: Vec<u8>) -> (r: String)
    requires
        forall|i: int| 0 <= i < bytes@.len() ==> #[trigger] bytes@[i] < 128,
    ensures
        r@ == bytes@.map_values(|b: u8| b as char),
{
    String::from_utf8(bytes).unwrap_or_default()
}

/// A SHA-256 hash, read as a 256-bit number.
#[derive(Clone, Copy, PartialEq, Eq, Structural, Debug)]
pub struct Hash(U256);

impl View for Hash {
    type V = nat;

    closed spec fn view(&self) -> nat {
        self.0@
    }
}

/// The encoding of a hash: its 32 bytes, most significant first, as a byte string.
pub open spec fn enc_hash(h: Hash) -> Seq<u8> {
    enc_bytes(be_bytes(h@, 32))
}

/// Every hex digit is an ASCII byte.
proof fn lemma_lower_hex_ascii(n: nat)
    ensures
        forall|i: int| 0 <= i < lower_hex(n).len() ==> #[trigger] lower_hex(n)[i] < 128,
    decreases n,
{
    if n >= 16 {
        lemma_lower_hex_ascii(n / 16);
        let d = (n % 16) as nat;
        assert(hex_digit(d) < 128);
        assert(lower_hex(n) == lower_hex(n / 16).push(hex_digit(d)));
    } else {
        assert(hex_digit(n) < 128);
    }
}

/// Two hashes with the same number are the same hash.
pub proof fn lemma_hash_injective(a: Hash, b: Hash)
    ensures
        (a@ == b@) == (a == b),
{
    lemma_view_injective(a.0, b.0);
}

/// Reading a hash back from its bytes gives the hash.
pub proof fn lemma_bytes_round_trip(h: Hash)
    ensures
        be_value(le_bytes(h@, 32).reverse()) == h@,
{
    lemma_big_endian_round_trip(h.0);
}

/// Writing the hash that bytes give gives the bytes back.
pub proof fn lemma_from_bytes_round_trip(bytes: Seq<u8>)
    requires
        bytes.len() == 32,
    ensures
        le_bytes(be_value(bytes.reverse()), 32) == bytes,
{
    lemma_from_big_endian_to_little_endian(bytes.reverse());
    assert(bytes.reverse().reverse() =~= bytes);
}

impl Hash {
    /// Every hash lies below 2^256.
    pub proof fn lemma_bounded(self)
        ensures
            self@ < u256_bound(),
    {
        self.0.lemma_bounded();
    }

    /// The hash of `data`: its SHA-256 digest, read most significant byte
    /// first. The digest has 32 bytes, so the hash's bytes (`to_bytes`, least
    /// significant first) are the digest reversed.
    pub fn hash(data: &[u8]) -> (r: Hash)
        ensures
            r@ == digest_value(data@),
            hex_decoded(sha256_hex(data@)).len() == 32,
            le_bytes(r@, 32) == hex_decoded(sha256_hex(data@)).reverse(),
    {
        let hex = sha256_digest(data);
        proof {
            let d = hex_decoded(sha256_hex(data@));
            assert(d.len() == 32);
            lemma_from_bytes_round_trip(d.reverse());
            assert(d.reverse().reverse() =~= d);
        }
        let decoded = hex_decode(hex.as_slice());
        match decoded {
            Some(bytes) => {
                let mut arr: [u8; 32] = [0u8; 32];
                let mut i: usize = 0;
                while i < 32
                    invariant
                        i <= 32,
                        bytes@.len() == 32,
                        forall|k: int| 0 <= k < i ==> arr@[k] == bytes@[k],
                    decreases 32 - i,
                {
                    arr[i] = bytes[i];
                    i = i + 1;
                }
                assert(arr@ =~= bytes@);
                Hash(U256::from_big_endian(&arr))
            },
            None => {
                proof {
                    assert(forall|i: int| 0 <= i < hex@.len() ==> is_hex_digit(#[trigger] hex@[i]))
                        by {
                        assert(forall|i: int| 0 <= i < 64 ==> is_lower_hex_digit(#[trigger] hex@[i]));
                    }
                }
                Hash(U256::zero())
            },
        }
    }

    /// The hash whose 32 bytes, least significant first, are `bytes`: the
    /// inverse of `to_bytes`.
    pub fn from_bytes(bytes: &[u8; 32]) -> (r: Hash)
        ensures
            r@ == be_value(bytes@.reverse()),
    {
        let mut be: [u8; 32] = [0u8; 32];
        let mut i: usize = 0;
        while i < 32
            invariant
                i <= 32,
                forall|k: int| 0 <= k < i ==> be@[k] == bytes@[31 - k],
            decreases 32 - i,
        {
            be[i] = bytes[31 - i];
            i = i + 1;
        }
        assert(be@ =~= bytes@.reverse());
        Hash(U256::from_big_endian(&be))
    }

    /// The 32 bytes of the hash, least significant byte first.
    pub fn to_bytes(&self) -> (r: [u8; 32])
        ensures
            r@ == le_bytes(self@, 32),
    {
        self.0.to_little_endian()
    }

    /// Whether the hash lies below `target`.
    pub fn match_target(&self, target: U256) -> (r: bool)
        ensures
            r == (self@ < target@),
    {
        self.0.lt(&target)
    }

    /// The hash whose number is zero.
    pub fn zero() -> (r: Hash)
        ensures
            r@ == 0,
    {
        Hash(U256::zero())
    }

    /// Whether two hashes are the same.
    pub fn eq(&self, other: &Hash) -> (r: bool)
        ensures
            r == (self@ == other@),
            r == (*self == *other),
    {
        self.0.eq(&other.0)
    }

    /// The hash in lowercase hex digits, with no leading zero: how the hash
    /// is displayed.
    pub fn to_hex_string(&self) -> (r: String)
        ensures
            r@ == lower_hex(self@).map_values(|b: u8| b as char),
    {
        let digits = self.0.to_lower_hex();
        proof {
            lemma_lower_hex_ascii(self@);
        }
        ascii_string(digits)
    }

    /// Pushes the encoding of the hash.
    pub(crate) fn push_encoding(&self, out: &mut Vec<u8>)
        ensures
            final(out)@ == old(out)@ + enc_hash(*self),
    {
        let b = self.0.to_big_endian();
        push_bytes(out, &b);
    }
}

} // verus!
