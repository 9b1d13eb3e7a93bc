//! The bytes that a value is hashed as: a CBOR encoding (RFC 8949) in which a
//! record is a map from its field names to its fields, a sequence is an
//! array, and fixed-width byte strings and wide integers are byte strings.
//!
//! Fields are laid out as serde and ciborium write them: a record as a map
//! keyed by field names, a 128-bit identifier as its 16 bytes, a time as the
//! RFC 3339 text that chrono's serde form holds. Hashes, 256-bit numbers and
//! keys, whose serde forms this crate does not fix, are byte strings of their
//! bytes, most significant first.

use vstd::prelude::*;
use vstd::string::StringSliceAdditionalSpecFns;
use vstd::string::StrSliceExecFns;
use crate::u256::{b64, le_bytes, lemma_le_bytes_len, lemma_le_bytes_prefix, lemma_le_bytes_split, lemma_pow256_limbs, push_le_limb};

verus! {

/// The `n` low bytes of `v`, most significant byte first.
pub open spec fn be_bytes(v: nat, n: nat) -> Seq<u8> {
    le_bytes(v, n).reverse()
}

/// The head of a CBOR data item: major type `major` and argument `arg`.
pub open spec fn cbor_head(major: u8, arg: u64) -> Seq<u8> {
    let m = major as nat * 32;
    if arg < 24 {
        seq![(m + arg) as u8]
    } else if arg < 0x100 {
        seq![(m + 24) as u8] + be_bytes(arg as nat, 1)
    } else if arg < 0x1_0000 {
        seq![(m + 25) as u8] + be_bytes(arg as nat, 2)
    } else if arg < 0x1_0000_0000 {
        seq![(m + 26) as u8] + be_bytes(arg as nat, 4)
    } else {
        seq![(m + 27) as u8] + be_bytes(arg as nat, 8)
    }
}

/// An unsigned integer.
pub open spec fn enc_uint(v: u64) -> Seq<u8> {
    cbor_head(0, v)
}

/// A signed integer.
pub open spec fn enc_int(v: i64) -> Seq<u8> {
    if v >= 0 {
        cbor_head(0, v as u64)
    } else {
        cbor_head(1, (-1 - v) as u64)
    }
}

/// A byte string.
pub open spec fn enc_bytes(s: Seq<u8>) -> Seq<u8> {
    cbor_head(2, s.len() as u64) + s
}

/// A text string, given by its UTF-8 bytes.
pub open spec fn enc_text(s: Seq<u8>) -> Seq<u8> {
    cbor_head(3, s.len() as u64) + s
}

/// The head of an array of `n` items.
pub open spec fn enc_array_head(n: nat) -> Seq<u8> {
    cbor_head(4, n as u64)
}

/// The head of a map of `n` entries.
pub open spec fn enc_map_head(n: nat) -> Seq<u8> {
    cbor_head(5, n as u64)
}

/// A map key: the field name `name`.
pub open spec fn enc_key(name: &str) -> Seq<u8> {
    enc_text(name.spec_bytes())
}

/// Pushes the `n` low bytes of `v`, most significant byte first.
fn push_be(out: &mut Vec<u8>, v: u64, n: usize)
    requires
        n <= 8,
    ensures
        final(out)@ == old(out)@ + be_bytes(v as nat, n as nat),
{
    let mut tmp: Vec<u8> = Vec::new();
    push_le_limb(&mut tmp, v);
    proof {
        lemma_le_bytes_len(v as nat, 8);
        lemma_le_bytes_len(v as nat, n as nat);
        lemma_le_bytes_prefix(v as nat, n as nat, (8 - n) as nat);
        assert(tmp@ =~= le_bytes(v as nat, 8));
    }
    let ghost want = be_bytes(v as nat, n as nat);
    let mut i: usize = 0;
    while i < n
        invariant
            i <= n <= 8,
            tmp@ == le_bytes(v as nat, 8),
            le_bytes(v as nat, 8).take(n as int) == le_bytes(v as nat, n as nat),
            le_bytes(v as nat, n as nat).len() == n,
            le_bytes(v as nat, 8).len() == 8,
            want == be_bytes(v as nat, n as nat),
            out@ == old(out)@ + want.take(i as int),
        decreases n - i,
    {
        assert(want[i as int] == le_bytes(v as nat, n as nat)[n - 1 - i]);
        assert(le_bytes(v as nat, 8).take(n as int)[n - 1 - i] == tmp@[n - 1 - i]);
        out.push(tmp[n - 1 - i]);
        assert(out@ =~= old(out)@ + want.take(i + 1));
        i = i + 1;
    }
    assert(want.take(n as int) =~= want);
}

/// Pushes the head of a CBOR data item.
pub fn push_head(out: &mut Vec<u8>, major: u8, arg: u64)
    requires
        major < 8,
    ensures
        final(out)@ == old(out)@ + cbor_head(major, arg),
{
    let m: u8 = major * 32;
    if arg < 24 {
        out.push(m + arg as u8);
        assert(out@ =~= old(out)@ + cbor_head(major, arg));
    } else {
        let n: usize;
        if arg < 0x100 {
            out.push(m + 24);
            n = 1;
        } else if arg < 0x1_0000 {
            out.push(m + 25);
            n = 2;
        } else if arg < 0x1_0000_0000 {
            out.push(m + 26);
            n = 4;
        } else {
            out.push(m + 27);
            n = 8;
        }
        let ghost mid = out@;
        push_be(out, arg, n);
        assert(out@ =~= old(out)@ + cbor_head(major, arg));
    }
}

/// Pushes an unsigned integer.
pub fn push_uint(out: &mut Vec<u8>, v: u64)
    ensures
        final(out)@ == old(out)@ + enc_uint(v),
{
    push_head(out, 0, v);
}

/// Pushes a signed integer.
pub fn push_int(out: &mut Vec<u8>, v: i64)
    ensures
        final(out)@ == old(out)@ + enc_int(v),
{
    if v >= 0 {
        push_head(out, 0, v as u64);
    } else {
        let a: i64 = -1 - v;
        push_head(out, 1, a as u64);
    }
}

/// Pushes a byte string.
pub fn push_bytes(out: &mut Vec<u8>, s: &[u8])
    ensures
        final(out)@ == old(out)@ + enc_bytes(s@),
{
    push_string(out, 2, s)
}

/// Pushes a text string, given by its UTF-8 bytes.
pub fn push_text(out: &mut Vec<u8>, s: &[u8])
    ensures
        final(out)@ == old(out)@ + enc_text(s@),
{
    push_string(out, 3, s)
}

/// Pushes the head of major type `major` with the length of `s`, then `s`.
fn push_string(out: &mut Vec<u8>, major: u8, s: &[u8])
    requires
        major == 2 || major == 3,
    ensures
        final(out)@ == old(out)@ + cbor_head(major, s@.len() as u64) + s@,
{
    push_head(out, major, s.len() as u64);
    let ghost mid = out@;
    let mut i: usize = 0;
    while i < s.len()
        invariant
            i <= s@.len(),
            out@ == mid + s@.take(i as int),
        decreases s@.len() - i,
    {
        out.push(s[i]);
        assert(out@ =~= mid + s@.take(i + 1));
        i = i + 1;
    }
    assert(s@.take(s@.len() as int) =~= s@);
    assert(out@ =~= old(out)@ + cbor_head(major, s@.len() as u64) + s@);
}

/// Pushes a 128-bit number as a byte string of 16 bytes, most significant first.
pub fn push_u128_bytes(out: &mut Vec<u8>, v: u128)
    ensures
        final(out)@ == old(out)@ + enc_bytes(be_bytes(v as nat, 16)),
{
    let hi: u64 = (v / 0x1_0000_0000_0000_0000u128) as u64;
    let lo: u64 = (v % 0x1_0000_0000_0000_0000u128) as u64;
    push_head(out, 2, 16);
    let ghost mid = out@;
    push_be(out, hi, 8);
    push_be(out, lo, 8);
    proof {
        lemma_pow256_limbs();
        assert(v as nat == lo as nat + b64() * (hi as nat));
        lemma_le_bytes_split(lo as nat, hi as nat, 8, 8);
        lemma_le_bytes_len(lo as nat, 8);
        lemma_le_bytes_len(hi as nat, 8);
        assert(be_bytes(v as nat, 16) =~= be_bytes(hi as nat, 8) + be_bytes(lo as nat, 8));
        assert(be_bytes(v as nat, 16).len() == 16);
        assert(out@ =~= old(out)@ + enc_bytes(be_bytes(v as nat, 16)));
    }
}

/// Pushes a map key: the field name `name`.
pub fn push_key(out: &mut Vec<u8>, name: &str)
    ensures
        final(out)@ == old(out)@ + enc_key(name),
{
    let b = name.as_bytes_vec();
    push_head(out, 3, b.len() as u64);
    let ghost mid = out@;
    let mut i: usize = 0;
    while i < b.len()
        invariant
            i <= b@.len(),
            out@ == mid + b@.take(i as int),
        decreases b@.len() - i,
    {
        out.push(b[i]);
        assert(out@ =~= mid + b@.take(i + 1));
        i = i + 1;
    }
    assert(b@.take(b@.len() as int) =~= b@);
    assert(out@ =~= old(out)@ + enc_key(name));
}

/// Pushes the head of an array of `n` items.
pub fn push_array_head(out: &mut Vec<u8>, n: usize)
    ensures
        final(out)@ == old(out)@ + enc_array_head(n as nat),
{
    push_head(out, 4, n as u64);
}

/// Pushes the head of a map of `n` entries.
pub fn push_map_head(out: &mut Vec<u8>, n: usize)
    ensures
        final(out)@ == old(out)@ + enc_map_head(n as nat),
{
    push_head(out, 5, n as u64);
}

} // verus!
