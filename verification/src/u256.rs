//! Fixed-width 256-bit unsigned integers, held as four 64-bit limbs.

use vstd::prelude::*;

verus! {

/// 2^64, the weight of the second limb.
pub open spec fn b64() -> nat {
    0x1_0000_0000_0000_0000nat
}

/// 2^128, the weight of the third limb.
pub open spec fn b128() -> nat {
    0x1_0000_0000_0000_0000_0000_0000_0000_0000nat
}

/// 2^192, the weight of the fourth limb.
pub open spec fn b192() -> nat {
    0x1_0000_0000_0000_0000_0000_0000_0000_0000_0000_0000_0000_0000nat
}

/// 2^256, one more than the largest value a `U256` holds.
pub open spec fn u256_bound() -> nat {
    0x1_0000_0000_0000_0000_0000_0000_0000_0000_0000_0000_0000_0000_0000_0000_0000_0000nat
}

/// 256 to the power `n`.
pub open spec fn pow256(n: nat) -> nat
    decreases n,
{
    if n == 0 {
        1
    } else {
        256 * pow256((n - 1) as nat)
    }
}

/// The number that the bytes `s` denote, most significant byte first.
pub open spec fn be_value(s: Seq<u8>) -> nat
    decreases s.len(),
{
    if s.len() == 0 {
        0
    } else {
        be_value(s.drop_last()) * 256 + s.last() as nat
    }
}

/// The `n` lowest bytes of `v`, least significant byte first.
pub open spec fn le_bytes(v: nat, n: nat) -> Seq<u8>
    decreases n,
{
    if n == 0 {
        seq![]
    } else {
        seq![(v % 256) as u8] + le_bytes(v / 256, (n - 1) as nat)
    }
}

/// Every byte of `s` is an ASCII decimal digit.
pub open spec fn all_digits(s: Seq<u8>) -> bool {
    forall|i: int| 0 <= i < s.len() ==> 48 <= #[trigger] s[i] <= 57
}

/// The number that the ASCII decimal digits `s` denote; zero for no digits.
pub open spec fn dec_value(s: Seq<u8>) -> nat
    decreases s.len(),
{
    if s.len() == 0 {
        0
    } else {
        dec_value(s.drop_last()) * 10 + (s.last() - 48) as nat
    }
}

/// The number of a prefix of decimal digits is at most that of the whole.
pub proof fn lemma_dec_value_prefix(s: Seq<u8>, i: int)
    requires
        all_digits(s),
        0 <= i <= s.len(),
    ensures
        dec_value(s.take(i)) <= dec_value(s),
    decreases s.len(),
{
    if i < s.len() {
        let t = s.drop_last();
        assert(all_digits(t)) by {
            assert forall|k: int| 0 <= k < t.len() implies 48 <= #[trigger] t[k] <= 57 by {
                assert(t[k] == s[k]);
            }
        }
        lemma_dec_value_prefix(t, i);
        assert(t.take(i) =~= s.take(i));
        assert(48 <= s[s.len() - 1] <= 57);
    } else {
        assert(s.take(i) =~= s);
    }
}

/// An unsigned integer below 2^256.
#[derive(Clone, Copy, PartialEq, Eq, Structural, Debug)]
pub struct U256 {
    l0: u64,
    l1: u64,
    l2: u64,
    l3: u64,
}

impl View for U256 {
    type V = nat;

    closed spec fn view(&self) -> nat {
        self.l0 as nat + self.l1 as nat * b64() + self.l2 as nat * b128() + self.l3 as nat * b192()
    }
}

/// Adds two limbs and a carry: the low limb of the sum and the carry out.
fn add_limb(a: u64, b: u64, c: u64) -> (r: (u64, u64))
    requires
        c <= 1,
    ensures
        r.0 + r.1 * b64() == a + b + c,
        r.1 <= 1,
{
    let t: u128 = a as u128 + b as u128 + c as u128;
    if t >= 0x1_0000_0000_0000_0000u128 {
        ((t - 0x1_0000_0000_0000_0000u128) as u64, 1)
    } else {
        (t as u64, 0)
    }
}

/// Multiplies a limb and adds a carry: the low limb of the result and the carry out.
fn mul_limb(a: u64, m: u64, c: u64) -> (r: (u64, u64))
    ensures
        r.0 + r.1 * b64() == a * m + c,
{
    assert(a * m <= 0xffff_ffff_ffff_ffff * 0xffff_ffff_ffff_ffff) by (nonlinear_arith)
        requires
            a <= 0xffff_ffff_ffff_ffff,
            m <= 0xffff_ffff_ffff_ffff,
    ;
    let t: u128 = a as u128 * m as u128 + c as u128;
    let lo: u64 = (t % 0x1_0000_0000_0000_0000u128) as u64;
    let hi: u64 = (t / 0x1_0000_0000_0000_0000u128) as u64;
    (lo, hi)
}

/// Divides the two-limb number `rem * 2^64 + a` by `d`: quotient and remainder.
fn div_limb(rem: u64, a: u64, d: u64) -> (r: (u64, u64))
    requires
        0 < d,
        rem < d,
    ensures
        r.0 * d + r.1 == rem * b64() + a,
        r.1 < d,
{
    let t: u128 = rem as u128 * 0x1_0000_0000_0000_0000u128 + a as u128;
    let q: u128 = t / d as u128;
    let r: u128 = t % d as u128;
    assert(q < 0x1_0000_0000_0000_0000) by (nonlinear_arith)
        requires
            t == rem * 0x1_0000_0000_0000_0000 + a,
            q == t / (d as u128),
            rem < d,
            a < 0x1_0000_0000_0000_0000,
            0 < d,
    ;
    proof {
        vstd::arithmetic::div_mod::lemma_fundamental_div_mod(t as int, d as int);
        assert(q * d + r == t) by (nonlinear_arith)
            requires
                t == d * (t / (d as u128)) + t % (d as u128),
                q == t / (d as u128),
                r == t % (d as u128),
        ;
    }
    (q as u64, r as u64)
}

impl U256 {
    /// Every value lies below 2^256.
    pub proof fn lemma_bounded(self)
        ensures
            self@ < u256_bound(),
    {
    }

    /// Zero.
    pub fn zero() -> (r: U256)
        ensures
            r@ == 0,
    {
        U256 { l0: 0, l1: 0, l2: 0, l3: 0 }
    }

    /// The value `v`.
    pub fn from_u64(v: u64) -> (r: U256)
        ensures
            r@ == v,
    {
        U256 { l0: v, l1: 0, l2: 0, l3: 0 }
    }

    /// The largest value, 2^256 - 1.
    pub fn max_value() -> (r: U256)
        ensures
            r@ == u256_bound() - 1,
    {
        U256 {
            l0: 0xffff_ffff_ffff_ffff,
            l1: 0xffff_ffff_ffff_ffff,
            l2: 0xffff_ffff_ffff_ffff,
            l3: 0xffff_ffff_ffff_ffff,
        }
    }

    /// Whether `self` is below `other`.
    pub fn lt(&self, other: &U256) -> (r: bool)
        ensures
            r == (self@ < other@),
    {
        if self.l3 != other.l3 {
            self.l3 < other.l3
        } else if self.l2 != other.l2 {
            self.l2 < other.l2
        } else if self.l1 != other.l1 {
            self.l1 < other.l1
        } else {
            self.l0 < other.l0
        }
    }

    /// Whether `self` equals `other`.
    pub fn eq(&self, other: &U256) -> (r: bool)
        ensures
            r == (self@ == other@),
            r == (*self == *other),
    {
        proof {
            lemma_view_injective(*self, *other);
        }
        self.l0 == other.l0 && self.l1 == other.l1 && self.l2 == other.l2 && self.l3 == other.l3
    }

    /// The smaller of `self` and `other`.
    pub fn min(self, other: U256) -> (r: U256)
        ensures
            r@ == if self@ <= other@ { self@ } else { other@ },
    {
        if other.lt(&self) {
            other
        } else {
            self
        }
    }

    /// The sum, or `None` where it is 2^256 or more.
    pub fn checked_add(&self, other: &U256) -> (r: Option<U256>)
        ensures
            match r {
                Some(s) => s@ == self@ + other@,
                None => self@ + other@ >= u256_bound(),
            },
    {
        let (r0, c1) = add_limb(self.l0, other.l0, 0);
        let (r1, c2) = add_limb(self.l1, other.l1, c1);
        let (r2, c3) = add_limb(self.l2, other.l2, c2);
        let (r3, c4) = add_limb(self.l3, other.l3, c3);
        if c4 != 0 {
            None
        } else {
            Some(U256 { l0: r0, l1: r1, l2: r2, l3: r3 })
        }
    }

    /// The product with `m`, or `None` where it is 2^256 or more.
    pub fn checked_mul_u64(&self, m: u64) -> (r: Option<U256>)
        ensures
            match r {
                Some(s) => s@ == self@ * m,
                None => self@ * m >= u256_bound(),
            },
    {
        let (r0, c1) = mul_limb(self.l0, m, 0);
        let (r1, c2) = mul_limb(self.l1, m, c1);
        let (r2, c3) = mul_limb(self.l2, m, c2);
        let (r3, c4) = mul_limb(self.l3, m, c3);
        let ghost v = self@;
        assert(v * m == self.l0 * m + (self.l1 * m) * b64() + (self.l2 * m) * b128() + (self.l3
            * m) * b192()) by (nonlinear_arith)
            requires
                v == self.l0 + self.l1 * b64() + self.l2 * b128() + self.l3 * b192(),
        ;
        if c4 != 0 {
            None
        } else {
            Some(U256 { l0: r0, l1: r1, l2: r2, l3: r3 })
        }
    }

    /// The value that 32 bytes denote, most significant byte first.
    pub fn from_big_endian(bytes: &[u8; 32]) -> (r: U256)
        ensures
            r@ == be_value(bytes@),
    {
        let l3 = be_limb(bytes, 0);
        let l2 = be_limb(bytes, 8);
        let l1 = be_limb(bytes, 16);
        let l0 = be_limb(bytes, 24);
        proof {
            let s = bytes@;
            let s0 = s.subrange(0, 8);
            let s1 = s.subrange(8, 16);
            let s2 = s.subrange(16, 24);
            let s3 = s.subrange(24, 32);
            assert(s =~= s0 + s1 + s2 + s3);
            lemma_be_value_concat(s0, s1);
            lemma_be_value_concat(s0 + s1, s2);
            lemma_be_value_concat(s0 + s1 + s2, s3);
            lemma_pow256_limbs();
            let v0 = be_value(s0);
            let v1 = be_value(s1);
            let v2 = be_value(s2);
            let v3 = be_value(s3);
            assert(((v0 * b64() + v1) * b64() + v2) * b64() + v3 == v3 + v2 * b64() + v1 * b128()
                + v0 * b192()) by (nonlinear_arith)
                requires
                    b128() == b64() * b64(),
                    b192() == b64() * b128(),
            ;
        }
        U256 { l0, l1, l2, l3 }
    }

    /// The 32 bytes of the value, least significant byte first.
    pub fn to_le_vec(&self) -> (r: Vec<u8>)
        ensures
            r@ == le_bytes(self@, 32),
    {
        let mut out: Vec<u8> = Vec::new();
        push_le_limb(&mut out, self.l0);
        push_le_limb(&mut out, self.l1);
        push_le_limb(&mut out, self.l2);
        push_le_limb(&mut out, self.l3);
        proof {
            lemma_pow256_limbs();
            let c = self.l3 as nat;
            let b = self.l2 as nat + b64() * c;
            let a = self.l1 as nat + b64() * b;
            assert(self@ == self.l0 as nat + b64() * a);
            lemma_le_bytes_split(self.l2 as nat, c, 8, 8);
            lemma_le_bytes_split(self.l1 as nat, b, 8, 16);
            lemma_le_bytes_split(self.l0 as nat, a, 8, 24);
            assert(out@ =~= le_bytes(self@, 32));
        }
        out
    }

    /// The 32 bytes of the value, least significant byte first.
    pub fn to_little_endian(&self) -> (r: [u8; 32])
        ensures
            r@ == le_bytes(self@, 32),
    {
        let v = self.to_le_vec();
        proof {
            lemma_le_bytes_len(self@, 32);
        }
        let mut out: [u8; 32] = [0u8; 32];
        let mut i: usize = 0;
        while i < 32
            invariant
                i <= 32,
                v@.len() == 32,
                forall|k: int| 0 <= k < i ==> out@[k] == v@[k],
            decreases 32 - i,
        {
            out[i] = v[i];
            i = i + 1;
        }
        assert(out@ =~= v@);
        out
    }

    /// The 32 bytes of the value, most significant byte first.
    pub fn to_big_endian(&self) -> (r: [u8; 32])
        ensures
            r@ == le_bytes(self@, 32).reverse(),
    {
        let v = self.to_le_vec();
        proof {
            lemma_le_bytes_len(self@, 32);
        }
        let mut out: [u8; 32] = [0u8; 32];
        let mut i: usize = 0;
        while i < 32
            invariant
                i <= 32,
                v@.len() == 32,
                forall|k: int| 0 <= k < i ==> out@[k] == v@[31 - k],
            decreases 32 - i,
        {
            out[i] = v[31 - i];
            i = i + 1;
        }
        assert(out@ =~= v@.reverse());
        out
    }

    /// The number that the ASCII decimal digits `s` denote; no digits give
    /// zero. `None` when a byte is not a digit or the number is 2^256 or more.
    pub fn from_dec_str(s: &[u8]) -> (r: Option<U256>)
        ensures
            r is Some <==> (all_digits(s@) && dec_value(s@) < u256_bound()),
            r matches Some(v) ==> v@ == dec_value(s@),
    {
        let mut i: usize = 0;
        while i < s.len()
            invariant
                i <= s@.len(),
                forall|k: int| 0 <= k < i ==> 48 <= #[trigger] s@[k] <= 57,
            decreases s@.len() - i,
        {
            if s[i] < 48 || s[i] > 57 {
                return None;
            }
            i = i + 1;
        }
        let mut acc = U256::zero();
        let mut j: usize = 0;
        assert(s@.take(0) =~= Seq::<u8>::empty());
        while j < s.len()
            invariant
                j <= s@.len(),
                all_digits(s@),
                acc@ == dec_value(s@.take(j as int)),
            decreases s@.len() - j,
        {
            assert(s@.take(j + 1).drop_last() =~= s@.take(j as int));
            proof {
                lemma_dec_value_prefix(s@, j + 1);
            }
            let d = U256::from_u64((s[j] - 48) as u64);
            match acc.checked_mul_u64(10) {
                None => {
                    return None;
                },
                Some(m) => match m.checked_add(&d) {
                    None => {
                        return None;
                    },
                    Some(n) => {
                        acc = n;
                    },
                },
            }
            j = j + 1;
        }
        assert(s@.take(j as int) =~= s@);
        Some(acc)
    }

    /// The quotient of the division by `d`, rounded down.
    pub fn div_u64(&self, d: u64) -> (r: U256)
        requires
            0 < d,
        ensures
            r@ == self@ / (d as nat),
    {
        self.div_rem_u64(d).0
    }

    /// The quotient of the division by `d`, rounded down, and its remainder.
    pub fn div_rem_u64(&self, d: u64) -> (r: (U256, u64))
        requires
            0 < d,
        ensures
            r.0@ == self@ / (d as nat),
            r.1 == self@ % (d as nat),
    {
        let (q3, r3) = div_limb(0, self.l3, d);
        let (q2, r2) = div_limb(r3, self.l2, d);
        let (q1, r1) = div_limb(r2, self.l1, d);
        let (q0, r0) = div_limb(r1, self.l0, d);
        let r = U256 { l0: q0, l1: q1, l2: q2, l3: q3 };
        let ghost q = r@;
        let ghost x = self@;
        assert(q * d + r0 == x) by (nonlinear_arith)
            requires
                q == q0 + q1 * b64() + q2 * b128() + q3 * b192(),
                x == self.l0 + self.l1 * b64() + self.l2 * b128() + self.l3 * b192(),
                q3 * d + r3 == 0 * b64() + self.l3,
                q2 * d + r2 == r3 * b64() + self.l2,
                q1 * d + r1 == r2 * b64() + self.l1,
                q0 * d + r0 == r1 * b64() + self.l0,
        ;
        proof {
            vstd::arithmetic::div_mod::lemma_fundamental_div_mod_converse(
                x as int,
                d as int,
                q as int,
                r0 as int,
            );
        }
        (r, r0)
    }

    /// The value in lowercase hex digits, most significant first, with no
    /// leading zero: `0` for zero.
    pub fn to_lower_hex(&self) -> (r: Vec<u8>)
        ensures
            r@ == lower_hex(self@),
    {
        let sixteen = U256::from_u64(16);
        let mut cur = *self;
        let mut rev: Vec<u8> = Vec::new();
        while !cur.lt(&sixteen)
            invariant
                sixteen@ == 16,
                lower_hex(self@) == lower_hex(cur@) + rev@.reverse(),
            decreases cur@,
        {
            let (q, d) = cur.div_rem_u64(16);
            let c = hex_digit_byte(d);
            proof {
                assert(rev@.push(c).reverse() =~= seq![c] + rev@.reverse());
                assert(lower_hex(cur@) == lower_hex(q@).push(c));
                assert(lower_hex(cur@) + rev@.reverse() =~= lower_hex(q@) + rev@.push(c).reverse());
            }
            rev.push(c);
            cur = q;
        }
        let (_, d) = cur.div_rem_u64(16);
        let c = hex_digit_byte(d);
        proof {
            assert(rev@.push(c).reverse() =~= seq![c] + rev@.reverse());
        }
        rev.push(c);
        let mut out: Vec<u8> = Vec::new();
        let mut i: usize = 0;
        while i < rev.len()
            invariant
                i <= rev@.len(),
                out@ =~= rev@.reverse().take(i as int),
            decreases rev@.len() - i,
        {
            out.push(rev[rev.len() - 1 - i]);
            i = i + 1;
        }
        assert(rev@.reverse().take(i as int) =~= rev@.reverse());
        out
    }
}

/// The lowercase hex digit for `d`, which lies below 16.
pub open spec fn hex_digit(d: nat) -> u8 {
    if d < 10 {
        (48 + d) as u8
    } else {
        (87 + d) as u8
    }
}

/// `n` in lowercase hex digits, most significant first, with no leading zero.
pub open spec fn lower_hex(n: nat) -> Seq<u8>
    decreases n,
{
    if n < 16 {
        seq![hex_digit(n)]
    } else {
        lower_hex(n / 16).push(hex_digit(n % 16))
    }
}

fn hex_digit_byte(d: u64) -> (r: u8)
    requires
        d < 16,
    ensures
        r == hex_digit(d as nat),
{
    if d < 10 {
        48 + d as u8
    } else {
        87 + d as u8
    }
}

/// The number of a sequence of bytes followed by another.
pub proof fn lemma_be_value_concat(a: Seq<u8>, b: Seq<u8>)
    ensures
        be_value(a + b) == be_value(a) * pow256(b.len()) + be_value(b),
    decreases b.len(),
{
    if b.len() == 0 {
        assert(a + b =~= a);
        assert(pow256(0) == 1);
        assert(be_value(b) == 0);
    } else {
        let b1 = b.drop_last();
        assert((a + b).drop_last() =~= a + b1);
        assert((a + b).last() == b.last());
        lemma_be_value_concat(a, b1);
        assert(be_value(b) == be_value(b1) * 256 + b.last());
        assert(pow256(b.len()) == 256 * pow256(b1.len()));
        assert(be_value(a + b) == be_value(a + b1) * 256 + b.last());
        let x = be_value(a);
        let p = pow256(b1.len());
        let y = be_value(b1);
        assert((x * p + y) * 256 + b.last() == x * (256 * p) + (y * 256 + b.last())) by (nonlinear_arith);
        assert(be_value(a + b) == x * pow256(b.len()) + be_value(b));
    }
}

/// A sequence of `n` bytes denotes a number below 256^n.
pub proof fn lemma_be_value_bound(s: Seq<u8>)
    ensures
        be_value(s) < pow256(s.len()),
    decreases s.len(),
{
    if s.len() > 0 {
        lemma_be_value_bound(s.drop_last());
    }
}

/// The powers of 256 that weigh the limbs.
pub proof fn lemma_pow256_limbs()
    ensures
        pow256(8) == b64(),
        pow256(16) == b128(),
        pow256(24) == b192(),
        pow256(32) == u256_bound(),
{
    reveal_with_fuel(pow256, 33);
}

/// Powers of 256 grow with the exponent.
pub proof fn lemma_pow256_mono(i: nat, j: nat)
    requires
        i <= j,
    ensures
        pow256(i) <= pow256(j),
    decreases j,
{
    if i < j {
        lemma_pow256_mono(i, (j - 1) as nat);
    }
}

/// Splitting a number at a byte boundary splits its little-endian bytes.
pub proof fn lemma_le_bytes_split(a: nat, b: nat, k: nat, m: nat)
    requires
        a < pow256(k),
    ensures
        le_bytes(a + pow256(k) * b, k + m) == le_bytes(a, k) + le_bytes(b, m),
    decreases k,
{
    if k == 0 {
        assert(a == 0);
        assert(le_bytes(a, k) + le_bytes(b, m) =~= le_bytes(b, m));
    } else {
        let p = pow256((k - 1) as nat);
        let x = a + pow256(k) * b;
        let q = a / 256 + p * b;
        let r = a % 256;
        assert(x == 256 * q + r) by (nonlinear_arith)
            requires
                x == a + (256 * p) * b,
                q == a / 256 + p * b,
                r == a % 256,
                a == 256 * (a / 256) + a % 256,
        ;
        vstd::arithmetic::div_mod::lemma_fundamental_div_mod(a as int, 256);
        vstd::arithmetic::div_mod::lemma_fundamental_div_mod_converse(x as int, 256, q as int, r as int);
        assert(a / 256 < p) by (nonlinear_arith)
            requires
                a < 256 * p,
        ;
        lemma_le_bytes_split(a / 256, b, (k - 1) as nat, m);
        assert((k + m - 1) as nat == (k - 1) as nat + m);
        assert(le_bytes(x, k + m) =~= seq![(x % 256) as u8] + le_bytes(x / 256, (k + m - 1) as nat));
        assert(le_bytes(a, k) =~= seq![(a % 256) as u8] + le_bytes(a / 256, (k - 1) as nat));
        assert(le_bytes(x, k + m) =~= le_bytes(a, k) + le_bytes(b, m));
    }
}

/// The number that eight bytes of `bytes` denote, from `start` on.
fn be_limb(bytes: &[u8; 32], start: usize) -> (r: u64)
    requires
        start + 8 <= 32,
    ensures
        r == be_value(bytes@.subrange(start as int, start + 8)),
{
    let mut acc: u64 = 0;
    let mut j: usize = 0;
    proof {
        lemma_pow256_limbs();
        assert(bytes@.subrange(start as int, start as int) =~= Seq::<u8>::empty());
    }
    while j < 8
        invariant
            start + 8 <= 32,
            j <= 8,
            acc == be_value(bytes@.subrange(start as int, start + j)),
            acc < pow256(j as nat),
            pow256(8) == b64(),
        decreases 8 - j,
    {
        let ghost s = bytes@.subrange(start as int, start + j + 1);
        assert(s.drop_last() =~= bytes@.subrange(start as int, start + j));
        proof {
            lemma_pow256_mono((j + 1) as nat, 8);
        }
        acc = acc * 256 + bytes[start + j] as u64;
        j = j + 1;
    }
    acc
}

/// Pushes the eight little-endian bytes of `v`.
pub(crate) fn push_le_limb(out: &mut Vec<u8>, v: u64)
    ensures
        final(out)@ == old(out)@ + le_bytes(v as nat, 8),
{
    let mut x: u64 = v;
    let mut j: usize = 0;
    while j < 8
        invariant
            j <= 8,
            out@ + le_bytes(x as nat, (8 - j) as nat) == old(out)@ + le_bytes(v as nat, 8),
        decreases 8 - j,
    {
        let ghost before = out@;
        assert(le_bytes(x as nat, (8 - j) as nat) =~= seq![(x % 256) as u8] + le_bytes(
            (x / 256) as nat,
            (8 - j - 1) as nat,
        ));
        out.push((x % 256) as u8);
        assert(out@ + le_bytes((x / 256) as nat, (8 - j - 1) as nat) =~= before + le_bytes(
            x as nat,
            (8 - j) as nat,
        ));
        x = x / 256;
        j = j + 1;
    }
    assert(le_bytes(x as nat, 0) =~= Seq::<u8>::empty());
    assert(out@ =~= out@ + le_bytes(x as nat, 0));
}

/// `le_bytes` gives as many bytes as asked.
pub proof fn lemma_le_bytes_len(v: nat, n: nat)
    ensures
        le_bytes(v, n).len() == n,
    decreases n,
{
    if n > 0 {
        lemma_le_bytes_len(v / 256, (n - 1) as nat);
    }
}

/// The first `n` of the `n + m` low bytes of `v` are its `n` low bytes.
pub proof fn lemma_le_bytes_prefix(v: nat, n: nat, m: nat)
    ensures
        le_bytes(v, n + m).take(n as int) == le_bytes(v, n),
    decreases n,
{
    lemma_le_bytes_len(v, n + m);
    lemma_le_bytes_len(v, n);
    if n == 0 {
        assert(le_bytes(v, n + m).take(0) =~= le_bytes(v, 0));
    } else {
        lemma_le_bytes_prefix(v / 256, (n - 1) as nat, m);
        assert((n + m - 1) as nat == (n - 1) as nat + m);
        assert(le_bytes(v, n + m).take(n as int) =~= le_bytes(v, n));
    }
}

/// Reading the `n` low bytes of `v`, written most significant first, gives
/// `v` modulo 256^n.
pub proof fn lemma_be_value_of_le_bytes(v: nat, n: nat)
    ensures
        be_value(le_bytes(v, n).reverse()) == v % pow256(n),
    decreases n,
{
    if n == 0 {
        assert(le_bytes(v, 0).reverse() =~= Seq::<u8>::empty());
    } else {
        let rest = le_bytes(v / 256, (n - 1) as nat);
        lemma_be_value_of_le_bytes(v / 256, (n - 1) as nat);
        let s = le_bytes(v, n).reverse();
        assert(le_bytes(v, n) =~= seq![(v % 256) as u8] + rest);
        assert(s.drop_last() =~= rest.reverse());
        assert(s.last() == (v % 256) as u8);
        let p = pow256((n - 1) as nat);
        lemma_pow256_mono(0, (n - 1) as nat);
        vstd::arithmetic::div_mod::lemma_mod_breakdown(v as int, 256, p as int);
        assert(be_value(s) == (v / 256) % p * 256 + v % 256);
    }
}

/// Writing the number of bytes `s` as `s.len()` little-endian bytes gives
/// `s` back, reversed.
pub proof fn lemma_le_bytes_of_be_value(s: Seq<u8>)
    ensures
        le_bytes(be_value(s), s.len()) == s.reverse(),
    decreases s.len(),
{
    if s.len() == 0 {
        assert(le_bytes(0, 0) =~= s.reverse());
    } else {
        let t = s.drop_last();
        lemma_le_bytes_of_be_value(t);
        let x = be_value(t);
        let v: nat = x * 256 + s.last() as nat;
        vstd::arithmetic::div_mod::lemma_fundamental_div_mod_converse(v as int, 256, x as int, s.last() as int);
        assert(le_bytes(v, s.len()) =~= seq![s.last()] + le_bytes(x, t.len()));
        assert(s.reverse() =~= seq![s.last()] + t.reverse());
    }
}

/// Writing a value's 32 bytes most significant first and reading them back
/// gives the value.
pub proof fn lemma_big_endian_round_trip(u: U256)
    ensures
        be_value(le_bytes(u@, 32).reverse()) == u@,
{
    lemma_be_value_of_le_bytes(u@, 32);
    lemma_pow256_limbs();
    vstd::arithmetic::div_mod::lemma_small_mod(u@, u256_bound());
}

/// Reading 32 bytes and writing the value least significant byte first gives
/// the bytes reversed.
pub proof fn lemma_from_big_endian_to_little_endian(bytes: Seq<u8>)
    requires
        bytes.len() == 32,
    ensures
        le_bytes(be_value(bytes), 32) == bytes.reverse(),
{
    lemma_le_bytes_of_be_value(bytes);
}

/// Two values with the same number are the same value.
pub proof fn lemma_view_injective(a: U256, b: U256)
    ensures
        (a@ == b@) == (a == b),
{
    if a@ == b@ {
        assert(a.l0 == b.l0 && a.l1 == b.l1 && a.l2 == b.l2 && a.l3 == b.l3) by (nonlinear_arith)
            requires
                a.l0 + a.l1 * b64() + a.l2 * b128() + a.l3 * b192() == b.l0 + b.l1 * b64() + b.l2
                    * b128() + b.l3 * b192(),
                a.l0 < b64(),
                a.l1 < b64(),
                a.l2 < b64(),
                a.l3 < b64(),
                b.l0 < b64(),
                b.l1 < b64(),
                b.l2 < b64(),
                b.l3 < b64(),
        ;
    }
}

} // verus!
