//! Difficulty adjustment: the new target, scaled by how long the last blocks took.

use vstd::prelude::*;
use bigdecimal::BigDecimal;
use bigdecimal::num_bigint::{BigInt, Sign};
use crate::encoding::be_bytes;
use crate::min_target_value;
use crate::u256::{U256, all_digits, dec_value, u256_bound};

verus! {

/// What `BigDecimal`'s `to_string` writes for the target (given by its 32
/// bytes, most significant first) times the time taken divided by the ideal time.
pub uninterp spec fn scaled_target_text(target_be: Seq<u8>, time_diff_seconds: i128, target_seconds: u64) -> Seq<u8>;

/// Computes `target * (time_diff_seconds / target_seconds)` in `bigdecimal` (the
/// target read as a `BigDecimal` of scale 0, the quotient at the crate's default
/// precision) and writes it with `to_string`. Its digits are named, not stated.
#[verifier::external_body]
fn scale_target(target_be: &[u8; 32], time_diff_seconds: i128, target_seconds: u64) -> (r: Vec<u8>)
    requires
        target_seconds > 0,
    ensures
        r@ == scaled_target_text(target_be@, time_diff_seconds, target_seconds),
{
    let target = BigDecimal::new(BigInt::from_bytes_be(Sign::Plus, target_be), 0);
    let ratio = BigDecimal::from(time_diff_seconds) / BigDecimal::from(target_seconds);
    (target * ratio).to_string().into_bytes()
}

/// The index of the first `.` in `s`, or its length when there is none.
pub open spec fn first_dot(s: Seq<u8>) -> nat
    decreases s.len(),
{
    if s.len() == 0 {
        0
    } else if s[0] == 46 {
        0
    } else {
        1 + first_dot(s.skip(1))
    }
}

/// The part of a decimal text before its first `.`.
pub open spec fn integer_part(s: Seq<u8>) -> Seq<u8> {
    s.take(first_dot(s) as int)
}

/// The number that the integer part of `text` denotes, when it is a string
/// of decimal digits below 2^256.
pub open spec fn parse_target(text: Seq<u8>) -> Option<nat> {
    let d = integer_part(text);
    if all_digits(d) && dec_value(d) < u256_bound() {
        Some(dec_value(d))
    } else {
        None
    }
}

/// The new target: `computed` held between a quarter and four times
/// `current`, and then no larger than the easiest target.
pub open spec fn clamp_target(current: nat, computed: nat) -> nat {
    let clamped = if computed < current / 4 {
        current / 4
    } else if computed > current * 4 {
        current * 4
    } else {
        computed
    };
    if clamped <= min_target_value() {
        clamped
    } else {
        min_target_value()
    }
}

/// A retarget moves the target by at most a factor of four either way and
/// never past the easiest target.
pub proof fn lemma_clamp_target_bounds(current: nat, computed: nat)
    requires
        current <= min_target_value(),
    ensures
        current / 4 <= clamp_target(current, computed),
        clamp_target(current, computed) <= current * 4,
        clamp_target(current, computed) <= min_target_value(),
{
}

/// A larger scaled target never gives a smaller new target.
pub proof fn lemma_clamp_target_monotone(current: nat, c1: nat, c2: nat)
    requires
        c1 <= c2,
    ensures
        clamp_target(current, c1) <= clamp_target(current, c2),
{
}

/// The first `.` of `s` is at `i` when none comes before and `s[i]` is one
/// (or `i` is the end).
proof fn lemma_first_dot(s: Seq<u8>, i: int)
    requires
        0 <= i <= s.len(),
        forall|j: int| 0 <= j < i ==> s[j] != 46,
        i == s.len() || s[i] == 46,
    ensures
        first_dot(s) == i,
    decreases i,
{
    if i > 0 {
        let t = s.skip(1);
        assert forall|j: int| 0 <= j < i - 1 implies t[j] != 46 by {
            assert(t[j] == s[j + 1]);
        }
        if i < s.len() {
            assert(t[i - 1] == s[i]);
        }
        lemma_first_dot(t, i - 1);
    }
}

/// The integer part of `text`: the bytes before its first `.`.
fn integer_part_of(text: &Vec<u8>) -> (r: Vec<u8>)
    ensures
        r@ == integer_part(text@),
{
    let mut out: Vec<u8> = Vec::new();
    let mut i: usize = 0;
    while i < text.len() && text[i] != 46
        invariant
            i <= text@.len(),
            forall|j: int| 0 <= j < i ==> text@[j] != 46,
            out@ == text@.take(i as int),
        decreases text@.len() - i,
    {
        out.push(text[i]);
        assert(out@ =~= text@.take(i + 1));
        i = i + 1;
    }
    proof {
        lemma_first_dot(text@, i as int);
    }
    out
}

/// The new target that the text `text` of the scaled target gives, from the
/// current target `current`: `None` when its integer part is not a decimal
/// number below 2^256.
pub fn new_target_from_text(current: &U256, text: &Vec<u8>) -> (r: Option<U256>)
    requires
        parse_target(text@) matches Some(v) && v >= current@ / 4 ==> current@ * 4 < u256_bound(),
    ensures
        match parse_target(text@) {
            Some(v) => r matches Some(t) && t@ == clamp_target(current@, v),
            None => r is None,
        },
{
    let digits = integer_part_of(text);
    let computed = match U256::from_dec_str(digits.as_slice()) {
        Some(v) => v,
        None => {
            return None;
        },
    };
    let quarter = current.div_u64(4);
    let clamped = if computed.lt(&quarter) {
        quarter
    } else {
        let quadruple = match current.checked_mul_u64(4) {
            Some(q) => q,
            None => {
                return None;
            },
        };
        if quadruple.lt(&computed) {
            quadruple
        } else {
            computed
        }
    };
    Some(clamped.min(crate::min_target()))
}

/// The new target after blocks that took `time_diff_seconds` where
/// `target_seconds` was the aim, or `None` where the scaled target does not
/// read as a number below 2^256.
pub fn retarget(current: &U256, time_diff_seconds: i128, target_seconds: u64) -> (r: Option<U256>)
    requires
        target_seconds > 0,
        current@ <= min_target_value(),
    ensures
        match parse_target(scaled_target_text(be_bytes(current@, 32), time_diff_seconds, target_seconds)) {
            Some(v) => r matches Some(t) && t@ == clamp_target(current@, v),
            None => r is None,
        },
{
    let be = current.to_big_endian();
    let text = scale_target(&be, time_diff_seconds, target_seconds);
    new_target_from_text(current, &text)
}

} // verus!
