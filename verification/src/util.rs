//! Base-16 digit arithmetic on 64-bit identifiers.
//!
//! An id is read as exactly 16 hexadecimal digits, digit 0 being the most
//! significant; prefix routing is phrased in terms of these digits.

use vstd::prelude::*;

use crate::error::Error;

verus! {

/// Number of bits per base-16 digit.
pub const HEX_NUM_OF_BITS_PER_DIGIT: u32 = 4;

/// Number of base-16 digits in a 64-bit identifier.
pub const U64_HEX_NUM_OF_DIGITS: u32 = 16;

/// Mask selecting a single base-16 digit.
pub const HEX_DIGIT_MASK: u32 = 0xF;

/// Number of columns of a routing-table row: one per base-16 digit value.
pub const HEX_BASE: u32 = 16;

/// The `n`th base-16 digit of `num`, counting from the most significant.
pub open spec fn spec_nth_digit(num: u64, n: int) -> u32
    recommends
        0 <= n < 16,
{
    (((num >> (((15 - n) * 4) as u64)) as u32) & 0xF) as u32
}

/// The number formed by the first `n` base-16 digits of `num`.
pub open spec fn spec_first_digits(num: u64, n: int) -> u64
    recommends
        1 <= n <= 16,
{
    (num >> (((16 - n) * 4) as u64)) as u64
}

/// Number of leading base-16 digits shared by `a` and `b`, scanning from
/// digit `i` upward; 16 when every digit agrees.
pub open spec fn spec_matched_digits_from(a: u64, b: u64, i: int) -> int
    decreases 16 - i,
{
    if i >= 16 {
        16
    } else if spec_nth_digit(a, i) != spec_nth_digit(b, i) {
        i
    } else {
        spec_matched_digits_from(a, b, i + 1)
    }
}

/// Number of leading base-16 digits shared by `a` and `b`: the index of
/// the first differing digit, or 16 when the ids are equal.
pub open spec fn spec_matched_digits(a: u64, b: u64) -> int {
    spec_matched_digits_from(a, b, 0)
}

/// The difference `|a - b|` of two unsigned numbers.
pub open spec fn spec_abs_difference(a: u64, b: u64) -> u64 {
    if a > b {
        (a - b) as u64
    } else {
        (b - a) as u64
    }
}

/// Every digit scanned before the matched count agrees, and the digit at the
/// matched count disagrees whenever the count is below 16.
pub proof fn lemma_matched_digits_from(a: u64, b: u64, i: int)
    requires
        0 <= i <= 16,
    ensures
        i <= spec_matched_digits_from(a, b, i) <= 16,
        forall|j: int|
            i <= j < spec_matched_digits_from(a, b, i) ==> spec_nth_digit(a, j) == spec_nth_digit(
                b,
                j,
            ),
        spec_matched_digits_from(a, b, i) < 16 ==> spec_nth_digit(
            a,
            spec_matched_digits_from(a, b, i),
        ) != spec_nth_digit(b, spec_matched_digits_from(a, b, i)),
    decreases 16 - i,
{
    if i < 16 && spec_nth_digit(a, i) == spec_nth_digit(b, i) {
        lemma_matched_digits_from(a, b, i + 1);
    }
}

/// The matched count of `a` and `b` bounds and characterises their shared
/// digits: digits below it agree, and it points at a disagreement when it is
/// below 16.
pub proof fn lemma_matched_digits(a: u64, b: u64)
    ensures
        0 <= spec_matched_digits(a, b) <= 16,
        forall|j: int|
            0 <= j < spec_matched_digits(a, b) ==> spec_nth_digit(a, j) == spec_nth_digit(b, j),
        spec_matched_digits(a, b) < 16 ==> spec_nth_digit(a, spec_matched_digits(a, b))
            != spec_nth_digit(b, spec_matched_digits(a, b)),
{
    lemma_matched_digits_from(a, b, 0);
}

/// If the digits of `a` and `b` agree on every position below `k`, then their
/// matched count is at least `k`.
pub proof fn lemma_matched_digits_at_least(a: u64, b: u64, k: int)
    requires
        0 <= k <= 16,
        forall|j: int| 0 <= j < k ==> spec_nth_digit(a, j) == spec_nth_digit(b, j),
    ensures
        spec_matched_digits(a, b) >= k,
{
    lemma_matched_digits_at_least_from(a, b, 0, k);
}

proof fn lemma_matched_digits_at_least_from(a: u64, b: u64, i: int, k: int)
    requires
        0 <= i <= k <= 16,
        forall|j: int| i <= j < k ==> spec_nth_digit(a, j) == spec_nth_digit(b, j),
    ensures
        spec_matched_digits_from(a, b, i) >= k,
    decreases 16 - i,
{
    if i < k {
        lemma_matched_digits_at_least_from(a, b, i + 1, k);
    } else {
        lemma_matched_digits_from(a, b, i);
    }
}

/// Two ids share all 16 digits exactly when they are equal.
pub proof fn lemma_matched_digits_full_iff_equal(a: u64, b: u64)
    ensures
        spec_matched_digits(a, b) == 16 <==> a == b,
{
    lemma_matched_digits(a, b);
    if spec_matched_digits(a, b) == 16 {
        lemma_all_digits_equal(a, b);
    } else {
        if a == b {
            lemma_matched_digits_at_least(a, b, 16);
        }
    }
}

/// Two 64-bit numbers with the same 16 base-16 digits are equal.
proof fn lemma_all_digits_equal(a: u64, b: u64)
    requires
        forall|j: int| 0 <= j < 16 ==> spec_nth_digit(a, j) == spec_nth_digit(b, j),
    ensures
        a == b,
{
    assert(spec_nth_digit(a, 0) == spec_nth_digit(b, 0));
    assert(spec_nth_digit(a, 1) == spec_nth_digit(b, 1));
    assert(spec_nth_digit(a, 2) == spec_nth_digit(b, 2));
    assert(spec_nth_digit(a, 3) == spec_nth_digit(b, 3));
    assert(spec_nth_digit(a, 4) == spec_nth_digit(b, 4));
    assert(spec_nth_digit(a, 5) == spec_nth_digit(b, 5));
    assert(spec_nth_digit(a, 6) == spec_nth_digit(b, 6));
    assert(spec_nth_digit(a, 7) == spec_nth_digit(b, 7));
    assert(spec_nth_digit(a, 8) == spec_nth_digit(b, 8));
    assert(spec_nth_digit(a, 9) == spec_nth_digit(b, 9));
    assert(spec_nth_digit(a, 10) == spec_nth_digit(b, 10));
    assert(spec_nth_digit(a, 11) == spec_nth_digit(b, 11));
    assert(spec_nth_digit(a, 12) == spec_nth_digit(b, 12));
    assert(spec_nth_digit(a, 13) == spec_nth_digit(b, 13));
    assert(spec_nth_digit(a, 14) == spec_nth_digit(b, 14));
    assert(spec_nth_digit(a, 15) == spec_nth_digit(b, 15));
    assert(a == b) by (bit_vector)
        requires
            (((a >> 60u64) as u32) & 0xF) == (((b >> 60u64) as u32) & 0xF),
            (((a >> 56u64) as u32) & 0xF) == (((b >> 56u64) as u32) & 0xF),
            (((a >> 52u64) as u32) & 0xF) == (((b >> 52u64) as u32) & 0xF),
            (((a >> 48u64) as u32) & 0xF) == (((b >> 48u64) as u32) & 0xF),
            (((a >> 44u64) as u32) & 0xF) == (((b >> 44u64) as u32) & 0xF),
            (((a >> 40u64) as u32) & 0xF) == (((b >> 40u64) as u32) & 0xF),
            (((a >> 36u64) as u32) & 0xF) == (((b >> 36u64) as u32) & 0xF),
            (((a >> 32u64) as u32) & 0xF) == (((b >> 32u64) as u32) & 0xF),
            (((a >> 28u64) as u32) & 0xF) == (((b >> 28u64) as u32) & 0xF),
            (((a >> 24u64) as u32) & 0xF) == (((b >> 24u64) as u32) & 0xF),
            (((a >> 20u64) as u32) & 0xF) == (((b >> 20u64) as u32) & 0xF),
            (((a >> 16u64) as u32) & 0xF) == (((b >> 16u64) as u32) & 0xF),
            (((a >> 12u64) as u32) & 0xF) == (((b >> 12u64) as u32) & 0xF),
            (((a >> 8u64) as u32) & 0xF) == (((b >> 8u64) as u32) & 0xF),
            (((a >> 4u64) as u32) & 0xF) == (((b >> 4u64) as u32) & 0xF),
            (((a >> 0u64) as u32) & 0xF) == (((b >> 0u64) as u32) & 0xF),
    ;
}

/// Gets the first `n` hexadecimal digits from a u64.
pub fn get_first_digits_in_u64_hex(num: u64, n: usize) -> (r: Result<u64, Error>)
    ensures
        match r {
            Ok(v) => 1 <= n <= 16 && v == spec_first_digits(num, n as int),
            Err(e) => (n > 16 || n == 0) && e is Internal,
        },
{
    if n > 16 {
        return Err(
            Error::Internal("There are only 16 digits in a hexadecimal number.".to_owned()),
        );
    }

    if n == 0 {
        return Err(
            Error::Internal("Cannot get first 0 digits from a hexadecimal number.".to_owned()),
        );
    }

    Ok(num >> (64 - n as u32 * HEX_NUM_OF_BITS_PER_DIGIT) as u64)
}

/// A base-16 digit is below 16.
pub proof fn lemma_nth_digit_bound(num: u64, n: int)
    requires
        0 <= n < 16,
    ensures
        spec_nth_digit(num, n) < 16,
{
    let sh = ((15 - n) * 4) as u64;
    assert((((num >> sh) as u32) & 0xF) < 16) by (bit_vector);
    assert(spec_nth_digit(num, n) == (((num >> sh) as u32) & 0xF));
}

/// Gets the `n`th hexadecimal digit from a u64.
pub fn get_nth_digit_in_u64_hex(num: u64, n: usize) -> (r: Result<u32, Error>)
    ensures
        match r {
            Ok(v) => n < 16 && v == spec_nth_digit(num, n as int) && v < 16,
            Err(e) => n >= 16 && e is Internal,
        },
{
    if n >= 16 {
        return Err(
            Error::Internal("There are only 16 digits in a hexadecimal number.".to_owned()),
        );
    }

    proof {
        lemma_nth_digit_bound(num, n as int);
    }
    Ok((num >> (64 - (n as u32 + 1) * HEX_NUM_OF_BITS_PER_DIGIT) as u64) as u32 & HEX_DIGIT_MASK)
}

/// Gets the number of matched digits of two u64 numbers.
pub fn get_num_matched_digits(a: u64, b: u64) -> (r: Result<u32, Error>)
    ensures
        match r {
            Ok(v) => v == spec_matched_digits(a, b),
            Err(_) => false,
        },
{
    proof {
        lemma_matched_digits(a, b);
    }
    let mut i: usize = 0;
    while i < 16
        invariant
            0 <= i <= 16,
            forall|j: int| 0 <= j < i ==> spec_nth_digit(a, j) == spec_nth_digit(b, j),
            spec_matched_digits(a, b) >= i,
        decreases 16 - i,
    {
        let da = match get_nth_digit_in_u64_hex(a, i) {
            Ok(d) => d,
            Err(e) => {
                return Err(e);
            },
        };
        let db = match get_nth_digit_in_u64_hex(b, i) {
            Ok(d) => d,
            Err(e) => {
                return Err(e);
            },
        };
        if da != db {
            proof {
                lemma_matched_digits(a, b);
            }
            return Ok(i as u32);
        }
        proof {
            lemma_matched_digits_at_least(a, b, i as int + 1);
        }
        i = i + 1;
    }

    proof {
        lemma_matched_digits(a, b);
    }
    Ok(U64_HEX_NUM_OF_DIGITS)
}

/// Gets the absolute difference between two unsigned numbers.
pub fn get_distance_between_unsigned(a: u64, b: u64) -> (r: u64)
    ensures
        r == spec_abs_difference(a, b),
{
    if a > b {
        a - b
    } else {
        b - a
    }
}

} // verus!
