//! The resampler: a new sequence at an arbitrary speed ratio.
//!
//! The speed is an exact ratio of integers. The output has
//! `round(len / speed)` slots; slot `i` reads the input at
//! `round(i * speed)`, with halves rounded up. Because the position is rounded
//! before it is used, its fractional part is zero, the interpolation weight of
//! the right neighbour vanishes, and a slot holds the sample at the rounded
//! position itself.
//!
//! Edge policy: a slot whose position is the last input index has no right
//! neighbour and takes the last sample as it is (clamp). A slot whose position
//! lies past the end of the input is dropped; positions never decrease, so only
//! slots at the tail are dropped, and none at a speed of one or more.

use crate::speed::Speed;
use vstd::prelude::*;

verus! {

/// Why a buffer was not resampled.
#[derive(Clone, Copy, Debug, PartialEq, Eq, Structural)]
pub enum ResampleError {
    /// The speed is zero, negative or has a zero denominator.
    InvalidSpeed,
    /// The output would have more slots than an index can count.
    OutputTooLong,
}

impl ResampleError {
    /// A short description of the error.
    pub fn message(&self) -> (text: &'static str)
        ensures
            *self is InvalidSpeed ==> text@ == "invalid speed"@,
            *self is OutputTooLong ==> text@ == "output too long"@,
    {
        match self {
            ResampleError::InvalidSpeed => "invalid speed",
            ResampleError::OutputTooLong => "output too long",
        }
    }
}

/// `a / b` rounded to the nearest integer, halves rounded up, for `a >= 0` and
/// `b > 0`.
pub open spec fn round_ratio(a: int, b: int) -> int {
    (2 * a + b) / (2 * b)
}

/// The number of output slots for an input of `len` samples.
pub open spec fn target_len(len: int, speed: Speed) -> int {
    round_ratio(len * speed.den, speed.num as int)
}

/// The input position that output slot `i` reads.
pub open spec fn source_index(i: int, speed: Speed) -> int {
    round_ratio(i * speed.num, speed.den as int)
}

/// `out` is `input` resampled at `speed`: it holds, in order, the samples at
/// the positions of the leading slots whose position lies inside the input, and
/// every slot after them lies outside.
pub open spec fn is_resampled<T>(input: Seq<T>, speed: Speed, out: Seq<T>) -> bool {
    &&& out.len() <= target_len(input.len() as int, speed)
    &&& forall|i: int|
        #![trigger source_index(i, speed)]
        0 <= i < out.len() ==> 0 <= source_index(i, speed) < input.len() && out[i]
            == input[source_index(i, speed)]
    &&& forall|i: int|
        #![trigger source_index(i, speed)]
        out.len() <= i < target_len(input.len() as int, speed) ==> source_index(i, speed)
            >= input.len()
}

/// The number of slots that are kept when an input of `len` samples is
/// resampled: the slots whose position lies inside the input.
pub open spec fn kept_len(len: int, speed: Speed) -> int {
    let target = target_len(len, speed);
    let inside = if len <= 0 {
        0
    } else {
        (speed.den * (2 * len - 1) + 2 * speed.num - 1) / (2 * speed.num)
    };
    if target <= inside {
        target
    } else {
        inside
    }
}

/// `round_ratio(a, b)` is the one integer `r` with `2br <= 2a + b < 2b(r + 1)`.
pub proof fn lemma_round_ratio_bounds(a: int, b: int)
    requires
        b > 0,
    ensures
        2 * b * round_ratio(a, b) <= 2 * a + b < 2 * b * (round_ratio(a, b) + 1),
{
    let r = round_ratio(a, b);
    vstd::arithmetic::div_mod::lemma_fundamental_div_mod(2 * a + b, 2 * b);
    vstd::arithmetic::div_mod::lemma_mod_bound(2 * a + b, 2 * b);
    assert(2 * b * (r + 1) == 2 * b * r + 2 * b) by (nonlinear_arith);
}

/// An integer `r` with `2br <= 2a + b < 2b(r + 1)` is `round_ratio(a, b)`.
pub proof fn lemma_round_ratio_unique(a: int, b: int, r: int)
    requires
        b > 0,
        2 * b * r <= 2 * a + b < 2 * b * (r + 1),
    ensures
        round_ratio(a, b) == r,
{
    let rem = 2 * a + b - 2 * b * r;
    assert(2 * b * (r + 1) == 2 * b * r + 2 * b) by (nonlinear_arith);
    assert(2 * b * r == r * (2 * b)) by (nonlinear_arith);
    vstd::arithmetic::div_mod::lemma_fundamental_div_mod_converse(2 * a + b, 2 * b, r, rem);
}

/// Rounding keeps order: a larger numerator never rounds to a smaller value.
pub proof fn lemma_round_ratio_monotone(a1: int, a2: int, b: int)
    requires
        b > 0,
        a1 <= a2,
    ensures
        round_ratio(a1, b) <= round_ratio(a2, b),
{
    vstd::arithmetic::div_mod::lemma_div_is_ordered(2 * a1 + b, 2 * a2 + b, 2 * b);
}

/// Positions never decrease from one slot to the next.
pub proof fn lemma_source_index_monotone(i: int, j: int, speed: Speed)
    requires
        speed.is_valid(),
        i <= j,
    ensures
        source_index(i, speed) <= source_index(j, speed),
{
    assert(i * speed.num <= j * speed.num) by (nonlinear_arith)
        requires
            i <= j,
            speed.num > 0,
    ;
    lemma_round_ratio_monotone(i * speed.num, j * speed.num, speed.den as int);
}

/// Positions are never negative.
pub proof fn lemma_source_index_nonnegative(i: int, speed: Speed)
    requires
        speed.is_valid(),
        i >= 0,
    ensures
        source_index(i, speed) >= 0,
{
    assert(i * speed.num >= 0) by (nonlinear_arith)
        requires
            i >= 0,
            speed.num > 0,
    ;
    lemma_round_ratio_monotone(0, i * speed.num, speed.den as int);
    assert(round_ratio(0, speed.den as int) == 0) by {
        lemma_round_ratio_unique(0, speed.den as int, 0);
    }
}

/// Slot `i` lies inside an input of `len` samples exactly when
/// `2 * i * num < den * (2 * len - 1)`.
pub proof fn lemma_inside_iff(i: int, len: int, speed: Speed)
    requires
        speed.is_valid(),
    ensures
        source_index(i, speed) < len <==> 2 * (i * speed.num) < speed.den * (2 * len - 1),
{
    let d = speed.den as int;
    let a = i * speed.num;
    let p = source_index(i, speed);
    lemma_round_ratio_bounds(a, d);
    if p < len {
        assert(2 * d * (p + 1) <= 2 * d * len) by (nonlinear_arith)
            requires
                p + 1 <= len,
                d > 0,
        ;
        assert(d * (2 * len - 1) == 2 * d * len - d) by (nonlinear_arith);
    } else {
        assert(2 * d * len <= 2 * d * p) by (nonlinear_arith)
            requires
                len <= p,
                d > 0,
        ;
        assert(d * (2 * len - 1) == 2 * d * len - d) by (nonlinear_arith);
    }
}

/// The number of slots grows with the input: rounding a ratio of
/// non-negative numbers never gives a negative count.
pub proof fn lemma_target_len_nonnegative(len: int, speed: Speed)
    requires
        speed.is_valid(),
        len >= 0,
    ensures
        target_len(len, speed) >= 0,
{
    assert(len * speed.den >= 0) by (nonlinear_arith)
        requires
            len >= 0,
            speed.den > 0,
    ;
    lemma_round_ratio_monotone(0, len * speed.den, speed.num as int);
    assert(round_ratio(0, speed.num as int) == 0) by {
        lemma_round_ratio_unique(0, speed.num as int, 0);
    }
}

/// A faster speed never asks for more slots.
pub proof fn lemma_target_len_antitone(len: int, slow: Speed, fast: Speed)
    requires
        slow.is_valid(),
        fast.is_valid(),
        slow.le(fast),
        len >= 0,
    ensures
        target_len(len, fast) <= target_len(len, slow),
{
    let n1 = slow.num as int;
    let d1 = slow.den as int;
    let n2 = fast.num as int;
    let d2 = fast.den as int;
    let t1 = target_len(len, slow);
    let t2 = target_len(len, fast);
    lemma_round_ratio_bounds(len * d1, n1);
    lemma_round_ratio_bounds(len * d2, n2);
    if t2 >= t1 + 1 {
        assert(2 * n1 * (t1 + 1) <= 2 * n1 * t2) by (nonlinear_arith)
            requires
                t1 + 1 <= t2,
                n1 > 0,
        ;
        let x = 2 * (len * d1) + n1;
        let y = 2 * n1 * t2;
        assert(x < y);
        assert(x * n2 < y * n2) by (nonlinear_arith)
            requires
                x < y,
                n2 > 0,
        ;
        let u = 2 * n2 * t2;
        let v = 2 * (len * d2) + n2;
        assert(u <= v);
        assert(u * n1 <= v * n1) by (nonlinear_arith)
            requires
                u <= v,
                n1 > 0,
        ;
        assert(y * n2 == u * n1) by (nonlinear_arith)
            requires
                y == 2 * n1 * t2,
                u == 2 * n2 * t2,
        ;
        assert(x * n2 == 2 * (len * (d1 * n2)) + n1 * n2) by (nonlinear_arith)
            requires
                x == 2 * (len * d1) + n1,
        ;
        assert(v * n1 == 2 * (len * (d2 * n1)) + n1 * n2) by (nonlinear_arith)
            requires
                v == 2 * (len * d2) + n2,
        ;
        assert(len * (d2 * n1) <= len * (d1 * n2)) by (nonlinear_arith)
            requires
                n1 * d2 <= n2 * d1,
                len >= 0,
        ;
        assert(false);
    }
}

/// At a speed of one or more every slot lies inside the input.
pub proof fn lemma_speed_up_keeps_every_slot(i: int, len: int, speed: Speed)
    requires
        speed.is_valid(),
        speed.at_least_one(),
        0 <= i < target_len(len, speed),
    ensures
        source_index(i, speed) < len,
{
    let n = speed.num as int;
    let d = speed.den as int;
    let t = target_len(len, speed);
    lemma_round_ratio_bounds(len * d, n);
    assert(2 * n * (i + 1) <= 2 * n * t) by (nonlinear_arith)
        requires
            i + 1 <= t,
            n > 0,
    ;
    assert(2 * n * (i + 1) == 2 * (i * n) + 2 * n) by (nonlinear_arith);
    assert(d * (2 * len - 1) == 2 * (len * d) - d) by (nonlinear_arith);
    // 2 * (i * n) <= 2 * (len * d) - n, and n >= d
    if n == d {
        assert(2 * (i * n) != 2 * (len * n) - n) by (nonlinear_arith)
            requires
                n > 0,
        {
            assert(2 * (i * n) - 2 * (len * n) + n == n * (2 * i - 2 * len + 1));
            assert(2 * i - 2 * len + 1 != 0);
        }
    }
    lemma_inside_iff(i, len, speed);
}

/// Two outputs for the same input and speed are the same sequence.
pub proof fn lemma_resampled_unique<T>(input: Seq<T>, speed: Speed, a: Seq<T>, b: Seq<T>)
    requires
        is_resampled(input, speed, a),
        is_resampled(input, speed, b),
    ensures
        a == b,
{
    if a.len() < b.len() {
        assert(source_index(a.len() as int, speed) < input.len());
        assert(false);
    }
    if b.len() < a.len() {
        assert(source_index(b.len() as int, speed) < input.len());
        assert(false);
    }
    assert forall|i: int| 0 <= i < a.len() implies a[i] == b[i] by {
        assert(a[i] == input[source_index(i, speed)]);
        assert(b[i] == input[source_index(i, speed)]);
    }
    assert(a =~= b);
}

/// Identity: at a speed of exactly one the output is the input.
pub proof fn lemma_unit_speed_is_identity<T>(input: Seq<T>, speed: Speed, out: Seq<T>)
    requires
        speed.is_valid(),
        speed.num == speed.den,
        is_resampled(input, speed, out),
    ensures
        out == input,
{
    let n = speed.num as int;
    let len = input.len() as int;
    assert(target_len(len, speed) == len) by {
        assert(2 * n * len <= 2 * (len * n) + n < 2 * n * (len + 1)) by (nonlinear_arith)
            requires
                n > 0,
        ;
        lemma_round_ratio_unique(len * n, n, len);
    }
    assert forall|i: int| source_index(i, speed) == i by {
        assert(2 * n * i <= 2 * (i * n) + n < 2 * n * (i + 1)) by (nonlinear_arith)
            requires
                n > 0,
        ;
        lemma_round_ratio_unique(i * n, n, i);
    }
    if out.len() < len {
        assert(source_index(out.len() as int, speed) >= len);
        assert(false);
    }
    assert forall|i: int| 0 <= i < out.len() implies out[i] == input[i] by {
        assert(out[i] == input[source_index(i, speed)]);
    }
    assert(out =~= input);
}

/// Length law: the output has exactly [`kept_len`] samples, never more than
/// `round(len / speed)`, and exactly that many at a speed of one or more.
pub proof fn lemma_output_length<T>(input: Seq<T>, speed: Speed, out: Seq<T>)
    requires
        speed.is_valid(),
        is_resampled(input, speed, out),
    ensures
        out.len() == kept_len(input.len() as int, speed),
        out.len() <= target_len(input.len() as int, speed),
        speed.at_least_one() ==> out.len() == target_len(input.len() as int, speed),
{
    let n = speed.num as int;
    let d = speed.den as int;
    let len = input.len() as int;
    let m = out.len() as int;
    let target = target_len(len, speed);
    lemma_target_len_nonnegative(len, speed);
    if speed.at_least_one() && m < target {
        lemma_speed_up_keeps_every_slot(m, len, speed);
        assert(source_index(m, speed) >= len);
        assert(false);
    }
    if len == 0 {
        assert(target == 0) by {
            assert(len * d == 0) by (nonlinear_arith)
                requires
                    len == 0,
            ;
            lemma_round_ratio_unique(0, n, 0);
        }
    } else {
        let x = d * (2 * len - 1);
        let inside = (x + 2 * n - 1) / (2 * n);
        assert(x > 0) by (nonlinear_arith)
            requires
                x == d * (2 * len - 1),
                d > 0,
                len >= 1,
        ;
        vstd::arithmetic::div_mod::lemma_fundamental_div_mod(x + 2 * n - 1, 2 * n);
        vstd::arithmetic::div_mod::lemma_mod_bound(x + 2 * n - 1, 2 * n);
        // 2n * (inside - 1) < x <= 2n * inside
        assert(2 * n * (inside - 1) == 2 * n * inside - 2 * n) by (nonlinear_arith);
        assert(2 * n * (inside - 1) < x <= 2 * n * inside);
        if m >= 1 {
            // slot m - 1 lies inside, so m - 1 < inside
            assert(source_index(m - 1, speed) < len);
            lemma_inside_iff(m - 1, len, speed);
            if m - 1 >= inside {
                assert(2 * n * inside <= 2 * ((m - 1) * n)) by (nonlinear_arith)
                    requires
                        inside <= m - 1,
                        n > 0,
                ;
                assert(false);
            }
        } else {
            assert(inside >= 0) by (nonlinear_arith)
                requires
                    x > 0,
                    n > 0,
                    x <= 2 * n * inside,
            ;
        }
        if m < target {
            // slot m lies outside, so m >= inside
            assert(source_index(m, speed) >= len);
            lemma_inside_iff(m, len, speed);
            if m < inside {
                assert(2 * (m * n) <= 2 * n * (inside - 1)) by (nonlinear_arith)
                    requires
                        m <= inside - 1,
                        n > 0,
                ;
                assert(false);
            }
        }
    }
}

/// Speed-up shortens: of two speeds of one or more, the faster gives an output
/// that is no longer, and a strictly shorter one when the exact lengths
/// `len / slow` and `len / fast` lie at least one apart.
pub proof fn lemma_speed_up_shortens<T>(
    input: Seq<T>,
    slow: Speed,
    fast: Speed,
    out_slow: Seq<T>,
    out_fast: Seq<T>,
)
    requires
        slow.is_valid(),
        fast.is_valid(),
        slow.at_least_one(),
        slow.le(fast),
        is_resampled(input, slow, out_slow),
        is_resampled(input, fast, out_fast),
    ensures
        out_fast.len() <= out_slow.len(),
        input.len() * (slow.den * fast.num - fast.den * slow.num) >= slow.num * fast.num
            ==> out_fast.len() < out_slow.len(),
{
    let n1 = slow.num as int;
    let d1 = slow.den as int;
    let n2 = fast.num as int;
    let d2 = fast.den as int;
    let len = input.len() as int;
    assert(fast.at_least_one()) by {
        if n2 < d2 {
            assert(n2 * d1 < d2 * n1) by (nonlinear_arith)
                requires
                    n2 < d2,
                    d1 <= n1,
                    d1 > 0,
                    n2 > 0,
            ;
            assert(false);
        }
    }
    lemma_output_length(input, slow, out_slow);
    lemma_output_length(input, fast, out_fast);
    lemma_target_len_antitone(len, slow, fast);
    let t1 = target_len(len, slow);
    let t2 = target_len(len, fast);
    if len * (d1 * n2 - d2 * n1) >= n1 * n2 {
        lemma_round_ratio_bounds(len * d1, n1);
        lemma_round_ratio_bounds(len * d2, n2);
        if t1 <= t2 {
            // 2 len d1 + n1 < 2 n1 (t1 + 1) <= 2 n1 (t2 + 1)
            assert(2 * n1 * (t1 + 1) <= 2 * n1 * (t2 + 1)) by (nonlinear_arith)
                requires
                    t1 <= t2,
                    n1 > 0,
            ;
            let x = 2 * (len * d1) + n1;
            let y = 2 * n1 * (t2 + 1);
            assert(x < y);
            assert(x * n2 < y * n2) by (nonlinear_arith)
                requires
                    x < y,
                    n2 > 0,
            ;
            let u = 2 * n2 * t2;
            let v = 2 * (len * d2) + n2;
            assert(u <= v);
            assert(u * n1 <= v * n1) by (nonlinear_arith)
                requires
                    u <= v,
                    n1 > 0,
            ;
            assert(y * n2 == u * n1 + 2 * (n1 * n2)) by (nonlinear_arith)
                requires
                    y == 2 * n1 * (t2 + 1),
                    u == 2 * n2 * t2,
            ;
            assert(x * n2 == 2 * (len * (d1 * n2)) + n1 * n2) by (nonlinear_arith)
                requires
                    x == 2 * (len * d1) + n1,
            ;
            assert(v * n1 == 2 * (len * (d2 * n1)) + n1 * n2) by (nonlinear_arith)
                requires
                    v == 2 * (len * d2) + n2,
            ;
            assert(len * (d1 * n2 - d2 * n1) == len * (d1 * n2) - len * (d2 * n1))
                by (nonlinear_arith);
            assert(false);
        }
    }
}

/// `a / b` rounded to the nearest integer, halves rounded up.
fn round_div(a: u128, b: u128) -> (r: u128)
    requires
        0 < b <= u64::MAX,
    ensures
        r == round_ratio(a as int, b as int),
{
    let q: u128 = a / b;
    let rem: u128 = a % b;
    proof {
        vstd::arithmetic::div_mod::lemma_fundamental_div_mod(a as int, b as int);
        vstd::arithmetic::div_mod::lemma_mod_bound(a as int, b as int);
        assert(b * q <= a);
        if 2 * rem >= b {
            assert(b >= 2);
            assert(2 * q <= b * q) by (nonlinear_arith)
                requires
                    b >= 2,
                    q >= 0,
            ;
            assert(2 * (b as int) * (q + 1) == 2 * (b * q) + 2 * b) by (nonlinear_arith);
            assert(2 * (b as int) * (q + 2) == 2 * (b * q) + 4 * b) by (nonlinear_arith);
            lemma_round_ratio_unique(a as int, b as int, q + 1);
        } else {
            assert(2 * (b as int) * q == 2 * (b * q)) by (nonlinear_arith);
            assert(2 * (b as int) * (q + 1) == 2 * (b * q) + 2 * b) by (nonlinear_arith);
            lemma_round_ratio_unique(a as int, b as int, q as int);
        }
    }
    if 2 * rem >= b {
        q + 1
    } else {
        q
    }
}

/// Resamples `samples` at `speed`.
///
/// An unusable speed is refused with [`ResampleError::InvalidSpeed`]. A slot
/// count that no index can hold is refused with
/// [`ResampleError::OutputTooLong`]. Otherwise the result is the one sequence
/// that [`is_resampled`] describes.
pub fn process<T: Copy>(samples: &[T], speed: Speed) -> (result: Result<Vec<T>, ResampleError>)
    ensures
        match result {
            Ok(out) => {
                &&& speed.is_valid()
                &&& target_len(samples@.len() as int, speed) <= usize::MAX
                &&& is_resampled(samples@, speed, out@)
            },
            Err(ResampleError::InvalidSpeed) => !speed.is_valid(),
            Err(ResampleError::OutputTooLong) => {
                &&& speed.is_valid()
                &&& target_len(samples@.len() as int, speed) > usize::MAX
            },
        },
{
    if !speed.check() {
        return Err(ResampleError::InvalidSpeed);
    }
    let num: u128 = speed.num as u128;
    let den: u128 = speed.den as u128;
    let len: usize = samples.len();
    assert(len * den <= u128::MAX) by (nonlinear_arith)
        requires
            len <= u64::MAX,
            den <= u64::MAX,
    ;
    let target: u128 = round_div(len as u128 * den, num);
    if target > usize::MAX as u128 {
        return Err(ResampleError::OutputTooLong);
    }
    let target: usize = target as usize;
    let mut out: Vec<T> = Vec::new();
    let mut i: usize = 0;
    while i < target
        invariant
            speed.is_valid(),
            num == speed.num,
            den == speed.den,
            len == samples@.len(),
            target == target_len(samples@.len() as int, speed),
            i <= target,
            out@.len() == i,
            forall|j: int|
                #![trigger source_index(j, speed)]
                0 <= j < i ==> 0 <= source_index(j, speed) < len && out@[j]
                    == samples@[source_index(j, speed)],
        ensures
            is_resampled(samples@, speed, out@),
        decreases target - i,
    {
        assert(i * num <= u128::MAX) by (nonlinear_arith)
            requires
                i <= u64::MAX,
                num <= u64::MAX,
        ;
        let pos: u128 = round_div(i as u128 * num, den);
        if pos >= len as u128 {
            proof {
                assert forall|j: int| i <= j < target implies source_index(j, speed) >= len by {
                    lemma_source_index_monotone(i as int, j, speed);
                }
            }
            break ;
        }
        proof {
            lemma_source_index_nonnegative(i as int, speed);
        }
        out.push(samples[pos as usize]);
        i += 1;
    }
    Ok(out)
}

} // verus!
