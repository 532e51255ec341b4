//! The UCB1 score of a node, in integer arithmetic.
//!
//! UCB1 is `value / visits + C * sqrt(ln(parent_visits) / visits)` with
//! `C = 2`. Scores are kept in thousandths and rounded down.
//!
//! The logarithm is taken to base 2, with 20 binary digits after the point,
//! and multiplied by `ln 2`, which is taken with 40 binary digits. The digits
//! of the logarithm come from squaring: the square of a number between 1 and
//! 2 has twice its logarithm, so the next digit is 1 exactly when the square
//! reaches 2. Squares are rounded down to 62 binary digits, so no digit is
//! too high. A node that was never visited, or whose parent was never
//! visited, has the highest score there is.

use vstd::prelude::*;
use vstd::arithmetic::div_mod::lemma_fundamental_div_mod_converse;
use vstd::arithmetic::power2::{
    lemma2_to64, lemma2_to64_rest, lemma_pow2_adds, lemma_pow2_strictly_increases,
    lemma_pow2_unfold, pow2,
};

verus! {

/// The score of a node that has not been visited: no score is higher.
pub const UNVISITED_SCORE: i128 = 0x7fff_ffff_ffff_ffff_ffff_ffff_ffff_ffffi128;

/// The number 1 with 62 binary digits after the point.
pub const ONE: u128 = 0x4000_0000_0000_0000;

/// The natural logarithm of 2 with 40 binary digits after the point, rounded
/// down.
pub const LN_2: u128 = 762123384785;

/// The number of binary digits after the point of a logarithm.
pub const LOG_DIGITS: u32 = 20;

/// The base-2 logarithm of `x`, rounded down; 0 for `x = 0`.
pub open spec fn log2_floor(x: nat) -> nat
    decreases x,
{
    if x < 2 {
        0
    } else {
        1 + log2_floor(x / 2)
    }
}

/// `r` is the square root of `x`, rounded down.
pub open spec fn is_floor_sqrt(x: nat, r: nat) -> bool {
    r * r <= x < (r + 1) * (r + 1)
}

/// The square root of `x`, rounded down.
pub open spec fn floor_sqrt(x: nat) -> nat {
    choose|r: nat| is_floor_sqrt(x, r)
}

/// A thousand times the mean reward `value / visits`, rounded down.
pub open spec fn exploitation(value: int, visits: nat) -> int
    recommends
        visits > 0,
{
    1000 * value / (visits as int)
}

/// `x` doubled until it is at least `ONE`: the digits of `x` as a number
/// between 1 and 2 with 62 binary digits after the point.
pub open spec fn mantissa(x: nat) -> nat
    decreases 2 * ONE - x,
{
    if x == 0 || x >= ONE {
        x
    } else {
        mantissa(2 * x)
    }
}

/// The number `digits` followed by the first `k` binary digits after the
/// point of the base-2 logarithm of `m`, a number between 1 and 2 with 62
/// binary digits after the point. Each square is rounded down to 62 digits.
pub open spec fn log2_digits(m: nat, digits: nat, k: nat) -> nat
    decreases k,
{
    if k == 0 {
        digits
    } else {
        let square = m * m / (ONE as nat);
        if square >= 2 * ONE {
            log2_digits(square / 2, 2 * digits + 1, (k - 1) as nat)
        } else {
            log2_digits(square, 2 * digits, (k - 1) as nat)
        }
    }
}

/// The base-2 logarithm of `n` with 20 binary digits after the point: the
/// whole part is the logarithm rounded down, and the digits after the point
/// are those of the logarithm of the mantissa.
pub open spec fn log2_fixed(n: nat) -> nat {
    log2_digits(mantissa(n), log2_floor(n), LOG_DIGITS as nat)
}

/// A million times `4 * ln(parent_visits) / visits`, rounded down: the
/// square of the exploration term in thousandths.
pub open spec fn exploration_squared(visits: nat, parent_visits: nat) -> nat
    recommends
        visits > 0,
{
    (4_000_000 * LN_2 * log2_fixed(parent_visits) / ((0x1000_0000_0000_0000 * visits) as int))
        as nat
}

/// A thousand times `2 * sqrt(ln(parent_visits) / visits)`, rounded down.
pub open spec fn exploration(visits: nat, parent_visits: nat) -> nat
    recommends
        visits > 0,
{
    floor_sqrt(exploration_squared(visits, parent_visits))
}

/// The UCB1 score, in thousandths, of a node with the accumulated reward
/// `value` after `visits` visits, below a parent with `parent_visits` visits.
pub open spec fn ucb_score(value: int, visits: nat, parent_visits: nat) -> int {
    if visits == 0 || parent_visits == 0 {
        UNVISITED_SCORE as int
    } else {
        exploitation(value, visits) + exploration(visits, parent_visits)
    }
}

/// Only one number is the rounded-down square root of `x`.
pub proof fn lemma_floor_sqrt_unique(x: nat, r: nat)
    requires
        is_floor_sqrt(x, r),
    ensures
        floor_sqrt(x) == r,
{
    let s = floor_sqrt(x);
    assert(is_floor_sqrt(x, s));
    if s < r {
        assert((s + 1) * (s + 1) <= r * r) by (nonlinear_arith)
            requires
                s + 1 <= r,
        ;
    } else if r < s {
        assert((r + 1) * (r + 1) <= s * s) by (nonlinear_arith)
            requires
                r + 1 <= s,
        ;
    }
}

/// Every number has a rounded-down square root, and it is no greater than
/// the number.
pub proof fn lemma_floor_sqrt_exists(x: nat)
    ensures
        is_floor_sqrt(x, floor_sqrt(x)),
        floor_sqrt(x) <= x,
    decreases x,
{
    if x == 0 {
        assert(is_floor_sqrt(0, 0)) by (nonlinear_arith);
    } else {
        lemma_floor_sqrt_exists((x - 1) as nat);
        let r = floor_sqrt((x - 1) as nat);
        if (r + 1) * (r + 1) <= x {
            assert(is_floor_sqrt(x, r + 1)) by (nonlinear_arith)
                requires
                    r * r <= x - 1 < (r + 1) * (r + 1),
                    (r + 1) * (r + 1) <= x,
            ;
        } else {
            assert(is_floor_sqrt(x, r));
        }
    }
    let root = floor_sqrt(x);
    assert(root <= x) by (nonlinear_arith)
        requires
            root * root <= x,
    ;
}

/// A number below `2^k` has a base-2 logarithm below `k`.
pub proof fn lemma_log2_floor_bound(x: nat, k: nat)
    requires
        k >= 1,
        x < pow2(k),
    ensures
        log2_floor(x) < k,
    decreases x,
{
    if x >= 2 {
        lemma_pow2_unfold(k);
        if k == 1 {
            lemma2_to64();
        } else {
            lemma_log2_floor_bound(x / 2, (k - 1) as nat);
        }
    }
}

/// `x` squared `k` times: `x` to the power `2^k`.
pub open spec fn squared_times(x: nat, k: nat) -> nat
    decreases k,
{
    if k == 0 {
        x
    } else {
        squared_times(x, (k - 1) as nat) * squared_times(x, (k - 1) as nat)
    }
}

/// Squaring `k` times goes through a product.
proof fn lemma_squared_times_product(a: nat, b: nat, k: nat)
    ensures
        squared_times(a * b, k) == squared_times(a, k) * squared_times(b, k),
    decreases k,
{
    if k > 0 {
        lemma_squared_times_product(a, b, (k - 1) as nat);
        let x = squared_times(a, (k - 1) as nat);
        let y = squared_times(b, (k - 1) as nat);
        assert((x * y) * (x * y) == (x * x) * (y * y)) by (nonlinear_arith);
    }
}

/// Squaring `k` times keeps the order of two numbers, and a positive number
/// positive.
proof fn lemma_squared_times_increases(a: nat, b: nat, k: nat)
    requires
        a <= b,
    ensures
        squared_times(a, k) <= squared_times(b, k),
        a > 0 ==> squared_times(a, k) > 0,
    decreases k,
{
    if k > 0 {
        lemma_squared_times_increases(a, b, (k - 1) as nat);
        let x = squared_times(a, (k - 1) as nat);
        let y = squared_times(b, (k - 1) as nat);
        assert(x * x <= y * y) by (nonlinear_arith)
            requires
                x <= y,
        ;
        assert(x > 0 ==> x * x > 0) by (nonlinear_arith);
    }
}

/// Squaring a square `k` times is squaring `k + 1` times.
proof fn lemma_squared_times_of_square(x: nat, k: nat)
    ensures
        squared_times(x * x, k) == squared_times(x, k + 1),
    decreases k,
{
    if k > 0 {
        lemma_squared_times_of_square(x, (k - 1) as nat);
    } else {
        assert(squared_times(x, 1) == squared_times(x, 0) * squared_times(x, 0));
    }
}

/// Squaring `2^e` for `k` times gives `2^(e * 2^k)`.
proof fn lemma_squared_times_of_pow2(e: nat, k: nat)
    ensures
        squared_times(pow2(e), k) == pow2(e * pow2(k)),
    decreases k,
{
    if k == 0 {
        lemma2_to64();
        assert(e * 1 == e);
    } else {
        lemma_squared_times_of_pow2(e, (k - 1) as nat);
        lemma_pow2_unfold(k);
        let half = e * pow2((k - 1) as nat);
        lemma_pow2_adds(half, half);
        assert(half + half == e * (2 * pow2((k - 1) as nat))) by (nonlinear_arith)
            requires
                half == e * pow2((k - 1) as nat),
        ;
    }
}

/// The digits that are appended do not depend on the number they are
/// appended to.
proof fn lemma_log2_digits_split(m: nat, digits: nat, k: nat)
    ensures
        log2_digits(m, digits, k) == digits * pow2(k) + log2_digits(m, 0, k),
    decreases k,
{
    if k == 0 {
        lemma2_to64();
        assert(digits * 1 == digits);
    } else {
        lemma_pow2_unfold(k);
        let square = m * m / (ONE as nat);
        let rest = pow2((k - 1) as nat);
        if square >= 2 * ONE {
            lemma_log2_digits_split(square / 2, 2 * digits + 1, (k - 1) as nat);
            lemma_log2_digits_split(square / 2, 1, (k - 1) as nat);
            assert((2 * digits + 1) * rest == digits * (2 * rest) + 1 * rest)
                by (nonlinear_arith);
        } else {
            lemma_log2_digits_split(square, 2 * digits, (k - 1) as nat);
            assert((2 * digits) * rest == digits * (2 * rest)) by (nonlinear_arith);
        }
    }
}

/// No digit after the point is too high: for a number `m / ONE` between 1
/// and 2, two to the power of its first `k` digits, read as a whole number,
/// is at most the number to the power `2^k`.
pub proof fn lemma_log2_digits_not_too_high(m: nat, k: nat)
    requires
        m >= ONE,
    ensures
        pow2(log2_digits(m, 0, k)) * squared_times(ONE as nat, k) <= squared_times(m, k),
    decreases k,
{
    if k == 0 {
        lemma2_to64();
    } else {
        let one = ONE as nat;
        let j = (k - 1) as nat;
        let square = m * m / one;
        assert(square * one <= m * m && square >= one) by (nonlinear_arith)
            requires
                square == m * m / one,
                m >= one,
                one == 0x4000_0000_0000_0000,
        ;
        let low = squared_times(one, j);
        let goal = squared_times(m, k);
        lemma_squared_times_of_square(m, j);
        assert(goal == squared_times(m * m, j));
        assert(squared_times(one, k) == low * low);
        if square >= 2 * one {
            let next = square / 2;
            let high = squared_times(next, j);
            let digit = pow2(pow2(j));
            let tail = pow2(log2_digits(next, 0, j));
            lemma_log2_digits_not_too_high(next, j);
            assert(tail * low <= high);
            lemma_log2_digits_split(next, 1, j);
            assert(log2_digits(m, 0, k) == log2_digits(next, 1, j));
            assert(log2_digits(m, 0, k) == pow2(j) + log2_digits(next, 0, j)) by (nonlinear_arith)
                requires
                    log2_digits(m, 0, k) == 1 * pow2(j) + log2_digits(next, 0, j),
            ;
            lemma_pow2_adds(pow2(j), log2_digits(next, 0, j));
            assert(pow2(log2_digits(m, 0, k)) == digit * tail);
            assert(2 * next * one <= m * m) by (nonlinear_arith)
                requires
                    next == square / 2,
                    square * one <= m * m,
            ;
            lemma_squared_times_increases(2 * next * one, m * m, j);
            lemma_squared_times_product(2 * next, one, j);
            lemma_squared_times_product(2, next, j);
            lemma2_to64();
            lemma_squared_times_of_pow2(1, j);
            assert(squared_times(2, j) == digit) by {
                assert(1 * pow2(j) == pow2(j)) by (nonlinear_arith);
            }
            let lifted = squared_times(2 * next * one, j);
            assert(lifted == (digit * high) * low);
            assert(lifted <= goal);
            assert((digit * tail) * (low * low) <= goal) by (nonlinear_arith)
                requires
                    tail * low <= high,
                    lifted == (digit * high) * low,
                    lifted <= goal,
            ;
        } else {
            let high = squared_times(square, j);
            let tail = pow2(log2_digits(square, 0, j));
            lemma_log2_digits_not_too_high(square, j);
            assert(tail * low <= high);
            assert(log2_digits(m, 0, k) == log2_digits(square, 0, j));
            lemma_squared_times_increases(square * one, m * m, j);
            lemma_squared_times_product(square, one, j);
            let lifted = squared_times(square * one, j);
            assert(lifted == high * low);
            assert(lifted <= goal);
            assert(tail * (low * low) <= goal) by (nonlinear_arith)
                requires
                    tail * low <= high,
                    lifted == high * low,
                    lifted <= goal,
            ;
        }
    }
}

/// A number between `2^e` and `2^(e + 1)` has the base-2 logarithm `e`.
proof fn lemma_log2_floor_is(x: nat, e: nat)
    requires
        pow2(e) <= x < pow2(e + 1),
    ensures
        log2_floor(x) == e,
    decreases e,
{
    lemma2_to64();
    lemma_pow2_unfold(e + 1);
    if e > 0 {
        lemma_pow2_unfold(e);
        lemma_log2_floor_is(x / 2, (e - 1) as nat);
    }
}

/// The mantissa of `x` lies between 1 and 2, and it is `x` divided by two
/// to the power of the logarithm of `x`, rounded down.
proof fn lemma_mantissa(x: nat)
    requires
        1 <= x < 2 * ONE,
    ensures
        ONE <= mantissa(x) < 2 * ONE,
        mantissa(x) * pow2(log2_floor(x)) == x * ONE,
    decreases 2 * ONE - x,
{
    lemma2_to64();
    lemma2_to64_rest();
    if x >= ONE {
        lemma_log2_floor_is(x, 62);
    } else {
        lemma_mantissa(2 * x);
        let e = log2_floor(x);
        assert(log2_floor(2 * x) == 1 + e);
        lemma_pow2_unfold(1 + e);
        assert(mantissa(x) * pow2(e) == x * ONE) by (nonlinear_arith)
            requires
                mantissa(x) * (2 * pow2(e)) == (2 * x) * ONE,
        ;
    }
}

/// No digit of the logarithm is too high: two to the power of
/// `log2_fixed(n)`, read as a whole number, is at most `n` to the power
/// `2^20`. So `log2_fixed(n)` is at most `2^20` times the real logarithm.
pub proof fn lemma_log2_fixed_not_too_high(n: nat)
    requires
        1 <= n < 2 * ONE,
    ensures
        pow2(log2_fixed(n)) <= squared_times(n, LOG_DIGITS as nat),
{
    let one = ONE as nat;
    let m = mantissa(n);
    let e = log2_floor(n);
    let k = LOG_DIGITS as nat;
    lemma_mantissa(n);
    lemma_log2_digits_split(m, e, k);
    lemma_log2_digits_not_too_high(m, k);
    lemma_squared_times_product(m, pow2(e), k);
    lemma_squared_times_product(n, one, k);
    lemma_squared_times_of_pow2(e, k);
    lemma_squared_times_increases(one, one, k);
    let tail = pow2(log2_digits(m, 0, k));
    let whole = pow2(e * pow2(k));
    lemma_pow2_adds(e * pow2(k), log2_digits(m, 0, k));
    let low = squared_times(one, k);
    let mid = squared_times(m, k);
    let top = squared_times(n, k);
    assert(mid * whole == top * low);
    assert(tail * whole <= top) by (nonlinear_arith)
        requires
            tail * low <= mid,
            mid * whole == top * low,
            low > 0,
    ;
}

/// `k` further digits make a number less than `2^k` times the successor of
/// the number they are appended to.
pub proof fn lemma_log2_digits_bound(m: nat, digits: nat, k: nat)
    ensures
        log2_digits(m, digits, k) < (digits + 1) * pow2(k),
    decreases k,
{
    if k == 0 {
        lemma2_to64();
    } else {
        lemma_pow2_unfold(k);
        let square = m * m / (ONE as nat);
        let rest = pow2((k - 1) as nat);
        if square >= 2 * ONE {
            lemma_log2_digits_bound(square / 2, 2 * digits + 1, (k - 1) as nat);
            assert((2 * digits + 2) * rest == (digits + 1) * (2 * rest)) by (nonlinear_arith);
        } else {
            lemma_log2_digits_bound(square, 2 * digits, (k - 1) as nat);
            assert((2 * digits + 1) * rest <= (digits + 1) * (2 * rest)) by (nonlinear_arith);
        }
    }
}

/// The logarithm of a number of 32 bits is below 32, and the square of the
/// exploration term stays below 128 million.
pub proof fn lemma_log2_fixed_bound(visits: nat, parent_visits: nat)
    requires
        visits > 0,
        parent_visits <= u32::MAX,
    ensures
        log2_fixed(parent_visits) < 0x200_0000,
        exploration_squared(visits, parent_visits) < 128_000_000,
{
    lemma2_to64();
    if parent_visits >= 1 {
        lemma_log2_floor_bound(parent_visits, 32);
    }
    let whole = log2_floor(parent_visits);
    lemma_log2_digits_bound(mantissa(parent_visits), whole, 20);
    let log = log2_fixed(parent_visits);
    assert(log < 0x200_0000) by (nonlinear_arith)
        requires
            log < (whole + 1) * 0x10_0000,
            whole <= 31,
    ;
    let squared = exploration_squared(visits, parent_visits);
    assert(squared < 128_000_000) by (nonlinear_arith)
        requires
            squared == 4_000_000 * 762123384785 * log / (0x1000_0000_0000_0000 * visits),
            log < 0x200_0000,
            visits >= 1,
    ;
}

/// A node that was visited scores below a node that was not, whatever its
/// value, as long as the counters are in the range of their machine types.
pub proof fn lemma_visited_scores_below_unvisited(value: int, visits: nat, parent_visits: nat)
    requires
        i64::MIN <= value <= i64::MAX,
        0 < visits <= u32::MAX,
        0 < parent_visits <= u32::MAX,
    ensures
        ucb_score(value, visits, parent_visits) < UNVISITED_SCORE,
{
    lemma_log2_fixed_bound(visits, parent_visits);
    lemma_floor_sqrt_exists(exploration_squared(visits, parent_visits));
    let mean = 1000 * value / (visits as int);
    assert(mean <= 1000 * 0x7fff_ffff_ffff_ffff) by (nonlinear_arith)
        requires
            mean == 1000 * value / (visits as int),
            value <= 0x7fff_ffff_ffff_ffff,
            visits >= 1,
    ;
}

/// The base-2 logarithm of `x`, rounded down.
pub fn floor_log2(x: u128) -> (log: u32)
    ensures
        log == log2_floor(x as nat),
        log < 128,
{
    proof {
        lemma2_to64();
        lemma_pow2_adds(64, 64);
        lemma_log2_floor_bound(x as nat, 128);
    }
    let mut log: u32 = 0;
    let mut rest: u128 = x;
    while rest >= 2
        invariant
            log + log2_floor(rest as nat) == log2_floor(x as nat),
            log2_floor(x as nat) < 128,
        decreases rest,
    {
        rest = rest / 2;
        log = log + 1;
    }
    log
}

/// The base-2 logarithm of `n` with 20 binary digits after the point.
pub fn fixed_log2(n: u32) -> (log: u64)
    requires
        n >= 1,
    ensures
        log == log2_fixed(n as nat),
        log < 0x200_0000,
{
    proof {
        lemma_log2_fixed_bound(1, n as nat);
        lemma2_to64();
    }
    let whole = floor_log2(n as u128);
    let mut m: u128 = n as u128;
    while m < ONE
        invariant
            1 <= m < 2 * ONE,
            mantissa(m as nat) == mantissa(n as nat),
        decreases 2 * ONE - m,
    {
        m = 2 * m;
    }
    let mut digits: u64 = whole as u64;
    let mut k: u32 = 0;
    proof {
        lemma_log2_floor_bound(n as nat, 32);
    }
    while k < LOG_DIGITS
        invariant
            k <= LOG_DIGITS,
            ONE <= m < 2 * ONE,
            digits < 32 * pow2(k as nat),
            log2_digits(m as nat, digits as nat, (LOG_DIGITS - k) as nat) == log2_fixed(n as nat),
        decreases LOG_DIGITS - k,
    {
        proof {
            lemma_pow2_unfold((k + 1) as nat);
            lemma_pow2_strictly_increases(k as nat, 20);
            lemma2_to64();
        }
        assert(ONE * ONE <= m * m < 4 * ONE * ONE) by (nonlinear_arith)
            requires
                ONE <= m < 2 * ONE,
        ;
        let square = m * m / ONE;
        assert(ONE <= square < 4 * ONE) by (nonlinear_arith)
            requires
                square == m * m / (ONE as int),
                ONE * ONE <= m * m < 4 * ONE * ONE,
                ONE == 0x4000_0000_0000_0000,
        ;
        if square >= 2 * ONE {
            m = square / 2;
            digits = 2 * digits + 1;
        } else {
            m = square;
            digits = 2 * digits;
        }
        k = k + 1;
    }
    digits
}

/// The square root of `x`, rounded down.
pub fn integer_sqrt(x: u64) -> (root: u64)
    ensures
        root == floor_sqrt(x as nat),
        is_floor_sqrt(x as nat, root as nat),
{
    let mut low: u64 = 0;
    let mut high: u64 = 0x1_0000_0000;
    assert(high * high > x) by (nonlinear_arith)
        requires
            high == 0x1_0000_0000,
            x <= 0xffff_ffff_ffff_ffff,
    ;
    while high - low > 1
        invariant
            low < high <= 0x1_0000_0000,
            low * low <= x < high * high,
        decreases high - low,
    {
        let middle = low + (high - low) / 2;
        assert(middle * middle <= 0xffff_ffff * 0xffff_ffff) by (nonlinear_arith)
            requires
                middle <= 0xffff_ffff,
        ;
        if middle * middle <= x {
            low = middle;
        } else {
            high = middle;
        }
    }
    proof {
        lemma_floor_sqrt_unique(x as nat, low as nat);
    }
    low
}

/// The UCB1 score, in thousandths, of a node with the accumulated reward
/// `value` after `visits` visits, below a parent with `parent_visits` visits.
pub fn ucb(value: i64, visits: u32, parent_visits: u32) -> (score: i128)
    ensures
        score == ucb_score(value as int, visits as nat, parent_visits as nat),
{
    if visits == 0 || parent_visits == 0 {
        return UNVISITED_SCORE;
    }
    let n = visits as i128;
    let scaled: i128 = 1000 * (value as i128);
    let mean: i128 = if scaled >= 0 {
        scaled / n
    } else {
        // Round towards minus infinity.
        let up = (-scaled + n - 1) / n;
        proof {
            let a: int = -scaled + n - 1;
            let d: int = n as int;
            let q: int = up as int;
            let rest: int = a % d;
            assert(a == d * q + rest && 0 <= rest < d) by {
                vstd::arithmetic::div_mod::lemma_fundamental_div_mod(a, d);
                vstd::arithmetic::div_mod::lemma_mod_bound(a, d);
            }
            assert(scaled == (-q) * d + (d - 1 - rest)) by (nonlinear_arith)
                requires
                    -scaled + d - 1 == d * q + rest,
            ;
            lemma_fundamental_div_mod_converse(scaled as int, d, -q, d - 1 - rest);
        }
        -up
    };
    assert(mean == exploitation(value as int, visits as nat));
    proof {
        lemma_log2_fixed_bound(visits as nat, parent_visits as nat);
    }
    let log = fixed_log2(parent_visits) as u128;
    let squared = 4_000_000 * LN_2 * log / (0x1000_0000_0000_0000 * (visits as u128));
    let bonus = integer_sqrt(squared as u64);
    mean + (bonus as i128)
}

} // verus!
