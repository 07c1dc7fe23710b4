//! Binary64 arithmetic on shares, in integers: a count and a total converted
//! to binary64 numbers, divided, multiplied by 100, and the result rounded to
//! tenths, each step rounding to the nearest representable number with ties
//! to even, as IEEE 754 prescribes.

use vstd::arithmetic::power2::{
    lemma2_to64, lemma_pow2_adds, lemma_pow2_pos, lemma_pow2_strictly_increases,
    lemma_pow2_unfold, pow2,
};
use vstd::prelude::*;

verus! {

/// `a / b` rounded to the nearest integer, ties to the even one.
pub open spec fn round_half_even(a: nat, b: nat) -> nat {
    let q = a / b;
    let r = a % b;
    if 2 * r > b || (2 * r == b && q % 2 == 1) {
        q + 1
    } else {
        q
    }
}

/// The exponent of the highest power of two that is at most `a / b`
/// (for `a` and `b` positive).
pub open spec fn log2_floor(a: nat, b: nat) -> int
    decreases (if a < b { b - a } else { 0 }), (if a >= b { a - b } else { 0 }),
{
    if a == 0 || b == 0 {
        0
    } else if a < b {
        log2_floor(2 * a, b) - 1
    } else if a >= 2 * b {
        log2_floor(a, 2 * b) + 1
    } else {
        0
    }
}

/// The binary64 number nearest to `(a / b) * 2^k`, ties to an even
/// significand, as a significand `m` and an exponent `e`: the number is
/// `m * 2^e`. The significand has 53 bits: `2^52 <= m <= 2^53` (`2^53`
/// where rounding carries into the next binade). Zero is `(0, 0)`.
pub open spec fn nearest_double(a: nat, b: nat, k: int) -> (nat, int) {
    if a == 0 || b == 0 {
        (0, 0)
    } else {
        let l = log2_floor(a, b);
        let m = if l <= 52 {
            round_half_even(a * pow2((52 - l) as nat), b)
        } else {
            round_half_even(a, b * pow2((l - 52) as nat))
        };
        (m, l + k - 52)
    }
}

/// The number `m * 2^e` in tenths, rounded to the nearest tenth with ties to
/// the even one.
pub open spec fn tenths_of(m: nat, e: int) -> nat {
    if e >= 0 {
        m * 10 * pow2(e as nat)
    } else {
        round_half_even(m * 10, pow2((-e) as nat))
    }
}

/// `count / total * 100` computed in binary64: `count` and `total`
/// converted, divided, and the quotient multiplied by 100, each step rounded
/// to the nearest binary64 number.
pub open spec fn share_double(count: nat, total: nat) -> (nat, int) {
    let c = nearest_double(count, 1, 0);
    let t = nearest_double(total, 1, 0);
    let q = nearest_double(c.0, t.0, c.1 - t.1);
    nearest_double(q.0 * 100, 1, q.1)
}

/// The share of `count` out of `total` in percent, as binary64 computes it,
/// written in tenths (rounded with ties to even); zero when `total` is zero.
pub open spec fn share_tenths(count: nat, total: nat) -> nat {
    if total == 0 {
        0
    } else {
        let p = share_double(count, total);
        tenths_of(p.0, p.1)
    }
}

proof fn lemma_pow2_small()
    ensures
        pow2(0) == 1,
        pow2(1) == 2,
        pow2(2) == 4,
        pow2(6) == 64,
        pow2(52) == 0x10_0000_0000_0000,
        pow2(53) == 0x20_0000_0000_0000,
        pow2(57) == 0x200_0000_0000_0000,
        pow2(58) == 0x400_0000_0000_0000,
        pow2(60) == 0x1000_0000_0000_0000,
        pow2(64) == 0x1_0000_0000_0000_0000,
        pow2(65) == 0x2_0000_0000_0000_0000,
        pow2(128) == 0x1_0000_0000_0000_0000_0000_0000_0000_0000,
{
    lemma2_to64();
    lemma_pow2_adds(32, 20);
    lemma_pow2_adds(32, 21);
    lemma_pow2_adds(32, 25);
    lemma_pow2_adds(32, 26);
    lemma_pow2_adds(32, 28);
    lemma_pow2_adds(64, 1);
    lemma_pow2_adds(64, 64);
}

proof fn lemma_pow2_ge(e1: nat, e2: nat)
    requires
        e1 <= e2,
    ensures
        pow2(e1) <= pow2(e2),
{
    if e1 < e2 {
        lemma_pow2_strictly_increases(e1, e2);
    }
}

/// What `log2_floor` means: `2^l <= a / b < 2^(l + 1)`.
proof fn lemma_log2_floor_bounds(a: nat, b: nat)
    requires
        a > 0,
        b > 0,
    ensures
        log2_floor(a, b) >= 0 ==> b * pow2(log2_floor(a, b) as nat) <= a && a < 2 * b * pow2(
            log2_floor(a, b) as nat,
        ),
        log2_floor(a, b) < 0 ==> b <= a * pow2((-log2_floor(a, b)) as nat) && a * pow2(
            (-log2_floor(a, b)) as nat,
        ) < 2 * b,
    decreases (if a < b { b - a } else { 0 }), (if a >= b { a - b } else { 0 }),
{
    lemma_pow2_small();
    let l = log2_floor(a, b);
    if a < b {
        lemma_log2_floor_bounds(2 * a, b);
        let l2 = log2_floor(2 * a, b);
        assert(l == l2 - 1);
        if l2 >= 1 {
            let p = pow2(l2 as nat);
            lemma_pow2_ge(1, l2 as nat);
            assert(b * p >= 2 * b) by (nonlinear_arith)
                requires
                    p >= 2,
                    b > 0,
            ;
            assert(false);
        } else if l2 == 0 {
            assert(b * pow2(0) == b);
            assert(a * pow2(1) == 2 * a);
        } else {
            let n = (-l2) as nat;
            let p = pow2(n);
            lemma_pow2_unfold(n + 1);
            assert(pow2(n + 1) == 2 * p);
            assert((-l) as nat == n + 1);
            assert(a * (2 * p) == (2 * a) * p) by (nonlinear_arith);
        }
    } else if a >= 2 * b {
        lemma_log2_floor_bounds(a, 2 * b);
        let l2 = log2_floor(a, 2 * b);
        assert(l == l2 + 1);
        if l2 < 0 {
            let n = (-l2) as nat;
            let p = pow2(n);
            lemma_pow2_ge(1, n);
            assert(a * p >= 2 * a) by (nonlinear_arith)
                requires
                    p >= 2,
                    a > 0,
            ;
            assert(false);
        } else {
            let n = l2 as nat;
            let p = pow2(n);
            lemma_pow2_unfold(n + 1);
            assert(pow2(n + 1) == 2 * p);
            assert(l as nat == n + 1);
            assert((2 * b) * p == b * (2 * p)) by (nonlinear_arith);
            assert(2 * (2 * b) * p == 2 * b * (2 * p)) by (nonlinear_arith);
        }
    } else {
        assert(l == 0);
        assert(b * pow2(0) == b);
    }
}

/// The scaled numerator and denominator that `nearest_double` rounds lie
/// in one binade: `2^52 * d <= n < 2^53 * d`.
proof fn lemma_scaled_binade(a: nat, b: nat)
    requires
        a > 0,
        b > 0,
    ensures
        ({
            let l = log2_floor(a, b);
            let n = if l <= 52 { a * pow2((52 - l) as nat) } else { a };
            let d = if l <= 52 { b } else { b * pow2((l - 52) as nat) };
            pow2(52) * d <= n && n < pow2(53) * d && d > 0
        }),
{
    lemma_pow2_small();
    lemma_log2_floor_bounds(a, b);
    let l = log2_floor(a, b);
    if l < 0 {
        let u = (-l) as nat;
        lemma_pow2_adds(u, 52);
        assert((52 - l) as nat == u + 52);
        let pu = pow2(u);
        let p52 = pow2(52);
        assert(pow2(u + 52) == pu * p52);
        assert(b <= a * pu && a * pu < 2 * b);
        assert(p52 * b <= a * (pu * p52) && a * (pu * p52) < 2 * p52 * b) by (nonlinear_arith)
            requires
                b <= a * pu,
                a * pu < 2 * b,
                p52 > 0,
        ;
    } else if l <= 52 {
        let v = l as nat;
        let w = (52 - l) as nat;
        lemma_pow2_adds(v, w);
        lemma_pow2_pos(w);
        assert(v + w == 52);
        let pv = pow2(v);
        let pw = pow2(w);
        let p52 = pow2(52);
        assert(p52 == pv * pw);
        assert(b * pv <= a && a < 2 * b * pv);
        assert(p52 * b <= a * pw && a * pw < 2 * p52 * b) by (nonlinear_arith)
            requires
                b * pv <= a,
                a < 2 * b * pv,
                p52 == pv * pw,
                pw > 0,
        ;
    } else {
        let v = l as nat;
        let w = (l - 52) as nat;
        lemma_pow2_adds(52, w);
        assert(52 + w == v);
        let pv = pow2(v);
        let pw = pow2(w);
        let p52 = pow2(52);
        lemma_pow2_pos(w);
        assert(pv == p52 * pw);
        assert(b * pv <= a && a < 2 * b * pv);
        assert(p52 * (b * pw) <= a && a < 2 * p52 * (b * pw) && b * pw > 0) by (nonlinear_arith)
            requires
                b * pv <= a,
                a < 2 * b * pv,
                pv == p52 * pw,
                pw > 0,
                b > 0,
        ;
    }
}

proof fn lemma_round_half_even_bounds(n: nat, d: nat, lo: nat, hi: nat)
    requires
        d > 0,
        lo * d <= n,
        n < hi * d,
    ensures
        lo <= round_half_even(n, d) <= hi,
{
    let q = n / d;
    let r = n % d;
    assert(n == q * d + r && r < d) by (nonlinear_arith)
        requires
            d > 0,
            q == n / d,
            r == n % d,
    ;
    assert(lo <= q && q < hi) by (nonlinear_arith)
        requires
            n == q * d + r,
            0 <= r < d,
            lo * d <= n,
            n < hi * d,
    ;
}

/// The significand of a nonzero `nearest_double` has 53 bits.
proof fn lemma_nearest_significand(a: nat, b: nat, k: int)
    requires
        a > 0,
        b > 0,
    ensures
        pow2(52) <= nearest_double(a, b, k).0 <= pow2(53),
        nearest_double(a, b, k).1 == log2_floor(a, b) + k - 52,
{
    lemma_pow2_small();
    lemma_scaled_binade(a, b);
    let l = log2_floor(a, b);
    let n = if l <= 52 { a * pow2((52 - l) as nat) } else { a };
    let d = if l <= 52 { b } else { b * pow2((l - 52) as nat) };
    lemma_round_half_even_bounds(n, d, pow2(52), pow2(53));
}

fn round_half_even_exec(a: u128, b: u128) -> (r: u128)
    requires
        b > 0,
        a < 0x8000_0000_0000_0000_0000_0000_0000_0000,
    ensures
        r == round_half_even(a as nat, b as nat),
{
    let q = a / b;
    let rem = a % b;
    assert(a == q * b + rem) by (nonlinear_arith)
        requires
            b > 0,
            q == a / b,
            rem == a % b,
    ;
    if rem > b - rem || (rem == b - rem && q % 2 == 1) {
        assert(q * b <= a) by (nonlinear_arith)
            requires
                a == q * b + rem,
                rem >= 0,
        ;
        assert(q < 0x8000_0000_0000_0000_0000_0000_0000_0000) by (nonlinear_arith)
            requires
                q * b <= a,
                b > 0,
                a < 0x8000_0000_0000_0000_0000_0000_0000_0000,
        ;
        q + 1
    } else {
        q
    }
}

/// `a * 2^s`.
fn scale_up(a: u128, s: u32) -> (r: u128)
    requires
        a * pow2(s as nat) <= u128::MAX,
    ensures
        r == a * pow2(s as nat),
{
    let mut r = a;
    let mut i: u32 = 0;
    proof {
        lemma_pow2_small();
    }
    while i < s
        invariant
            i <= s,
            r == a * pow2(i as nat),
            a * pow2(s as nat) <= u128::MAX,
        decreases s - i,
    {
        proof {
            lemma_pow2_unfold((i + 1) as nat);
            lemma_pow2_ge((i + 1) as nat, s as nat);
            let p = pow2(i as nat);
            let p1 = pow2((i + 1) as nat);
            let ps = pow2(s as nat);
            assert(a * p1 <= a * ps) by (nonlinear_arith)
                requires
                    p1 <= ps,
            ;
            assert(a * p1 == 2 * (a * p)) by (nonlinear_arith)
                requires
                    p1 == 2 * p,
            ;
        }
        r = r * 2;
        i = i + 1;
    }
    r
}

fn log2_floor_exec(a: u128, b: u128) -> (l: i128)
    requires
        a > 0,
        b > 0,
        a < 0x1_0000_0000_0000_0000_0000_0000_0000,
        b < 0x1_0000_0000_0000_0000_0000_0000_0000,
    ensures
        l == log2_floor(a as nat, b as nat),
{
    let mut x = a;
    let mut y = b;
    let mut l: i128 = 0;
    while x < y
        invariant
            0 < x,
            0 < y,
            y == b,
            b < 0x1_0000_0000_0000_0000_0000_0000_0000,
            x < 0x2_0000_0000_0000_0000_0000_0000_0000,
            -l <= x,
            l <= 0,
            log2_floor(a as nat, b as nat) == log2_floor(x as nat, y as nat) + l,
        decreases (if x < y { y - x } else { 0 }),
    {
        x = x * 2;
        l = l - 1;
    }
    while x >= 2 * y
        invariant
            0 < x,
            0 < y,
            x < 0x2_0000_0000_0000_0000_0000_0000_0000,
            x >= y,
            -l <= x,
            l <= y,
            log2_floor(a as nat, b as nat) == log2_floor(x as nat, y as nat) + l,
        decreases x - y,
    {
        y = y * 2;
        l = l + 1;
    }
    l
}

/// The binary64 number nearest to `(a / b) * 2^k`.
fn nearest_double_exec(a: u128, b: u128, k: i128) -> (r: (u128, i128))
    requires
        0 < a < 0x1_0000_0000_0000_0000,
        0 < b < 0x1_0000_0000_0000_0000,
        -1000 <= k <= 1000,
    ensures
        r.0 == nearest_double(a as nat, b as nat, k as int).0,
        r.1 == nearest_double(a as nat, b as nat, k as int).1,
        pow2(52) <= r.0 <= pow2(53),
        r.1 == log2_floor(a as nat, b as nat) + k - 52,
{
    let l = log2_floor_exec(a, b);
    proof {
        lemma_pow2_small();
        lemma_log2_floor_bounds(a as nat, b as nat);
        lemma_scaled_binade(a as nat, b as nat);
        lemma_nearest_significand(a as nat, b as nat, k as int);
        if l >= 64 {
            lemma_pow2_ge(64, l as nat);
            let p = pow2(l as nat);
            assert(b * p >= p) by (nonlinear_arith)
                requires
                    b >= 1,
            ;
        }
        if l < -64 {
            lemma_pow2_ge(65, (-l) as nat);
            let p = pow2((-l) as nat);
            assert(a * p >= p) by (nonlinear_arith)
                requires
                    a >= 1,
            ;
        }
    }
    let m: u128;
    if l <= 52 {
        let s = (52 - l) as u32;
        proof {
            let p53 = pow2(53);
            assert(a * pow2(s as nat) < p53 * b);
            assert(p53 * b <= u128::MAX) by (nonlinear_arith)
                requires
                    p53 == 0x20_0000_0000_0000,
                    b < 0x1_0000_0000_0000_0000,
            ;
        }
        let n = scale_up(a, s);
        m = round_half_even_exec(n, b);
    } else {
        let s = (l - 52) as u32;
        proof {
            let p52 = pow2(52);
            let d = b * pow2(s as nat);
            assert(p52 * d <= a);
            assert(d <= a) by (nonlinear_arith)
                requires
                    p52 * d <= a,
                    p52 > 0,
                    d >= 0,
            ;
        }
        let d = scale_up(b, s);
        m = round_half_even_exec(a, d);
    }
    (m, l + k - 52)
}

proof fn lemma_integer_log2(a: nat, lo: nat, hi: nat)
    requires
        a > 0,
        pow2(lo) <= a,
        a < pow2(hi + 1),
    ensures
        lo <= log2_floor(a, 1) <= hi,
{
    lemma_pow2_small();
    lemma_log2_floor_bounds(a, 1);
    let l = log2_floor(a, 1);
    if l < 0 {
        lemma_pow2_ge(1, (-l) as nat);
        let p = pow2((-l) as nat);
        assert(a * p >= 2) by (nonlinear_arith)
            requires
                a >= 1,
                p >= 2,
        ;
    } else {
        if l > hi {
            lemma_pow2_ge(hi + 1, l as nat);
        }
        if l < lo {
            lemma_pow2_ge((l + 1) as nat, lo);
            lemma_pow2_unfold((l + 1) as nat);
        }
    }
}

proof fn lemma_ratio_log2(a: nat, b: nat)
    requires
        pow2(52) <= a <= pow2(53),
        pow2(52) <= b <= pow2(53),
    ensures
        -1 <= log2_floor(a, b) <= 1,
{
    lemma_pow2_small();
    lemma_log2_floor_bounds(a, b);
    let l = log2_floor(a, b);
    if l >= 2 {
        lemma_pow2_ge(2, l as nat);
        let p = pow2(l as nat);
        assert(b * p >= 4 * b) by (nonlinear_arith)
            requires
                p >= 4,
                b >= 0,
        ;
    }
    if l <= -2 {
        lemma_pow2_ge(2, (-l) as nat);
        let p = pow2((-l) as nat);
        assert(a * p >= 4 * a) by (nonlinear_arith)
            requires
                p >= 4,
                a >= 0,
        ;
    }
}

/// The whole is exactly 100.0 percent, and nothing is 0.0 percent.
pub proof fn lemma_whole_and_nothing(total: nat)
    requires
        total > 0,
    ensures
        share_tenths(total, total) == 1000,
        share_tenths(0, total) == 0,
{
    lemma_pow2_small();
    lemma2_to64();
    let c = nearest_double(total, 1, 0);
    lemma_nearest_significand(total, 1, 0);
    let mc = c.0;
    assert(log2_floor(mc, mc) == 0);
    let p52 = pow2(52);
    assert((mc * p52) / mc == p52 && (mc * p52) % mc == 0) by (nonlinear_arith)
        requires
            mc > 0,
    ;
    let q = nearest_double(mc, mc, 0);
    assert(q == (p52, -52int));
    let a = p52 * 100;
    lemma_pow2_unfold(59);
    lemma_integer_log2(a, 58, 58);
    lemma_pow2_adds(32, 14);
    assert(pow2(46) == 0x4000_0000_0000);
    let p = nearest_double(a, 1, -52);
    assert(log2_floor(a, 1) == 58);
    assert(1 * pow2(6) == 64);
    assert(p == (round_half_even(a, 64), -46int));
    assert(a / 64 == 7036874417766400 && a % 64 == 0);
    assert(p.0 == 7036874417766400);
    assert((p.0 * 10) / pow2(46) == 1000 && (p.0 * 10) % pow2(46) == 0);
    assert(share_double(total, total) == p);
}

/// The share of `count` out of `total` in percent, in tenths, as binary64
/// computes `count / total * 100` and rounds it to one decimal.
pub fn share_tenths_exec(count: usize, total: usize) -> (t: u128)
    ensures
        t == share_tenths(count as nat, total as nat),
{
    if total == 0 {
        return 0;
    }
    if count == 0 {
        proof {
            lemma_pow2_small();
        }
        return 0;
    }
    proof {
        lemma_pow2_small();
    }
    let (mc, ec) = nearest_double_exec(count as u128, 1, 0);
    let (mt, et) = nearest_double_exec(total as u128, 1, 0);
    proof {
        lemma_integer_log2(count as nat, 0, 63);
        lemma_integer_log2(total as nat, 0, 63);
        lemma_ratio_log2(mc as nat, mt as nat);
    }
    let (mq, eq) = nearest_double_exec(mc, mt, ec - et);
    proof {
        lemma_integer_log2((mq * 100) as nat, 58, 59);
    }
    let (mp, ep) = nearest_double_exec(mq * 100, 1, eq);
    assert(-110 <= ep <= 19);
    if ep >= 0 {
        let e = ep as u32;
        proof {
            lemma_pow2_ge(e as nat, 19);
            lemma2_to64();
            let p = pow2(e as nat);
            assert(mp * 10 * p <= u128::MAX) by (nonlinear_arith)
                requires
                    mp <= 0x20_0000_0000_0000,
                    p <= 0x80000,
            ;
        }
        scale_up(mp * 10, e)
    } else {
        let e = (-ep) as u32;
        proof {
            lemma_pow2_strictly_increases(e as nat, 128);
            lemma_pow2_pos(e as nat);
        }
        let d = scale_up(1, e);
        round_half_even_exec(mp * 10, d)
    }
}

} // verus!
