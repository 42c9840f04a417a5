//! Large numbers in short form.
use vstd::arithmetic::power2::{lemma_pow2_unfold, pow2};
use vstd::prelude::*;

use crate::text::{concat3, decimal, decimal_string};

verus! {

////// Rounding as in double precision

/// The quotient rounded to the nearest integer, and to the even one of two that are equally near.
pub open spec fn rounded(num: nat, den: nat) -> nat {
    let q = num / den;
    let r = num % den;
    if 2 * r < den || (2 * r == den && q % 2 == 0) {
        q
    } else {
        q + 1
    }
}

/// One more than the largest integer that 53 bits hold.
pub const LIMIT: u128 = 0x20_0000_0000_0000;

/// How many low bits of `n` do not fit in the 53 bits of a double.
pub open spec fn lost_bits(n: nat) -> nat
    decreases n,
{
    if n < LIMIT {
        0
    } else {
        1 + lost_bits(n / 2)
    }
}

/// The double nearest to an integer: an integer again.
pub open spec fn as_double(n: nat) -> nat {
    rounded(n, pow2(lost_bits(n))) * pow2(lost_bits(n))
}

/// How often `a` can be doubled until the quotient `a / d` takes up 53 bits.
pub open spec fn free_bits(a: nat, d: nat) -> nat
    decreases d * LIMIT - a,
{
    if a == 0 || 2 * a >= d * LIMIT {
        0
    } else {
        1 + free_bits(2 * a, d)
    }
}

/// The quotient of two doubles in double precision has this numerator over `2^free_bits(a, d)`.
pub open spec fn quotient(a: nat, d: nat) -> nat {
    rounded(a * pow2(free_bits(a, d)), d)
}

/// The tenths of the quotient in double precision, rounded.
pub open spec fn tenths(n: nat, d: nat) -> nat {
    let a = as_double(n);
    rounded(10 * quotient(a, d), pow2(free_bits(a, d)))
}

/// A number with one decimal place.
pub open spec fn one_decimal(t: nat) -> Seq<char> {
    decimal(t / 10) + "."@ + decimal(t % 10)
}

/// A number in short form: with one decimal and a letter from a thousand on.
pub open spec fn number_text(n: nat) -> Seq<char> {
    if n >= 1_000_000_000 {
        one_decimal(tenths(n, 1_000_000_000)) + "G"@
    } else if n >= 1_000_000 {
        one_decimal(tenths(n, 1_000_000)) + "M"@
    } else if n >= 1_000 {
        one_decimal(tenths(n, 1_000)) + "K"@
    } else {
        decimal(n)
    }
}

fn round_quotient(num: u128, den: u128) -> (r: u128)
    requires
        0 < den,
        num < 0x8000_0000_0000_0000_0000_0000_0000_0000,
        den < 0x1000_0000_0000_0000_0000_0000_0000_0000,
    ensures
        r == rounded(num as nat, den as nat),
        r <= num / den + 1,
{
    let q = num / den;
    let rest = num % den;
    proof {
        assert(q <= num) by (nonlinear_arith)
            requires
                q == num / den,
                den >= 1,
        ;
    }
    if 2 * rest < den || (2 * rest == den && q % 2 == 0) {
        q
    } else {
        q + 1
    }
}

proof fn lemma_lost_bits(n: nat)
    ensures
        n < LIMIT * pow2(lost_bits(n)),
        lost_bits(n) > 0 ==> LIMIT * pow2(lost_bits(n)) <= 2 * n,
    decreases n,
{
    vstd::arithmetic::power2::lemma2_to64();
    if n >= LIMIT {
        lemma_lost_bits(n / 2);
        lemma_pow2_unfold(lost_bits(n));
        let p = pow2(lost_bits(n / 2));
        assert(LIMIT * (2 * p) == 2 * (LIMIT * p)) by (nonlinear_arith);
        if lost_bits(n / 2) == 0 {
            assert(p == 1);
        }
    }
}

proof fn lemma_free_bits(a: nat, d: nat)
    requires
        0 < a < d * LIMIT,
    ensures
        a * pow2(free_bits(a, d)) < d * LIMIT,
        d * LIMIT <= 2 * (a * pow2(free_bits(a, d))),
    decreases d * LIMIT - a,
{
    vstd::arithmetic::power2::lemma2_to64();
    if 2 * a < d * LIMIT {
        lemma_free_bits(2 * a, d);
        lemma_pow2_unfold(free_bits(a, d));
        let p = pow2(free_bits(2 * a, d));
        assert(a * (2 * p) == (2 * a) * p) by (nonlinear_arith);
    } else {
        assert(a * 1 == a);
    }
}

/// The double nearest to an integer.
fn double_of(n: u64) -> (r: u128)
    ensures
        r == as_double(n as nat),
        r <= 2 * n,
        n < LIMIT ==> r == n,
{
    let mut den: u128 = 1;
    let mut m: u64 = n;
    proof {
        vstd::arithmetic::power2::lemma2_to64();
    }
    let ghost mut done: nat = 0;
    while m as u128 >= LIMIT
        invariant
            den == pow2(done),
            lost_bits(n as nat) == done + lost_bits(m as nat),
            den <= 0x1_0000_0000_0000_0000,
            m * den <= n,
        decreases m,
    {
        proof {
            lemma_pow2_unfold(done + 1);
            let h = m / 2;
            assert(h * (2 * den) <= m * den) by (nonlinear_arith)
                requires
                    2 * h <= m,
                    den >= 0,
            ;
            assert(2 * den <= 0x1_0000_0000_0000_0000) by (nonlinear_arith)
                requires
                    m * den <= n,
                    m >= 2,
                    n < 0x1_0000_0000_0000_0000,
                    den >= 0,
            ;
            done = done + 1;
        }
        m = m / 2;
        den = den * 2;
    }
    proof {
        assert(lost_bits(m as nat) == 0);
        lemma_lost_bits(n as nat);
        let q = n as int / den as int;
        assert(q < LIMIT) by (nonlinear_arith)
            requires
                n < LIMIT * den,
                q == n as int / den as int,
                den > 0,
        ;
        assert(q * den <= n) by (nonlinear_arith)
            requires
                q == n as int / den as int,
                den > 0,
        ;
        if done > 0 {
            assert(den <= n) by (nonlinear_arith)
                requires
                    LIMIT * den <= 2 * n,
            ;
        }
    }
    let k = round_quotient(n as u128, den);
    proof {
        let q = n as int / den as int;
        assert(k * den <= q * den + den) by (nonlinear_arith)
            requires
                k <= q + 1,
                den > 0,
        ;
        if done == 0 {
            assert(den == 1);
            assert(n as nat / 1 == n && n as nat % 1 == 0);
            assert(k == n);
            assert(k * den == k);
        }
    }
    k * den
}

/// The tenths of a quotient, as double precision gives them.
fn tenths_of(n: u64, d: u64) -> (r: u64)
    requires
        0 < d <= 1_000_000_000,
        d <= n,
        n < d * 0x10_0000_0000,
    ensures
        r == tenths(n as nat, d as nat),
{
    let a = double_of(n);
    let bound: u128 = d as u128 * LIMIT;
    proof {
        lemma_double_at_least(n as nat, d as nat);
        assert(a < bound) by (nonlinear_arith)
            requires
                a <= 2 * n,
                n < d * 0x10_0000_0000,
                bound == d * LIMIT,
                LIMIT == 0x20_0000_0000_0000,
                d > 0,
        ;
        vstd::arithmetic::power2::lemma2_to64();
    }
    let mut num: u128 = a;
    let mut scale: u128 = 1;
    let ghost mut done: nat = 0;
    assert(a * 1 == a);
    while 2 * num < bound
        invariant
            bound == d * LIMIT,
            0 < d <= 1_000_000_000,
            d <= a <= num < bound,
            scale == pow2(done),
            num == a * scale,
            scale <= LIMIT,
            free_bits(a as nat, d as nat) == done + free_bits(num as nat, d as nat),
        decreases bound - num,
    {
        proof {
            lemma_pow2_unfold(done + 1);
            assert(a * (2 * scale) == 2 * (a * scale)) by (nonlinear_arith);
            assert(2 * scale <= LIMIT) by (nonlinear_arith)
                requires
                    2 * num < bound,
                    num == a * scale,
                    bound == d * LIMIT,
                    d <= a,
                    d > 0,
            ;
            done = done + 1;
        }
        num = num * 2;
        scale = scale * 2;
    }
    proof {
        assert(free_bits(num as nat, d as nat) == 0);
        let q = num as int / d as int;
        assert(q < LIMIT) by (nonlinear_arith)
            requires
                num < d * LIMIT,
                q == num as int / d as int,
                d > 0,
        ;
    }
    let m = round_quotient(num, d as u128);
    proof {
        lemma_tenths_bound(n as nat, d as nat, a as nat, m as nat, scale as nat, num as nat);
    }
    round_quotient(10 * m, scale) as u64
}

/// Rounding to a double never falls below a smaller integer that is a double.
proof fn lemma_double_at_least(n: nat, d: nat)
    requires
        d <= n,
        d < LIMIT,
    ensures
        as_double(n) >= d,
{
    let p = pow2(lost_bits(n));
    lemma_lost_bits(n);
    vstd::arithmetic::power2::lemma_pow2_pos(lost_bits(n));
    let q = n / p;
    if lost_bits(n) == 0 {
        vstd::arithmetic::power2::lemma2_to64();
        assert(p == 1);
        assert(rounded(n, 1) == n);
        assert(n * 1 == n);
    } else {
        let h = (LIMIT / 2) as nat;
        assert(h * p <= n) by (nonlinear_arith)
            requires
                LIMIT * p <= 2 * n,
                LIMIT == 2 * h,
        ;
        assert(q >= h) by (nonlinear_arith)
            requires
                h * p <= n,
                q == n / p,
                p > 0,
        ;
        lemma_pow2_unfold(lost_bits(n));
        vstd::arithmetic::power2::lemma_pow2_pos((lost_bits(n) - 1) as nat);
        assert(p >= 2);
        assert(rounded(n, p) * p >= h * 2) by (nonlinear_arith)
            requires
                rounded(n, p) >= h,
                p >= 2,
        ;
    }
}

proof fn lemma_tenths_bound(n: nat, d: nat, a: nat, m: nat, scale: nat, num: nat)
    requires
        0 < d <= 1_000_000_000,
        n < d * 0x10_0000_0000,
        a <= 2 * n,
        num == a * scale,
        0 < scale <= LIMIT,
        num < d * LIMIT,
        m <= num / d + 1,
    ensures
        10 * m <= 10 * LIMIT + 10,
        10 * m / scale + 1 <= 0xffff_ffff_ffff_ffff,
{
    let q = num / d;
    assert(q < LIMIT) by (nonlinear_arith)
        requires
            num < d * LIMIT,
            q == num / d,
            d > 0,
    ;
    assert(10 * m / scale <= 10 * m) by (nonlinear_arith)
        requires
            scale > 0,
    ;
}

/// Rounding gives the nearest integer, and the even one where two are equally near.
pub proof fn rounding_is_to_nearest(num: nat, den: nat)
    requires
        den > 0,
    ensures
        2 * (rounded(num, den) * den) <= 2 * num + den,
        2 * num <= 2 * (rounded(num, den) * den) + den,
        2 * (rounded(num, den) * den) == 2 * num + den ==> rounded(num, den) % 2 == 0,
        2 * num == 2 * (rounded(num, den) * den) + den ==> rounded(num, den) % 2 == 0,
{
    let q = num / den;
    let r = num % den;
    assert(num == q * den + r) by (nonlinear_arith)
        requires
            q == num / den,
            r == num % den,
            den > 0,
    ;
    assert((q + 1) * den == q * den + den) by (nonlinear_arith);
}

/// An integer that 53 bits hold is its own double. Any other one becomes the nearest multiple of the
/// smallest power of two that leaves no more than 53 bits.
pub proof fn nearest_double(n: nat)
    ensures
        n < 0x20_0000_0000_0000 ==> as_double(n) == n,
        n >= 0x20_0000_0000_0000 ==> exists|k: nat|
            n < 0x20_0000_0000_0000 * #[trigger] pow2(k) && 0x20_0000_0000_0000 * pow2(k) <= 2 * n
                && as_double(n) % pow2(k) == 0 && 2 * as_double(n) <= 2 * n + pow2(k) && 2 * n <= 2
                * as_double(n) + pow2(k),
{
    let k = lost_bits(n);
    let p = pow2(k);
    vstd::arithmetic::power2::lemma_pow2_pos(k);
    vstd::arithmetic::power2::lemma2_to64();
    lemma_lost_bits(n);
    if n < LIMIT {
        assert(p == 1);
        assert(n / 1 == n && n % 1 == 0);
        assert(rounded(n, 1) == n);
        assert(n * 1 == n);
    } else {
        rounding_is_to_nearest(n, p);
        let m = rounded(n, p);
        assert((m * p) % p == 0) by (nonlinear_arith)
            requires
                p > 0,
        ;
    }
}

proof fn lemma_rounded_scales(x: nat, y: nat, c: nat)
    requires
        y > 0,
        c > 0,
    ensures
        c * y > 0,
        rounded(c * x, c * y) == rounded(x, y),
{
    let q = x / y;
    let r = x % y;
    assert(x == q * y + r && 0 <= r < y) by (nonlinear_arith)
        requires
            q == x / y,
            r == x % y,
            y > 0,
    ;
    assert(c * y > 0 && c * x == q * (c * y) + c * r && 0 <= c * r < c * y) by (nonlinear_arith)
        requires
            x == q * y + r,
            0 <= r < y,
            c > 0,
    ;
    vstd::arithmetic::div_mod::lemma_fundamental_div_mod_converse(
        (c * x) as int,
        (c * y) as int,
        q as int,
        (c * r) as int,
    );
    assert((2 * (c * r) < c * y) == (2 * r < y) && (2 * (c * r) == c * y) == (2 * r == y))
        by (nonlinear_arith)
        requires
            c > 0,
    ;
}

/// Where double precision holds the quotient exactly, its tenths are rounded to the nearest, and to
/// the even ones where two are equally near.
pub proof fn exact_quotient_is_rounded(n: nat, d: nat)
    requires
        0 < d <= n < 0x20_0000_0000_0000,
        (n * pow2(free_bits(n, d))) % d == 0,
    ensures
        tenths(n, d) == rounded(10 * n, d),
{
    nearest_double(n);
    let s = pow2(free_bits(n, d));
    vstd::arithmetic::power2::lemma_pow2_pos(free_bits(n, d));
    let q = quotient(n, d);
    assert(q * d == n * s) by (nonlinear_arith)
        requires
            q == (n * s) / d,
            (n * s) % d == 0,
            d > 0,
    ;
    lemma_rounded_scales(10 * q, s, d);
    lemma_rounded_scales(10 * n, d, s);
    assert(d * (10 * q) == s * (10 * n)) by (nonlinear_arith)
        requires
            q * d == n * s,
    ;
    assert(d * s == s * d) by (nonlinear_arith);
}

/// The tenths that are shown differ from ten times the quotient by no more than a half, but for a
/// little that gets lost in double precision.
pub proof fn tenths_are_near_the_quotient(n: nat, d: nat)
    requires
        0 < d <= n <= u64::MAX,
    ensures
        n < 0x20_0000_0000_0000 ==> 2 * (tenths(n, d) * d) <= 20 * n + d + 20,
        n < 0x20_0000_0000_0000 ==> 20 * n <= 2 * (tenths(n, d) * d) + d + 20,
        2 * (tenths(n, d) * d) <= 20 * n + d + 262_144,
        20 * n <= 2 * (tenths(n, d) * d) + d + 262_144,
{
    let a = as_double(n);
    let p = pow2(lost_bits(n));
    vstd::arithmetic::power2::lemma_pow2_pos(lost_bits(n));
    lemma_lost_bits(n);
    rounding_is_to_nearest(n, p);
    assert(p <= 4096) by {
        vstd::arithmetic::power2::lemma2_to64();
        if lost_bits(n) > 0 {
            assert(p <= 4096) by (nonlinear_arith)
                requires
                    LIMIT * p <= 2 * n,
                    n <= 0xffff_ffff_ffff_ffff,
                    LIMIT == 0x20_0000_0000_0000,
            ;
        }
    }
    if n < LIMIT {
        vstd::arithmetic::power2::lemma2_to64();
        assert(p == 1);
        assert(n / 1 == n && n % 1 == 0);
        assert(rounded(n, 1) == n);
        assert(n * 1 == n);
        assert(a == n);
    }
    let s = pow2(free_bits(a, d));
    let q = quotient(a, d);
    let t = tenths(n, d);
    vstd::arithmetic::power2::lemma_pow2_pos(free_bits(a, d));
    assert(a > 0) by {
        assert(rounded(n, p) > 0) by {
            assert(n >= p) by {
                if lost_bits(n) > 0 {
                    assert(n >= p) by (nonlinear_arith)
                        requires
                            LIMIT * p <= 2 * n,
                            LIMIT == 0x20_0000_0000_0000,
                    ;
                } else {
                    vstd::arithmetic::power2::lemma2_to64();
                }
            }
            assert(n / p >= 1) by (nonlinear_arith)
                requires
                    n >= p,
                    p > 0,
            ;
        }
        assert(rounded(n, p) * p > 0) by (nonlinear_arith)
            requires
                rounded(n, p) > 0,
                p > 0,
        ;
    }
    rounding_is_to_nearest(a * s, d);
    rounding_is_to_nearest(10 * q, s);
    lemma_scale(a, d);
    let x = (t * d) as int;
    assert(2 * s * x <= 20 * (a * s) + s * d + 10 * d && 20 * (a * s) <= 2 * s * x + s * d + 10 * d)
        by (nonlinear_arith)
        requires
            x == t * d,
            2 * (t * s) <= 2 * (10 * q) + s,
            2 * (10 * q) <= 2 * (t * s) + s,
            2 * (q * d) <= 2 * (a * s) + d,
            2 * (a * s) <= 2 * (q * d) + d,
            d > 0,
            s > 0,
    ;
    let e = if n < LIMIT {
        2int
    } else {
        8192int
    };
    assert(d <= e * s) by (nonlinear_arith)
        requires
            d * LIMIT <= 2 * (a * s) || d <= s,
            a <= n + 2048,
            n < LIMIT ==> a == n,
            n <= 0xffff_ffff_ffff_ffff,
            LIMIT == 0x20_0000_0000_0000,
            s > 0,
            e == if n < LIMIT {
                2int
            } else {
                8192int
            },
    ;
    assert(2 * x <= 20 * a + d + 10 * e && 20 * a <= 2 * x + d + 10 * e) by (nonlinear_arith)
        requires
            2 * s * x <= 20 * (a * s) + s * d + 10 * d,
            20 * (a * s) <= 2 * s * x + s * d + 10 * d,
            d <= e * s,
            s > 0,
    ;
}

/// Doubling stops when the quotient fills its bits, or there was nothing to double.
proof fn lemma_scale(a: nat, d: nat)
    requires
        a > 0,
        d > 0,
    ensures
        d * LIMIT <= 2 * (a * pow2(free_bits(a, d))) || d <= pow2(free_bits(a, d)),
{
    if a < d * LIMIT {
        lemma_free_bits(a, d);
    } else {
        vstd::arithmetic::power2::lemma2_to64();
        assert(free_bits(a, d) == 0);
        assert(a * 1 == a);
    }
}

/// Writes a number in short form.
pub fn format_number(n: usize) -> (r: String)
    ensures
        r@ == number_text(n as nat),
        n < 1_000 ==> r@ == decimal(n as nat),
        1_000 <= n < 1_000_000 ==> exists|w: nat, f: nat|
            f < 10 && r@ == #[trigger] decimal(w) + "."@ + #[trigger] decimal(f) + "K"@ && 2_000 * (10
                * w + f) <= 20 * n + 1_020 && 20 * n <= 2_000 * (10 * w + f) + 1_020,
        1_000_000 <= n < 1_000_000_000 ==> exists|w: nat, f: nat|
            f < 10 && r@ == #[trigger] decimal(w) + "."@ + #[trigger] decimal(f) + "M"@ && 2_000_000
                * (10 * w + f) <= 20 * n + 1_000_020 && 20 * n <= 2_000_000 * (10 * w + f)
                + 1_000_020,
        1_000_000_000 <= n ==> exists|w: nat, f: nat|
            f < 10 && r@ == #[trigger] decimal(w) + "."@ + #[trigger] decimal(f) + "G"@
                && 2_000_000_000 * (10 * w + f) <= 20 * n + 1_000_262_144 && 20 * n <= 2_000_000_000
                * (10 * w + f) + 1_000_262_144,
{
    let n: u64 = n as u64;
    proof {
        let m = n as nat;
        if n >= 1_000 {
            let d: nat = if n >= 1_000_000_000 {
                1_000_000_000
            } else if n >= 1_000_000 {
                1_000_000
            } else {
                1_000
            };
            tenths_are_near_the_quotient(m, d);
            let t = tenths(m, d);
            assert(t == 10 * (t / 10) + t % 10);
            assert(2 * (t * d) == (2 * d) * t) by (nonlinear_arith);
            assert(one_decimal(t) == decimal(t / 10) + "."@ + decimal(t % 10));
        }
    }
    if n >= 1_000_000_000 {
        with_letter(tenths_of(n, 1_000_000_000), "G")
    } else if n >= 1_000_000 {
        with_letter(tenths_of(n, 1_000_000), "M")
    } else if n >= 1_000 {
        with_letter(tenths_of(n, 1_000), "K")
    } else {
        decimal_string(n)
    }
}

fn with_letter(t: u64, letter: &str) -> (r: String)
    ensures
        r@ == one_decimal(t as nat) + letter@,
{
    let whole = decimal_string(t / 10);
    let rest = decimal_string(t % 10);
    let number = concat3(whole.as_str(), ".", rest.as_str());
    let out = concat3(number.as_str(), letter, "");
    proof {
        reveal_strlit("");
        assert(out@ =~= one_decimal(t as nat) + letter@);
    }
    out
}

} // verus!
