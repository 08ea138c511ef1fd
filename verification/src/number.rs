//! Numbers in their bit form.
//!
//! A script number is an IEEE 754 double. The library keeps it as the 64 bits
//! that represent it and never computes with it, except for the three things
//! that are exact on the bits: comparing two numbers, truncating one to an
//! index, and turning a count into a number.
use vstd::arithmetic::div_mod::lemma_div_denominator;
use vstd::arithmetic::div_mod::lemma_div_multiples_vanish;
use vstd::arithmetic::div_mod::lemma_div_pos_is_pos;
use vstd::arithmetic::div_mod::lemma_fundamental_div_mod;
use vstd::arithmetic::div_mod::lemma_mod_bound;
use vstd::arithmetic::div_mod::lemma_mod_multiples_basic;
use vstd::arithmetic::power2::lemma2_to64;
use vstd::arithmetic::power2::lemma2_to64_rest;
use vstd::arithmetic::power2::lemma_pow2_adds;
use vstd::arithmetic::power2::lemma_pow2_pos;
use vstd::arithmetic::power2::lemma_pow2_strictly_increases;
use vstd::arithmetic::power2::lemma_pow2_unfold;
use vstd::arithmetic::power2::pow2;
use vstd::bits::lemma_u64_shl_is_mul;
use vstd::bits::lemma_u64_shr_is_div;
use vstd::prelude::*;

verus! {

/// Bit pattern of the exponent field; all of these bits are set in every
/// value that is not a finite number.
pub const QNAN: u64 = 0x7ff0000000000000;

/// Bit pattern of the number one.
pub const ONE: u64 = 0x3ff0000000000000;

/// The sign bit.
pub const SIGN: u64 = 0x8000000000000000;

/// The weight of the lowest exponent bit.
pub const IMPLICIT: u64 = 0x10000000000000;

/// The bits represent a finite number.
pub open spec fn is_finite(bits: u64) -> bool {
    bits & QNAN != QNAN
}

/// The absolute value of a number without its sign bit, in units of the
/// smallest positive double (`2^-1074`).
pub open spec fn magnitude(unsigned: int) -> int {
    let exponent = unsigned / (IMPLICIT as int);
    let fraction = unsigned % (IMPLICIT as int);
    if exponent <= 0 {
        fraction
    } else {
        (IMPLICIT + fraction) * pow2((exponent - 1) as nat)
    }
}

/// The value of a finite number, in units of `2^-1074`.
pub open spec fn scaled(bits: u64) -> int {
    if bits < SIGN {
        magnitude(bits as int)
    } else {
        -magnitude(bits - SIGN)
    }
}

/// The number cut to an integer that fits in `usize`: fractions are dropped,
/// what is negative becomes zero and what is too large the largest `usize`.
pub open spec fn truncated(bits: u64) -> int {
    let whole = scaled(bits) / (pow2(1074) as int);
    if scaled(bits) < 0 {
        0
    } else if whole > usize::MAX {
        usize::MAX as int
    } else {
        whole
    }
}

/// The exponent of the highest power of two that is not above `n`.
pub open spec fn log2(n: nat) -> nat
    decreases n,
{
    if n < 2 {
        0
    } else {
        1 + log2(n / 2)
    }
}

/// The bits of the double nearest to `n`, where a tie goes to the even one.
pub open spec fn bits_of_count(n: nat) -> nat {
    let k = log2(n);
    if n == 0 {
        0
    } else if k <= 52 {
        ((1022 + k) * IMPLICIT + n * pow2((52 - k) as nat)) as nat
    } else {
        let unit = pow2((k - 52) as nat);
        let low = n % unit;
        let high = n / unit;
        let up: nat = if 2 * low > unit || (2 * low == unit && high % 2 == 1) {
            1
        } else {
            0
        };
        ((1022 + k) * IMPLICIT + high + up) as nat
    }
}

proof fn lemma_magnitude_bounds(m: int)
    requires
        0 <= m,
    ensures
        0 <= magnitude(m) < IMPLICIT * pow2((m / (IMPLICIT as int)) as nat),
        m / (IMPLICIT as int) > 0 ==> IMPLICIT * pow2((m / (IMPLICIT as int) - 1) as nat)
            <= magnitude(m),
{
    let p = IMPLICIT as int;
    let e = m / p;
    let f = m % p;
    lemma_pow2_pos(e as nat);
    lemma2_to64();
    if e > 0 {
        lemma_pow2_unfold(e as nat);
        let k = pow2((e - 1) as nat) as int;
        lemma_pow2_pos((e - 1) as nat);
        assert((p + f) * k < p * (2 * k)) by (nonlinear_arith)
            requires
                0 <= f < p,
                k > 0,
        ;
        assert(p * k <= (p + f) * k) by (nonlinear_arith)
            requires
                0 <= f,
                k > 0,
        ;
        assert(0 <= p * k) by (nonlinear_arith)
            requires
                p > 0,
                k > 0,
        ;
    } else {
        assert(e == 0);
        assert(pow2(0) == 1);
    }
}

/// Without their sign bits, numbers are ordered as their bits are.
proof fn lemma_magnitude_increases(a: int, b: int)
    requires
        0 <= a < b,
    ensures
        magnitude(a) < magnitude(b),
{
    let p = IMPLICIT as int;
    let ea = a / p;
    let eb = b / p;
    let fa = a % p;
    let fb = b % p;
    lemma_magnitude_bounds(a);
    lemma_magnitude_bounds(b);
    assert(ea <= eb);
    if ea == eb {
        assert(fa < fb);
        if ea > 0 {
            let k = pow2((ea - 1) as nat) as int;
            lemma_pow2_pos((ea - 1) as nat);
            assert((p + fa) * k < (p + fb) * k) by (nonlinear_arith)
                requires
                    fa < fb,
                    k > 0,
            ;
        }
    } else {
        let ka = pow2(ea as nat) as int;
        let kb = pow2((eb - 1) as nat) as int;
        if ea < eb - 1 {
            lemma_pow2_strictly_increases(ea as nat, (eb - 1) as nat);
        }
        assert(p * ka <= p * kb) by (nonlinear_arith)
            requires
                ka <= kb,
                p > 0,
        ;
    }
}

/// The order of the values is the order of the bits, taken as sign and magnitude.
proof fn lemma_scaled_order(l: u64, r: u64)
    ensures
        scaled(l) < scaled(r) <==> ({
            if l < SIGN && r < SIGN {
                l < r
            } else if l >= SIGN && r >= SIGN {
                r < l
            } else {
                l >= SIGN && (l != SIGN || r != 0)
            }
        }),
{
    let a: int = if l < SIGN {
        l as int
    } else {
        l - SIGN
    };
    let b: int = if r < SIGN {
        r as int
    } else {
        r - SIGN
    };
    if a < b {
        lemma_magnitude_increases(a, b);
    }
    if b < a {
        lemma_magnitude_increases(b, a);
    }
    lemma_magnitude_bounds(a);
    lemma_magnitude_bounds(b);
    if a > 0 {
        lemma_magnitude_increases(0, a);
    }
    if b > 0 {
        lemma_magnitude_increases(0, b);
    }
    assert(magnitude(0) == 0);
}

/// Whether one finite number is less than another.
pub fn less_than(l: u64, r: u64) -> (res: bool)
    requires
        is_finite(l),
        is_finite(r),
    ensures
        res == (scaled(l) < scaled(r)),
{
    proof {
        lemma_scaled_order(l, r);
    }
    if l < SIGN && r < SIGN {
        l < r
    } else if l >= SIGN && r >= SIGN {
        r < l
    } else {
        l >= SIGN && (l != SIGN || r != 0)
    }
}

/// Whether two finite numbers have the same value.
pub fn same_number(l: u64, r: u64) -> (res: bool)
    requires
        is_finite(l),
        is_finite(r),
    ensures
        res == (scaled(l) == scaled(r)),
{
    !less_than(l, r) && !less_than(r, l)
}

proof fn lemma_truncated_small(bits: u64)
    requires
        bits < SIGN,
        bits / IMPLICIT < 1023,
    ensures
        truncated(bits) == 0,
{
    let p = IMPLICIT as int;
    let e = (bits as int) / p;
    lemma_magnitude_bounds(bits as int);
    lemma2_to64_rest();
    lemma_pow2_adds(52, e as nat);
    if 52 + e < 1074 {
        lemma_pow2_strictly_increases((52 + e) as nat, 1074);
    }
    lemma_pow2_pos(1074);
    let x = scaled(bits);
    let d = pow2(1074) as int;
    assert(x / d == 0) by (nonlinear_arith)
        requires
            0 <= x < d,
    ;
}

proof fn lemma_truncated_shift_down(bits: u64)
    requires
        bits < SIGN,
        1023 <= bits / IMPLICIT <= 1075,
    ensures
        scaled(bits) >= 0,
        scaled(bits) / (pow2(1074) as int) == (IMPLICIT + bits % IMPLICIT) / (pow2(
            (1075 - bits / IMPLICIT) as nat,
        ) as int),
{
    let e = (bits / IMPLICIT) as int;
    let m = IMPLICIT + (bits % IMPLICIT) as int;
    let low = pow2((e - 1) as nat) as int;
    let s = (1075 - e) as nat;
    lemma_magnitude_bounds(bits as int);
    lemma_pow2_adds((e - 1) as nat, s);
    lemma_pow2_pos((e - 1) as nat);
    lemma_pow2_pos(s);
    lemma_div_denominator(m * low, low, pow2(s) as int);
    lemma_div_multiples_vanish(m, low);
    assert(low * m == m * low) by (nonlinear_arith);
}

proof fn lemma_truncated_shift_up(bits: u64)
    requires
        bits < SIGN,
        1075 <= bits / IMPLICIT,
    ensures
        scaled(bits) >= 0,
        scaled(bits) / (pow2(1074) as int) == (IMPLICIT + bits % IMPLICIT) * pow2(
            (bits / IMPLICIT - 1075) as nat,
        ),
{
    let e = (bits / IMPLICIT) as int;
    let m = IMPLICIT + (bits % IMPLICIT) as int;
    let t = (e - 1075) as nat;
    let d = pow2(1074) as int;
    let u = pow2(t) as int;
    lemma_magnitude_bounds(bits as int);
    lemma_pow2_adds(1074, t);
    lemma_pow2_pos(1074);
    assert(m * (d * u) == d * (m * u)) by (nonlinear_arith);
    lemma_div_multiples_vanish(m * u, d);
}

/// Cuts a number to an index, as the conversion of a double to `usize` does.
pub fn to_index(bits: u64) -> (res: usize)
    requires
        is_finite(bits),
    ensures
        res == truncated(bits),
{
    if bits >= SIGN {
        proof {
            lemma_magnitude_bounds(bits - SIGN);
            lemma_pow2_pos(1074);
            if scaled(bits) == 0 {
                assert(0int / (pow2(1074) as int) == 0) by (nonlinear_arith)
                    requires
                        pow2(1074) > 0,
                ;
            }
        }
        return 0;
    }
    let e: u64 = bits / IMPLICIT;
    let m: u64 = IMPLICIT + bits % IMPLICIT;
    if e < 1023 {
        proof {
            lemma_truncated_small(bits);
        }
        return 0;
    }
    let whole: u64 = if e <= 1075 {
        let s: u64 = 1075 - e;
        proof {
            lemma_truncated_shift_down(bits);
            lemma_u64_shr_is_div(m, s);
        }
        m >> s
    } else if e <= 1086 {
        let s: u64 = e - 1075;
        proof {
            lemma_truncated_shift_up(bits);
            lemma2_to64();
            lemma2_to64_rest();
            if s < 11 {
                lemma_pow2_strictly_increases(s as nat, 11);
            }
            assert(m * pow2(s as nat) <= u64::MAX) by (nonlinear_arith)
                requires
                    m < 0x20000000000000,
                    pow2(s as nat) <= 2048,
            ;
            lemma_u64_shl_is_mul(m, s);
        }
        m << s
    } else {
        proof {
            lemma_truncated_shift_up(bits);
            lemma2_to64();
            lemma2_to64_rest();
            let t = (e - 1075) as nat;
            if 12 < t {
                lemma_pow2_strictly_increases(12, t);
            }
            assert(m * pow2(t) > u64::MAX) by (nonlinear_arith)
                requires
                    m >= 0x10000000000000,
                    pow2(t) >= 4096,
            ;
        }
        return usize::MAX;
    };
    if whole > usize::MAX as u64 {
        usize::MAX
    } else {
        whole as usize
    }
}

proof fn lemma_log2(n: nat)
    requires
        n > 0,
    ensures
        pow2(log2(n)) <= n < 2 * pow2(log2(n)),
    decreases n,
{
    lemma2_to64();
    if n >= 2 {
        lemma_log2(n / 2);
        lemma_pow2_unfold(log2(n));
    }
}

/// The double nearest to a count.
pub fn from_count(n: u64) -> (res: u64)
    ensures
        res == bits_of_count(n as nat),
{
    if n == 0 {
        return 0;
    }
    let mut k: u64 = 0;
    let mut t: u64 = n;
    while t >= 2
        invariant
            t >= 1,
            k + log2(t as nat) == log2(n as nat),
            k + t <= n,
        decreases t,
    {
        t = t / 2;
        k = k + 1;
    }
    proof {
        lemma_log2(n as nat);
        lemma2_to64();
        lemma2_to64_rest();
        if k > 63 {
            lemma_pow2_strictly_increases(63, k as nat);
            assert(pow2(k as nat) >= pow2(64)) by {
                if k > 64 {
                    lemma_pow2_strictly_increases(64, k as nat);
                }
            }
        }
    }
    if k <= 52 {
        let s: u64 = 52 - k;
        proof {
            lemma_pow2_adds(k as nat, s as nat);
            let pk = pow2(k as nat) as int;
            let ps = pow2(s as nat) as int;
            lemma_pow2_pos(s as nat);
            assert(n * ps < 2 * IMPLICIT) by (nonlinear_arith)
                requires
                    n < 2 * pk,
                    pk * ps == IMPLICIT,
                    ps > 0,
            ;
            assert(0 <= n * ps) by (nonlinear_arith)
                requires
                    n >= 0,
                    ps > 0,
            ;
            lemma_u64_shl_is_mul(n, s);
        }
        (1022 + k) * IMPLICIT + (n << s)
    } else {
        let s: u64 = k - 52;
        proof {
            lemma_u64_shr_is_div(n, s);
            lemma_pow2_pos(s as nat);
            lemma_pow2_adds(52, s as nat);
            if s < 12 {
                lemma_pow2_strictly_increases(s as nat, 12);
            }
            lemma_u64_shl_is_mul(1, s);
        }
        let unit: u64 = 1u64 << s;
        let high: u64 = n >> s;
        let low: u64 = n % unit;
        proof {
            let u = unit as int;
            assert(high <= 0x20000000000000) by (nonlinear_arith)
                requires
                    high == n as int / u,
                    u > 0,
                    n < 2 * (IMPLICIT * u),
            ;
        }
        let up: u64 = if 2 * low > unit || (2 * low == unit && high % 2 == 1) {
            1
        } else {
            0
        };
        (1022 + k) * IMPLICIT + high + up
    }
}

/// A count below `2^53` becomes a number of exactly that value.
pub proof fn law_small_counts_are_exact(n: nat)
    requires
        n < 0x20000000000000,
    ensures
        bits_of_count(n) < SIGN,
        is_finite(bits_of_count(n) as u64),
        scaled(bits_of_count(n) as u64) == n * pow2(1074),
{
    let p = IMPLICIT as int;
    assert(forall|x: u64| x < 0x7ff0000000000000u64 ==> #[trigger] (x & 0x7ff0000000000000u64)
        != 0x7ff0000000000000u64) by (bit_vector);
    lemma2_to64();
    lemma2_to64_rest();
    lemma_pow2_pos(1074);
    if n > 0 {
        let k = log2(n);
        lemma_log2(n);
        if k > 52 {
            lemma_pow2_strictly_increases(52, k);
            assert(pow2(k) >= pow2(53)) by {
                if k > 53 {
                    lemma_pow2_strictly_increases(53, k);
                }
            }
        }
        let s = (52 - k) as nat;
        let pk = pow2(k) as int;
        let ps = pow2(s) as int;
        lemma_pow2_adds(k, s);
        lemma_pow2_pos(s);
        assert(p <= n * ps < 2 * p) by (nonlinear_arith)
            requires
                pk <= n < 2 * pk,
                pk * ps == p,
                ps > 0,
        ;
        let b = bits_of_count(n) as int;
        assert(b == (1022 + k) * p + n * ps);
        assert(b / p == 1023 + k);
        assert(b % p == n * ps - p);
        lemma_pow2_adds(s, (1022 + k) as nat);
        let pe = pow2((1022 + k) as nat) as int;
        assert(((n * ps) * pe) == n * (ps * pe)) by (nonlinear_arith);
    } else {
        assert(magnitude(0) == 0);
        assert(0 * pow2(1074) == 0);
    }
}

/// The index that a count below `2^53` was turned into a number from is the
/// index that comes back.
pub proof fn law_count_round_trip(n: nat)
    requires
        n < 0x20000000000000,
        n <= usize::MAX,
    ensures
        truncated(bits_of_count(n) as u64) == n,
{
    law_small_counts_are_exact(n);
    lemma_pow2_pos(1074);
    let d = pow2(1074) as int;
    lemma_div_multiples_vanish(n as int, d);
    assert(d * n == n * d) by (nonlinear_arith);
    assert(n * d >= 0) by (nonlinear_arith)
        requires
            d > 0,
            n >= 0,
    ;
}

/// The bits of the number with the other sign.
pub open spec fn negated(bits: u64) -> u64 {
    if bits < 0x8000000000000000 {
        (bits + 0x8000000000000000) as u64
    } else {
        (bits - 0x8000000000000000) as u64
    }
}

/// What the bits stand for: nothing and one, the other sign for the other value,
/// twice the value for the next exponent, and a larger value for larger bits.
pub proof fn law_bits_stand_for_values(bits: u64, more: u64)
    ensures
        scaled(0) == 0,
        scaled(1) == 1,
        scaled(0x3ff0000000000000) == pow2(1074),
        scaled(negated(bits)) == -scaled(bits),
        0x10000000000000 <= bits < 0x7fe0000000000000 ==> scaled((bits + 0x10000000000000) as u64)
            == 2 * scaled(bits),
        bits < more < 0x8000000000000000 ==> scaled(bits) < scaled(more),
        bits < 0x8000000000000000 ==> scaled(bits) >= 0,
{
    let p = IMPLICIT as int;
    lemma2_to64();
    if bits < SIGN {
        lemma_magnitude_bounds(bits as int);
    }
    if bits < more < SIGN {
        lemma_magnitude_increases(bits as int, more as int);
    }
    assert(magnitude(0) == 0);
    assert(magnitude(1) == 1);
    if IMPLICIT <= bits < 0x7fe0000000000000u64 {
        let e = bits as int / p;
        let f = bits as int % p;
        assert((bits + IMPLICIT) as int / p == e + 1);
        assert((bits + IMPLICIT) as int % p == f);
        lemma_pow2_unfold(e as nat);
        let k = pow2((e - 1) as nat) as int;
        assert((p + f) * (2 * k) == 2 * ((p + f) * k)) by (nonlinear_arith);
    }
    let one = 0x3ff0000000000000int;
    assert(one / p == 1023);
    assert(one % p == 0);
    lemma_pow2_adds(52, 1022);
    lemma2_to64_rest();
    assert(pow2(52) == p);
}

/// The finite numbers are those below the largest exponent, on both sides of
/// nothing.
pub proof fn law_finite_numbers_have_a_smaller_exponent(bits: u64)
    ensures
        bits < 0x8000000000000000 ==> (is_finite(bits) <==> bits < 0x7ff0000000000000),
        is_finite(negated(bits)) <==> is_finite(bits),
{
    assert(bits < 0x8000000000000000u64 ==> ((bits & 0x7ff0000000000000u64 != 0x7ff0000000000000u64)
        <==> bits < 0x7ff0000000000000u64)) by (bit_vector);
    let n = negated(bits);
    assert(n & 0x7ff0000000000000u64 == bits & 0x7ff0000000000000u64) by (bit_vector)
        requires
            bits < 0x8000000000000000u64 ==> n == bits + 0x8000000000000000u64,
            bits >= 0x8000000000000000u64 ==> n == bits - 0x8000000000000000u64,
    ;
}

/// An index is the whole part of a number: nothing is below zero, and what is too
/// large is the largest index.
pub proof fn law_indices_are_whole_parts(bits: u64)
    ensures
        0 <= truncated(bits) <= usize::MAX,
        scaled(bits) < 0 ==> truncated(bits) == 0,
        scaled(bits) >= 0 ==> truncated(bits) * pow2(1074) <= scaled(bits),
        scaled(bits) >= 0 && truncated(bits) < usize::MAX ==> scaled(bits) < (truncated(bits) + 1)
            * pow2(1074),
{
    let d = pow2(1074) as int;
    lemma_pow2_pos(1074);
    let s = scaled(bits);
    if s >= 0 {
        let q = s / d;
        lemma_fundamental_div_mod(s, d);
        lemma_mod_bound(s, d);
        assert(d * q == q * d) by (nonlinear_arith);
        assert(q >= 0) by {
            lemma_div_pos_is_pos(s, d);
        }
        assert((q + 1) * d == q * d + d) by (nonlinear_arith);
        if q > usize::MAX {
            assert(usize::MAX * d <= q * d) by (nonlinear_arith)
                requires
                    q > usize::MAX,
                    d > 0,
            ;
        }
    }
}

/// A larger count becomes the nearest number: a whole one, no more than half a
/// step from the count, and where two are as near, the one with the even half.
pub proof fn law_large_counts_are_rounded(n: nat) -> (res: (nat, nat))
    requires
        0x20000000000000 <= n <= u64::MAX,
    ensures
        ({
            let (r, unit) = res;
            let d = if r < n {
                n - r
            } else {
                r - n
            };
            &&& scaled(bits_of_count(n) as u64) == r * pow2(1074)
            &&& unit > 1
            &&& 0x10000000000000 * unit <= n < 0x20000000000000 * unit
            &&& r % unit == 0
            &&& 2 * d <= unit
            &&& 2 * d == unit ==> (r / unit) % 2 == 0
        }),
{
    let p = IMPLICIT as int;
    let k = log2(n);
    lemma_log2(n);
    lemma2_to64();
    lemma2_to64_rest();
    assert(53 <= k <= 63) by {
        if k < 53 {
            if k < 52 {
                lemma_pow2_strictly_increases(k, 52);
            }
        }
        if k > 63 {
            lemma_pow2_strictly_increases(63, k);
            if k > 64 {
                lemma_pow2_strictly_increases(64, k);
            }
        }
    }
    let s = (k - 52) as nat;
    let unit = pow2(s);
    lemma_pow2_pos(s);
    lemma_pow2_adds(52, s);
    lemma_pow2_strictly_increases(0, s);
    let u = unit as int;
    let low = n as int % u;
    let high = n as int / u;
    lemma_fundamental_div_mod(n as int, u);
    lemma_mod_bound(n as int, u);
    let up: int = if 2 * low > u || (2 * low == u && high % 2 == 1) {
        1
    } else {
        0
    };
    assert(p <= high < 2 * p) by (nonlinear_arith)
        requires
            n as int == u * high + low,
            0 <= low < u,
            p * u <= n as int,
            (n as int) < 2 * (p * u),
            u > 0,
    ;
    let whole = high + up;
    let b = bits_of_count(n) as int;
    assert(b == (1022 + k) * p + whole);
    let e = pow2((1022 + k) as nat) as int;
    lemma_pow2_adds(1074, s);
    assert(e == pow2(1074) * u);
    if whole < 2 * p {
        assert(b / p == 1023 + k);
        assert(b % p == whole - p);
        assert(magnitude(b) == whole * e);
    } else {
        assert(whole == 2 * p);
        assert(b / p == 1024 + k);
        assert(b % p == 0);
        lemma_pow2_unfold((1023 + k) as nat);
        assert(magnitude(b) == p * (2 * e));
        assert(p * (2 * e) == (2 * p) * e) by (nonlinear_arith);
    }
    let r = (whole * u) as nat;
    assert(whole * u >= 0) by (nonlinear_arith)
        requires
            whole >= 0,
            u > 0,
    ;
    let w = pow2(1074) as int;
    assert(whole * (w * u) == (whole * u) * w) by (nonlinear_arith);
    assert((high + up) * u == u * high + up * u) by (nonlinear_arith);
    lemma_div_multiples_vanish(whole, u);
    assert(u * whole == whole * u) by (nonlinear_arith);
    lemma_mod_multiples_basic(whole, u);
    assert(b < SIGN);
    (r, unit)
}

} // verus!
