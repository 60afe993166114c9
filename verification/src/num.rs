//! Decimal width of integers, computed in constant time without
//! formatting, and the verified decimal formatter that backs the document
//! conversions.

use vstd::prelude::*;
use vstd::arithmetic::power2::pow2;
use vstd::arithmetic::div_mod::lemma_div_denominator;
use vstd::arithmetic::div_mod::lemma_fundamental_div_mod;
use vstd::arithmetic::div_mod::lemma_fundamental_div_mod_converse;

verus! {

/// Ten to the `k`.
pub open spec fn pow10(k: nat) -> nat
    decreases k,
{
    if k == 0 {
        1
    } else {
        10 * pow10((k - 1) as nat)
    }
}

/// The number of digits in the decimal representation of `n`.
pub open spec fn dec_len(n: nat) -> nat
    decreases n,
{
    if n < 10 {
        1
    } else {
        1 + dec_len(n / 10)
    }
}

/// The ASCII bytes of the decimal representation of `n`.
pub open spec fn dec_digits(n: nat) -> Seq<u8>
    decreases n,
{
    if n < 10 {
        seq![(48 + n) as u8]
    } else {
        dec_digits(n / 10) + seq![(48 + n % 10) as u8]
    }
}

/// The number of decimal digits of a signed value, a leading minus sign
/// counted for negative values.
pub open spec fn signed_dec_len(v: int) -> nat {
    if v < 0 {
        1 + dec_len((-v) as nat)
    } else {
        dec_len(v as nat)
    }
}

/// The powers of ten up to the largest that matters for 128-bit values.
pub proof fn lemma_pow10_values()
    ensures
        pow10(0) == 1,
        pow10(1) == 10,
        pow10(2) == 100,
        pow10(3) == 1000,
        pow10(4) == 10000,
        pow10(5) == 100000,
        pow10(6) == 1000000,
        pow10(7) == 10000000,
        pow10(8) == 100000000,
        pow10(9) == 1000000000,
        pow10(10) == 10000000000,
        pow10(11) == 100000000000,
        pow10(12) == 1000000000000,
        pow10(13) == 10000000000000,
        pow10(14) == 100000000000000,
        pow10(15) == 1000000000000000,
        pow10(16) == 10000000000000000,
        pow10(17) == 100000000000000000,
        pow10(18) == 1000000000000000000,
        pow10(19) == 10000000000000000000,
        pow10(20) == 100000000000000000000,
        pow10(38) == 100000000000000000000000000000000000000,
        pow10(39) == 1000000000000000000000000000000000000000,
{
    reveal_with_fuel(pow10, 40);
}

/// A value in `[10^(k-1), 10^k)` has exactly `k` decimal digits.
pub proof fn lemma_dec_len_bounds(n: nat, k: nat)
    requires
        k >= 1,
        pow10((k - 1) as nat) <= n < pow10(k),
    ensures
        dec_len(n) == k,
    decreases k,
{
    if k == 1 {
    } else {
        assert(pow10((k - 1) as nat) == 10 * pow10((k - 2) as nat));
        assert(pow10(k) == 10 * pow10((k - 1) as nat));
        assert(n >= 10) by {
            assert(pow10((k - 2) as nat) >= 1) by {
                lemma_pow10_positive((k - 2) as nat);
            }
        }
        assert(n / 10 >= pow10((k - 2) as nat)) by (nonlinear_arith)
            requires
                n >= 10 * pow10((k - 2) as nat),
        ;
        assert(n / 10 < pow10((k - 1) as nat)) by (nonlinear_arith)
            requires
                n < 10 * pow10((k - 1) as nat),
        ;
        lemma_dec_len_bounds(n / 10, (k - 1) as nat);
    }
}

pub proof fn lemma_pow10_positive(k: nat)
    ensures
        pow10(k) >= 1,
    decreases k,
{
    if k > 0 {
        lemma_pow10_positive((k - 1) as nat);
    }
}

/// Appending `k` further digits after a nonzero prefix adds `k` to the
/// decimal length: `a * 10^k + b` has `k` more digits than `a`.
pub proof fn lemma_dec_len_compose(a: nat, b: nat, k: nat)
    requires
        a >= 1,
        b < pow10(k),
    ensures
        dec_len(a * pow10(k) + b) == k + dec_len(a),
    decreases k,
{
    if k == 0 {
        assert(b == 0);
        assert(a * 1 + 0 == a) by (nonlinear_arith);
    } else {
        let n = a * pow10(k) + b;
        assert(pow10(k) == 10 * pow10((k - 1) as nat));
        lemma_pow10_positive((k - 1) as nat);
        assert(n >= 10) by (nonlinear_arith)
            requires
                a >= 1,
                pow10(k) == 10 * pow10((k - 1) as nat),
                pow10((k - 1) as nat) >= 1,
                n == a * pow10(k) + b,
                b >= 0,
        ;
        assert(n / 10 == a * pow10((k - 1) as nat) + b / 10) by (nonlinear_arith)
            requires
                n == a * (10 * pow10((k - 1) as nat)) + b,
                b >= 0,
        ;
        assert(b / 10 < pow10((k - 1) as nat)) by (nonlinear_arith)
            requires
                b < 10 * pow10((k - 1) as nat),
        ;
        lemma_dec_len_compose(a, b / 10, (k - 1) as nat);
    }
}

/// Decimal length of a 64-bit value, by binary search over the powers of
/// ten rather than by formatting.
pub fn dec_len_u64(n: u64) -> (r: usize)
    ensures
        r == dec_len(n as nat),
        1 <= r <= 20,
{
    proof {
        lemma_pow10_values();
    }
    if n < 10_000_000_000 {
        if n < 100_000 {
            if n < 100 {
                if n < 10 {
                    1
                } else {
                    proof {
                        lemma_dec_len_bounds(n as nat, 2);
                    }
                    2
                }
            } else {
                if n < 1_000 {
                    proof {
                        lemma_dec_len_bounds(n as nat, 3);
                    }
                    3
                } else if n < 10_000 {
                    proof {
                        lemma_dec_len_bounds(n as nat, 4);
                    }
                    4
                } else {
                    proof {
                        lemma_dec_len_bounds(n as nat, 5);
                    }
                    5
                }
            }
        } else {
            if n < 10_000_000 {
                if n < 1_000_000 {
                    proof {
                        lemma_dec_len_bounds(n as nat, 6);
                    }
                    6
                } else {
                    proof {
                        lemma_dec_len_bounds(n as nat, 7);
                    }
                    7
                }
            } else {
                if n < 100_000_000 {
                    proof {
                        lemma_dec_len_bounds(n as nat, 8);
                    }
                    8
                } else if n < 1_000_000_000 {
                    proof {
                        lemma_dec_len_bounds(n as nat, 9);
                    }
                    9
                } else {
                    proof {
                        lemma_dec_len_bounds(n as nat, 10);
                    }
                    10
                }
            }
        }
    } else {
        if n < 10_000_000_000_000_000 {
            if n < 100_000_000_000_000 {
                if n < 100_000_000_000 {
                    proof {
                        lemma_dec_len_bounds(n as nat, 11);
                    }
                    11
                } else if n < 1_000_000_000_000 {
                    proof {
                        lemma_dec_len_bounds(n as nat, 12);
                    }
                    12
                } else if n < 10_000_000_000_000 {
                    proof {
                        lemma_dec_len_bounds(n as nat, 13);
                    }
                    13
                } else {
                    proof {
                        lemma_dec_len_bounds(n as nat, 14);
                    }
                    14
                }
            } else {
                if n < 1_000_000_000_000_000 {
                    proof {
                        lemma_dec_len_bounds(n as nat, 15);
                    }
                    15
                } else {
                    proof {
                        lemma_dec_len_bounds(n as nat, 16);
                    }
                    16
                }
            }
        } else {
            if n < 1_000_000_000_000_000_000 {
                if n < 100_000_000_000_000_000 {
                    proof {
                        lemma_dec_len_bounds(n as nat, 17);
                    }
                    17
                } else {
                    proof {
                        lemma_dec_len_bounds(n as nat, 18);
                    }
                    18
                }
            } else {
                if n < 10_000_000_000_000_000_000 {
                    proof {
                        lemma_dec_len_bounds(n as nat, 19);
                    }
                    19
                } else {
                    proof {
                        lemma_dec_len_bounds(n as nat, 20);
                    }
                    20
                }
            }
        }
    }
}

/// Ten to the nineteenth, the split point for 128-bit decimal work.
pub const TEN19: u64 = 10_000_000_000_000_000_000;

proof fn lemma_pow2_constants()
    ensures
        pow2(64) == 0x10000000000000000,
        pow2(128) == 0x100000000000000000000000000000000,
        pow2(62) == 0x4000000000000000,
        pow2(83) == 0x800000000000000000000,
        pow2(19) == 0x80000,
{
    vstd::arithmetic::power2::lemma2_to64();
    vstd::arithmetic::power2::lemma2_to64_rest();
    vstd::arithmetic::power2::lemma_pow2_adds(32, 32);
    vstd::arithmetic::power2::lemma_pow2_adds(64, 64);
    vstd::arithmetic::power2::lemma_pow2_adds(32, 30);
    vstd::arithmetic::power2::lemma_pow2_adds(64, 19);
}

/// Multiply unsigned 128-bit integers and return the upper 128 bits of
/// the 256-bit product.
#[verifier::rlimit(30)]
pub fn u128_mulhi(x: u128, y: u128) -> (r: u128)
    ensures
        r as nat == (x as nat * y as nat) / pow2(128),
{
    proof {
        lemma_pow2_constants();
    }
    let ghost qq: int = 0x10000000000000000;
    let x_lo = (x % 0x10000000000000000u128) as u64;
    let x_hi = (x >> 64) as u64;
    let y_lo = (y % 0x10000000000000000u128) as u64;
    let y_hi = (y >> 64) as u64;

    proof {
        vstd::bits::lemma_u128_shr_is_div(x, 64);
        vstd::bits::lemma_u128_shr_is_div(y, 64);
        assert((x >> 64) < 0x10000000000000000u128) by (nonlinear_arith)
            requires
                (x >> 64) == x as nat / pow2(64),
                pow2(64) == 0x10000000000000000,
                x <= 0xffffffffffffffffffffffffffffffffu128,
        ;
        assert((y >> 64) < 0x10000000000000000u128) by (nonlinear_arith)
            requires
                (y >> 64) == y as nat / pow2(64),
                pow2(64) == 0x10000000000000000,
                y <= 0xffffffffffffffffffffffffffffffffu128,
        ;
        lemma_fundamental_div_mod(x as int, qq);
        lemma_fundamental_div_mod(y as int, qq);
    }
    let ghost xli: int = x_lo as int;
    let ghost xhi: int = x_hi as int;
    let ghost yli: int = y_lo as int;
    let ghost yhi: int = y_hi as int;
    proof {
        assert(xli == x as int % qq);
        assert(xhi == x as int / qq);
        assert(yli == y as int % qq);
        assert(yhi == y as int / qq);
        assert(x as int == xhi * qq + xli);
        assert(y as int == yhi * qq + yli);
    }

    proof {
        assert(xli * yli <= 0xffffffffffffffff * 0xffffffffffffffff) by (nonlinear_arith)
            requires
                0 <= xli <= 0xffffffffffffffff,
                0 <= yli <= 0xffffffffffffffff,
        ;
    }
    let p_ll = x_lo as u128 * y_lo as u128;
    let carry = p_ll >> 64;
    proof {
        vstd::bits::lemma_u128_shr_is_div(p_ll, 64);
        assert(carry as int == p_ll as int / qq);
        assert(carry < 0x10000000000000000u128) by (nonlinear_arith)
            requires
                carry as int == p_ll as int / qq,
                qq == 0x10000000000000000,
                p_ll <= 0xffffffffffffffffffffffffffffffffu128,
        ;
        assert(xli * yhi <= 0xffffffffffffffff * 0xffffffffffffffff) by (nonlinear_arith)
            requires
                0 <= xli <= 0xffffffffffffffff,
                0 <= yhi <= 0xffffffffffffffff,
        ;
    }
    let m = x_lo as u128 * y_hi as u128 + carry;
    let high1 = m >> 64;
    let m_lo = (m % 0x10000000000000000u128) as u64;
    proof {
        vstd::bits::lemma_u128_shr_is_div(m, 64);
        lemma_fundamental_div_mod(m as int, qq);
        assert(high1 as int == m as int / qq);
        assert(high1 < 0x10000000000000000u128) by (nonlinear_arith)
            requires
                high1 as int == m as int / qq,
                qq == 0x10000000000000000,
                m <= 0xffffffffffffffffffffffffffffffffu128,
        ;
        assert(xhi * yli <= 0xffffffffffffffff * 0xffffffffffffffff) by (nonlinear_arith)
            requires
                0 <= xhi <= 0xffffffffffffffff,
                0 <= yli <= 0xffffffffffffffff,
        ;
    }
    let s = x_hi as u128 * y_lo as u128 + m_lo as u128;
    let high2 = s >> 64;
    proof {
        vstd::bits::lemma_u128_shr_is_div(s, 64);
        lemma_fundamental_div_mod(s as int, qq);
        assert(high2 as int == s as int / qq);
        assert(high2 < 0x10000000000000000u128) by (nonlinear_arith)
            requires
                high2 as int == s as int / qq,
                qq == 0x10000000000000000,
                s <= 0xffffffffffffffffffffffffffffffffu128,
        ;
        assert(xhi * yhi <= 0xfffffffffffffffe0000000000000001) by (nonlinear_arith)
            requires
                0 <= xhi <= 0xffffffffffffffff,
                0 <= yhi <= 0xffffffffffffffff,
        ;
    }
    let r = x_hi as u128 * y_hi as u128 + high1 + high2;
    proof {
        lemma_fundamental_div_mod(p_ll as int, qq);
        let xy: int = x as int * y as int;
        let li: int = p_ll as int % qq;
        let ci: int = carry as int;
        let mi: int = m as int;
        let mli: int = m_lo as int;
        let si: int = s as int;
        let h1: int = high1 as int;
        let h2: int = high2 as int;
        let sl: int = si % qq;
        let a_hh: int = xhi * yhi;
        assert(p_ll as int == ci * qq + li);
        assert(mli == mi % qq);
        assert(mi == h1 * qq + mli);
        assert(si == h2 * qq + sl);
        assert(mi == xli * yhi + ci);
        assert(si == xhi * yli + mli);
        assert(p_ll as int == xli * yli);
        assert(xy == (xhi * qq + xli) * (yhi * qq + yli));
        let ta: int = xhi * qq;
        let tc: int = yhi * qq;
        vstd::arithmetic::mul::lemma_mul_is_distributive_add(ta + xli, tc, yli);
        vstd::arithmetic::mul::lemma_mul_is_distributive_add_other_way(tc, ta, xli);
        vstd::arithmetic::mul::lemma_mul_is_distributive_add_other_way(yli, ta, xli);
        assert(xy == ta * tc + xli * tc + ta * yli + xli * yli);
        assert(ta * tc == (xhi * yhi) * (qq * qq)) by (nonlinear_arith)
            requires
                ta == xhi * qq,
                tc == yhi * qq,
        ;
        assert(ta * yli == (xhi * yli) * qq) by (nonlinear_arith)
            requires
                ta == xhi * qq,
        ;
        assert(xli * tc == (xli * yhi) * qq) by (nonlinear_arith)
            requires
                tc == yhi * qq,
        ;
        assert(xy == a_hh * (qq * qq) + (xhi * yli) * qq + (xli * yhi) * qq + xli * yli);
        assert((xli * yhi) * qq == mi * qq - ci * qq) by (nonlinear_arith)
            requires
                mi == xli * yhi + ci,
        ;
        assert(mi * qq == h1 * (qq * qq) + mli * qq) by (nonlinear_arith)
            requires
                mi == h1 * qq + mli,
        ;
        assert((xhi * yli) * qq == si * qq - mli * qq) by (nonlinear_arith)
            requires
                si == xhi * yli + mli,
        ;
        assert(si * qq == h2 * (qq * qq) + sl * qq) by (nonlinear_arith)
            requires
                si == h2 * qq + sl,
        ;
        assert(xli * yli == ci * qq + li);
        assert(xy == (a_hh + h1 + h2) * (qq * qq) + (sl * qq + li)) by (nonlinear_arith)
            requires
                xy == a_hh * (qq * qq) + (xhi * yli) * qq + (xli * yhi) * qq + xli * yli,
                (xli * yhi) * qq == mi * qq - ci * qq,
                mi * qq == h1 * (qq * qq) + mli * qq,
                (xhi * yli) * qq == si * qq - mli * qq,
                si * qq == h2 * (qq * qq) + sl * qq,
                xli * yli == ci * qq + li,
        ;
        assert(0 <= sl * qq + li < qq * qq) by (nonlinear_arith)
            requires
                0 <= sl < qq,
                0 <= li < qq,
                qq == 0x10000000000000000,
        ;
        lemma_fundamental_div_mod_converse(xy, qq * qq, a_hh + h1 + h2, sl * qq + li);
        assert(qq * qq == pow2(128) as int);
        assert(r as int == a_hh + h1 + h2);
    }
    r
}

/// The magic reciprocal of ten to the nineteenth, scaled by two to the
/// 190th.
pub const MAGIC19: u128 = 156927543384667019095894735580191660403;

/// Divide `n` by ten to the nineteenth and return quotient and remainder,
/// using a reciprocal multiplication instead of a full 128-bit division.
pub fn udivmod_1e19(n: u128) -> (r: (u128, u64))
    ensures
        r.0 as nat == n as nat / (TEN19 as nat),
        r.1 as nat == n as nat % (TEN19 as nat),
{
    proof {
        lemma_pow2_constants();
    }
    let quot: u128;
    if n < 0x800000000000000000000u128 {
        proof {
            vstd::bits::lemma_u128_shr_is_div(n, 19);
            assert((n >> 19) < 0x10000000000000000u128) by (nonlinear_arith)
                requires
                    (n >> 19) == n as nat / pow2(19),
                    pow2(19) == 0x80000,
                    n < 0x800000000000000000000u128,
            ;
            assert(10_000_000_000_000_000_000u64 >> 19 == 19073486328125u64) by (bit_vector);
        }
        let shifted = (n >> 19) as u64;
        let small_div = TEN19 >> 19;
        quot = (shifted / small_div) as u128;
        proof {
            lemma_div_denominator(n as int, 0x80000, 19073486328125);
            assert(quot as nat == n as nat / (TEN19 as nat));
        }
    } else {
        let h = u128_mulhi(n, MAGIC19);
        quot = h >> 62;
        proof {
            vstd::bits::lemma_u128_shr_is_div(h, 62);
            assert(h as nat == (n as nat * MAGIC19 as nat) / pow2(128));
            lemma_div_denominator(n as int * MAGIC19 as int, pow2(128) as int, pow2(62) as int);
            assert(pow2(128) as int * pow2(62) as int
                == 0x400000000000000000000000000000000000000000000000int) by (nonlinear_arith)
                requires
                    pow2(128) == 0x100000000000000000000000000000000,
                    pow2(62) == 0x4000000000000000,
            ;
            lemma_magic19_div(n);
            assert(quot as nat == n as nat / (TEN19 as nat));
        }
    }
    proof {
        assert(quot as int * TEN19 as int <= n as int) by (nonlinear_arith)
            requires
                quot as nat == n as nat / (TEN19 as nat),
                TEN19 == 10_000_000_000_000_000_000u64,
        ;
        lemma_fundamental_div_mod(n as int, TEN19 as int);
        assert(n as int - quot as int * TEN19 as int == n as nat % (TEN19 as nat));
    }
    let rem = (n - quot * TEN19 as u128) as u64;
    (quot, rem)
}

/// Multiplying by the scaled reciprocal and shifting computes division by
/// ten to the nineteenth exactly, for every 128-bit value.
proof fn lemma_magic19_div(n: u128)
    ensures
        (n as int * MAGIC19 as int) / 0x400000000000000000000000000000000000000000000000int
            == n as int / (TEN19 as int),
{
    let d: int = TEN19 as int;
    let mm: int = MAGIC19 as int;
    let big: int = 0x400000000000000000000000000000000000000000000000int;
    let q: int = n as int / d;
    let r: int = n as int % d;
    lemma_fundamental_div_mod(n as int, d);
    let e: int = mm * d - big;
    assert(e == 4411138883991371776);
    assert(q <= 34028236692093846346) by (nonlinear_arith)
        requires
            q == n as int / d,
            d == 10_000_000_000_000_000_000,
            n <= 0xffffffffffffffffffffffffffffffffu128,
    ;
    assert(n as int * mm == q * big + (q * e + r * mm)) by (nonlinear_arith)
        requires
            n as int == d * q + r,
            e == mm * d - big,
    ;
    assert(q * e + r * mm >= 0) by (nonlinear_arith)
        requires
            q >= 0,
            r >= 0,
            e >= 0,
            mm >= 0,
    ;
    assert(q * e + r * mm < big) by (nonlinear_arith)
        requires
            0 <= q <= 34028236692093846346,
            0 <= r <= 9999999999999999999,
            e == 4411138883991371776,
            mm == 156927543384667019095894735580191660403,
            big == 0x400000000000000000000000000000000000000000000000int,
    ;
    lemma_fundamental_div_mod_converse(n as int * mm, big, q, q * e + r * mm);
}


pub fn dec_len_u128(n: u128) -> (r: usize)
    ensures
        r == dec_len(n as nat),
        1 <= r <= 39,
{
    proof {
        lemma_pow10_values();
    }
    let (n1, rem) = udivmod_1e19(n);
    proof {
        lemma_fundamental_div_mod(n as int, TEN19 as int);
    }
    let len1 = dec_len_u64(rem);
    if n1 == 0 {
        len1
    } else {
        let (n2, rem2) = udivmod_1e19(n1);
        proof {
            lemma_fundamental_div_mod(n1 as int, TEN19 as int);
            lemma_dec_len_compose(n1 as nat, rem as nat, 19);
        }
        let len2 = dec_len_u64(rem2);
        if n2 == 0 {
            19 + len2
        } else {
            proof {
                lemma_dec_len_compose(n2 as nat, rem2 as nat, 19);
                lemma_div_denominator(n as int, TEN19 as int, TEN19 as int);
                assert(n2 as nat == n as nat / (pow10(38)));
                assert(n2 <= 3) by (nonlinear_arith)
                    requires
                        n2 as nat == n as nat / pow10(38),
                        pow10(38) == 100000000000000000000000000000000000000,
                        n <= 0xffffffffffffffffffffffffffffffffu128,
                ;
                assert(dec_len(n2 as nat) == 1);
                assert(dec_len(n as nat) == 19 + dec_len(n1 as nat));
                assert(dec_len(n1 as nat) == 19 + dec_len(n2 as nat));
            }
            39
        }
    }
}

/// The ASCII bytes of a signed decimal rendering: a minus sign before the
/// digits of the magnitude for negative values.
pub open spec fn signed_dec_digits(v: int) -> Seq<u8> {
    if v < 0 {
        seq![45u8] + dec_digits((-v) as nat)
    } else {
        dec_digits(v as nat)
    }
}

/// A decimal rendering has exactly as many bytes as the digit count says.
pub proof fn lemma_dec_digits_len(n: nat)
    ensures
        dec_digits(n).len() == dec_len(n),
    decreases n,
{
    if n >= 10 {
        lemma_dec_digits_len(n / 10);
    }
}

/// A signed decimal rendering has exactly as many bytes as the signed
/// digit count says.
pub proof fn lemma_signed_dec_digits_len(v: int)
    ensures
        signed_dec_digits(v).len() == signed_dec_len(v),
{
    if v < 0 {
        lemma_dec_digits_len((-v) as nat);
    } else {
        lemma_dec_digits_len(v as nat);
    }
}

/// Every byte of a decimal rendering is an ASCII digit.
pub proof fn lemma_dec_digits_ascii(n: nat)
    ensures
        forall|i: int| 0 <= i < dec_digits(n).len() ==> 48 <= #[trigger] dec_digits(n)[i] <= 57,
    decreases n,
{
    if n >= 10 {
        lemma_dec_digits_ascii(n / 10);
        let pre = dec_digits(n / 10);
        let whole = dec_digits(n);
        assert forall|i: int| 0 <= i < whole.len() implies 48 <= #[trigger] whole[i] <= 57 by {
            if i < pre.len() {
                assert(whole[i] == pre[i]);
            } else {
                assert(whole[i] == (48 + n % 10) as u8);
            }
        }
    }
}

/// Append the decimal digits of `n`.
fn push_dec_digits(n: u128, out: &mut Vec<u8>)
    ensures
        final(out)@ == old(out)@ + dec_digits(n as nat),
    decreases n,
{
    if n < 10 {
        out.push(48 + n as u8);
        proof {
            assert(out@ =~= old(out)@ + dec_digits(n as nat));
        }
    } else {
        proof {
            vstd::arithmetic::div_mod::lemma_div_is_strictly_smaller(n as int, 10);
        }
        push_dec_digits(n / 10, out);
        out.push(48 + (n % 10) as u8);
        proof {
            assert(out@ =~= old(out)@ + dec_digits(n as nat));
        }
    }
}

/// The decimal rendering of an unsigned 128-bit value, as ASCII bytes.
pub fn dec_bytes_u128(n: u128) -> (v: Vec<u8>)
    ensures
        v@ == dec_digits(n as nat),
{
    let mut v: Vec<u8> = Vec::new();
    push_dec_digits(n, &mut v);
    proof {
        assert(v@ =~= dec_digits(n as nat));
    }
    v
}

/// The decimal rendering of a signed 128-bit value, as ASCII bytes.
pub fn dec_bytes_i128(x: i128) -> (v: Vec<u8>)
    ensures
        v@ == signed_dec_digits(x as int),
{
    if x >= 0 {
        dec_bytes_u128(x as u128)
    } else {
        let m: u128 = if x == i128::MIN {
            170141183460469231731687303715884105728u128
        } else {
            (-x) as u128
        };
        let mut v: Vec<u8> = Vec::new();
        v.push(45u8);
        push_dec_digits(m, &mut v);
        proof {
            assert(v@ =~= signed_dec_digits(x as int));
        }
        v
    }
}

/// Decimal length of a signed 64-bit value, sign included.
pub fn dec_len_i64(v: i64) -> (r: usize)
    ensures
        r == signed_dec_len(v as int),
        1 <= r <= 21,
{
    if v >= 0 {
        dec_len_u64(v as u64)
    } else {
        let m: u64 = if v == i64::MIN {
            9223372036854775808u64
        } else {
            (-v) as u64
        };
        1 + dec_len_u64(m)
    }
}

/// Decimal length of a signed 128-bit value, sign included.
pub fn dec_len_i128(v: i128) -> (r: usize)
    ensures
        r == signed_dec_len(v as int),
        1 <= r <= 40,
{
    if v >= 0 {
        dec_len_u128(v as u128)
    } else {
        let m: u128 = if v == i128::MIN {
            170141183460469231731687303715884105728u128
        } else {
            (-v) as u128
        };
        1 + dec_len_u128(m)
    }
}

/// Number of decimal digits of a value, including a leading `-` for
/// negative signed values, without formatting it.
pub trait DigitCount {
    /// The decimal width this value renders to.
    spec fn digit_len(&self) -> nat;

    /// The decimal width, computed in constant time.
    fn len(&self) -> (n: usize)
        ensures
            n == self.digit_len(),
    ;

    /// A number never renders to the empty string.
    fn is_empty(&self) -> (b: bool)
        ensures
            b == false,
    ;
}

impl DigitCount for u8 {
    open spec fn digit_len(&self) -> nat {
        dec_len(*self as nat)
    }

    fn len(&self) -> (n: usize) {
        dec_len_u64(*self as u64)
    }

    fn is_empty(&self) -> (b: bool) {
        false
    }
}

impl DigitCount for u16 {
    open spec fn digit_len(&self) -> nat {
        dec_len(*self as nat)
    }

    fn len(&self) -> (n: usize) {
        dec_len_u64(*self as u64)
    }

    fn is_empty(&self) -> (b: bool) {
        false
    }
}

impl DigitCount for u32 {
    open spec fn digit_len(&self) -> nat {
        dec_len(*self as nat)
    }

    fn len(&self) -> (n: usize) {
        dec_len_u64(*self as u64)
    }

    fn is_empty(&self) -> (b: bool) {
        false
    }
}

impl DigitCount for u64 {
    open spec fn digit_len(&self) -> nat {
        dec_len(*self as nat)
    }

    fn len(&self) -> (n: usize) {
        dec_len_u64(*self)
    }

    fn is_empty(&self) -> (b: bool) {
        false
    }
}

impl DigitCount for usize {
    open spec fn digit_len(&self) -> nat {
        dec_len(*self as nat)
    }

    fn len(&self) -> (n: usize) {
        dec_len_u64(*self as u64)
    }

    fn is_empty(&self) -> (b: bool) {
        false
    }
}

impl DigitCount for u128 {
    open spec fn digit_len(&self) -> nat {
        dec_len(*self as nat)
    }

    fn len(&self) -> (n: usize) {
        dec_len_u128(*self)
    }

    fn is_empty(&self) -> (b: bool) {
        false
    }
}

impl DigitCount for i8 {
    open spec fn digit_len(&self) -> nat {
        signed_dec_len(*self as int)
    }

    fn len(&self) -> (n: usize) {
        dec_len_i64(*self as i64)
    }

    fn is_empty(&self) -> (b: bool) {
        false
    }
}

impl DigitCount for i16 {
    open spec fn digit_len(&self) -> nat {
        signed_dec_len(*self as int)
    }

    fn len(&self) -> (n: usize) {
        dec_len_i64(*self as i64)
    }

    fn is_empty(&self) -> (b: bool) {
        false
    }
}

impl DigitCount for i32 {
    open spec fn digit_len(&self) -> nat {
        signed_dec_len(*self as int)
    }

    fn len(&self) -> (n: usize) {
        dec_len_i64(*self as i64)
    }

    fn is_empty(&self) -> (b: bool) {
        false
    }
}

impl DigitCount for i64 {
    open spec fn digit_len(&self) -> nat {
        signed_dec_len(*self as int)
    }

    fn len(&self) -> (n: usize) {
        dec_len_i64(*self)
    }

    fn is_empty(&self) -> (b: bool) {
        false
    }
}

impl DigitCount for isize {
    open spec fn digit_len(&self) -> nat {
        signed_dec_len(*self as int)
    }

    fn len(&self) -> (n: usize) {
        dec_len_i64(*self as i64)
    }

    fn is_empty(&self) -> (b: bool) {
        false
    }
}

impl DigitCount for i128 {
    open spec fn digit_len(&self) -> nat {
        signed_dec_len(*self as int)
    }

    fn len(&self) -> (n: usize) {
        dec_len_i128(*self)
    }

    fn is_empty(&self) -> (b: bool) {
        false
    }
}

} // verus!
