//! Mapping from escape-time iteration counts to BGRA8888 colours.
//!
//! With `t = iter / max_iter`, the palette is
//!   red   = 9   * (1 - t) * t^3       * 255
//!   green = 15  * (1 - t)^2 * t^2     * 255
//!   blue  = 8.5 * (1 - t)^3 * t       * 255
//! each truncated to an integer and clamped to `0..=255`.
//! The channels are computed here in exact rational arithmetic: each one is
//! the floor of the value above (negative values give 0, values of 255 or
//! more give 255).
use vstd::prelude::*;
use vstd::arithmetic::div_mod::{
    lemma_div_by_multiple,
    lemma_div_denominator,
    lemma_div_is_ordered,
    lemma_fundamental_div_mod,
    lemma_fundamental_div_mod_converse,
};

verus! {

/// Opaque black, the colour of points that never escape.
pub const BLACK: u32 = 0xff00_0000;

/// A channel value: `v / den` truncated, with negative values mapped to 0
/// and values of 255 or more mapped to 255.
pub open spec fn channel(v: int, den: int) -> int {
    if v <= 0 {
        0
    } else if v / den >= 255 {
        255
    } else {
        v / den
    }
}

/// `m^4`
pub open spec fn pow4(m: int) -> int {
    m * m * m * m
}

/// Red channel: `9 * 255 * (m - i) * i^3 / m^4`.
/// With `max_iter == 0` the ratio `t` is infinite and the red term is `-inf`.
pub open spec fn red_of(iter: int, max_iter: int) -> int {
    if max_iter == 0 {
        0
    } else {
        channel(2295 * (max_iter - iter) * iter * iter * iter, pow4(max_iter))
    }
}

/// Green channel: `15 * 255 * (m - i)^2 * i^2 / m^4`.
/// With `max_iter == 0` the green term is `+inf`.
pub open spec fn green_of(iter: int, max_iter: int) -> int {
    if max_iter == 0 {
        255
    } else {
        channel(
            3825 * (max_iter - iter) * (max_iter - iter) * iter * iter,
            pow4(max_iter),
        )
    }
}

/// Blue channel: `8.5 * 255 * (m - i)^3 * i / m^4`, i.e. `4335 * (m - i)^3 * i / (2 m^4)`.
/// With `max_iter == 0` the blue term is `-inf`.
pub open spec fn blue_of(iter: int, max_iter: int) -> int {
    if max_iter == 0 {
        0
    } else {
        channel(
            4335 * (max_iter - iter) * (max_iter - iter) * (max_iter - iter) * iter,
            2 * pow4(max_iter),
        )
    }
}

/// The colour of an iteration count: black when the point never escaped
/// (`iter == max_iter`), else opaque `R << 16 | G << 8 | B`.
pub open spec fn color_of(iter: int, max_iter: int) -> int {
    if iter == max_iter {
        0xff00_0000
    } else {
        0xff00_0000 + red_of(iter, max_iter) * 65536 + green_of(iter, max_iter) * 256
            + blue_of(iter, max_iter)
    }
}

/// `y * d == (q0 * d + z1) * m2 + r1`, hence `(y * d) / m2 == q0 * d + z1`.
proof fn lemma_split_quotient(y: int, d: int, m2: int, q0: int, r: int, z1: int, r1: int)
    requires
        m2 > 0,
        y == q0 * m2 + r,
        r * d == z1 * m2 + r1,
        0 <= r1 < m2,
    ensures
        (y * d) / m2 == q0 * d + z1,
{
    assert(y * d == (q0 * d + z1) * m2 + r1) by (nonlinear_arith)
        requires
            y == q0 * m2 + r,
            r * d == z1 * m2 + r1,
    ;
    lemma_fundamental_div_mod_converse(y * d, m2, q0 * d + z1, r1);
}

/// `floor(y * d / m^4)`, computed without forming `y * d`.
fn quartic_floor(y: u128, d: u128, m: u128) -> (q: u128)
    requires
        0 < m <= u32::MAX,
        d < 0x4_0000_0000,
        y * d <= 65536 * pow4(m as int),
    ensures
        q == (y * d) / pow4(m as int),
{
    proof {
        assert(m as int * m as int <= 0xffff_fffe_0000_0001) by (nonlinear_arith)
            requires
                0 < m <= 0xffff_ffff,
        ;
        assert(m as int * m as int > 0) by (nonlinear_arith)
            requires
                0 < m,
        ;
    }
    let m2 = m * m;
    let q0 = y / m2;
    let r = y % m2;
    proof {
        assert(r as int * d as int <= 0xffff_fffe_0000_0001 * 0x4_0000_0000) by (nonlinear_arith)
            requires
                r < m2,
                m2 <= 0xffff_fffe_0000_0001,
                d < 0x4_0000_0000,
        ;
    }
    let rd = r * d;
    let z1 = rd / m2;
    let r1 = rd % m2;
    proof {
        let yd = y as int * d as int;
        let m2i = m2 as int;
        assert(pow4(m as int) == m2i * m2i) by (nonlinear_arith)
            requires
                m2i == m as int * m as int,
        ;
        lemma_fundamental_div_mod(y as int, m2i);
        lemma_fundamental_div_mod(rd as int, m2i);
        assert(y as int == q0 as int * m2i + r as int);
        assert(z1 as int == rd as int / m2i);
        assert(r1 as int == rd as int % m2i);
        assert(rd as int == m2i * z1 as int + r1 as int);
        assert(rd as int == z1 as int * m2i + r1 as int) by (nonlinear_arith)
            requires
                rd as int == m2i * z1 as int + r1 as int,
        ;
        lemma_split_quotient(y as int, d as int, m2i, q0 as int, r as int, z1 as int, r1 as int);
        assert(65536 * pow4(m as int) == 65536 * m2i * m2i) by (nonlinear_arith)
            requires
                pow4(m as int) == m2i * m2i,
        ;
        lemma_div_is_ordered(yd, 65536 * m2i * m2i, m2i);
        assert(65536 * m2i * m2i == (65536 * m2i) * m2i) by (nonlinear_arith);
        lemma_div_by_multiple(65536 * m2i, m2i);
        lemma_div_denominator(yd, m2i, m2i);
        assert(q0 as int * d as int <= yd / m2i);
    }
    let z = q0 * d + z1;
    z / m2
}

/// `k * a * b * c` for a small constant `k` and factors below `2^33`.
fn product3(k: u128, a: u128, b: u128, c: u128) -> (p: u128)
    requires
        k <= 4335,
        a <= 0x1_ffff_ffff,
        b <= 0x1_ffff_ffff,
        c <= 0x1_ffff_ffff,
    ensures
        p == k * a * b * c,
{
    proof {
        assert(k * a <= 4335 * 0x1_ffff_ffff) by (nonlinear_arith)
            requires
                k <= 4335,
                a <= 0x1_ffff_ffff,
        ;
        assert(k * a * b <= 4335 * 0x1_ffff_ffff * 0x1_ffff_ffff) by (nonlinear_arith)
            requires
                k * a <= 4335 * 0x1_ffff_ffff,
                b <= 0x1_ffff_ffff,
        ;
        assert(k * a * b * c <= 4335 * 0x1_ffff_ffff * 0x1_ffff_ffff * 0x1_ffff_ffff)
            by (nonlinear_arith)
            requires
                k * a * b <= 4335 * 0x1_ffff_ffff * 0x1_ffff_ffff,
                c <= 0x1_ffff_ffff,
        ;
    }
    k * a * b * c
}

/// Clamp a non-negative quotient to a channel value.
fn clamp_channel(q: u128) -> (c: u32)
    ensures
        c == (if q >= 255 { 255 } else { q as int }),
{
    if q >= 255 {
        255
    } else {
        q as u32
    }
}

/// `a <= m` and `b <= m` give `a * b * c * e <= m^4` for `c, e <= m`.
proof fn lemma_product_le_pow4(a: int, b: int, c: int, e: int, m: int)
    requires
        0 <= a <= m,
        0 <= b <= m,
        0 <= c <= m,
        0 <= e <= m,
    ensures
        a * b * c * e <= pow4(m),
{
    assert(a * b <= m * m) by (nonlinear_arith)
        requires
            0 <= a <= m,
            0 <= b <= m,
    ;
    assert(a * b * c <= m * m * m) by (nonlinear_arith)
        requires
            0 <= a * b <= m * m,
            0 <= c <= m,
    ;
    assert(a * b * c * e <= m * m * m * m) by (nonlinear_arith)
        requires
            0 <= a * b * c <= m * m * m,
            0 <= e <= m,
    ;
}

/// Channel of a value `v = y * d` over `den = m^4`, for `0 <= v <= 65536 m^4`.
proof fn lemma_channel_of_quotient(v: int, m: int, q: int)
    requires
        m > 0,
        0 <= v,
        q == v / pow4(m),
    ensures
        channel(v, pow4(m)) == (if q >= 255 { 255 } else { q }),
{
    assert(pow4(m) > 0) by (nonlinear_arith)
        requires
            m > 0,
    ;
    if v == 0 {
        assert(0int / pow4(m) == 0);
    }
}

/// Map iteration count to a color (BGRA8888 u32).
/// Points in the set are black; escaped points get a smooth gradient.
pub fn iter_to_color(iter: u32, max_iter: u32) -> (color: u32)
    ensures
        color == color_of(iter as int, max_iter as int),
{
    if iter == max_iter {
        return BLACK;
    }
    let (r, g, b): (u32, u32, u32) = if max_iter == 0 {
        (0, 255, 0)
    } else {
        let m: u128 = max_iter as u128;
        let i: u128 = iter as u128;
        let ghost mi = m as int;
        let ghost ii = i as int;
        proof {
            assert(pow4(mi) > 0) by (nonlinear_arith)
                requires
                    mi > 0,
            ;
        }
        if iter < max_iter {
            let a: u128 = m - i;
            let ghost ai = a as int;
            // red
            proof {
                lemma_product_le_pow4(ai, ii, ii, ii, mi);
                assert((2295 * ai * ii * ii) * ii <= 65536 * pow4(mi)) by (nonlinear_arith)
                    requires
                        ai * ii * ii * ii <= pow4(mi),
                        ai >= 0,
                        ii >= 0,
                ;
            }
            let qr = quartic_floor(product3(2295, a, i, i), i, m);
            proof {
                assert(2295 * (mi - ii) * ii * ii * ii == (2295 * ai * ii * ii) * ii)
                    by (nonlinear_arith)
                    requires
                        ai == mi - ii,
                ;
                lemma_channel_of_quotient((2295 * ai * ii * ii) * ii, mi, qr as int);
            }
            let r = clamp_channel(qr);
            // green
            proof {
                lemma_product_le_pow4(ai, ai, ii, ii, mi);
                assert((3825 * ai * ai * ii) * ii <= 65536 * pow4(mi)) by (nonlinear_arith)
                    requires
                        ai * ai * ii * ii <= pow4(mi),
                        ai >= 0,
                        ii >= 0,
                ;
            }
            let qg = quartic_floor(product3(3825, a, a, i), i, m);
            proof {
                assert(3825 * (mi - ii) * (mi - ii) * ii * ii == (3825 * ai * ai * ii) * ii)
                    by (nonlinear_arith)
                    requires
                        ai == mi - ii,
                ;
                lemma_channel_of_quotient((3825 * ai * ai * ii) * ii, mi, qg as int);
            }
            let g = clamp_channel(qg);
            // blue
            proof {
                lemma_product_le_pow4(ai, ai, ai, ii, mi);
                assert((4335 * ai * ai * ai) * ii <= 65536 * pow4(mi)) by (nonlinear_arith)
                    requires
                        ai * ai * ai * ii <= pow4(mi),
                        ai >= 0,
                        ii >= 0,
                ;
            }
            let qb = quartic_floor(product3(4335, a, a, a), i, m);
            proof {
                let v = (4335 * ai * ai * ai) * ii;
                assert(4335 * (mi - ii) * (mi - ii) * (mi - ii) * ii == v) by (nonlinear_arith)
                    requires
                        ai == mi - ii,
                        v == (4335 * ai * ai * ai) * ii,
                ;
                lemma_div_denominator(v, pow4(mi), 2);
                assert(pow4(mi) * 2 == 2 * pow4(mi));
                if v == 0 {
                    assert(0int / pow4(mi) == 0);
                }
            }
            let b = clamp_channel(qb / 2);
            (r, g, b)
        } else {
            // iter > max_iter: t > 1, so red and blue are negative
            let a: u128 = i - m;
            let ghost ai = a as int;
            proof {
                assert(2295 * (mi - ii) * ii * ii * ii <= 0) by (nonlinear_arith)
                    requires
                        ii > mi > 0,
                ;
                assert(4335 * (mi - ii) * (mi - ii) * (mi - ii) * ii <= 0) by (nonlinear_arith)
                    requires
                        ii > mi > 0,
                ;
                assert(3825 * (mi - ii) * (mi - ii) * ii * ii == (3825 * ai * ai * ii) * ii)
                    by (nonlinear_arith)
                    requires
                        ai == ii - mi,
                ;
            }
            let g: u32 = if a >= m {
                proof {
                    let v = (3825 * ai * ai * ii) * ii;
                    assert(v >= 255 * pow4(mi)) by (nonlinear_arith)
                        requires
                            v == (3825 * ai * ai * ii) * ii,
                            ai >= mi > 0,
                            ii >= mi,
                    ;
                    lemma_div_is_ordered(255 * pow4(mi), v, pow4(mi));
                    lemma_div_by_multiple(255, pow4(mi));
                }
                255
            } else {
                proof {
                    assert((3825 * ai * ai * ii) * ii <= 65536 * pow4(mi)) by (nonlinear_arith)
                        requires
                            0 < ai < mi,
                            ii == ai + mi,
                    ;
                }
                let qg = quartic_floor(product3(3825, a, a, i), i, m);
                proof {
                    lemma_channel_of_quotient((3825 * ai * ai * ii) * ii, mi, qg as int);
                }
                clamp_channel(qg)
            };
            (0, g, 0)
        }
    };
    assert(0xff00_0000u32 | (r << 16u32) | (g << 8u32) | b == 0xff00_0000u32 + r * 65536 + g * 256
        + b) by (bit_vector)
        requires
            r < 256,
            g < 256,
            b < 256,
    ;
    0xff00_0000u32 | (r << 16u32) | (g << 8u32) | b
}

/// A channel lies in `0..=255`.
proof fn lemma_channel_bounds(v: int, den: int)
    requires
        den > 0,
    ensures
        0 <= channel(v, den) <= 255,
{
    if v > 0 {
        vstd::arithmetic::div_mod::lemma_div_pos_is_pos(v, den);
    }
}

/// Every colour of the palette is opaque: its alpha byte is `0xff` and its
/// colour bytes are those of the three channels.
pub proof fn lemma_color_opaque(iter: int, max_iter: int)
    requires
        max_iter >= 0,
    ensures
        0xff00_0000 <= color_of(iter, max_iter) <= 0xffff_ffff,
        iter != max_iter ==> color_of(iter, max_iter) - 0xff00_0000 == red_of(iter, max_iter)
            * 65536 + green_of(iter, max_iter) * 256 + blue_of(iter, max_iter),
{
    if max_iter > 0 {
        assert(pow4(max_iter) > 0) by (nonlinear_arith)
            requires
                max_iter > 0,
        ;
        lemma_channel_bounds(
            2295 * (max_iter - iter) * iter * iter * iter,
            pow4(max_iter),
        );
        lemma_channel_bounds(
            3825 * (max_iter - iter) * (max_iter - iter) * iter * iter,
            pow4(max_iter),
        );
        lemma_channel_bounds(
            4335 * (max_iter - iter) * (max_iter - iter) * (max_iter - iter) * iter,
            2 * pow4(max_iter),
        );
    }
}

} // verus!
