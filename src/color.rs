//! Colors and CMYK blending.
//!
//! Blending converts both colors to CMYK, mixes each channel linearly and converts
//! back. Worked through exactly, a blended RGB channel is
//! `(p·k1' + (1-p)·k2') · (p·r1/k1' + (1-p)·r2/k2')`, rounded to the nearest
//! integer. Here `k'` is a color's brightest channel, that is `255·(1-k)`. For pure
//! black (`k = 1`) the cyan, magenta and yellow parts count as zero, so each
//! channel ratio is taken as one.
use vstd::prelude::*;

verus! {

/// An opaque RGB color.
#[derive(Debug, Clone, Copy, PartialEq, Eq, Structural, Hash)]
pub struct Color {
    pub r: u8,
    pub g: u8,
    pub b: u8,
}

impl Color {
    #[allow(non_snake_case)]
    pub fn RGB(r: u8, g: u8, b: u8) -> (c: Color)
        ensures
            c == (Color { r, g, b }),
    {
        Color { r, g, b }
    }
}

/// The brightest of the three channels.
pub open spec fn peak(c: Color) -> int {
    if c.r >= c.g && c.r >= c.b {
        c.r as int
    } else if c.g >= c.b {
        c.g as int
    } else {
        c.b as int
    }
}

/// Numerator of a channel's share of its color's peak (one for pure black).
pub open spec fn share_num(ch: int, peak: int) -> int {
    if peak == 0 {
        1
    } else {
        ch
    }
}

/// Denominator of a channel's share of its color's peak (one for pure black).
pub open spec fn share_den(peak: int) -> int {
    if peak == 0 {
        1
    } else {
        peak
    }
}

/// One blended channel: `pct` percent of the first color, the rest of the second.
pub open spec fn mix_channel(ch1: int, peak1: int, ch2: int, peak2: int, pct: int) -> int {
    let d1 = share_den(peak1);
    let d2 = share_den(peak2);
    let a = pct * peak1 + (100 - pct) * peak2;
    let s = pct * share_num(ch1, peak1) * d2 + (100 - pct) * share_num(ch2, peak2) * d1;
    (2 * a * s + 10000 * d1 * d2) / (20000 * d1 * d2)
}

/// The blend of `c1` and `c2` that weighs `c1` by `pct` percent.
pub open spec fn blend_spec(c1: Color, c2: Color, pct: int) -> Color {
    Color {
        r: mix_channel(c1.r as int, peak(c1), c2.r as int, peak(c2), pct) as u8,
        g: mix_channel(c1.g as int, peak(c1), c2.g as int, peak(c2), pct) as u8,
        b: mix_channel(c1.b as int, peak(c1), c2.b as int, peak(c2), pct) as u8,
    }
}

fn max3(a: u8, b: u8, c: u8) -> (r: u8)
    ensures
        r == peak(Color { r: a, g: b, b: c }),
{
    if a >= b && a >= c {
        a
    } else if b >= c {
        b
    } else {
        c
    }
}

proof fn lemma_mix_channel_bounds(ch1: int, peak1: int, ch2: int, peak2: int, pct: int)
    requires
        0 <= ch1 <= peak1 <= 255,
        0 <= ch2 <= peak2 <= 255,
        0 <= pct <= 100,
    ensures
        0 <= mix_channel(ch1, peak1, ch2, peak2, pct) <= 255,
{
    let d1 = share_den(peak1);
    let d2 = share_den(peak2);
    let n1 = share_num(ch1, peak1);
    let n2 = share_num(ch2, peak2);
    let a = pct * peak1 + (100 - pct) * peak2;
    let s = pct * n1 * d2 + (100 - pct) * n2 * d1;
    let q = 20000 * d1 * d2;
    let x = 2 * a * s + 10000 * d1 * d2;
    assert(0 <= a <= 25500) by (nonlinear_arith)
        requires
            a == pct * peak1 + (100 - pct) * peak2,
            0 <= peak1 <= 255,
            0 <= peak2 <= 255,
            0 <= pct <= 100,
    ;
    assert(0 <= s <= 100 * d1 * d2) by (nonlinear_arith)
        requires
            s == pct * n1 * d2 + (100 - pct) * n2 * d1,
            0 <= n1 <= d1,
            0 <= n2 <= d2,
            0 <= pct <= 100,
    ;
    assert(0 <= x < 256 * q) by (nonlinear_arith)
        requires
            x == 2 * a * s + 10000 * d1 * d2,
            q == 20000 * d1 * d2,
            0 <= a <= 25500,
            0 <= s <= 100 * d1 * d2,
            1 <= d1,
            1 <= d2,
    ;
    assert(0 < q) by (nonlinear_arith)
        requires
            q == 20000 * d1 * d2,
            1 <= d1,
            1 <= d2,
    ;
    vstd::arithmetic::div_mod::lemma_multiply_divide_lt(x, q, 256);
    vstd::arithmetic::div_mod::lemma_div_pos_is_pos(x, q);
}

fn mix(ch1: u8, peak1: u8, ch2: u8, peak2: u8, pct: u32) -> (r: u8)
    requires
        ch1 <= peak1,
        ch2 <= peak2,
        pct <= 100,
    ensures
        r == mix_channel(ch1 as int, peak1 as int, ch2 as int, peak2 as int, pct as int),
{
    let d1: u64 = if peak1 == 0 { 1 } else { peak1 as u64 };
    let d2: u64 = if peak2 == 0 { 1 } else { peak2 as u64 };
    let n1: u64 = if peak1 == 0 { 1 } else { ch1 as u64 };
    let n2: u64 = if peak2 == 0 { 1 } else { ch2 as u64 };
    let p: u64 = pct as u64;
    proof {
        lemma_mix_channel_bounds(ch1 as int, peak1 as int, ch2 as int, peak2 as int, pct as int);
        assert(p * (peak1 as u64) <= 25500 && (100 - p) * (peak2 as u64) <= 25500)
            by (nonlinear_arith)
            requires
                p <= 100,
                peak1 <= 255,
                peak2 <= 255,
        ;
        assert(p * n1 <= 25500 && (100 - p) * n2 <= 25500) by (nonlinear_arith)
            requires
                p <= 100,
                n1 <= 255,
                n2 <= 255,
        ;
        assert(p * n1 * d2 <= 6502500 && (100 - p) * n2 * d1 <= 6502500) by (nonlinear_arith)
            requires
                p <= 100,
                n1 <= 255,
                n2 <= 255,
                d1 <= 255,
                d2 <= 255,
        ;
        assert(d1 * d2 <= 65025) by (nonlinear_arith)
            requires
                d1 <= 255,
                d2 <= 255,
        ;
    }
    let a: u64 = p * (peak1 as u64) + (100 - p) * (peak2 as u64);
    let s: u64 = p * n1 * d2 + (100 - p) * n2 * d1;
    proof {
        assert(2 * a <= 102000 && 2 * a * s <= 2 * 51000 * 13005000) by (nonlinear_arith)
            requires
                a <= 51000,
                s <= 13005000,
        ;
        assert(10000 * d1 <= 2550000 && 10000 * d1 * d2 <= 650250000) by (nonlinear_arith)
            requires
                d1 <= 255,
                d2 <= 255,
        ;
        assert(20000 * d1 <= 5100000 && 1 <= 20000 * d1 * d2 <= 1300500000) by (nonlinear_arith)
            requires
                1 <= d1 <= 255,
                1 <= d2 <= 255,
        ;
    }
    let x: u64 = 2 * a * s + 10000 * d1 * d2;
    let q: u64 = 20000 * d1 * d2;
    (x / q) as u8
}

/// Blends `color1` and `color2` in CMYK space, weighing `color1` by `perc` percent.
pub fn blend(color1: Color, color2: Color, perc: u32) -> (r: Color)
    requires
        perc <= 100,
    ensures
        r == blend_spec(color1, color2, perc as int),
{
    let k1 = max3(color1.r, color1.g, color1.b);
    let k2 = max3(color2.r, color2.g, color2.b);
    Color {
        r: mix(color1.r, k1, color2.r, k2, perc),
        g: mix(color1.g, k1, color2.g, k2, perc),
        b: mix(color1.b, k1, color2.b, k2, perc),
    }
}

proof fn lemma_mix_same(ch: int, pk: int, pct: int)
    requires
        0 <= ch <= pk <= 255,
        0 <= pct <= 100,
    ensures
        mix_channel(ch, pk, ch, pk, pct) == ch,
{
    let d = share_den(pk);
    let n = share_num(ch, pk);
    let a = pct * pk + (100 - pct) * pk;
    let s = pct * n * d + (100 - pct) * n * d;
    assert(a == 100 * pk && s == 100 * n * d) by (nonlinear_arith)
        requires
            a == pct * pk + (100 - pct) * pk,
            s == pct * n * d + (100 - pct) * n * d,
    ;
    let x = 2 * a * s + 10000 * d * d;
    let q = 20000 * d * d;
    if pk == 0 {
        assert(a == 0 && d == 1);
        assert(2 * a * s == 0) by (nonlinear_arith)
            requires
                a == 0,
        ;
        assert(x == 10000 && q == 20000);
        vstd::arithmetic::div_mod::lemma_fundamental_div_mod_converse_div(x, q, 0, 10000);
    } else {
        assert(x == ch * q + 10000 * d * d && 0 <= 10000 * d * d < q) by (nonlinear_arith)
            requires
                x == 2 * a * s + 10000 * d * d,
                q == 20000 * d * d,
                a == 100 * pk,
                s == 100 * n * d,
                n == ch,
                d == pk,
                pk >= 1,
        ;
        vstd::arithmetic::div_mod::lemma_fundamental_div_mod_converse_div(x, q, ch, 10000 * d * d);
    }
}

/// Blending a color with itself gives back that color, whatever the weight.
pub proof fn lemma_blend_idempotent(c: Color, pct: int)
    requires
        0 <= pct <= 100,
    ensures
        blend_spec(c, c, pct) == c,
{
    let pk = peak(c);
    lemma_mix_same(c.r as int, pk, pct);
    lemma_mix_same(c.g as int, pk, pct);
    lemma_mix_same(c.b as int, pk, pct);
}

} // verus!
