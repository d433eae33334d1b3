//! Pixels and the colour keys they are sorted by.
//!
//! Every key is a total function of the red, green and blue channel into
//! `0..=255`; the alpha channel never takes part in an ordering.

use crate::order::SortOrder;
use vstd::prelude::*;

verus! {

/// One RGBA pixel, eight bits a channel.
#[derive(Debug, PartialEq, Eq, Clone, Copy, Structural)]
pub struct Pixel {
    pub r: u8,
    pub g: u8,
    pub b: u8,
    pub a: u8,
}

/// The scalar of a pixel that a sort goes by.
#[derive(Debug, PartialEq, Eq, Clone, Copy, Structural)]
pub enum SortKey {
    Lightness,
    Hue,
    Saturation,
    Red,
    Green,
    Blue,
}

/// The largest of three channel values.
pub open spec fn max3(r: int, g: int, b: int) -> int {
    if r >= g && r >= b {
        r
    } else if g >= b {
        g
    } else {
        b
    }
}

/// The smallest of three channel values.
pub open spec fn min3(r: int, g: int, b: int) -> int {
    if r <= g && r <= b {
        r
    } else if g <= b {
        g
    } else {
        b
    }
}

/// Lightness: the Rec. 709 luma of the colour channels, in ten-thousandths,
/// rounded down.
pub open spec fn luma_of(p: Pixel) -> int {
    (2126 * p.r + 7152 * p.g + 722 * p.b) / 10000
}

/// The hue angle in sixths of a turn, scaled by the chroma `max - min` of
/// the pixel: a value in `0 .. 6 * chroma`. Red lies at 0, green at two
/// sixths, blue at four sixths. Only meant for pixels that are not grey.
pub open spec fn hue_sixths(p: Pixel) -> int {
    let hi = max3(p.r as int, p.g as int, p.b as int);
    let chroma = hi - min3(p.r as int, p.g as int, p.b as int);
    if hi == p.r {
        if p.g >= p.b {
            p.g - p.b
        } else {
            6 * chroma + p.g - p.b
        }
    } else if hi == p.g {
        2 * chroma + p.b - p.r
    } else {
        4 * chroma + p.r - p.g
    }
}

/// Hue: the angle of the colour on the HSV colour wheel, the full turn
/// divided into 256 steps, rounded down. A grey pixel has hue 0.
pub open spec fn hue_of(p: Pixel) -> int {
    let chroma = max3(p.r as int, p.g as int, p.b as int) - min3(p.r as int, p.g as int, p.b as int);
    if chroma == 0 {
        0
    } else {
        (256 * hue_sixths(p)) / (6 * chroma)
    }
}

/// Saturation: the HSV saturation `(max - min) / max`, scaled to `0..=255`
/// and rounded down. Black has saturation 0.
pub open spec fn sat_of(p: Pixel) -> int {
    let hi = max3(p.r as int, p.g as int, p.b as int);
    let chroma = hi - min3(p.r as int, p.g as int, p.b as int);
    if hi == 0 {
        0
    } else {
        (255 * chroma) / hi
    }
}

/// The key of `p` under `key`.
pub open spec fn key_of(key: SortKey, p: Pixel) -> int {
    match key {
        SortKey::Lightness => luma_of(p),
        SortKey::Hue => hue_of(p),
        SortKey::Saturation => sat_of(p),
        SortKey::Red => p.r as int,
        SortKey::Green => p.g as int,
        SortKey::Blue => p.b as int,
    }
}

/// The value a pixel is sorted by: its key, negated for a descending sort.
pub open spec fn signed_key(key: SortKey, order: SortOrder, p: Pixel) -> int {
    order.sign() * key_of(key, p)
}

fn channel_max(r: u8, g: u8, b: u8) -> (m: u8)
    ensures
        m == max3(r as int, g as int, b as int),
{
    if r >= g && r >= b {
        r
    } else if g >= b {
        g
    } else {
        b
    }
}

fn channel_min(r: u8, g: u8, b: u8) -> (m: u8)
    ensures
        m == min3(r as int, g as int, b as int),
{
    if r <= g && r <= b {
        r
    } else if g <= b {
        g
    } else {
        b
    }
}

/// The lightness of a pixel.
pub fn luma(p: Pixel) -> (k: u8)
    ensures
        k == luma_of(p),
        min3(p.r as int, p.g as int, p.b as int) <= k <= max3(p.r as int, p.g as int, p.b as int),
{
    let weighted: u32 = 2126 * (p.r as u32) + 7152 * (p.g as u32) + 722 * (p.b as u32);
    let k: u32 = weighted / 10000;
    proof {
        let lo = min3(p.r as int, p.g as int, p.b as int);
        let hi = max3(p.r as int, p.g as int, p.b as int);
        assert(10000 * lo <= weighted <= 10000 * hi);
    }
    k as u8
}

/// The hue of a pixel.
pub fn hue(p: Pixel) -> (k: u8)
    ensures
        k == hue_of(p),
        p.r == p.g && p.g == p.b ==> k == 0,
{
    let hi: u8 = channel_max(p.r, p.g, p.b);
    let lo: u8 = channel_min(p.r, p.g, p.b);
    let chroma: u32 = (hi - lo) as u32;
    if chroma == 0 {
        return 0;
    }
    let r: u32 = p.r as u32;
    let g: u32 = p.g as u32;
    let b: u32 = p.b as u32;
    let sixths: u32 = if hi == p.r {
        if g >= b {
            g - b
        } else {
            6 * chroma + g - b
        }
    } else if hi == p.g {
        2 * chroma + b - r
    } else {
        4 * chroma + r - g
    };
    assert(sixths == hue_sixths(p));
    assert(0 <= sixths < 6 * chroma);
    let k: u32 = (256 * sixths) / (6 * chroma);
    assert(k < 256) by (nonlinear_arith)
        requires
            k == (256 * sixths) / (6 * chroma),
            0 <= sixths < 6 * chroma,
            chroma > 0,
    ;
    k as u8
}

/// The saturation of a pixel.
pub fn sat(p: Pixel) -> (k: u8)
    ensures
        k == sat_of(p),
        p.r == p.g && p.g == p.b ==> k == 0,
{
    let hi: u8 = channel_max(p.r, p.g, p.b);
    let lo: u8 = channel_min(p.r, p.g, p.b);
    if hi == 0 {
        return 0;
    }
    let chroma: u32 = (hi - lo) as u32;
    let k: u32 = (255 * chroma) / (hi as u32);
    assert(k <= 255) by (nonlinear_arith)
        requires
            k == (255 * chroma) / (hi as int),
            0 <= chroma <= hi,
            hi > 0,
    ;
    k as u8
}

impl SortKey {
    /// The key of `p` under this selection.
    pub fn key(self, p: Pixel) -> (k: u8)
        ensures
            k == key_of(self, p),
    {
        match self {
            SortKey::Lightness => luma(p),
            SortKey::Hue => hue(p),
            SortKey::Saturation => sat(p),
            SortKey::Red => p.r,
            SortKey::Green => p.g,
            SortKey::Blue => p.b,
        }
    }

    /// The value `p` is sorted by under this selection and `order`.
    pub fn signed(self, order: SortOrder, p: Pixel) -> (k: i64)
        ensures
            k == signed_key(self, order, p),
            -255 <= k <= 255,
    {
        let sign: i64 = order.dir() as i64;
        let k: i64 = self.key(p) as i64;
        assert(sign * k == order.sign() * key_of(self, p) && -255 <= sign * k <= 255) by (nonlinear_arith)
            requires
                sign == order.sign(),
                sign == 1 || sign == -1,
                k == key_of(self, p),
                0 <= k <= 255,
        ;
        sign * k
    }
}

/// Every key lies in `0..=255`, whatever the pixel.
pub proof fn lemma_key_in_range(key: SortKey, p: Pixel)
    ensures
        0 <= key_of(key, p) <= 255,
{
    let hi = max3(p.r as int, p.g as int, p.b as int);
    let lo = min3(p.r as int, p.g as int, p.b as int);
    let chroma = hi - lo;
    assert(0 <= luma_of(p) <= 255) by {
        assert(0 <= 2126 * p.r + 7152 * p.g + 722 * p.b <= 10000 * 255);
    }
    if chroma > 0 {
        let s = hue_sixths(p);
        assert(0 <= s < 6 * chroma);
        assert(0 <= (256 * s) / (6 * chroma) < 256) by (nonlinear_arith)
            requires
                0 <= s < 6 * chroma,
                chroma > 0,
        ;
    }
    if hi > 0 {
        assert(0 <= (255 * chroma) / hi <= 255) by (nonlinear_arith)
            requires
                0 <= chroma <= hi,
                hi > 0,
        ;
    }
}

/// Lightness never falls when no colour channel falls.
pub proof fn lemma_luma_monotone(p: Pixel, q: Pixel)
    requires
        p.r <= q.r,
        p.g <= q.g,
        p.b <= q.b,
    ensures
        luma_of(p) <= luma_of(q),
{
    let x = 2126 * p.r + 7152 * p.g + 722 * p.b;
    let y = 2126 * q.r + 7152 * q.g + 722 * q.b;
    assert(x <= y);
    assert(x / 10000 <= y / 10000) by (nonlinear_arith)
        requires
            x <= y,
    ;
}

/// No key looks at the alpha channel.
pub proof fn lemma_key_ignores_alpha(key: SortKey, p: Pixel, q: Pixel)
    requires
        p.r == q.r,
        p.g == q.g,
        p.b == q.b,
    ensures
        key_of(key, p) == key_of(key, q),
{
}

} // verus!
