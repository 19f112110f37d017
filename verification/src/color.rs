//! Colours and the distance between them.

use vstd::prelude::*;

verus! {

/// One 8-bit RGB colour.
#[derive(Clone, Copy, Debug, PartialEq, Eq, Hash, Structural)]
pub struct Rgb {
    pub r: u8,
    pub g: u8,
    pub b: u8,
}

/// The Euclidean distance between two colours, held exactly as its square.
///
/// The square orders distances the same way the distance itself does, so
/// comparisons need no rounding.
#[derive(Clone, Copy, Debug, PartialEq, Eq, Structural)]
pub struct Distance {
    pub squared: u32,
}

/// The largest squared distance between two colours.
pub const MAX_DIST_SQ: u32 = 195075;

/// The square of the Euclidean distance between `p` and `q` in RGB space.
pub open spec fn dist_sq(p: Rgb, q: Rgb) -> int {
    (p.r - q.r) * (p.r - q.r) + (p.g - q.g) * (p.g - q.g) + (p.b - q.b) * (p.b - q.b)
}

/// The number that identifies a colour: its three channels as the digits of
/// a base-256 numeral.
pub open spec fn color_key(c: Rgb) -> u32 {
    (c.r as int * 65536 + c.g as int * 256 + c.b as int) as u32
}

/// The square of the difference of two channel values.
fn channel_diff_sq(a: u8, b: u8) -> (d: u32)
    ensures
        d == (a - b) * (a - b),
        d <= 65025,
{
    let lo: u8 = if a < b { a } else { b };
    let hi: u8 = if a < b { b } else { a };
    let delta: u32 = (hi - lo) as u32;
    assert(delta * delta == (a - b) * (a - b)) by (nonlinear_arith)
        requires
            delta == a - b || delta == b - a,
    ;
    assert(delta * delta <= 65025) by (nonlinear_arith)
        requires
            delta <= 255,
    ;
    delta * delta
}

impl Rgb {
    /// Builds a colour from its three channels.
    pub fn new(r: u8, g: u8, b: u8) -> (c: Rgb)
        ensures
            c == (Rgb { r, g, b }),
    {
        Rgb { r, g, b }
    }

    /// The colour's key: distinct colours have distinct keys.
    pub fn key(&self) -> (k: u32)
        ensures
            k == color_key(*self),
            k == self.r as int * 65536 + self.g as int * 256 + self.b as int,
    {
        (self.r as u32) * 65536 + (self.g as u32) * 256 + (self.b as u32)
    }

    /// The distance from this colour to `other`.
    pub fn dist_to(&self, other: &Rgb) -> (d: Distance)
        ensures
            d.squared == dist_sq(*self, *other),
    {
        let dr: u32 = channel_diff_sq(self.r, other.r);
        let dg: u32 = channel_diff_sq(self.g, other.g);
        let db: u32 = channel_diff_sq(self.b, other.b);
        Distance { squared: dr + dg + db }
    }
}

/// A colour is at distance zero from itself, and from nothing else.
pub proof fn lemma_dist_zero(p: Rgb, q: Rgb)
    ensures
        dist_sq(p, p) == 0,
        dist_sq(p, q) == 0 <==> p == q,
        0 <= dist_sq(p, q) <= MAX_DIST_SQ,
{
    let dr: int = p.r - q.r;
    let dg: int = p.g - q.g;
    let db: int = p.b - q.b;
    assert(0 <= dr * dr <= 65025 && (dr * dr == 0 <==> dr == 0)) by (nonlinear_arith)
        requires
            -255 <= dr <= 255,
    ;
    assert(0 <= dg * dg <= 65025 && (dg * dg == 0 <==> dg == 0)) by (nonlinear_arith)
        requires
            -255 <= dg <= 255,
    ;
    assert(0 <= db * db <= 65025 && (db * db == 0 <==> db == 0)) by (nonlinear_arith)
        requires
            -255 <= db <= 255,
    ;
}

/// The distance from `p` to `q` is the distance from `q` to `p`.
pub proof fn lemma_dist_symmetric(p: Rgb, q: Rgb)
    ensures
        dist_sq(p, q) == dist_sq(q, p),
{
    let dr: int = p.r - q.r;
    let dg: int = p.g - q.g;
    let db: int = p.b - q.b;
    assert(dr * dr == (-dr) * (-dr)) by (nonlinear_arith);
    assert(dg * dg == (-dg) * (-dg)) by (nonlinear_arith);
    assert(db * db == (-db) * (-db)) by (nonlinear_arith);
}

} // verus!
