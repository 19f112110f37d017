//! A tile: a square raster together with its average colour.

use vstd::prelude::*;
use crate::color::{dist_sq, Distance, Rgb};
use crate::raster::{pixel_of, Raster, RasterView};

verus! {

/// The sum of one channel (0 for red, 1 for green, 2 for blue) over the
/// first `n` pixels of `bytes`.
pub open spec fn channel_sum(bytes: Seq<u8>, channel: int, n: nat) -> nat
    decreases n,
{
    if n == 0 {
        0
    } else {
        channel_sum(bytes, channel, (n - 1) as nat) + bytes[3 * (n - 1) + channel] as nat
    }
}

/// The mean of one channel over all pixels of `v`, rounded down.
pub open spec fn channel_mean(v: RasterView, channel: int) -> nat {
    channel_sum(v.bytes, channel, v.count()) / v.count()
}

/// The colour whose channels are the means of the channels of `v`, each
/// rounded down.
pub open spec fn mean_color(v: RasterView) -> Rgb {
    Rgb {
        r: channel_mean(v, 0) as u8,
        g: channel_mean(v, 1) as u8,
        b: channel_mean(v, 2) as u8,
    }
}

/// A channel's sum over `n` pixels that all have the colour `c` is `n`
/// times that channel of `c`.
proof fn lemma_channel_sum_solid(bytes: Seq<u8>, c: Rgb, n: nat)
    requires
        forall|k: int| 0 <= k < n ==> #[trigger] pixel_of(bytes, k) == c,
    ensures
        channel_sum(bytes, 0, n) == n * c.r,
        channel_sum(bytes, 1, n) == n * c.g,
        channel_sum(bytes, 2, n) == n * c.b,
    decreases n,
{
    if n > 0 {
        let m: nat = (n - 1) as nat;
        lemma_channel_sum_solid(bytes, c, m);
        assert(pixel_of(bytes, m as int) == c);
        assert(n * c.r == m * c.r + c.r) by (nonlinear_arith)
            requires
                n == m + 1,
        ;
        assert(n * c.g == m * c.g + c.g) by (nonlinear_arith)
            requires
                n == m + 1,
        ;
        assert(n * c.b == m * c.b + c.b) by (nonlinear_arith)
            requires
                n == m + 1,
        ;
    }
}

/// The average colour of a raster of one solid colour is that colour.
pub proof fn lemma_mean_of_solid(v: RasterView, c: Rgb)
    requires
        v.count() >= 1,
        v.is_solid(c),
    ensures
        mean_color(v) == c,
{
    let n: nat = v.count();
    assert forall|k: int| 0 <= k < n implies #[trigger] pixel_of(v.bytes, k) == c by {
        assert(v.pixel(k) == c);
    }
    lemma_channel_sum_solid(v.bytes, c, n);
    assert((n * c.r) / (n as int) == c.r) by (nonlinear_arith)
        requires
            n >= 1,
    ;
    assert((n * c.g) / (n as int) == c.g) by (nonlinear_arith)
        requires
            n >= 1,
    ;
    assert((n * c.b) / (n as int) == c.b) by (nonlinear_arith)
        requires
            n >= 1,
    ;
}

/// What a tile is: its raster and its average colour.
pub struct TileView {
    pub img: RasterView,
    pub avg: Rgb,
}

impl TileView {
    /// The raster is a non-empty square and the average colour is its mean.
    pub open spec fn wf(self) -> bool {
        &&& self.img.wf()
        &&& self.img.is_square()
        &&& self.img.width >= 1
        &&& self.avg == mean_color(self.img)
    }

    /// The side length of the square.
    pub open spec fn side(self) -> nat {
        self.img.width
    }
}

/// The average colour of a tile of one solid colour is that colour.
pub proof fn lemma_solid_tile(t: TileView, c: Rgb)
    requires
        t.wf(),
        t.img.is_solid(c),
    ensures
        t.avg == c,
{
    assert(t.img.count() >= 1) by (nonlinear_arith)
        requires
            t.img.count() == t.img.width * t.img.height,
            t.img.width >= 1,
            t.img.height >= 1,
    ;
    lemma_mean_of_solid(t.img, c);
}

/// The tile that a raster makes.
pub open spec fn tile_of(img: RasterView) -> TileView {
    TileView { img, avg: mean_color(img) }
}

/// One tile of a set. Its average colour is computed once, when the tile is
/// made, and the tile does not change afterwards.
#[derive(Debug)]
pub struct Tile {
    img: Raster,
    avg: Rgb,
}

impl View for Tile {
    type V = TileView;

    closed spec fn view(&self) -> TileView {
        TileView { img: self.img@, avg: self.avg }
    }
}

/// One channel's mean over all pixels of `img`.
fn mean_channel(img: &Raster, channel: usize) -> (m: u8)
    requires
        img.wf(),
        img@.count() >= 1,
        channel < 3,
    ensures
        m == channel_mean(img@, channel as int),
{
    let n: usize = img.pixel_count();
    let bytes: &Vec<u8> = img.as_raw();
    let mut total: u128 = 0;
    let mut k: usize = 0;
    proof {
        img.lemma_size_bound();
    }
    while k < n
        invariant
            k <= n,
            n == img@.count(),
            3 * n <= usize::MAX,
            bytes@ == img@.bytes,
            bytes@.len() == 3 * n,
            channel < 3,
            total == channel_sum(bytes@, channel as int, k as nat),
            total <= 255 * k,
        decreases n - k,
    {
        total = total + bytes[3 * k + channel] as u128;
        k = k + 1;
    }
    let mean: u128 = total / (n as u128);
    assert(mean <= 255) by (nonlinear_arith)
        requires
            mean == total / (n as u128),
            total <= 255 * n,
            n >= 1,
    ;
    mean as u8
}

impl Tile {
    /// The tile's invariant: see [`TileView::wf`].
    pub open spec fn wf(&self) -> bool {
        self@.wf()
    }

    /// Makes a tile of a non-empty square raster, computing its average
    /// colour: each channel's sum over all pixels, divided by the number of
    /// pixels and rounded down.
    pub fn from(img: Raster) -> (t: Tile)
        requires
            img.wf(),
            img@.is_square(),
            img@.width >= 1,
        ensures
            t.wf(),
            t@ == tile_of(img@),
    {
        assert(img@.count() >= 1) by (nonlinear_arith)
            requires
                img@.count() == img@.width * img@.height,
                img@.width >= 1,
                img@.height >= 1,
        ;
        let r: u8 = mean_channel(&img, 0);
        let g: u8 = mean_channel(&img, 1);
        let b: u8 = mean_channel(&img, 2);
        Tile { img, avg: Rgb { r, g, b } }
    }

    /// The distance between `px` and the tile's average colour.
    pub fn dist_to(&self, px: &Rgb) -> (d: Distance)
        ensures
            d.squared == dist_sq(*px, self@.avg),
    {
        px.dist_to(&self.avg)
    }

    /// The tile's raster.
    pub fn img(&self) -> (img: &Raster)
        ensures
            img@ == self@.img,
            self.wf() ==> img.wf(),
    {
        &self.img
    }

    /// The tile's side length.
    pub fn side_len(&self) -> (s: u32)
        ensures
            s == self@.side(),
    {
        self.img.width()
    }

    /// The tile's average colour.
    pub fn average_color(&self) -> (c: Rgb)
        ensures
            c == self@.avg,
    {
        self.avg
    }
}

} // verus!
