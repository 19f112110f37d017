//! The mosaic: a source image, a tile set and the canvas on which the tiles
//! are laid out.

use std::collections::HashMap;
use vstd::prelude::*;
use crate::color::Rgb;
use crate::error::MosaicError;
use crate::raster::{buffer_fits, lemma_index_in_range, Raster, RasterView};
use crate::resample::{can_resize, resized};
use crate::scale::{Dyadic, Scale};
use crate::tile::{Tile, TileView};
use crate::tileset::{
    closest_index, color_map, lemma_closest_exists, lemma_color_map_holds, new_outcome,
    raster_views, scale_outcome, tiles_wf, TileSet,
};

verus! {

/// The colour of a canvas on which nothing has been laid yet.
pub open spec fn background() -> Rgb {
    Rgb { r: 0, g: 0, b: 0 }
}

/// The pixel of `tile` that comes to lie `dx` columns to the right of and
/// `dy` rows below the corner at which the tile is laid: the tile's pixels,
/// taken row by row, fill the square column by column.
pub open spec fn stamped_pixel(tile: TileView, dx: int, dy: int) -> Rgb {
    tile.img.pixel(dx * tile.side() + dy)
}

/// The pixel in column `x` of row `y` of a canvas that had the pixels of
/// `before` until `tile` was laid on it with its corner at `(left, top)`.
pub open spec fn pixel_after_stamp(
    before: RasterView,
    tile: TileView,
    left: int,
    top: int,
    x: int,
    y: int,
) -> Rgb {
    if left <= x < left + tile.side() && top <= y < top + tile.side() {
        stamped_pixel(tile, x - left, y - top)
    } else {
        before.pixel_at(x, y)
    }
}

/// The canvas on which a mosaic is laid out.
#[derive(Debug)]
pub struct Inner {
    canvas: Raster,
}

impl View for Inner {
    type V = RasterView;

    closed spec fn view(&self) -> RasterView {
        self.canvas@
    }
}

impl Inner {
    /// The canvas's invariant: that of its raster.
    pub open spec fn wf(&self) -> bool {
        self@.wf()
    }

    /// A canvas of `width` by `height` pixels in the background colour;
    /// `None` if a raster of that size cannot be allocated.
    pub fn new(width: u32, height: u32) -> (res: Option<Inner>)
        ensures
            res is Some <==> buffer_fits(width as nat, height as nat),
            res matches Some(inner) ==> inner.wf() && inner@.width == width && inner@.height
                == height && inner@.is_solid(background()),
    {
        match Raster::solid(width, height, Rgb { r: 0, g: 0, b: 0 }) {
            Some(canvas) => Some(Inner { canvas }),
            None => None,
        }
    }

    /// Lays `tile` on the canvas with its upper left corner at
    /// `start_coords`, a column and a row. The pixels under the tile are
    /// replaced, all others stay as they were.
    pub fn add_tile(&mut self, tile: &Tile, start_coords: (u32, u32))
        requires
            old(self).wf(),
            tile.wf(),
            start_coords.0 + tile@.side() <= old(self)@.width,
            start_coords.1 + tile@.side() <= old(self)@.height,
        ensures
            final(self).wf(),
            final(self)@.width == old(self)@.width,
            final(self)@.height == old(self)@.height,
            forall|x: int, y: int|
                0 <= x < old(self)@.width && 0 <= y < old(self)@.height
                    ==> #[trigger] final(self)@.pixel_at(x, y) == pixel_after_stamp(
                    old(self)@,
                    tile@,
                    start_coords.0 as int,
                    start_coords.1 as int,
                    x,
                    y,
                ),
    {
        let s: u32 = tile.side_len();
        let (left, top) = start_coords;
        let img: &Raster = tile.img();
        let mut k: usize = 0;
        let mut x: u32 = left;
        proof {
            img.lemma_size_bound();
            self.canvas.lemma_size_bound();
        }
        while x < left + s
            invariant
                left <= x <= left + s,
                left + s <= u32::MAX,
                top + s <= u32::MAX,
                s * s <= usize::MAX,
                left + s <= self@.width,
                top + s <= self@.height,
                self.wf(),
                self@.width == old(self)@.width,
                self@.height == old(self)@.height,
                tile.wf(),
                img@ == tile@.img,
                img.wf(),
                s == tile@.side(),
                k == (x - left) * s,
                forall|i: int, j: int|
                    0 <= i < self@.width && 0 <= j < self@.height
                        ==> #[trigger] self@.pixel_at(i, j) == if left <= i < x && top <= j < top
                        + s {
                        stamped_pixel(tile@, i - left, j - top)
                    } else {
                        old(self)@.pixel_at(i, j)
                    },
            decreases left + s - x,
        {
            let mut y: u32 = top;
            while y < top + s
                invariant
                    left <= x < left + s,
                    top <= y <= top + s,
                    left + s <= u32::MAX,
                    top + s <= u32::MAX,
                    s * s <= usize::MAX,
                    left + s <= self@.width,
                    top + s <= self@.height,
                    self.wf(),
                    self@.width == old(self)@.width,
                    self@.height == old(self)@.height,
                    tile.wf(),
                    img@ == tile@.img,
                    img.wf(),
                    s == tile@.side(),
                    k == (x - left) * s + (y - top),
                    forall|i: int, j: int|
                        0 <= i < self@.width && 0 <= j < self@.height
                            ==> #[trigger] self@.pixel_at(i, j) == if top <= j < top + s && (left
                            <= i < x || (i == x && j < y)) {
                            stamped_pixel(tile@, i - left, j - top)
                        } else {
                            old(self)@.pixel_at(i, j)
                        },
                decreases top + s - y,
            {
                proof {
                    lemma_index_in_range((y - top) as int, (x - left) as int, s as int, s as int);
                }
                let px: Rgb = img.pixel(k);
                self.canvas.put_pixel(x, y, px);
                k = k + 1;
                y = y + 1;
            }
            assert((x - left) * s + s == (x + 1 - left) * s) by (nonlinear_arith);
            x = x + 1;
        }
    }

    /// Gives up the canvas for its raster.
    pub fn into_raster(self) -> (img: Raster)
        ensures
            img@ == self@,
    {
        self.canvas
    }
}

/// What a mosaic is: its source image, its tiles and its canvas.
pub struct MosaicView {
    pub source: RasterView,
    pub tiles: Seq<TileView>,
    pub canvas: RasterView,
}

impl MosaicView {
    /// The side length of the tiles.
    pub open spec fn side(self) -> nat {
        self.tiles[0].side()
    }

    /// Source image and tile set are well formed, and the canvas has room
    /// for exactly one tile for each pixel of the source image.
    pub open spec fn wf(self) -> bool {
        &&& self.source.wf()
        &&& tiles_wf(self.tiles)
        &&& self.canvas.wf()
        &&& self.canvas.width == self.source.width * self.side()
        &&& self.canvas.height == self.source.height * self.side()
    }
}

/// The pixel in column `x` of row `y` of the mosaic of `source` with
/// `tiles`: the pixel of the source image in whose square it lies picks the
/// tile nearest to it, and its place in the square picks the pixel of that
/// tile.
pub open spec fn mosaic_pixel(source: RasterView, tiles: Seq<TileView>, x: int, y: int) -> Rgb {
    let s: int = tiles[0].side() as int;
    let tile: TileView = tiles[closest_index(tiles, source.pixel_at(x / s, y / s))];
    stamped_pixel(tile, x % s, y % s)
}

/// The source image of a mosaic: `img` as it is where the scale factor is
/// one, and else resized to its two dimensions times the factor, each
/// rounded.
pub open spec fn scaled_source(img: RasterView, d: Dyadic) -> RasterView {
    if d.is_one() {
        img
    } else {
        resized(img, d.scaled(img.width), d.scaled(img.height))
    }
}

/// The tiles of a mosaic: those that `imgs` make, scaled to the side
/// `tile_size` where they do not have it already; or the reason for which
/// there are none.
pub open spec fn sized_tiles(imgs: Seq<RasterView>, tile_size: nat) -> Result<
    Seq<TileView>,
    MosaicError,
> {
    match new_outcome(imgs) {
        Ok(natural) => if natural[0].side() == tile_size {
            Ok(natural)
        } else {
            scale_outcome(natural, tile_size)
        },
        Err(e) => Err(e),
    }
}

/// A canvas with a square of side `side` for each pixel of a `width` by
/// `height` image has dimensions that a `u32` holds, and can be allocated.
pub open spec fn canvas_fits(width: nat, height: nat, side: nat) -> bool {
    &&& width * side <= u32::MAX
    &&& height * side <= u32::MAX
    &&& buffer_fits(width * side, height * side)
}

/// The reason for which no mosaic can be set up with these arguments, if
/// there is one. The checks are made in this order: the scale factor, the
/// scaled source image, the tiles, the canvas.
pub open spec fn setup_error(
    img: RasterView,
    imgs: Seq<RasterView>,
    scale: Option<Dyadic>,
    tile_size: nat,
) -> Option<MosaicError> {
    if !(scale is Some && scale->0.at_least_tenth()) {
        Some(MosaicError::InvalidScale)
    } else {
        let d: Dyadic = scale->0;
        let source: RasterView = scaled_source(img, d);
        if !d.is_one() && (source.width == 0 || source.height == 0) {
            Some(MosaicError::DegenerateScale)
        } else if !d.is_one() && !can_resize(img.width, img.height, source.width, source.height) {
            Some(MosaicError::TooLarge)
        } else {
            match sized_tiles(imgs, tile_size) {
                Err(e) => Some(e),
                Ok(_) => if canvas_fits(source.width, source.height, tile_size) {
                    None
                } else {
                    Some(MosaicError::TooLarge)
                },
            }
        }
    }
}

/// A coordinate lies in the `c`-th stretch of length `s` exactly if its
/// quotient by `s` is `c`, and its remainder is then its offset in that
/// stretch.
proof fn lemma_cell(v: int, s: int, c: int)
    requires
        s > 0,
    ensures
        (c * s <= v < c * s + s) <==> v / s == c,
        v / s == c ==> v % s == v - c * s,
{
    vstd::arithmetic::div_mod::lemma_fundamental_div_mod(v, s);
    vstd::arithmetic::div_mod::lemma_mod_bound(v, s);
    assert(s * (v / s) == (v / s) * s) by (nonlinear_arith);
    if c * s <= v < c * s + s {
        vstd::arithmetic::div_mod::lemma_fundamental_div_mod_converse(v, s, c, v - c * s);
    }
}

/// A coordinate below `n * s` has a quotient by `s` below `n`.
proof fn lemma_cell_bound(v: int, s: int, n: int)
    requires
        s > 0,
        0 <= v < n * s,
    ensures
        0 <= v / s < n,
{
    let q: int = v / s;
    lemma_cell(v, s, q);
    assert(q < n) by (nonlinear_arith)
        requires
            q * s <= v,
            v < n * s,
            s > 0,
    ;
    assert(q >= 0) by (nonlinear_arith)
        requires
            v < q * s + s,
            0 <= v,
            s > 0,
    ;
}

/// On `canvas`, the squares of all pixels of the source image that come
/// before the pixel in column `x` of row `y`, column by column, hold their
/// part of the mosaic.
spec fn laid_out(
    canvas: RasterView,
    source: RasterView,
    tiles: Seq<TileView>,
    x: int,
    y: int,
) -> bool {
    let s: int = tiles[0].side() as int;
    forall|i: int, j: int|
        0 <= i < canvas.width && 0 <= j < canvas.height && (i / s < x || (i / s == x && j / s < y))
            ==> #[trigger] canvas.pixel_at(i, j) == mosaic_pixel(source, tiles, i, j)
}

/// Laying the tile for the source pixel in column `x` of row `y` on its
/// square extends what is laid out by that square.
proof fn lemma_lay_tile(
    before: RasterView,
    after: RasterView,
    source: RasterView,
    tiles: Seq<TileView>,
    x: int,
    y: int,
)
    requires
        tiles_wf(tiles),
        laid_out(before, source, tiles, x, y),
        after.width == before.width,
        after.height == before.height,
        forall|i: int, j: int|
            0 <= i < before.width && 0 <= j < before.height ==> #[trigger] after.pixel_at(i, j)
                == pixel_after_stamp(
                before,
                tiles[closest_index(tiles, source.pixel_at(x, y))],
                x * tiles[0].side(),
                y * tiles[0].side(),
                i,
                j,
            ),
    ensures
        laid_out(after, source, tiles, x, y + 1),
{
    let s: int = tiles[0].side() as int;
    let px: Rgb = source.pixel_at(x, y);
    lemma_closest_exists(tiles, px);
    let tile: TileView = tiles[closest_index(tiles, px)];
    assert(tile.side() == s);
    assert forall|i: int, j: int|
        0 <= i < after.width && 0 <= j < after.height && (i / s < x || (i / s == x && j / s < y
            + 1)) implies #[trigger] after.pixel_at(i, j) == mosaic_pixel(source, tiles, i, j) by {
        lemma_cell(i, s, x);
        lemma_cell(j, s, y);
        assert(after.pixel_at(i, j) == pixel_after_stamp(before, tile, x * s, y * s, i, j));
        if i / s == x && j / s == y {
            assert(i % s == i - x * s);
            assert(j % s == j - y * s);
        } else {
            assert(before.pixel_at(i, j) == mosaic_pixel(source, tiles, i, j));
        }
    }
}

/// Where a whole column of squares is laid out, so is everything before
/// the next column.
proof fn lemma_column_done(
    canvas: RasterView,
    source: RasterView,
    tiles: Seq<TileView>,
    x: int,
    rows: int,
)
    requires
        tiles_wf(tiles),
        canvas.height == rows * tiles[0].side(),
        laid_out(canvas, source, tiles, x, rows),
    ensures
        laid_out(canvas, source, tiles, x + 1, 0),
{
    let s: int = tiles[0].side() as int;
    assert forall|i: int, j: int|
        0 <= i < canvas.width && 0 <= j < canvas.height && (i / s < x + 1 || (i / s == x + 1 && j
            / s < 0)) implies #[trigger] canvas.pixel_at(i, j) == mosaic_pixel(
        source,
        tiles,
        i,
        j,
    ) by {
        lemma_cell_bound(j, s, rows);
    }
}

/// Where all columns of squares are laid out, the canvas holds the mosaic.
proof fn lemma_all_done(
    canvas: RasterView,
    source: RasterView,
    tiles: Seq<TileView>,
    columns: int,
)
    requires
        tiles_wf(tiles),
        canvas.width == columns * tiles[0].side(),
        laid_out(canvas, source, tiles, columns, 0),
    ensures
        forall|i: int, j: int|
            0 <= i < canvas.width && 0 <= j < canvas.height ==> #[trigger] canvas.pixel_at(i, j)
                == mosaic_pixel(source, tiles, i, j),
{
    let s: int = tiles[0].side() as int;
    assert forall|i: int, j: int|
        0 <= i < canvas.width && 0 <= j < canvas.height implies #[trigger] canvas.pixel_at(i, j)
        == mosaic_pixel(source, tiles, i, j) by {
        lemma_cell_bound(i, s, columns);
    }
}

/// The tile that `map` holds for the pixel in column `x` of row `y` of
/// `img`.
fn tile_for<'a>(
    tiles: &'a TileSet,
    map: &HashMap<u32, usize>,
    img: &Raster,
    x: u32,
    y: u32,
) -> (tile: &'a Tile)
    requires
        tiles.wf(),
        img.wf(),
        x < img@.width,
        y < img@.height,
        map@ == color_map(tiles@, img@, img@.count() as int),
    ensures
        tile@ == tiles@[closest_index(tiles@, img@.pixel_at(x as int, y as int))],
        tile@.side() == tiles@[0].side(),
        tile.wf(),
{
    broadcast use {
        vstd::std_specs::hash::axiom_u32_obeys_hash_table_key_model,
        vstd::std_specs::hash::axiom_random_state_builds_valid_hashers,
        vstd::std_specs::hash::axiom_contains_deref_key,
        vstd::std_specs::hash::axiom_maps_deref_key_to_value,
    };

    let px: Rgb = img.get_pixel(x, y);
    let key: u32 = px.key();
    proof {
        tiles.lemma_len_bound();
        lemma_index_in_range(x as int, y as int, img@.width as int, img@.height as int);
        lemma_color_map_holds(tiles@, img@, y * img@.width + x);
    }
    match map.get(&key) {
        Some(idx) => tiles.tile(*idx),
        None => {
            assert(false);
            tiles.tile(0)
        },
    }
}

/// A mosaic that has been set up and not laid out yet.
#[derive(Debug)]
pub struct Mosaic {
    img: Raster,
    tiles: TileSet,
    inner: Inner,
}

impl View for Mosaic {
    type V = MosaicView;

    closed spec fn view(&self) -> MosaicView {
        MosaicView { source: self.img@, tiles: self.tiles@, canvas: self.inner@ }
    }
}

impl Mosaic {
    /// The mosaic's invariant: see [`MosaicView::wf`].
    pub open spec fn wf(&self) -> bool {
        self@.wf()
    }

    /// Sets up a mosaic of `img` with tiles made of `tiles`.
    ///
    /// The source image is scaled by `img_scaling`, which must be at least
    /// one tenth and must leave the image with at least one column and one
    /// row. The tiles are made as [`TileSet::new`] makes them and then
    /// scaled to the side `tile_size`. The canvas is allocated in the
    /// background colour; nothing is laid on it yet.
    pub fn new(img: Raster, tiles: &Vec<Raster>, img_scaling: Scale, tile_size: u8) -> (res: Result<
        Mosaic,
        MosaicError,
    >)
        requires
            img.wf(),
            forall|i: int| 0 <= i < tiles@.len() ==> (#[trigger] tiles@[i]).wf(),
        ensures
            match res {
                Ok(m) => {
                    &&& setup_error(img@, raster_views(tiles@), img_scaling@, tile_size as nat)
                        is None
                    &&& m.wf()
                    &&& m@.source == scaled_source(img@, img_scaling@->0)
                    &&& sized_tiles(raster_views(tiles@), tile_size as nat) == Ok::<
                        Seq<TileView>,
                        MosaicError,
                    >(m@.tiles)
                    &&& m@.side() == tile_size
                    &&& m@.canvas.is_solid(background())
                },
                Err(e) => setup_error(img@, raster_views(tiles@), img_scaling@, tile_size as nat)
                    == Some(e),
            },
    {
        if !img_scaling.is_valid() {
            return Err(MosaicError::InvalidScale);
        }
        let source: Raster = if img_scaling.is_identity() {
            img
        } else {
            let width: Option<u32> = img_scaling.scaled_len(img.width());
            let height: Option<u32> = img_scaling.scaled_len(img.height());
            match (width, height) {
                (Some(0), _) => {
                    return Err(MosaicError::DegenerateScale);
                },
                (_, Some(0)) => {
                    return Err(MosaicError::DegenerateScale);
                },
                (Some(w), Some(h)) => match img.resize_exact(w, h) {
                    Some(scaled) => scaled,
                    None => {
                        return Err(MosaicError::TooLarge);
                    },
                },
                _ => {
                    return Err(MosaicError::TooLarge);
                },
            }
        };

        let mut set: TileSet = match TileSet::new(tiles) {
            Ok(set) => set,
            Err(e) => {
                return Err(e);
            },
        };
        let side: u32 = tile_size as u32;
        if set.tile_side_len() != side {
            match set.scale_tiles(side) {
                Ok(_) => {},
                Err(e) => {
                    return Err(e);
                },
            }
        }
        assert(set@[0].side() == side);

        let (img_x, img_y) = source.dimensions();
        match (img_x.checked_mul(side), img_y.checked_mul(side)) {
            (Some(mos_x), Some(mos_y)) => match Inner::new(mos_x, mos_y) {
                Some(inner) => Ok(Mosaic { img: source, tiles: set, inner }),
                None => Err(MosaicError::TooLarge),
            },
            _ => Err(MosaicError::TooLarge),
        }
    }

    /// Width and height that the finished mosaic will have: those of the
    /// source image, each times the tiles' side length.
    pub fn output_size(&self) -> (size: (u32, u32))
        requires
            self.wf(),
        ensures
            size.0 == self@.source.width * self@.side(),
            size.1 == self@.source.height * self@.side(),
    {
        proof {
            self.inner.canvas.lemma_size_bound();
        }
        let (img_x, img_y) = self.img.dimensions();
        let tile_size: u32 = self.tiles.tile_side_len();
        (img_x * tile_size, img_y * tile_size)
    }

    /// Lays out the mosaic and returns it. For each pixel of the source
    /// image, column by column, the tile nearest to its colour is laid on
    /// the canvas, in the square that belongs to that pixel.
    pub fn to_image(self) -> (out: Raster)
        requires
            self.wf(),
        ensures
            out.wf(),
            out@.width == self@.source.width * self@.side(),
            out@.height == self@.source.height * self@.side(),
            forall|x: int, y: int|
                0 <= x < out@.width && 0 <= y < out@.height ==> #[trigger] out@.pixel_at(x, y)
                    == mosaic_pixel(self@.source, self@.tiles, x, y),
    {
        let ghost view: MosaicView = self@;
        let Mosaic { img, tiles, inner } = self;
        let mut mosaic: Inner = inner;
        let map: HashMap<u32, usize> = tiles.map_to(&img);
        let (img_x, img_y) = img.dimensions();
        let tile_size: u32 = tiles.tile_side_len();
        let ghost s: int = tile_size as int;
        proof {
            mosaic.canvas.lemma_size_bound();
        }

        let mut mos_x: u32 = 0;
        let mut x: u32 = 0;
        while x < img_x
            invariant
                x <= img_x,
                img.wf(),
                tiles.wf(),
                mosaic.wf(),
                img@ == view.source,
                tiles@ == view.tiles,
                img_x == img@.width,
                img_y == img@.height,
                s == tile_size,
                s == view.side(),
                s >= 1,
                mosaic@.width == img_x * s,
                mosaic@.height == img_y * s,
                mosaic@.width <= u32::MAX,
                mosaic@.height <= u32::MAX,
                mos_x == x * s,
                map@ == color_map(tiles@, img@, img@.count() as int),
                laid_out(mosaic@, view.source, view.tiles, x as int, 0),
            decreases img_x - x,
        {
            let mut mos_y: u32 = 0;
            let mut y: u32 = 0;
            while y < img_y
                invariant
                    x < img_x,
                    y <= img_y,
                    img.wf(),
                    tiles.wf(),
                    mosaic.wf(),
                    img@ == view.source,
                    tiles@ == view.tiles,
                    img_x == img@.width,
                    img_y == img@.height,
                    s == tile_size,
                    s == view.side(),
                    s >= 1,
                    mosaic@.width == img_x * s,
                    mosaic@.height == img_y * s,
                    mosaic@.width <= u32::MAX,
                    mosaic@.height <= u32::MAX,
                    mos_x == x * s,
                    mos_y == y * s,
                    map@ == color_map(tiles@, img@, img@.count() as int),
                    laid_out(mosaic@, view.source, view.tiles, x as int, y as int),
                decreases img_y - y,
            {
                let tile: &Tile = tile_for(&tiles, &map, &img, x, y);
                proof {
                    assert((x + 1) * s <= img_x * s && (x + 1) * s == x * s + s)
                        by (nonlinear_arith)
                        requires
                            x < img_x,
                            s >= 1,
                    ;
                    assert((y + 1) * s <= img_y * s && (y + 1) * s == y * s + s)
                        by (nonlinear_arith)
                        requires
                            y < img_y,
                            s >= 1,
                    ;
                }
                let ghost before: RasterView = mosaic@;
                mosaic.add_tile(tile, (mos_x, mos_y));
                proof {
                    lemma_lay_tile(before, mosaic@, view.source, view.tiles, x as int, y as int);
                }
                mos_y = mos_y + tile_size;
                y = y + 1;
            }
            proof {
                lemma_column_done(mosaic@, view.source, view.tiles, x as int, img_y as int);
                assert((x + 1) * s <= img_x * s && (x + 1) * s == x * s + s) by (nonlinear_arith)
                    requires
                        x < img_x,
                        s >= 1,
                ;
            }
            mos_x = mos_x + tile_size;
            x = x + 1;
        }
        proof {
            lemma_all_done(mosaic@, view.source, view.tiles, img_x as int);
        }
        mosaic.into_raster()
    }
}

} // verus!
