//! A set of tiles of one common side length, and the search for the tile
//! nearest to a colour.

use std::collections::HashMap;
use vstd::prelude::*;
use crate::color::{color_key, dist_sq, Distance, Rgb};
use crate::error::MosaicError;
use crate::raster::{Raster, RasterView};
use crate::resample::{can_resize, resize_allowed, resize_triangle, resized};
use crate::tile::{tile_of, Tile, TileView};

verus! {

/// What each raster of a sequence is.
pub open spec fn raster_views(imgs: Seq<Raster>) -> Seq<RasterView> {
    imgs.map_values(|r: Raster| r@)
}

/// The shorter of a raster's two dimensions.
pub open spec fn short_side(v: RasterView) -> nat {
    if v.width < v.height {
        v.width
    } else {
        v.height
    }
}

/// The least of the short sides of `imgs`; zero if there is none.
pub open spec fn min_side(imgs: Seq<RasterView>) -> nat
    decreases imgs.len(),
{
    if imgs.len() == 0 {
        0
    } else if imgs.len() == 1 {
        short_side(imgs[0])
    } else {
        let rest: nat = min_side(imgs.drop_last());
        let last: nat = short_side(imgs.last());
        if last < rest {
            last
        } else {
            rest
        }
    }
}

/// Each of `imgs` can be resized to a square of side `s`.
pub open spec fn all_resizable(imgs: Seq<RasterView>, s: nat) -> bool {
    forall|i: int|
        0 <= i < imgs.len() ==> can_resize((#[trigger] imgs[i]).width, imgs[i].height, s, s)
}

/// The tiles that `imgs` make when each is resized to a square of side `s`.
pub open spec fn uniform_tiles(imgs: Seq<RasterView>, s: nat) -> Seq<TileView> {
    Seq::new(imgs.len(), |i: int| tile_of(resized(imgs[i], s, s)))
}

/// The rasters of a sequence of tiles.
pub open spec fn tile_images(tiles: Seq<TileView>) -> Seq<RasterView> {
    tiles.map_values(|t: TileView| t.img)
}

/// A tile set's invariant: it has a tile, and its tiles are well formed
/// and of one side length.
pub open spec fn tiles_wf(tiles: Seq<TileView>) -> bool {
    &&& tiles.len() >= 1
    &&& forall|i: int| 0 <= i < tiles.len() ==> (#[trigger] tiles[i]).wf()
    &&& forall|i: int| 0 <= i < tiles.len() ==> (#[trigger] tiles[i]).side() == tiles[0].side()
}

/// What building a tile set of `imgs` gives: the tiles, or the reason for
/// which there are none.
pub open spec fn new_outcome(imgs: Seq<RasterView>) -> Result<Seq<TileView>, MosaicError> {
    let s: nat = min_side(imgs);
    if imgs.len() == 0 {
        Err(MosaicError::NoTiles)
    } else if s == 0 {
        Err(MosaicError::EmptyTile)
    } else if !all_resizable(imgs, s) {
        Err(MosaicError::TooLarge)
    } else {
        Ok(uniform_tiles(imgs, s))
    }
}

/// What scaling `tiles` to the side length `s` gives: the new tiles, or
/// the reason for which the tiles stay as they are.
pub open spec fn scale_outcome(tiles: Seq<TileView>, s: nat) -> Result<
    Seq<TileView>,
    MosaicError,
> {
    let side: nat = tiles[0].side();
    if s == 0 {
        Err(MosaicError::EmptyTile)
    } else if !can_resize(side, side, s, s) {
        Err(MosaicError::TooLarge)
    } else {
        Ok(uniform_tiles(tile_images(tiles), s))
    }
}

/// `i` is the index of the tile nearest to `px`: no tile's average colour
/// is nearer to `px`, and every tile before it is farther away.
pub open spec fn is_closest(tiles: Seq<TileView>, px: Rgb, i: int) -> bool {
    &&& 0 <= i < tiles.len()
    &&& forall|j: int|
        0 <= j < tiles.len() ==> dist_sq(px, tiles[i].avg) <= dist_sq(px, (#[trigger] tiles[j]).avg)
    &&& forall|j: int|
        0 <= j < i ==> dist_sq(px, tiles[i].avg) < dist_sq(px, (#[trigger] tiles[j]).avg)
}

/// The index of the tile nearest to `px`.
pub open spec fn closest_index(tiles: Seq<TileView>, px: Rgb) -> int {
    choose|i: int| is_closest(tiles, px, i)
}

/// The colour with the key `key`.
pub open spec fn color_of_key(key: u32) -> Rgb {
    Rgb { r: (key / 65536 % 256) as u8, g: (key / 256 % 256) as u8, b: (key % 256) as u8 }
}

/// One of the first `n` pixels of `img` has the colour with the key `key`.
pub open spec fn occurs_in(img: RasterView, key: u32, n: int) -> bool {
    exists|k: int| 0 <= k < n && color_key(#[trigger] img.pixel(k)) == key
}

/// The map from the key of each colour among the first `n` pixels of `img`
/// to the index of the tile nearest to that colour.
pub open spec fn color_map(tiles: Seq<TileView>, img: RasterView, n: int) -> Map<u32, usize> {
    Map::new(
        |key: u32| occurs_in(img, key, n),
        |key: u32| closest_index(tiles, color_of_key(key)) as usize,
    )
}

/// A colour is the colour with its key.
pub proof fn lemma_color_of_key(c: Rgb)
    ensures
        color_of_key(color_key(c)) == c,
{
}

/// The map of the colours of `img` holds, for each pixel of `img`, the
/// index of the tile nearest to it under the key of its colour.
pub proof fn lemma_color_map_holds(tiles: Seq<TileView>, img: RasterView, k: int)
    requires
        1 <= tiles.len() <= usize::MAX,
        0 <= k < img.count(),
    ensures
        color_map(tiles, img, img.count() as int).contains_key(color_key(img.pixel(k))),
        color_map(tiles, img, img.count() as int)[color_key(img.pixel(k))] == closest_index(
            tiles,
            img.pixel(k),
        ),
        is_closest(tiles, img.pixel(k), closest_index(tiles, img.pixel(k))),
{
    let px: Rgb = img.pixel(k);
    lemma_color_of_key(px);
    lemma_closest_exists(tiles, px);
    assert(occurs_in(img, color_key(px), img.count() as int));
}

/// Only one index is that of the nearest tile.
pub proof fn lemma_closest_unique(tiles: Seq<TileView>, px: Rgb, i: int, j: int)
    requires
        is_closest(tiles, px, i),
        is_closest(tiles, px, j),
    ensures
        i == j,
{
    if i < j {
        assert(dist_sq(px, tiles[j].avg) < dist_sq(px, tiles[i].avg));
        assert(dist_sq(px, tiles[i].avg) <= dist_sq(px, tiles[j].avg));
    } else if j < i {
        assert(dist_sq(px, tiles[i].avg) < dist_sq(px, tiles[j].avg));
        assert(dist_sq(px, tiles[j].avg) <= dist_sq(px, tiles[i].avg));
    }
}

/// Of two tiles with the same average colour, the later one is never the
/// nearest tile.
pub proof fn lemma_first_of_equals_wins(tiles: Seq<TileView>, px: Rgb, i: int, j: int)
    requires
        0 <= i < j < tiles.len(),
        tiles[i].avg == tiles[j].avg,
    ensures
        closest_index(tiles, px) != j,
        !is_closest(tiles, px, j),
{
    if is_closest(tiles, px, j) {
        assert(dist_sq(px, tiles[j].avg) < dist_sq(px, tiles[i].avg));
    }
    lemma_closest_exists(tiles, px);
}

/// A sequence that has a tile has a nearest tile.
pub proof fn lemma_closest_exists(tiles: Seq<TileView>, px: Rgb)
    requires
        tiles.len() >= 1,
    ensures
        is_closest(tiles, px, closest_index(tiles, px)),
{
    let i: int = lemma_closest_upto(tiles, px, tiles.len() as int);
    assert(tiles.take(tiles.len() as int) =~= tiles);
}

/// The nearest tile among the first `n`.
proof fn lemma_closest_upto(tiles: Seq<TileView>, px: Rgb, n: int) -> (i: int)
    requires
        1 <= n <= tiles.len(),
    ensures
        is_closest(tiles.take(n), px, i),
    decreases n,
{
    if n == 1 {
        0
    } else {
        let p: int = lemma_closest_upto(tiles, px, n - 1);
        let before: Seq<TileView> = tiles.take(n - 1);
        let now: Seq<TileView> = tiles.take(n);
        assert forall|j: int| 0 <= j < n - 1 implies #[trigger] now[j] == before[j] by {}
        let i: int = if dist_sq(px, now[n - 1].avg) < dist_sq(px, now[p].avg) {
            n - 1
        } else {
            p
        };
        assert forall|j: int| 0 <= j < now.len() implies dist_sq(px, now[i].avg) <= dist_sq(
            px,
            (#[trigger] now[j]).avg,
        ) by {
            if j < n - 1 {
                assert(dist_sq(px, before[p].avg) <= dist_sq(px, before[j].avg));
            }
        }
        assert forall|j: int| 0 <= j < i implies dist_sq(px, now[i].avg) < dist_sq(
            px,
            (#[trigger] now[j]).avg,
        ) by {
            if i == p {
                assert(dist_sq(px, before[p].avg) < dist_sq(px, before[j].avg));
            } else {
                assert(dist_sq(px, before[p].avg) <= dist_sq(px, before[j].avg));
            }
        }
        i
    }
}

/// The least short side is the short side of one of the rasters, and no
/// raster has a shorter one.
pub proof fn lemma_min_side(imgs: Seq<RasterView>)
    requires
        imgs.len() >= 1,
    ensures
        exists|i: int| 0 <= i < imgs.len() && short_side(#[trigger] imgs[i]) == min_side(imgs),
        forall|i: int| 0 <= i < imgs.len() ==> min_side(imgs) <= short_side(#[trigger] imgs[i]),
    decreases imgs.len(),
{
    if imgs.len() == 1 {
        assert(short_side(imgs[0]) == min_side(imgs));
    } else {
        let rest: Seq<RasterView> = imgs.drop_last();
        lemma_min_side(rest);
        let w: int = choose|i: int| 0 <= i < rest.len() && short_side(#[trigger] rest[i])
            == min_side(rest);
        assert(rest[w] == imgs[w]);
        if short_side(imgs.last()) < min_side(rest) {
            assert(short_side(imgs[imgs.len() - 1]) == min_side(imgs));
        } else {
            assert(short_side(imgs[w]) == min_side(imgs));
        }
        assert forall|i: int| 0 <= i < imgs.len() implies min_side(imgs) <= short_side(
            #[trigger] imgs[i],
        ) by {
            if i < rest.len() {
                assert(rest[i] == imgs[i]);
            }
        }
    }
}

/// The tiles of a newly built set are as many as the images they are made
/// of, and the side of each is the least short side of those images.
pub proof fn lemma_new_side(imgs: Seq<RasterView>)
    requires
        new_outcome(imgs) is Ok,
    ensures
        new_outcome(imgs)->Ok_0.len() == imgs.len(),
        forall|i: int|
            0 <= i < imgs.len() ==> (#[trigger] new_outcome(imgs)->Ok_0[i]).side() == min_side(
                imgs,
            ),
{
}

/// A set of tiles, in the order in which they were given.
#[derive(Debug)]
pub struct TileSet {
    tiles: Vec<Tile>,
}

impl View for TileSet {
    type V = Seq<TileView>;

    closed spec fn view(&self) -> Seq<TileView> {
        self.tiles@.map_values(|t: Tile| t@)
    }
}

/// The shorter of a raster's two dimensions.
fn shorter_side(img: &Raster) -> (s: u32)
    ensures
        s == short_side(img@),
{
    let w: u32 = img.width();
    let h: u32 = img.height();
    if w < h {
        w
    } else {
        h
    }
}

/// The least of the short sides of `imgs`.
fn least_side(imgs: &Vec<Raster>) -> (s: u32)
    requires
        imgs@.len() >= 1,
    ensures
        s == min_side(raster_views(imgs@)),
{
    let ghost views: Seq<RasterView> = raster_views(imgs@);
    let mut s: u32 = shorter_side(&imgs[0]);
    let mut i: usize = 1;
    assert(views.take(1).len() == 1 && views.take(1)[0] == imgs@[0]@);
    while i < imgs.len()
        invariant
            1 <= i <= imgs@.len(),
            views == raster_views(imgs@),
            s == min_side(views.take(i as int)),
        decreases imgs@.len() - i,
    {
        let side: u32 = shorter_side(&imgs[i]);
        proof {
            let now: Seq<RasterView> = views.take(i + 1);
            assert(now.drop_last() =~= views.take(i as int));
            assert(now.last() == imgs@[i as int]@);
        }
        if side < s {
            s = side;
        }
        i = i + 1;
    }
    assert(views.take(i as int) =~= views);
    s
}

impl TileSet {
    /// The tile set's invariant: see [`tiles_wf`].
    pub open spec fn wf(&self) -> bool {
        tiles_wf(self@)
    }

    /// The tiles can be counted in a `usize`.
    pub proof fn lemma_len_bound(&self)
        ensures
            self@.len() <= usize::MAX,
    {
        assert(self.tiles.len() == self.tiles@.len());
    }

    /// Builds a tile set of `imgs`. The tiles' side length is the least
    /// dimension of any of the images; each image is resized to a square of
    /// that side, without regard to its aspect ratio, and made a tile.
    pub fn new(imgs: &Vec<Raster>) -> (res: Result<TileSet, MosaicError>)
        requires
            forall|i: int| 0 <= i < imgs@.len() ==> (#[trigger] imgs@[i]).wf(),
        ensures
            match res {
                Ok(set) => set.wf() && new_outcome(raster_views(imgs@)) == Ok::<
                    Seq<TileView>,
                    MosaicError,
                >(set@),
                Err(e) => new_outcome(raster_views(imgs@)) == Err::<Seq<TileView>, MosaicError>(e),
            },
    {
        let ghost views: Seq<RasterView> = raster_views(imgs@);
        if imgs.len() == 0 {
            return Err(MosaicError::NoTiles);
        }
        let s: u32 = least_side(imgs);
        if s == 0 {
            return Err(MosaicError::EmptyTile);
        }
        let mut tiles: Vec<Tile> = Vec::new();
        let mut i: usize = 0;
        while i < imgs.len()
            invariant
                i <= imgs@.len(),
                s >= 1,
                views == raster_views(imgs@),
                s == min_side(views),
                forall|j: int| 0 <= j < imgs@.len() ==> (#[trigger] imgs@[j]).wf(),
                tiles@.len() == i,
                forall|j: int|
                    0 <= j < i ==> can_resize(
                        (#[trigger] views[j]).width,
                        views[j].height,
                        s as nat,
                        s as nat,
                    ),
                forall|j: int|
                    0 <= j < i ==> (#[trigger] tiles@[j])@ == tile_of(
                        resized(views[j], s as nat, s as nat),
                    ) && tiles@[j].wf(),
            decreases imgs@.len() - i,
        {
            assert(views[i as int] == imgs@[i as int]@);
            match imgs[i].resize_exact(s, s) {
                Some(img) => {
                    let tile: Tile = Tile::from(img);
                    tiles.push(tile);
                },
                None => {
                    return Err(MosaicError::TooLarge);
                },
            }
            i = i + 1;
        }
        let set = TileSet { tiles };
        assert(set@ =~= uniform_tiles(views, s as nat));
        Ok(set)
    }

    /// The number of tiles.
    pub fn len(&self) -> (n: usize)
        ensures
            n == self@.len(),
    {
        self.tiles.len()
    }

    /// The tile with the index `i`.
    pub fn tile(&self, i: usize) -> (t: &Tile)
        requires
            i < self@.len(),
        ensures
            t@ == self@[i as int],
    {
        &self.tiles[i]
    }

    /// The side length of the tiles, read off the first tile.
    pub fn tile_side_len(&self) -> (s: u32)
        requires
            self.wf(),
        ensures
            s == self@[0].side(),
    {
        self.tiles[0].side_len()
    }

    /// The index of the tile nearest to `px`: a scan over the tiles that
    /// keeps the first tile at the least distance.
    pub fn closest_tile_index(&self, px: &Rgb) -> (best: usize)
        requires
            self.wf(),
        ensures
            is_closest(self@, *px, best as int),
            best == closest_index(self@, *px),
    {
        let n: usize = self.tiles.len();
        let mut best: usize = 0;
        let mut least: Distance = self.tiles[0].dist_to(px);
        let mut i: usize = 1;
        while i < n
            invariant
                1 <= i <= n,
                n == self@.len(),
                n == self.tiles@.len(),
                best < i,
                least.squared == dist_sq(*px, self@[best as int].avg),
                forall|j: int|
                    0 <= j < i ==> least.squared <= dist_sq(*px, (#[trigger] self@[j]).avg),
                forall|j: int|
                    0 <= j < best ==> least.squared < dist_sq(*px, (#[trigger] self@[j]).avg),
            decreases n - i,
        {
            let d: Distance = self.tiles[i].dist_to(px);
            if d.squared < least.squared {
                best = i;
                least = d;
            }
            i = i + 1;
        }
        proof {
            lemma_closest_exists(self@, *px);
            lemma_closest_unique(self@, *px, best as int, closest_index(self@, *px));
        }
        best
    }

    /// The tile nearest to `px`; of several at the same distance, the one
    /// that was given first.
    pub fn closest_tile(&self, px: &Rgb) -> (t: &Tile)
        requires
            self.wf(),
        ensures
            t@ == self@[closest_index(self@, *px)],
            is_closest(self@, *px, closest_index(self@, *px)),
    {
        let i: usize = self.closest_tile_index(px);
        &self.tiles[i]
    }

    /// Maps the key of each colour that occurs in `img` to the index of the
    /// tile nearest to it. The search is made once for each colour.
    pub fn map_to(&self, img: &Raster) -> (map: HashMap<u32, usize>)
        requires
            self.wf(),
            img.wf(),
        ensures
            map@ == color_map(self@, img@, img@.count() as int),
    {
        broadcast use {
            vstd::std_specs::hash::axiom_u32_obeys_hash_table_key_model,
            vstd::std_specs::hash::axiom_random_state_builds_valid_hashers,
            vstd::std_specs::hash::axiom_contains_deref_key,
        };

        let n: usize = img.pixel_count();
        let mut map: HashMap<u32, usize> = HashMap::new();
        let mut k: usize = 0;
        assert(map@ =~= color_map(self@, img@, 0));
        while k < n
            invariant
                k <= n,
                n == img@.count(),
                self.wf(),
                img.wf(),
                map@ == color_map(self@, img@, k as int),
            decreases n - k,
        {
            let px: Rgb = img.pixel(k);
            let key: u32 = px.key();
            proof {
                lemma_color_of_key(px);
            }
            if !map.contains_key(&key) {
                let idx: usize = self.closest_tile_index(&px);
                map.insert(key, idx);
            }
            proof {
                let after: Map<u32, usize> = color_map(self@, img@, k + 1);
                assert forall|other: u32| after.contains_key(other) <==> map@.contains_key(
                    other,
                ) by {
                    if occurs_in(img@, other, k + 1) {
                        let w: int = choose|w: int|
                            0 <= w < k + 1 && color_key(#[trigger] img@.pixel(w)) == other;
                        if w < k {
                            assert(occurs_in(img@, other, k as int));
                        }
                    }
                    if map@.contains_key(other) {
                        if other == key {
                            assert(color_key(img@.pixel(k as int)) == other);
                        } else {
                            assert(occurs_in(img@, other, k as int));
                            let w: int = choose|w: int|
                                0 <= w < k && color_key(#[trigger] img@.pixel(w)) == other;
                            assert(0 <= w < k + 1);
                        }
                    }
                }
                assert(map@ =~= after);
            }
            k = k + 1;
        }
        map
    }

    /// Replaces every tile by a tile of side `s`, made by resizing the
    /// tile's raster. Where that cannot be done, the tiles stay as they are.
    pub fn scale_tiles(&mut self, s: u32) -> (res: Result<(), MosaicError>)
        requires
            old(self).wf(),
        ensures
            final(self).wf(),
            match res {
                Ok(_) => scale_outcome(old(self)@, s as nat) == Ok::<Seq<TileView>, MosaicError>(
                    final(self)@,
                ),
                Err(e) => scale_outcome(old(self)@, s as nat) == Err::<Seq<TileView>, MosaicError>(
                    e,
                ) && final(self)@ == old(self)@,
            },
    {
        if s == 0 {
            return Err(MosaicError::EmptyTile);
        }
        let side: u32 = self.tile_side_len();
        if !resize_allowed(side, side, s, s) {
            return Err(MosaicError::TooLarge);
        }
        let n: usize = self.tiles.len();
        let mut tiles: Vec<Tile> = Vec::new();
        let mut i: usize = 0;
        while i < n
            invariant
                i <= n,
                n == self.tiles@.len(),
                n == self@.len(),
                self.wf(),
                s >= 1,
                side == self@[0].side(),
                can_resize(side as nat, side as nat, s as nat, s as nat),
                tiles@.len() == i,
                forall|j: int|
                    0 <= j < i ==> (#[trigger] tiles@[j])@ == tile_of(
                        resized(self@[j].img, s as nat, s as nat),
                    ) && tiles@[j].wf(),
            decreases n - i,
        {
            assert(self@[i as int].wf() && self@[i as int].side() == side);
            let img: Raster = resize_triangle(self.tiles[i].img(), s, s);
            tiles.push(Tile::from(img));
            i = i + 1;
        }
        let ghost before: Seq<TileView> = self@;
        self.tiles = tiles;
        assert(self@ =~= uniform_tiles(tile_images(before), s as nat));
        Ok(())
    }
}

} // verus!
