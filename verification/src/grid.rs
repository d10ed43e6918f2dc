//! The grid abstraction: a uniform read interface over scalar sources.
//!
//! A grid exposes a padded lookup coordinate space of `size()` columns and
//! rows; `get_point` returns the sample at a coordinate or `None` when the
//! coordinate is outside the populated domain or masked out. `extents()`
//! yields non-overlapping rectangles, each padded one cell beyond the region
//! to contour, so that every cell window on the boundary can still read a
//! full 2x2 neighborhood.

use crate::error::{new_error, Error, ErrorKind};
use vstd::arithmetic::div_mod::{
    lemma_fundamental_div_mod, lemma_fundamental_div_mod_converse,
};
use vstd::arithmetic::mul::lemma_mul_inequality;
use vstd::prelude::*;

verus! {

/// An integer grid coordinate.
#[derive(Clone, Copy, Debug, PartialEq, Eq, Structural)]
pub struct Coord {
    pub x: i64,
    pub y: i64,
}

/// An inclusive rectangle of grid coordinates to scan.
#[derive(Clone, Copy, Debug, PartialEq, Eq, Structural)]
pub struct Extent {
    pub top_left: Coord,
    pub bottom_right: Coord,
}

/// An extent stays within the lookup coordinate space of a grid whose
/// padded size is `w` by `h`: cell windows read corners one step back, and
/// the scan visits one row and column past `bottom_right`.
pub open spec fn extent_in_bounds(e: Extent, w: int, h: int) -> bool {
    &&& -1 <= e.top_left.x
    &&& -1 <= e.top_left.y
    &&& e.bottom_right.x <= w - 2
    &&& e.bottom_right.y <= h - 2
}

/// The extent makes the scan visit the cell window at `(x, y)`: the scan
/// covers one row and column past the extent's bottom-right corner.
pub open spec fn window_in_extent(x: int, y: int, e: Extent) -> bool {
    &&& e.top_left.x <= x <= e.bottom_right.x + 1
    &&& e.top_left.y <= y <= e.bottom_right.y + 1
}

/// In how many of the extents the cell window at `(x, y)` is scanned.
pub open spec fn scan_count(exts: Seq<Extent>, x: int, y: int) -> int
    decreases exts.len(),
{
    if exts.len() == 0 {
        0
    } else {
        scan_count(exts.drop_last(), x, y) + (if window_in_extent(x, y, exts.last()) {
            1int
        } else {
            0int
        })
    }
}

/// A scan count is never negative.
proof fn lemma_scan_count_nonneg(exts: Seq<Extent>, x: int, y: int)
    ensures
        scan_count(exts, x, y) >= 0,
    decreases exts.len(),
{
    if exts.len() > 0 {
        lemma_scan_count_nonneg(exts.drop_last(), x, y);
    }
}

/// The scan count of a single extent is its window indicator.
proof fn lemma_scan_count_singleton(e: Extent, x: int, y: int)
    ensures
        scan_count(seq![e], x, y) == (if window_in_extent(x, y, e) {
            1int
        } else {
            0int
        }),
{
    let s = seq![e];
    assert(s.drop_last() =~= Seq::<Extent>::empty());
    assert(scan_count(Seq::<Extent>::empty(), x, y) == 0);
    assert(s.last() == e);
}

/// Scan counts add over concatenation.
proof fn lemma_scan_count_concat(a: Seq<Extent>, b: Seq<Extent>, x: int, y: int)
    ensures
        scan_count(a + b, x, y) == scan_count(a, x, y) + scan_count(b, x, y),
    decreases b.len(),
{
    if b.len() == 0 {
        assert(a + b =~= a);
    } else {
        lemma_scan_count_concat(a, b.drop_last(), x, y);
        assert((a + b).drop_last() =~= a + b.drop_last());
        assert((a + b).last() == b.last());
    }
}

/// A read-only scalar source on a regular grid.
///
/// `spec_width()`/`spec_height()` give the padded lookup space, which is two
/// more than the populated domain in each direction; samples may be present
/// only at `0 <= x <= spec_width() - 3`, `0 <= y <= spec_height() - 3`.
pub trait Grid: Sized {
    /// Padded width of the lookup coordinate space.
    spec fn spec_width(&self) -> int;

    /// Padded height of the lookup coordinate space.
    spec fn spec_height(&self) -> int;

    /// The sample at a coordinate; `None` outside the populated domain or
    /// where masked out.
    spec fn spec_value(&self, x: int, y: int) -> Option<i64>;

    /// The padded size `(width, height)` of the lookup coordinate space.
    fn size(&self) -> (s: (usize, usize))
        ensures
            s.0 as int == self.spec_width(),
            s.1 as int == self.spec_height(),
            2 <= self.spec_width() <= i64::MAX,
            2 <= self.spec_height() <= i64::MAX,
    ;

    /// Reads one sample.
    fn get_point(&self, coord: Coord) -> (r: Option<i64>)
        ensures
            r == self.spec_value(coord.x as int, coord.y as int),
            r is Some ==> 0 <= coord.x && 0 <= coord.y && coord.x as int <= self.spec_width()
                - 3 && coord.y as int <= self.spec_height() - 3,
    ;

    /// The non-overlapping rectangles to scan, as a specification value.
    spec fn spec_extents(&self) -> Seq<Extent>;

    /// The non-overlapping rectangles to scan. Their scan regions are
    /// pairwise disjoint, and every cell window whose four corner samples
    /// are present is scanned exactly once.
    fn extents(&self) -> (v: Vec<Extent>)
        ensures
            v@ == self.spec_extents(),
            forall|i: int|
                0 <= i < v@.len() ==> extent_in_bounds(
                    #[trigger] v@[i],
                    self.spec_width(),
                    self.spec_height(),
                ),
            forall|x: int, y: int| #[trigger] scan_count(v@, x, y) <= 1,
            forall|x: int, y: int|
                self.spec_value(x - 1, y - 1) is Some && self.spec_value(x, y - 1) is Some
                    && self.spec_value(x - 1, y) is Some && self.spec_value(x, y) is Some
                    ==> #[trigger] scan_count(v@, x, y) == 1,
    ;
}

/// A flat row-major buffer of `width * height` samples, padded by one
/// implicit absent border cell on every side.
pub struct Buffer {
    data: Vec<i64>,
    width: usize,
    height: usize,
}

impl Buffer {
    #[verifier::type_invariant]
    spec fn inv(self) -> bool {
        &&& self.data@.len() == self.width * self.height
        &&& self.width + 2 <= i64::MAX
        &&& self.height + 2 <= i64::MAX
        &&& self.width + 2 <= usize::MAX
        &&& self.height + 2 <= usize::MAX
    }

    /// Builds a flat buffer; fails with `BadDimension` when the data length
    /// does not match `width * height`.
    pub fn new(data: Vec<i64>, width: usize, height: usize) -> (r: Result<Buffer, Error>)
        requires
            width + 2 <= i64::MAX,
            height + 2 <= i64::MAX,
            width + 2 <= usize::MAX,
            height + 2 <= usize::MAX,
        ensures
            match r {
                Ok(b) => {
                    &&& data@.len() == width * height
                    &&& b.spec_width() == width + 2
                    &&& b.spec_height() == height + 2
                    &&& b.spec_extents() =~= seq![
                        Extent {
                            top_left: Coord { x: -1 as i64, y: -1 as i64 },
                            bottom_right: Coord { x: width as i64, y: height as i64 },
                        },
                    ]
                    &&& forall|x: int, y: int|
                        #[trigger] b.spec_value(x, y) == (if 0 <= x < width && 0 <= y < height {
                            Some(data@[y * width + x])
                        } else {
                            Option::<i64>::None
                        })
                },
                Err(e) => data@.len() != width * height && e.kind == ErrorKind::BadDimension,
            },
    {
        let len = data.len();
        let prod = width.checked_mul(height);
        match prod {
            Some(p) if len == p => {
                let b = Buffer { data, width, height };
                proof {
                    assert forall|x: int, y: int|
                        #[trigger] b.spec_value(x, y) == (if 0 <= x < width && 0 <= y < height {
                            Some(data@[y * width + x])
                        } else {
                            Option::<i64>::None
                        }) by {
                        if 0 <= x < width && 0 <= y < height {
                            assert(0 <= y * width + x < width * height) by (nonlinear_arith)
                                requires
                                    0 <= x < width as int,
                                    0 <= y < height as int,
                            ;
                        }
                    }
                }
                Ok(b)
            },
            _ => Err(new_error(ErrorKind::BadDimension)),
        }
    }

    /// The backing samples in row-major order.
    pub fn data(&self) -> (d: &[i64])
        ensures
            d@.len() == (self.spec_width() - 2) * (self.spec_height() - 2),
            forall|x: int, y: int|
                0 <= x < self.spec_width() - 2 && 0 <= y < self.spec_height() - 2
                    ==> #[trigger] self.spec_value(x, y) == Some(
                    d@[y * (self.spec_width() - 2) + x],
                ),
    {
        proof {
            use_type_invariant(self);
        }
        self.data.as_slice()
    }
}

impl Grid for Buffer {
    closed spec fn spec_extents(&self) -> Seq<Extent> {
        seq![
            Extent {
                top_left: Coord { x: -1 as i64, y: -1 as i64 },
                bottom_right: Coord { x: self.width as i64, y: self.height as i64 },
            },
        ]
    }

    closed spec fn spec_width(&self) -> int {
        self.width + 2
    }

    closed spec fn spec_height(&self) -> int {
        self.height + 2
    }

    closed spec fn spec_value(&self, x: int, y: int) -> Option<i64> {
        if 0 <= x < self.width && 0 <= y < self.height {
            Some(self.data@[y * self.width + x])
        } else {
            None
        }
    }

    fn size(&self) -> (s: (usize, usize))
    {
        proof {
            use_type_invariant(self);
        }
        (self.width + 2, self.height + 2)
    }

    fn get_point(&self, coord: Coord) -> (r: Option<i64>)
    {
        proof {
            use_type_invariant(self);
        }
        if coord.x < 0 || coord.y < 0 || coord.x >= self.width as i64 || coord.y
            >= self.height as i64 {
            None
        } else {
            let x = coord.x as usize;
            let y = coord.y as usize;
            let n = self.data.len();
            proof {
                assert(n == self.width * self.height);
                assert(0 <= y * self.width + x && y * self.width + x < self.width * self.height)
                    by (nonlinear_arith)
                    requires
                        0 <= x as int,
                        0 <= y as int,
                        (x as int) < self.width as int,
                        (y as int) < self.height as int,
                ;
            }
            Some(self.data[y * self.width + x])
        }
    }

    fn extents(&self) -> (v: Vec<Extent>)
    {
        proof {
            use_type_invariant(self);
        }
        let mut v: Vec<Extent> = Vec::new();
        v.push(
            Extent {
                top_left: Coord { x: -1, y: -1 },
                bottom_right: Coord { x: self.width as i64, y: self.height as i64 },
            },
        );
        proof {
            assert(v@ =~= self.spec_extents());
            let e = v@[0];
            assert(v@ =~= seq![e]);
            assert forall|x: int, y: int| #[trigger] scan_count(v@, x, y) <= 1 by {
                lemma_scan_count_singleton(e, x, y);
            }
            assert forall|x: int, y: int|
                self.spec_value(x - 1, y - 1) is Some && self.spec_value(x, y - 1) is Some
                    && self.spec_value(x - 1, y) is Some && self.spec_value(x, y)
                    is Some implies #[trigger] scan_count(v@, x, y) == 1 by {
                lemma_scan_count_singleton(e, x, y);
                assert(window_in_extent(x, y, e));
            }
        }
        v
    }
}

/// Whether the tile at tile coordinate `(x, y)` of a tile table of `w` by
/// `h` tiles is assigned.
pub open spec fn tile_assigned(tiles: Seq<Seq<i64>>, w: int, h: int, x: int, y: int) -> bool {
    &&& 0 <= x < w
    &&& 0 <= y < h
    &&& y * w + x < tiles.len()
    &&& tiles[y * w + x].len() != 0
}

/// The extents contributed by tile slot `idx` of a tile table with tile
/// size `t`: none when unassigned, else the base extent and the border and
/// corner extents not claimed by a neighbor.
pub open spec fn tile_slot_extents(
    tiles: Seq<Seq<i64>>,
    w: int,
    h: int,
    t: int,
    idx: int,
) -> Seq<Extent> {
    let tx = idx % w;
    let ty = idx / w;
    let left = tx * t;
    let top = ty * t;
    let right = (tx + 1) * t - 1;
    let bottom = (ty + 1) * t - 1;
    if tiles[idx].len() == 0 {
        Seq::empty()
    } else {
        seq![
            Extent {
                top_left: Coord { x: (left + 1) as i64, y: (top + 1) as i64 },
                bottom_right: Coord { x: right as i64, y: bottom as i64 },
            },
        ] + (if !tile_assigned(tiles, w, h, tx - 1, ty) {
            seq![
                Extent {
                    top_left: Coord { x: left as i64, y: (top + 1) as i64 },
                    bottom_right: Coord { x: (left - 1) as i64, y: bottom as i64 },
                },
            ]
        } else {
            Seq::empty()
        }) + (if !tile_assigned(tiles, w, h, tx, ty - 1) {
            seq![
                Extent {
                    top_left: Coord { x: (left + 1) as i64, y: top as i64 },
                    bottom_right: Coord { x: (right - 1) as i64, y: (top - 1) as i64 },
                },
            ]
        } else {
            Seq::empty()
        }) + (if !tile_assigned(tiles, w, h, tx, ty - 1) && !tile_assigned(
            tiles,
            w,
            h,
            tx + 1,
            ty - 1,
        ) {
            seq![
                Extent {
                    top_left: Coord { x: (right + 1) as i64, y: top as i64 },
                    bottom_right: Coord { x: right as i64, y: (top - 1) as i64 },
                },
            ]
        } else {
            Seq::empty()
        }) + (if !tile_assigned(tiles, w, h, tx - 1, ty) && !tile_assigned(
            tiles,
            w,
            h,
            tx,
            ty - 1,
        ) && !tile_assigned(tiles, w, h, tx - 1, ty - 1) {
            seq![
                Extent {
                    top_left: Coord { x: left as i64, y: top as i64 },
                    bottom_right: Coord { x: (left - 1) as i64, y: (top - 1) as i64 },
                },
            ]
        } else {
            Seq::empty()
        })
    }
}

/// The extents of the first `i` tile slots of a tile table, in slot order.
pub open spec fn tiled_extents(tiles: Seq<Seq<i64>>, w: int, h: int, t: int, i: int) -> Seq<
    Extent,
>
    decreases i,
{
    if i <= 0 {
        Seq::empty()
    } else {
        tiled_extents(tiles, w, h, t, i - 1) + tile_slot_extents(tiles, w, h, t, i - 1)
    }
}

/// A grid whose backing is split into square tiles of `TILE_SIZE` by
/// `TILE_SIZE` samples; `width` and `height` count tiles, not samples.
/// Unassigned tiles read as absent.
pub struct TiledBuffer<const TILE_SIZE: usize> {
    tiles: Vec<Vec<i64>>,
    width: usize,
    height: usize,
}

impl<const TILE_SIZE: usize> TiledBuffer<TILE_SIZE> {
    #[verifier::type_invariant]
    spec fn inv(self) -> bool {
        &&& 1 <= TILE_SIZE
        &&& TILE_SIZE * TILE_SIZE <= usize::MAX
        &&& self.tiles@.len() == self.width * self.height
        &&& self.width * TILE_SIZE + 2 <= i64::MAX
        &&& self.height * TILE_SIZE + 2 <= i64::MAX
        &&& self.width * TILE_SIZE + 2 <= usize::MAX
        &&& self.height * TILE_SIZE + 2 <= usize::MAX
        &&& forall|i: int|
            0 <= i < self.tiles@.len() ==> (#[trigger] self.tiles@[i]@.len() == 0
                || self.tiles@[i]@.len() == TILE_SIZE * TILE_SIZE)
    }

    /// Whether the tile at tile coordinate `(x, y)` has been assigned.
    pub closed spec fn spec_has_tile(&self, x: int, y: int) -> bool {
        &&& 0 <= x < self.width
        &&& 0 <= y < self.height
        &&& y * self.width + x < self.tiles@.len()
        &&& self.tiles@[y * self.width + x]@.len() != 0
    }

    /// The extents contributed by the tile in slot `idx`: none when the
    /// tile is unassigned, else its base extent and the border and corner
    /// extents not claimed by a neighbor.
    closed spec fn tile_part(&self, idx: int) -> Seq<Extent> {
        let w = self.width as int;
        let t = TILE_SIZE as int;
        let tx = idx % w;
        let ty = idx / w;
        let left = tx * t;
        let top = ty * t;
        let right = (tx + 1) * t - 1;
        let bottom = (ty + 1) * t - 1;
        if self.tiles@[idx]@.len() == 0 {
            Seq::empty()
        } else {
            seq![
                Extent {
                    top_left: Coord { x: (left + 1) as i64, y: (top + 1) as i64 },
                    bottom_right: Coord { x: right as i64, y: bottom as i64 },
                },
            ] + (if !self.spec_has_tile(tx - 1, ty) {
                seq![
                    Extent {
                        top_left: Coord { x: left as i64, y: (top + 1) as i64 },
                        bottom_right: Coord { x: (left - 1) as i64, y: bottom as i64 },
                    },
                ]
            } else {
                Seq::empty()
            }) + (if !self.spec_has_tile(tx, ty - 1) {
                seq![
                    Extent {
                        top_left: Coord { x: (left + 1) as i64, y: top as i64 },
                        bottom_right: Coord { x: (right - 1) as i64, y: (top - 1) as i64 },
                    },
                ]
            } else {
                Seq::empty()
            }) + (if !self.spec_has_tile(tx, ty - 1) && !self.spec_has_tile(tx + 1, ty - 1) {
                seq![
                    Extent {
                        top_left: Coord { x: (right + 1) as i64, y: top as i64 },
                        bottom_right: Coord { x: right as i64, y: (top - 1) as i64 },
                    },
                ]
            } else {
                Seq::empty()
            }) + (if !self.spec_has_tile(tx - 1, ty) && !self.spec_has_tile(tx, ty - 1)
                && !self.spec_has_tile(tx - 1, ty - 1) {
                seq![
                    Extent {
                        top_left: Coord { x: left as i64, y: top as i64 },
                        bottom_right: Coord { x: (left - 1) as i64, y: (top - 1) as i64 },
                    },
                ]
            } else {
                Seq::empty()
            })
        }
    }

    /// The extents of the first `i` tile slots, in slot order.
    closed spec fn parts_up_to(&self, i: int) -> Seq<Extent>
        decreases i,
    {
        if i <= 0 {
            Seq::empty()
        } else {
            self.parts_up_to(i - 1) + self.tile_part(i - 1)
        }
    }

    /// An all-empty tile vector contributes no extents.
    proof fn lemma_parts_empty(&self, i: int)
        requires
            forall|j: int| 0 <= j < self.tiles@.len() ==> (#[trigger] self.tiles@[j])@.len()
                == 0,
            i <= self.tiles@.len(),
        ensures
            self.parts_up_to(i) == Seq::<Extent>::empty(),
        decreases i,
    {
        if i > 0 {
            self.lemma_parts_empty(i - 1);
            assert(self.parts_up_to(i) =~= Seq::<Extent>::empty());
        } else {
            assert(self.parts_up_to(i) =~= Seq::<Extent>::empty());
        }
    }

    /// Builds an empty tiled buffer of `width` by `height` tiles.
    pub fn new(width: usize, height: usize) -> (r: TiledBuffer<TILE_SIZE>)
        requires
            1 <= TILE_SIZE,
            TILE_SIZE * TILE_SIZE <= usize::MAX,
            width * height <= usize::MAX,
            width * TILE_SIZE + 2 <= i64::MAX,
            height * TILE_SIZE + 2 <= i64::MAX,
            width * TILE_SIZE + 2 <= usize::MAX,
            height * TILE_SIZE + 2 <= usize::MAX,
        ensures
            r.spec_width() == width * TILE_SIZE + 2,
            r.spec_height() == height * TILE_SIZE + 2,
            r.spec_width_tiles() == width,
            r.spec_height_tiles() == height,
            r.spec_tiles().len() == width * height,
            forall|i: int| 0 <= i < r.spec_tiles().len() ==> (#[trigger] r.spec_tiles()[i]).len() == 0,
            forall|x: int, y: int| #[trigger] r.spec_value(x, y) is None,
            forall|x: int, y: int| !(#[trigger] r.spec_has_tile(x, y)),
            r.spec_extents() == Seq::<Extent>::empty(),
            r.spec_extents() == tiled_extents(
                r.spec_tiles(),
                width as int,
                height as int,
                TILE_SIZE as int,
                r.spec_tiles().len() as int,
            ),
    {
        let n = width * height;
        let mut tiles: Vec<Vec<i64>> = Vec::new();
        let mut i: usize = 0;
        while i < n
            invariant
                i <= n,
                tiles@.len() == i,
                forall|j: int| 0 <= j < i ==> #[trigger] tiles@[j]@.len() == 0,
            decreases n - i,
        {
            tiles.push(Vec::new());
            i += 1;
        }
        let r = TiledBuffer { tiles, width, height };
        proof {
            assert forall|x: int, y: int| #[trigger] r.spec_value(x, y) is None by {
                if 0 <= x < r.width * TILE_SIZE && 0 <= y < r.height * TILE_SIZE {
                    lemma_tile_index_in_range::<TILE_SIZE>(r.width as int, r.height as int, x, y);
                }
            }
            assert forall|x: int, y: int| !(#[trigger] r.spec_has_tile(x, y)) by {
                if 0 <= x < r.width && 0 <= y < r.height {
                    assert(0 <= y * r.width + x < r.width * r.height) by (nonlinear_arith)
                        requires
                            0 <= x < r.width as int,
                            0 <= y < r.height as int,
                    ;
                }
            }
            r.lemma_parts_empty(r.tiles@.len() as int);
            r.lemma_extents_view(r.tiles@.len() as int);
        }
        r
    }

    /// Assigns the samples of one tile; fails with `BadDimension` on a wrong
    /// data length or an out-of-range tile coordinate.
    pub fn set_tile(&mut self, x: usize, y: usize, data: Vec<i64>) -> (r: Result<(), Error>)
        ensures
            match r {
                Ok(()) => {
                    &&& data@.len() == TILE_SIZE * TILE_SIZE
                    &&& x < old(self).spec_width_tiles()
                    &&& y < old(self).spec_height_tiles()
                    &&& final(self).spec_tiles() == old(self).spec_tiles().update(
                        y * old(self).spec_width_tiles() + x,
                        data@,
                    )
                },
                Err(e) => {
                    &&& e.kind == ErrorKind::BadDimension
                    &&& !(data@.len() == TILE_SIZE * TILE_SIZE && x < old(
                        self,
                    ).spec_width_tiles() && y < old(self).spec_height_tiles())
                    &&& *final(self) == *old(self)
                },
            },
            final(self).spec_width_tiles() == old(self).spec_width_tiles(),
            final(self).spec_height_tiles() == old(self).spec_height_tiles(),
            final(self).spec_tiles().len() == final(self).spec_width_tiles()
                * final(self).spec_height_tiles(),
            forall|xx: int, yy: int|
                #[trigger] final(self).spec_value(xx, yy) == Self::tile_value(
                    final(self).spec_tiles(),
                    final(self).spec_width_tiles(),
                    final(self).spec_height_tiles(),
                    TILE_SIZE as int,
                    xx,
                    yy,
                ),
            forall|xx: int, yy: int|
                #[trigger] final(self).spec_has_tile(xx, yy) == (0 <= xx
                    < final(self).spec_width_tiles() && 0 <= yy
                    < final(self).spec_height_tiles()
                    && final(self).spec_tiles()[yy * final(self).spec_width_tiles() + xx].len()
                    != 0),
            final(self).spec_extents() == tiled_extents(
                final(self).spec_tiles(),
                final(self).spec_width_tiles(),
                final(self).spec_height_tiles(),
                TILE_SIZE as int,
                final(self).spec_tiles().len() as int,
            ),
    {
        proof {
            use_type_invariant(&*self);
        }
        let r: Result<(), Error> = if data.len() != TILE_SIZE * TILE_SIZE || x >= self.width || y
            >= self.height {
            Err(new_error(ErrorKind::BadDimension))
        } else {
            let n = self.tiles.len();
            proof {
                assert(n == self.width * self.height);
                assert(0 <= (y as int) * self.width + x && (y as int) * self.width + x
                    < self.width * self.height) by (nonlinear_arith)
                    requires
                        0 <= x as int,
                        0 <= y as int,
                        (x as int) < self.width as int,
                        (y as int) < self.height as int,
                ;
            }
            let idx = y * self.width + x;
            // The vector is rebuilt and swapped in whole, so that the buffer
            // never holds a partially assigned state.
            let mut tiles2 = clone_tiles(&self.tiles);
            tiles2.set(idx, data);
            core::mem::swap(&mut self.tiles, &mut tiles2);
            proof {
                assert(self.spec_tiles() =~= old(self).spec_tiles().update(
                    y * old(self).spec_width_tiles() + x,
                    data@,
                ));
            }
            Ok(())
        };
        proof {
            use_type_invariant(&*self);
            assert forall|xx: int, yy: int|
                #[trigger] self.spec_value(xx, yy) == Self::tile_value(
                    self.spec_tiles(),
                    self.spec_width_tiles(),
                    self.spec_height_tiles(),
                    TILE_SIZE as int,
                    xx,
                    yy,
                ) by {
                if 0 <= xx < self.width * TILE_SIZE && 0 <= yy < self.height * TILE_SIZE {
                    lemma_tile_index_in_range::<TILE_SIZE>(
                        self.width as int,
                        self.height as int,
                        xx,
                        yy,
                    );
                }
            }
            assert forall|xx: int, yy: int|
                #[trigger] self.spec_has_tile(xx, yy) == (0 <= xx < self.spec_width_tiles() && 0
                    <= yy < self.spec_height_tiles()
                    && self.spec_tiles()[yy * self.spec_width_tiles() + xx].len() != 0) by {
                if 0 <= xx < self.width && 0 <= yy < self.height {
                    assert(0 <= yy * self.width as int + xx < self.width * self.height)
                        by (nonlinear_arith)
                        requires
                            0 <= xx < self.width as int,
                            0 <= yy < self.height as int,
                    ;
                }
            }
            self.lemma_extents_view(self.tiles@.len() as int);
        }
        r
    }

    /// The number of tile columns.
    pub closed spec fn spec_width_tiles(&self) -> int {
        self.width as int
    }

    /// The number of tile rows.
    pub closed spec fn spec_height_tiles(&self) -> int {
        self.height as int
    }

    /// The assigned tile data, indexed by `tile_y * width + tile_x`.
    pub closed spec fn spec_tiles(&self) -> Seq<Seq<i64>> {
        self.tiles@.map_values(|t: Vec<i64>| t@)
    }

    /// Whether the tile at tile coordinate `(x, y)` has been assigned.
    pub fn has_tile(&self, x: i64, y: i64) -> (r: bool)
        ensures
            r == self.spec_has_tile(x as int, y as int),
    {
        proof {
            use_type_invariant(self);
            assert(self.width as int <= self.width * TILE_SIZE && self.height as int
                <= self.height * TILE_SIZE) by (nonlinear_arith)
                requires
                    TILE_SIZE as int >= 1,
                    self.width as int >= 0,
                    self.height as int >= 0,
            ;
        }
        if x < 0 || y < 0 || x >= self.width as i64 || y >= self.height as i64 {
            false
        } else {
            let n = self.tiles.len();
            proof {
                assert(n == self.width * self.height);
                assert(0 <= (y as int) * self.width + x && (y as int) * self.width + x
                    < self.width * self.height) by (nonlinear_arith)
                    requires
                        0 <= x as int,
                        0 <= y as int,
                        (x as int) < self.width as int,
                        (y as int) < self.height as int,
                ;
            }
            let idx = (y as usize) * self.width + (x as usize);
            self.tiles[idx].len() != 0
        }
    }

    /// The sample mapping of the assigned tiles: a sample comes from the
    /// tile containing its coordinate, absent where no tile is assigned.
    pub open spec fn tile_value(
        tiles: Seq<Seq<i64>>,
        width_tiles: int,
        height_tiles: int,
        tile_size: int,
        x: int,
        y: int,
    ) -> Option<i64> {
        if 0 <= x < width_tiles * tile_size && 0 <= y < height_tiles * tile_size {
            let tile = tiles[(y / tile_size) * width_tiles + x / tile_size];
            if tile.len() == 0 {
                None
            } else {
                Some(tile[(y % tile_size) * tile_size + x % tile_size])
            }
        } else {
            None
        }
    }
}

/// Copies one tile's samples.
fn clone_tile(t: &Vec<i64>) -> (r: Vec<i64>)
    ensures
        r@ == t@,
{
    let mut r: Vec<i64> = Vec::new();
    let mut i: usize = 0;
    while i < t.len()
        invariant
            i <= t@.len(),
            r@.len() == i,
            forall|j: int| 0 <= j < i ==> #[trigger] r@[j] == t@[j],
        decreases t@.len() - i,
    {
        r.push(t[i]);
        i += 1;
    }
    proof {
        assert(r@ =~= t@);
    }
    r
}

/// Copies the tile vector, element by element.
fn clone_tiles(v: &Vec<Vec<i64>>) -> (r: Vec<Vec<i64>>)
    ensures
        r@.len() == v@.len(),
        forall|j: int| 0 <= j < v@.len() ==> #[trigger] r@[j]@ == v@[j]@,
{
    let mut r: Vec<Vec<i64>> = Vec::new();
    let mut i: usize = 0;
    while i < v.len()
        invariant
            i <= v@.len(),
            r@.len() == i,
            forall|j: int| 0 <= j < i ==> #[trigger] r@[j]@ == v@[j]@,
        decreases v@.len() - i,
    {
        let t = clone_tile(&v[i]);
        r.push(t);
        i += 1;
    }
    r
}

/// Tile-relative decomposition stays inside the tile vector and the tile.
proof fn lemma_tile_index_in_range<const TILE_SIZE: usize>(w: int, h: int, x: int, y: int)
    requires
        1 <= TILE_SIZE,
        0 <= x < w * TILE_SIZE,
        0 <= y < h * TILE_SIZE,
    ensures
        0 <= x / (TILE_SIZE as int) < w,
        0 <= y / (TILE_SIZE as int) < h,
        0 <= (y / (TILE_SIZE as int)) * w + x / (TILE_SIZE as int) < w * h,
        0 <= (y % (TILE_SIZE as int)) * TILE_SIZE + x % (TILE_SIZE as int) < TILE_SIZE
            * TILE_SIZE,
{
    let t = TILE_SIZE as int;
    lemma_fundamental_div_mod(x, t);
    lemma_fundamental_div_mod(y, t);
    assert(0 <= x / t < w && 0 <= y / t < h) by (nonlinear_arith)
        requires
            t >= 1,
            0 <= x < w * t,
            0 <= y < h * t,
            x == t * (x / t) + x % t,
            y == t * (y / t) + y % t,
            0 <= x % t < t,
            0 <= y % t < t,
    ;
    assert((y / t) * w + x / t < w * h) by (nonlinear_arith)
        requires
            0 <= x / t < w,
            0 <= y / t < h,
    ;
    assert(0 <= (y / t) * w + x / t) by (nonlinear_arith)
        requires
            0 <= x / t,
            0 <= y / t,
            w >= 1,
    ;
    assert((y % t) * t + x % t < t * t) by (nonlinear_arith)
        requires
            0 <= x % t < t,
            0 <= y % t < t,
    ;
    assert(0 <= (y % t) * t + x % t) by (nonlinear_arith)
        requires
            0 <= x % t < t,
            0 <= y % t < t,
    ;
}

/// A coordinate inside one tile's span divides down to that tile.
proof fn lemma_div_in_tile(c: int, k: int, t: int)
    requires
        t >= 1,
        k * t <= c,
        c <= (k + 1) * t - 1,
    ensures
        c / t == k,
{
    assert((k + 1) * t == k * t + t) by (nonlinear_arith);
    lemma_fundamental_div_mod_converse(c, t, k, c - k * t);
}

impl<const TILE_SIZE: usize> TiledBuffer<TILE_SIZE> {
    /// The slab index of the populated tile holding the sample at
    /// `(cx, cy)`, if any.
    spec fn corner_slab(&self, cx: int, cy: int) -> Option<int> {
        let t = TILE_SIZE as int;
        if self.spec_value(cx, cy) is Some {
            Some((cy / t) * self.width + cx / t)
        } else {
            None
        }
    }

    /// The slab that owns the cell window at `(x, y)`: the tile of its
    /// first present corner, trying upper left, upper right, lower left,
    /// then lower right.
    spec fn window_owner(&self, x: int, y: int) -> Option<int> {
        if self.corner_slab(x - 1, y - 1) is Some {
            self.corner_slab(x - 1, y - 1)
        } else if self.corner_slab(x, y - 1) is Some {
            self.corner_slab(x, y - 1)
        } else if self.corner_slab(x - 1, y) is Some {
            self.corner_slab(x - 1, y)
        } else {
            self.corner_slab(x, y)
        }
    }

    /// The tiled extent list equals its public form over the tile views.
    proof fn lemma_extents_view(&self, i: int)
        requires
            0 <= i <= self.tiles@.len(),
        ensures
            self.parts_up_to(i) == tiled_extents(
                self.spec_tiles(),
                self.width as int,
                self.height as int,
                TILE_SIZE as int,
                i,
            ),
        decreases i,
    {
        if i > 0 {
            self.lemma_extents_view(i - 1);
            assert(self.tile_part(i - 1) =~= tile_slot_extents(
                self.spec_tiles(),
                self.width as int,
                self.height as int,
                TILE_SIZE as int,
                i - 1,
            ));
            assert(self.parts_up_to(i) =~= tiled_extents(
                self.spec_tiles(),
                self.width as int,
                self.height as int,
                TILE_SIZE as int,
                i,
            ));
        } else {
            assert(self.parts_up_to(i) =~= tiled_extents(
                self.spec_tiles(),
                self.width as int,
                self.height as int,
                TILE_SIZE as int,
                i,
            ));
        }
    }

    /// The canonical form of `corner_slab`: present exactly when the
    /// coordinate lies in an assigned tile.
    proof fn lemma_corner_slab(&self, cx: int, cy: int)
        requires
            1 <= TILE_SIZE,
            self.tiles@.len() == self.width * self.height,
        ensures
            self.corner_slab(cx, cy) == (if 0 <= cx < self.width * TILE_SIZE && 0 <= cy
                < self.height * TILE_SIZE && self.spec_has_tile(
                cx / (TILE_SIZE as int),
                cy / (TILE_SIZE as int),
            ) {
                Some((cy / (TILE_SIZE as int)) * self.width + cx / (TILE_SIZE as int))
            } else {
                None
            }),
    {
        if 0 <= cx < self.width * TILE_SIZE && 0 <= cy < self.height * TILE_SIZE {
            lemma_tile_index_in_range::<TILE_SIZE>(self.width as int, self.height as int, cx, cy);
        }
    }

    /// Common facts shared by the per-case owner lemmas.
    spec fn owner_ctx(&self, idx: int, tx: int, ty: int) -> bool {
        let t = TILE_SIZE as int;
        let w = self.width as int;
        let h = self.height as int;
        &&& 1 <= TILE_SIZE
        &&& self.tiles@.len() == w * h
        &&& 0 <= tx < w
        &&& 0 <= ty < h
        &&& idx == ty * w + tx
        &&& self.tiles@[idx]@.len() != 0
    }

    /// Windows of the base extent are owned by their upper-left corner's
    /// tile.
    proof fn lemma_owner_base(&self, idx: int, tx: int, ty: int, x: int, y: int)
        requires
            self.owner_ctx(idx, tx, ty),
            tx * (TILE_SIZE as int) + 1 <= x <= (tx + 1) * (TILE_SIZE as int),
            ty * (TILE_SIZE as int) + 1 <= y <= (ty + 1) * (TILE_SIZE as int),
        ensures
            self.window_owner(x, y) == Some(idx),
    {
        let t = TILE_SIZE as int;
        let w = self.width as int;
        let h = self.height as int;
        assert((tx + 1) * t == tx * t + t && (ty + 1) * t == ty * t + t) by (nonlinear_arith);
        assert(tx * t >= 0 && ty * t >= 0 && (tx + 1) * t <= w * t && (ty + 1) * t <= h * t)
            by (nonlinear_arith)
            requires
                0 <= tx < w,
                0 <= ty < h,
                t >= 1,
        ;
        lemma_div_in_tile(x - 1, tx, t);
        lemma_div_in_tile(y - 1, ty, t);
        self.lemma_corner_slab(x - 1, y - 1);
        assert(self.corner_slab(x - 1, y - 1) == Some(idx));
    }

    /// Windows of the left border column are owned by this tile when the
    /// west neighbor is unassigned.
    proof fn lemma_owner_left(&self, idx: int, tx: int, ty: int, x: int, y: int)
        requires
            self.owner_ctx(idx, tx, ty),
            !self.spec_has_tile(tx - 1, ty),
            x == tx * (TILE_SIZE as int),
            ty * (TILE_SIZE as int) + 1 <= y <= (ty + 1) * (TILE_SIZE as int),
        ensures
            self.window_owner(x, y) == Some(idx),
    {
        let t = TILE_SIZE as int;
        let w = self.width as int;
        let h = self.height as int;
        assert((tx + 1) * t == tx * t + t && (ty + 1) * t == ty * t + t && (tx - 1) * t == tx
            * t - t) by (nonlinear_arith);
        assert(tx * t >= 0 && ty * t >= 0 && (tx + 1) * t <= w * t && (ty + 1) * t <= h * t)
            by (nonlinear_arith)
            requires
                0 <= tx < w,
                0 <= ty < h,
                t >= 1,
        ;
        if tx == 0 {
            self.lemma_corner_slab(x - 1, y - 1);
        } else {
            lemma_div_in_tile(x - 1, tx - 1, t);
            lemma_div_in_tile(y - 1, ty, t);
            self.lemma_corner_slab(x - 1, y - 1);
        }
        assert(self.corner_slab(x - 1, y - 1) is None);
        lemma_div_in_tile(x, tx, t);
        lemma_div_in_tile(y - 1, ty, t);
        self.lemma_corner_slab(x, y - 1);
        assert(self.corner_slab(x, y - 1) == Some(idx));
    }

    /// Windows of the top border row are owned by this tile when the north
    /// neighbor is unassigned.
    proof fn lemma_owner_top(&self, idx: int, tx: int, ty: int, x: int, y: int)
        requires
            self.owner_ctx(idx, tx, ty),
            !self.spec_has_tile(tx, ty - 1),
            tx * (TILE_SIZE as int) + 1 <= x <= (tx + 1) * (TILE_SIZE as int) - 1,
            y == ty * (TILE_SIZE as int),
        ensures
            self.window_owner(x, y) == Some(idx),
    {
        let t = TILE_SIZE as int;
        let w = self.width as int;
        let h = self.height as int;
        assert((tx + 1) * t == tx * t + t && (ty + 1) * t == ty * t + t && (ty - 1) * t == ty
            * t - t) by (nonlinear_arith);
        assert(tx * t >= 0 && ty * t >= 0 && (tx + 1) * t <= w * t && (ty + 1) * t <= h * t)
            by (nonlinear_arith)
            requires
                0 <= tx < w,
                0 <= ty < h,
                t >= 1,
        ;
        if ty == 0 {
            self.lemma_corner_slab(x - 1, y - 1);
            self.lemma_corner_slab(x, y - 1);
        } else {
            lemma_div_in_tile(x - 1, tx, t);
            lemma_div_in_tile(x, tx, t);
            lemma_div_in_tile(y - 1, ty - 1, t);
            self.lemma_corner_slab(x - 1, y - 1);
            self.lemma_corner_slab(x, y - 1);
        }
        assert(self.corner_slab(x - 1, y - 1) is None);
        assert(self.corner_slab(x, y - 1) is None);
        lemma_div_in_tile(x - 1, tx, t);
        lemma_div_in_tile(y, ty, t);
        self.lemma_corner_slab(x - 1, y);
        assert(self.corner_slab(x - 1, y) == Some(idx));
    }

    /// The upper-right corner window is owned by this tile when neither
    /// the north nor the northeast neighbor is assigned.
    proof fn lemma_owner_top_right(&self, idx: int, tx: int, ty: int, x: int, y: int)
        requires
            self.owner_ctx(idx, tx, ty),
            !self.spec_has_tile(tx, ty - 1),
            !self.spec_has_tile(tx + 1, ty - 1),
            x == (tx + 1) * (TILE_SIZE as int),
            y == ty * (TILE_SIZE as int),
        ensures
            self.window_owner(x, y) == Some(idx),
    {
        let t = TILE_SIZE as int;
        let w = self.width as int;
        let h = self.height as int;
        assert((tx + 1) * t == tx * t + t && (ty + 1) * t == ty * t + t && (ty - 1) * t == ty
            * t - t && (tx + 2) * t == (tx + 1) * t + t) by (nonlinear_arith);
        assert(tx * t >= 0 && ty * t >= 0 && (tx + 1) * t <= w * t && (ty + 1) * t <= h * t)
            by (nonlinear_arith)
            requires
                0 <= tx < w,
                0 <= ty < h,
                t >= 1,
        ;
        if ty == 0 {
            self.lemma_corner_slab(x - 1, y - 1);
            self.lemma_corner_slab(x, y - 1);
        } else {
            lemma_div_in_tile(x - 1, tx, t);
            lemma_div_in_tile(y - 1, ty - 1, t);
            self.lemma_corner_slab(x - 1, y - 1);
            if tx + 1 < w {
                lemma_div_in_tile(x, tx + 1, t);
                assert((tx + 2) * t <= w * t) by (nonlinear_arith)
                    requires
                        tx + 2 <= w,
                        t >= 1,
                ;
            } else {
                assert(x == w * t) by (nonlinear_arith)
                    requires
                        x == (tx + 1) * t,
                        tx + 1 == w,
                ;
            }
            self.lemma_corner_slab(x, y - 1);
        }
        assert(self.corner_slab(x - 1, y - 1) is None);
        assert(self.corner_slab(x, y - 1) is None);
        lemma_div_in_tile(x - 1, tx, t);
        lemma_div_in_tile(y, ty, t);
        self.lemma_corner_slab(x - 1, y);
        assert(self.corner_slab(x - 1, y) == Some(idx));
    }

    /// The upper-left corner window is owned by this tile when no west,
    /// north or northwest neighbor is assigned.
    proof fn lemma_owner_top_left(&self, idx: int, tx: int, ty: int, x: int, y: int)
        requires
            self.owner_ctx(idx, tx, ty),
            !self.spec_has_tile(tx - 1, ty),
            !self.spec_has_tile(tx, ty - 1),
            !self.spec_has_tile(tx - 1, ty - 1),
            x == tx * (TILE_SIZE as int),
            y == ty * (TILE_SIZE as int),
        ensures
            self.window_owner(x, y) == Some(idx),
    {
        let t = TILE_SIZE as int;
        let w = self.width as int;
        let h = self.height as int;
        assert((tx + 1) * t == tx * t + t && (ty + 1) * t == ty * t + t && (tx - 1) * t == tx
            * t - t && (ty - 1) * t == ty * t - t) by (nonlinear_arith);
        assert(tx * t >= 0 && ty * t >= 0 && (tx + 1) * t <= w * t && (ty + 1) * t <= h * t)
            by (nonlinear_arith)
            requires
                0 <= tx < w,
                0 <= ty < h,
                t >= 1,
        ;
        if tx == 0 || ty == 0 {
            self.lemma_corner_slab(x - 1, y - 1);
        } else {
            lemma_div_in_tile(x - 1, tx - 1, t);
            lemma_div_in_tile(y - 1, ty - 1, t);
            self.lemma_corner_slab(x - 1, y - 1);
        }
        assert(self.corner_slab(x - 1, y - 1) is None);
        if ty == 0 {
            self.lemma_corner_slab(x, y - 1);
        } else {
            lemma_div_in_tile(x, tx, t);
            lemma_div_in_tile(y - 1, ty - 1, t);
            self.lemma_corner_slab(x, y - 1);
        }
        assert(self.corner_slab(x, y - 1) is None);
        if tx == 0 {
            self.lemma_corner_slab(x - 1, y);
        } else {
            lemma_div_in_tile(x - 1, tx - 1, t);
            lemma_div_in_tile(y, ty, t);
            self.lemma_corner_slab(x - 1, y);
        }
        assert(self.corner_slab(x - 1, y) is None);
        lemma_div_in_tile(x, tx, t);
        lemma_div_in_tile(y, ty, t);
        self.lemma_corner_slab(x, y);
        assert(self.corner_slab(x, y) == Some(idx));
    }

    /// One tile's extents scan a window at most once, and only windows the
    /// tile owns.
    #[verifier::rlimit(100)]
    #[verifier::spinoff_prover]
    proof fn lemma_slab_count(&self, idx: int, x: int, y: int)
        requires
            1 <= TILE_SIZE,
            self.tiles@.len() == self.width * self.height,
            self.width * TILE_SIZE + 2 <= i64::MAX,
            self.height * TILE_SIZE + 2 <= i64::MAX,
            0 <= idx < self.tiles@.len(),
        ensures
            scan_count(self.tile_part(idx), x, y) <= 1,
            scan_count(self.tile_part(idx), x, y) >= 1 ==> self.window_owner(x, y) == Some(
                idx,
            ),
    {
        let t = TILE_SIZE as int;
        let w = self.width as int;
        let h = self.height as int;
        let p = self.tile_part(idx);
        if self.tiles@[idx]@.len() == 0 {
            assert(scan_count(p, x, y) == 0);
        } else {
            assert(w >= 1 && h >= 1) by (nonlinear_arith)
                requires
                    0 <= idx < w * h,
                    w >= 0,
                    h >= 0,
            ;
            lemma_fundamental_div_mod(idx, w);
            let tx = idx % w;
            let ty = idx / w;
            assert(0 <= ty && ty < h) by (nonlinear_arith)
                requires
                    idx == w * ty + tx,
                    0 <= tx < w,
                    0 <= idx < w * h,
                    w >= 1,
            ;
            let left = tx * t;
            let top = ty * t;
            let right = (tx + 1) * t - 1;
            let bottom = (ty + 1) * t - 1;
            assert((tx + 1) * t == tx * t + t && (ty + 1) * t == ty * t + t)
                by (nonlinear_arith);
            assert(tx * t >= 0 && ty * t >= 0) by (nonlinear_arith)
                requires
                    0 <= tx,
                    0 <= ty,
                    t >= 1,
            ;
            assert((tx + 1) * t <= w * t && (ty + 1) * t <= h * t) by (nonlinear_arith)
                requires
                    tx < w,
                    ty < h,
                    t >= 1,
            ;
            assert((tx - 1) * t == tx * t - t && (ty - 1) * t == ty * t - t && (tx + 2) * t
                == (tx + 1) * t + t) by (nonlinear_arith);
            assert(idx == ty * w + tx) by (nonlinear_arith)
                requires
                    idx == w * ty + tx,
            ;
            let ea = Extent {
                top_left: Coord { x: (left + 1) as i64, y: (top + 1) as i64 },
                bottom_right: Coord { x: right as i64, y: bottom as i64 },
            };
            let eb = Extent {
                top_left: Coord { x: left as i64, y: (top + 1) as i64 },
                bottom_right: Coord { x: (left - 1) as i64, y: bottom as i64 },
            };
            let ec = Extent {
                top_left: Coord { x: (left + 1) as i64, y: top as i64 },
                bottom_right: Coord { x: (right - 1) as i64, y: (top - 1) as i64 },
            };
            let e1 = Extent {
                top_left: Coord { x: (right + 1) as i64, y: top as i64 },
                bottom_right: Coord { x: right as i64, y: (top - 1) as i64 },
            };
            let e2 = Extent {
                top_left: Coord { x: left as i64, y: top as i64 },
                bottom_right: Coord { x: (left - 1) as i64, y: (top - 1) as i64 },
            };
            let c1 = if !self.spec_has_tile(tx - 1, ty) {
                seq![eb]
            } else {
                Seq::<Extent>::empty()
            };
            let c2 = if !self.spec_has_tile(tx, ty - 1) {
                seq![ec]
            } else {
                Seq::<Extent>::empty()
            };
            let c3 = if !self.spec_has_tile(tx, ty - 1) && !self.spec_has_tile(tx + 1, ty - 1) {
                seq![e1]
            } else {
                Seq::<Extent>::empty()
            };
            let c4 = if !self.spec_has_tile(tx - 1, ty) && !self.spec_has_tile(tx, ty - 1)
                && !self.spec_has_tile(tx - 1, ty - 1) {
                seq![e2]
            } else {
                Seq::<Extent>::empty()
            };
            assert(p =~= seq![ea] + c1 + c2 + c3 + c4);
            lemma_scan_count_concat(seq![ea] + c1 + c2 + c3, c4, x, y);
            lemma_scan_count_concat(seq![ea] + c1 + c2, c3, x, y);
            lemma_scan_count_concat(seq![ea] + c1, c2, x, y);
            lemma_scan_count_concat(seq![ea], c1, x, y);
            lemma_scan_count_singleton(ea, x, y);
            if c1.len() > 0 {
                lemma_scan_count_singleton(eb, x, y);
            }
            if c2.len() > 0 {
                lemma_scan_count_singleton(ec, x, y);
            }
            if c3.len() > 0 {
                lemma_scan_count_singleton(e1, x, y);
            }
            if c4.len() > 0 {
                lemma_scan_count_singleton(e2, x, y);
            }
            // the five window regions are pairwise disjoint
            assert(scan_count(p, x, y) <= 1);
            if scan_count(p, x, y) >= 1 {
                if window_in_extent(x, y, ea) {
                    self.lemma_owner_base(idx, tx, ty, x, y);
                } else if c1.len() > 0 && window_in_extent(x, y, eb) {
                    self.lemma_owner_left(idx, tx, ty, x, y);
                } else if c2.len() > 0 && window_in_extent(x, y, ec) {
                    self.lemma_owner_top(idx, tx, ty, x, y);
                } else if c3.len() > 0 && window_in_extent(x, y, e1) {
                    self.lemma_owner_top_right(idx, tx, ty, x, y);
                } else {
                    assert(c4.len() > 0 && window_in_extent(x, y, e2));
                    self.lemma_owner_top_left(idx, tx, ty, x, y);
                }
            }
        }
    }

    /// The first `j` tile slabs scan a window at most once, and only when
    /// its owner lies among them.
    proof fn lemma_upto_count(&self, j: int, x: int, y: int)
        requires
            1 <= TILE_SIZE,
            self.tiles@.len() == self.width * self.height,
            self.width * TILE_SIZE + 2 <= i64::MAX,
            self.height * TILE_SIZE + 2 <= i64::MAX,
            0 <= j <= self.tiles@.len(),
        ensures
            scan_count(self.parts_up_to(j), x, y) <= 1,
            scan_count(self.parts_up_to(j), x, y) >= 1 ==> self.window_owner(x, y) is Some
                && 0 <= self.window_owner(x, y).unwrap() < j,
        decreases j,
    {
        if j > 0 {
            self.lemma_upto_count(j - 1, x, y);
            self.lemma_slab_count(j - 1, x, y);
            lemma_scan_count_concat(self.parts_up_to(j - 1), self.tile_part(j - 1), x, y);
            lemma_scan_count_nonneg(self.parts_up_to(j - 1), x, y);
            lemma_scan_count_nonneg(self.tile_part(j - 1), x, y);
        }
    }

    /// A window whose four corner samples are present is scanned by the
    /// slab of its upper left corner.
    proof fn lemma_cover(&self, x: int, y: int)
        requires
            1 <= TILE_SIZE,
            self.tiles@.len() == self.width * self.height,
            self.width * TILE_SIZE + 2 <= i64::MAX,
            self.height * TILE_SIZE + 2 <= i64::MAX,
            self.spec_value(x - 1, y - 1) is Some,
        ensures
            scan_count(self.parts_up_to(self.tiles@.len() as int), x, y) >= 1,
    {
        let t = TILE_SIZE as int;
        let w = self.width as int;
        let h = self.height as int;
        // the upper left corner resolves, so its tile is assigned
        lemma_tile_index_in_range::<TILE_SIZE>(w, h, x - 1, y - 1);
        let tx = (x - 1) / t;
        let ty = (y - 1) / t;
        let idx = ty * w + tx;
        lemma_fundamental_div_mod_converse(idx, w, ty, tx);
        lemma_fundamental_div_mod(x - 1, t);
        lemma_fundamental_div_mod(y - 1, t);
        assert(tx * t <= x - 1 <= (tx + 1) * t - 1 && ty * t <= y - 1 <= (ty + 1) * t - 1)
            by (nonlinear_arith)
            requires
                x - 1 == t * tx + (x - 1) % t,
                y - 1 == t * ty + (y - 1) % t,
                0 <= (x - 1) % t < t,
                0 <= (y - 1) % t < t,
        ;
        let p = self.tile_part(idx);
        let ea = Extent {
            top_left: Coord { x: (tx * t + 1) as i64, y: (ty * t + 1) as i64 },
            bottom_right: Coord {
                x: ((tx + 1) * t - 1) as i64,
                y: ((ty + 1) * t - 1) as i64,
            },
        };
        assert(tx * t >= 0 && ty * t >= 0 && (tx + 1) * t <= w * t && (ty + 1) * t <= h * t)
            by (nonlinear_arith)
            requires
                0 <= tx < w,
                0 <= ty < h,
                t >= 1,
        ;
        assert(p[0] == ea);
        assert(window_in_extent(x, y, ea));
        // the base extent is always emitted first
        assert(p.drop_first() =~= p.subrange(1, p.len() as int));
        lemma_scan_count_concat(seq![ea], p.subrange(1, p.len() as int), x, y);
        assert(seq![ea] + p.subrange(1, p.len() as int) =~= p);
        lemma_scan_count_singleton(ea, x, y);
        lemma_scan_count_nonneg(p.subrange(1, p.len() as int), x, y);
        // and the slabs before and after only add nonnegative counts
        self.lemma_upto_mono(idx, x, y);
    }

    /// Scan counts only grow as more slabs are appended.
    proof fn lemma_upto_mono(&self, idx: int, x: int, y: int)
        requires
            0 <= idx < self.tiles@.len(),
            scan_count(self.tile_part(idx), x, y) >= 1,
        ensures
            scan_count(self.parts_up_to(self.tiles@.len() as int), x, y) >= 1,
    {
        self.lemma_upto_from(idx, self.tiles@.len() as int, x, y);
    }

    /// If one slab among the first `j` scans the window, so do the first
    /// `j` together, at least once.
    proof fn lemma_upto_from(&self, idx: int, j: int, x: int, y: int)
        requires
            0 <= idx < j,
            scan_count(self.tile_part(idx), x, y) >= 1,
        ensures
            scan_count(self.parts_up_to(j), x, y) >= 1,
        decreases j,
    {
        lemma_scan_count_concat(self.parts_up_to(j - 1), self.tile_part(j - 1), x, y);
        lemma_scan_count_nonneg(self.parts_up_to(j - 1), x, y);
        lemma_scan_count_nonneg(self.tile_part(j - 1), x, y);
        if idx < j - 1 {
            self.lemma_upto_from(idx, j - 1, x, y);
        }
    }
}

impl<const TILE_SIZE: usize> Grid for TiledBuffer<TILE_SIZE> {
    closed spec fn spec_extents(&self) -> Seq<Extent> {
        self.parts_up_to(self.tiles@.len() as int)
    }

    closed spec fn spec_width(&self) -> int {
        self.width * TILE_SIZE + 2
    }

    closed spec fn spec_height(&self) -> int {
        self.height * TILE_SIZE + 2
    }

    closed spec fn spec_value(&self, x: int, y: int) -> Option<i64> {
        let t = TILE_SIZE as int;
        if 0 <= x < self.width * TILE_SIZE && 0 <= y < self.height * TILE_SIZE {
            let tile = self.tiles@[(y / t) * self.width + x / t];
            if tile@.len() == 0 {
                None
            } else {
                Some(tile@[(y % t) * t + x % t])
            }
        } else {
            None
        }
    }

    fn size(&self) -> (s: (usize, usize))
    {
        proof {
            use_type_invariant(self);
            lemma_mul_inequality(self.width as int, self.width as int, TILE_SIZE as int);
        }
        (self.width * TILE_SIZE + 2, self.height * TILE_SIZE + 2)
    }

    fn get_point(&self, coord: Coord) -> (r: Option<i64>)
    {
        proof {
            use_type_invariant(self);
        }
        let w2 = self.width * TILE_SIZE;
        let h2 = self.height * TILE_SIZE;
        if coord.x < 0 || coord.y < 0 || coord.x >= w2 as i64 || coord.y >= h2 as i64 {
            return None;
        }
        let xu = coord.x as usize;
        let yu = coord.y as usize;
        let t_x = xu / TILE_SIZE;
        let t_y = yu / TILE_SIZE;
        let rel_x = xu % TILE_SIZE;
        let rel_y = yu % TILE_SIZE;
        proof {
            lemma_tile_index_in_range::<TILE_SIZE>(
                self.width as int,
                self.height as int,
                xu as int,
                yu as int,
            );
        }
        let n = self.tiles.len();
        proof {
            assert(n == self.width * self.height);
        }
        let tile = &self.tiles[t_y * self.width + t_x];
        let rel = rel_y * TILE_SIZE + rel_x;
        if tile.len() == 0 {
            None
        } else {
            Some(tile[rel])
        }
    }

    // Each assigned tile produces a base extent plus up to four border and
    // corner extents that share the one-cell padding with its neighbors.
    // A cell window is owned by the tile holding its upper-left corner
    // sample; where that sample belongs to no tile, ownership falls to the
    // upper-right, then the lower-left corner. So the border extents
    // toward a given direction are emitted only when no neighbor tile
    // exists there, and every window is scanned exactly once.
    #[verifier::rlimit(100)]
    fn extents(&self) -> (v: Vec<Extent>)
    {
        proof {
            use_type_invariant(self);
        }
        let mut v: Vec<Extent> = Vec::new();
        let n = self.tiles.len();
        let mut idx: usize = 0;
        while idx < n
            invariant
                idx <= n,
                n == self.tiles@.len(),
                v@ == self.parts_up_to(idx as int),
                forall|i: int|
                    0 <= i < v@.len() ==> extent_in_bounds(
                        #[trigger] v@[i],
                        self.spec_width(),
                        self.spec_height(),
                    ),
                self.inv(),
            decreases n - idx,
        {
            let ghost before = v@;
            if self.tiles[idx].len() != 0 {
                proof {
                    let w = self.width as int;
                    let h = self.height as int;
                    assert(w >= 1 && h >= 1) by (nonlinear_arith)
                        requires
                            0 <= idx < w * h,
                            w >= 0,
                            h >= 0,
                    ;
                    lemma_fundamental_div_mod(idx as int, w);
                    assert(idx as int / w < h) by (nonlinear_arith)
                        requires
                            idx < w * h,
                            idx as int == w * (idx as int / w) + idx as int % w,
                            0 <= idx as int % w,
                            w >= 1,
                            0 <= idx as int / w,
                    ;
                    assert(w <= w * TILE_SIZE) by (nonlinear_arith)
                        requires
                            w >= 0,
                            TILE_SIZE as int >= 1,
                    ;
                    assert(h <= h * TILE_SIZE) by (nonlinear_arith)
                        requires
                            h >= 0,
                            TILE_SIZE as int >= 1,
                    ;
                    assert(TILE_SIZE as int <= w * TILE_SIZE) by (nonlinear_arith)
                        requires
                            w >= 1,
                            TILE_SIZE as int >= 0,
                    ;
                }
                let t_y = (idx / self.width) as i64;
                let t_x = (idx % self.width) as i64;
                let t_s = TILE_SIZE as i64;
                proof {
                    let w = self.width as int;
                    let h = self.height as int;
                    let t = TILE_SIZE as int;
                    assert(0 <= t_x as int);
                    assert((t_x as int) < w);
                    assert(0 <= t_y as int);
                    assert((t_y as int) < h);
                    assert((t_x as int + 1) * t <= w * t && (t_y as int + 1) * t <= h * t)
                        by (nonlinear_arith)
                        requires
                            0 <= t_x as int,
                            (t_x as int) < w,
                            0 <= t_y as int,
                            (t_y as int) < h,
                            t >= 1,
                    ;
                    assert(0 <= t_x as int * t && 0 <= t_y as int * t && t_x as int * t <= w * t
                        && t_y as int * t <= h * t && (t_x as int + 1) * t == t_x as int * t + t
                        && (t_y as int + 1) * t == t_y as int * t + t) by (nonlinear_arith)
                        requires
                            0 <= t_x as int,
                            0 <= t_y as int,
                            (t_x as int) < w,
                            (t_y as int) < h,
                            t >= 1,
                    ;
                }
                let left = t_x * t_s;
                let top = t_y * t_s;
                let right = (t_x + 1) * t_s - 1;
                let bottom = (t_y + 1) * t_s - 1;
                // base: every window whose upper-left corner sample lies in
                // this tile
                v.push(
                    Extent {
                        top_left: Coord { x: left + 1, y: top + 1 },
                        bottom_right: Coord { x: right, y: bottom },
                    },
                );
                // left border column, when no west neighbor claims it
                if !self.has_tile(t_x - 1, t_y) {
                    v.push(
                        Extent {
                            top_left: Coord { x: left, y: top + 1 },
                            bottom_right: Coord { x: left - 1, y: bottom },
                        },
                    );
                }
                // top border row, when no north neighbor claims it
                if !self.has_tile(t_x, t_y - 1) {
                    v.push(
                        Extent {
                            top_left: Coord { x: left + 1, y: top },
                            bottom_right: Coord { x: right - 1, y: top - 1 },
                        },
                    );
                }
                // upper right corner window, when neither the north nor the
                // northeast neighbor claims it
                if !self.has_tile(t_x, t_y - 1) && !self.has_tile(t_x + 1, t_y - 1) {
                    v.push(
                        Extent {
                            top_left: Coord { x: right + 1, y: top },
                            bottom_right: Coord { x: right, y: top - 1 },
                        },
                    );
                }
                // upper left corner window, when no west, north or
                // northwest neighbor claims it
                if !self.has_tile(t_x - 1, t_y) && !self.has_tile(t_x, t_y - 1)
                    && !self.has_tile(t_x - 1, t_y - 1) {
                    v.push(
                        Extent {
                            top_left: Coord { x: left, y: top },
                            bottom_right: Coord { x: left - 1, y: top - 1 },
                        },
                    );
                }
            }
            proof {
                assert(v@ =~= before + self.tile_part(idx as int));
                assert(v@ =~= self.parts_up_to(idx as int + 1));
            }
            idx += 1;
        }
        proof {
            assert forall|x: int, y: int| #[trigger] scan_count(v@, x, y) <= 1 by {
                self.lemma_upto_count(n as int, x, y);
            }
            assert forall|x: int, y: int|
                self.spec_value(x - 1, y - 1) is Some && self.spec_value(x, y - 1) is Some
                    && self.spec_value(x - 1, y) is Some && self.spec_value(x, y)
                    is Some implies #[trigger] scan_count(v@, x, y) == 1 by {
                self.lemma_upto_count(n as int, x, y);
                self.lemma_cover(x, y);
            }
        }
        v
    }
}

/// Wraps a grid and filters out samples equal to a sentinel value.
pub struct NoDataMask<G: Grid> {
    inner: G,
    no_data: i64,
}

impl<G: Grid> NoDataMask<G> {
    /// Wraps `inner`, masking out samples equal to `no_data`.
    pub fn new(inner: G, no_data: i64) -> (r: NoDataMask<G>)
        ensures
            r.spec_inner() == inner,
            r.spec_no_data() == no_data,
    {
        NoDataMask { inner, no_data }
    }

    /// Returns the wrapped grid.
    pub fn into_inner(self) -> (r: G)
        ensures
            r == self.spec_inner(),
    {
        self.inner
    }

    /// The wrapped grid.
    pub closed spec fn spec_inner(&self) -> G {
        self.inner
    }

    /// The sentinel value that reads as absent.
    pub closed spec fn spec_no_data(&self) -> i64 {
        self.no_data
    }

    /// The mask keeps the wrapped grid's geometry and filters out only the
    /// sentinel value.
    pub proof fn lemma_view(&self)
        ensures
            self.spec_width() == self.spec_inner().spec_width(),
            self.spec_height() == self.spec_inner().spec_height(),
            self.spec_extents() == self.spec_inner().spec_extents(),
            forall|x: int, y: int|
                #[trigger] self.spec_value(x, y) == match self.spec_inner().spec_value(x, y) {
                    Some(v) => if v == self.spec_no_data() {
                        None
                    } else {
                        Some(v)
                    },
                    None => None::<i64>,
                },
    {
    }
}

impl<G: Grid> Grid for NoDataMask<G> {
    closed spec fn spec_extents(&self) -> Seq<Extent> {
        self.inner.spec_extents()
    }

    closed spec fn spec_width(&self) -> int {
        self.inner.spec_width()
    }

    closed spec fn spec_height(&self) -> int {
        self.inner.spec_height()
    }

    closed spec fn spec_value(&self, x: int, y: int) -> Option<i64> {
        match self.inner.spec_value(x, y) {
            Some(v) => if v == self.no_data {
                None
            } else {
                Some(v)
            },
            None => None,
        }
    }

    fn size(&self) -> (s: (usize, usize))
    {
        self.inner.size()
    }

    fn get_point(&self, coord: Coord) -> (r: Option<i64>)
    {
        match self.inner.get_point(coord) {
            Some(v) => if v == self.no_data {
                None
            } else {
                Some(v)
            },
            None => None,
        }
    }

    fn extents(&self) -> (v: Vec<Extent>)
    {
        let v = self.inner.extents();
        proof {
            assert forall|x: int, y: int|
                self.spec_value(x - 1, y - 1) is Some && self.spec_value(x, y - 1) is Some
                    && self.spec_value(x - 1, y) is Some && self.spec_value(x, y)
                    is Some implies #[trigger] scan_count(v@, x, y) == 1 by {
                assert(self.inner.spec_value(x - 1, y - 1) is Some);
                assert(self.inner.spec_value(x, y - 1) is Some);
                assert(self.inner.spec_value(x - 1, y) is Some);
                assert(self.inner.spec_value(x, y) is Some);
            }
        }
        v
    }
}

} // verus!
