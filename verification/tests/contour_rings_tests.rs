use contour::frac::Frac;
use contour::isoringbuilder::Pt;
use contour::{contour_rings, Buffer, IsoRingBuilder, NoDataMask};

fn whole(n: i64) -> Frac {
    Frac { num: n, den: 1 }
}

fn half(n: i64) -> Frac {
    Frac { num: n, den: 2 }
}

/// A 10 by 11 flat buffer holding a 3 by 5 block of tens in a background of
/// zeros; columns 3 to 5 and rows 2 to 6 are hot.
fn block_grid() -> Buffer {
    let mut data = vec![0i64; 10 * 11];
    for y in 2..=6usize {
        for x in 3..=5usize {
            data[y * 10 + x] = 10;
        }
    }
    Buffer::new(data, 10, 11).unwrap()
}

#[test]
fn uniform_grid_yields_no_rings() {
    let g = Buffer::new(vec![7i64; 12], 4, 3).unwrap();
    // uniformly at or above the threshold
    assert_eq!(contour_rings(g, 5).unwrap().len(), 0);
    let g2 = Buffer::new(vec![7i64; 12], 4, 3).unwrap();
    // uniformly below the threshold
    assert_eq!(contour_rings(g2, 9).unwrap().len(), 0);
}

#[test]
fn fully_masked_grid_yields_no_rings() {
    let g = Buffer::new(vec![7i64; 12], 4, 3).unwrap();
    let m = NoDataMask::new(g, 7);
    assert_eq!(contour_rings(m, 5).unwrap().len(), 0);
}

#[test]
fn block_yields_one_closed_rectangular_ring() {
    let rings = contour_rings(block_grid(), 5).unwrap();
    assert_eq!(rings.len(), 1);
    let ring = &rings[0];
    // closed: the first point equals the last
    assert_eq!(ring.first().unwrap(), ring.last().unwrap());
    // at least three distinct points
    let mut distinct: Vec<&Pt> = Vec::new();
    for p in ring.iter() {
        if !distinct.contains(&p) {
            distinct.push(p);
        }
    }
    assert!(distinct.len() >= 3);
    // the ring follows the block's half-cell boundary: every vertex lies on
    // the bounding box x in [4, 7], y in [3, 8], and touches its edges
    for p in ring.iter() {
        let on_left = p.x == whole(4);
        let on_right = p.x == whole(7);
        let on_top = p.y == whole(3);
        let on_bottom = p.y == whole(8);
        assert!(on_left || on_right || on_top || on_bottom);
        assert!(!p.x.lt(whole(4)) && !whole(7).lt(p.x));
        assert!(!p.y.lt(whole(3)) && !whole(8).lt(p.y));
    }
    // the half-cell crossings are present, for example the top-left ones
    assert!(ring.iter().any(|p| *p == Pt { x: half(9), y: whole(3) }));
    assert!(ring.iter().any(|p| *p == Pt { x: whole(4), y: half(7) }));
}

#[test]
fn ring_around_one_hot_sample_is_a_diamond() {
    let mut data = vec![0i64; 25];
    data[2 * 5 + 2] = 10;
    let g = Buffer::new(data, 5, 5).unwrap();
    let rings = contour_rings(g, 5).unwrap();
    assert_eq!(rings.len(), 1);
    let ring = &rings[0];
    // four edge-midpoint vertices plus the closing repeat
    assert_eq!(ring.len(), 5);
    assert_eq!(ring.first().unwrap(), ring.last().unwrap());
    let center_x = half(7); // sample column 2
    let center_y = half(7); // sample row 2
    for p in ring.iter() {
        let dx_half = p.x == center_x;
        let dy_half = p.y == center_y;
        // each vertex differs from the center by half a cell on one axis
        assert!(dx_half != dy_half);
    }
}

#[test]
fn open_boundary_at_domain_edge_is_dropped() {
    // a hot block touching the data edge cannot close its ring
    let mut data = vec![0i64; 25];
    for x in 0..3usize {
        data[2 * 5 + x] = 10;
    }
    for y in 0..3usize {
        data[y * 5 + 0] = 10;
    }
    let g = Buffer::new(data, 5, 5).unwrap();
    let rings = contour_rings(g, 5).unwrap();
    for ring in rings.iter() {
        assert_eq!(ring.first().unwrap(), ring.last().unwrap());
    }
}

#[test]
fn masked_corner_breaks_the_ring() {
    // masking one sample of the block's boundary leaves the ring open, and
    // open fragments are dropped
    let mut data = vec![0i64; 10 * 11];
    for y in 2..=6usize {
        for x in 3..=5usize {
            data[y * 10 + x] = 10;
        }
    }
    data[2 * 10 + 3] = -999;
    let g = NoDataMask::new(Buffer::new(data, 10, 11).unwrap(), -999);
    let rings = contour_rings(g, 5).unwrap();
    assert_eq!(rings.len(), 0);
}

#[test]
fn builder_can_be_reused_between_computations() {
    let mut isoring = IsoRingBuilder::new();
    let a = isoring.compute(&block_grid(), 5).unwrap();
    let b = isoring.compute(&block_grid(), 5).unwrap();
    assert_eq!(a.len(), 1);
    assert_eq!(b.len(), 1);
    assert_eq!(a[0], b[0]);
    let none = isoring.compute(&block_grid(), 11).unwrap();
    assert_eq!(none.len(), 0);
}

#[test]
fn tiled_block_across_tiles_forms_one_ring() {
    let mut g: contour::TiledBuffer<4> = contour::TiledBuffer::new(2, 1);
    let mut left = vec![0i64; 16];
    let mut right = vec![0i64; 16];
    // hot columns 2..=5 of rows 1..=2 span the tile boundary at column 4
    for y in 1..=2usize {
        for x in 2..=3usize {
            left[y * 4 + x] = 10;
        }
        for x in 0..=1usize {
            right[y * 4 + x] = 10;
        }
    }
    g.set_tile(0, 0, left).unwrap();
    g.set_tile(1, 0, right).unwrap();
    let rings = contour_rings(g, 5).unwrap();
    assert_eq!(rings.len(), 1);
    let ring = &rings[0];
    assert_eq!(ring.first().unwrap(), ring.last().unwrap());
    assert!(ring.len() >= 5);
}
