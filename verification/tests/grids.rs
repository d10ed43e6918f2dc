use contour::cases::{case_segments, Seg};
use contour::grid::{Coord, Grid};
use contour::{Buffer, ErrorKind, NoDataMask, TiledBuffer};

fn flat(data: Vec<i64>, w: usize, h: usize) -> Buffer {
    Buffer::new(data, w, h).unwrap()
}

#[test]
fn buffer_rejects_wrong_length() {
    let r = Buffer::new(vec![0i64; 5], 2, 3);
    assert!(r.is_err());
    assert_eq!(r.err().unwrap().kind, ErrorKind::BadDimension);
}

#[test]
fn buffer_reads_points_and_pads_with_absent() {
    let g = flat(vec![1, 2, 3, 4, 5, 6], 3, 2);
    assert_eq!(g.size(), (5, 4));
    assert_eq!(g.get_point(Coord { x: 0, y: 0 }), Some(1));
    assert_eq!(g.get_point(Coord { x: 2, y: 1 }), Some(6));
    assert_eq!(g.get_point(Coord { x: -1, y: 0 }), None);
    assert_eq!(g.get_point(Coord { x: 3, y: 0 }), None);
    assert_eq!(g.get_point(Coord { x: 0, y: 2 }), None);
    assert_eq!(g.data(), &[1, 2, 3, 4, 5, 6]);
}

#[test]
fn buffer_has_one_padded_extent() {
    let g = flat(vec![0i64; 6], 3, 2);
    let ex = g.extents();
    assert_eq!(ex.len(), 1);
    assert_eq!(ex[0].top_left, Coord { x: -1, y: -1 });
    assert_eq!(ex[0].bottom_right, Coord { x: 3, y: 2 });
}

#[test]
fn tiled_buffer_assigns_and_reads_tiles() {
    let mut g: TiledBuffer<2> = TiledBuffer::new(2, 1);
    assert!(!g.has_tile(0, 0));
    assert_eq!(g.get_point(Coord { x: 0, y: 0 }), None);
    g.set_tile(0, 0, vec![1, 2, 3, 4]).unwrap();
    assert!(g.has_tile(0, 0));
    assert!(!g.has_tile(1, 0));
    assert_eq!(g.size(), (6, 4));
    assert_eq!(g.get_point(Coord { x: 0, y: 0 }), Some(1));
    assert_eq!(g.get_point(Coord { x: 1, y: 1 }), Some(4));
    assert_eq!(g.get_point(Coord { x: 2, y: 0 }), None);
    g.set_tile(1, 0, vec![5, 6, 7, 8]).unwrap();
    assert_eq!(g.get_point(Coord { x: 2, y: 0 }), Some(5));
    assert_eq!(g.get_point(Coord { x: 3, y: 1 }), Some(8));
}

#[test]
fn tiled_buffer_rejects_bad_tiles() {
    let mut g: TiledBuffer<2> = TiledBuffer::new(2, 1);
    let r = g.set_tile(0, 0, vec![1, 2, 3]);
    assert_eq!(r.err().unwrap().kind, ErrorKind::BadDimension);
    let r2 = g.set_tile(2, 0, vec![1, 2, 3, 4]);
    assert_eq!(r2.err().unwrap().kind, ErrorKind::BadDimension);
    let r3 = g.set_tile(0, 1, vec![1, 2, 3, 4]);
    assert_eq!(r3.err().unwrap().kind, ErrorKind::BadDimension);
}

#[test]
fn tiled_buffer_emits_border_extents_only_toward_neighbors() {
    let mut g: TiledBuffer<4> = TiledBuffer::new(2, 1);
    g.set_tile(0, 0, vec![0i64; 16]).unwrap();
    // a lone tile emits its base extent and all four border extents
    assert_eq!(g.extents().len(), 5);
    g.set_tile(1, 0, vec![0i64; 16]).unwrap();
    // the right tile leaves its left border and upper left corner to its
    // neighbor, which already scans the shared padding
    assert_eq!(g.extents().len(), 8);
}

#[test]
fn no_data_mask_filters_sentinel() {
    let g = flat(vec![1, -999, 3, 4], 2, 2);
    let m = NoDataMask::new(g, -999);
    assert_eq!(m.get_point(Coord { x: 0, y: 0 }), Some(1));
    assert_eq!(m.get_point(Coord { x: 1, y: 0 }), None);
    assert_eq!(m.size(), (4, 4));
    let inner = m.into_inner();
    assert_eq!(inner.get_point(Coord { x: 1, y: 0 }), Some(-999));
}

#[test]
fn case_table_matches_marching_squares() {
    assert!(case_segments(0).is_empty());
    assert!(case_segments(15).is_empty());
    let c1 = case_segments(1);
    assert_eq!(c1.len(), 1);
    assert_eq!(
        c1[0],
        Seg {
            start: Coord { x: 2, y: 3 },
            end: Coord { x: 1, y: 2 },
        }
    );
    // the saddle codes produce two disjoint segments
    let c5 = case_segments(5);
    assert_eq!(c5.len(), 2);
    assert_eq!(
        c5[0],
        Seg {
            start: Coord { x: 2, y: 3 },
            end: Coord { x: 1, y: 2 },
        }
    );
    assert_eq!(
        c5[1],
        Seg {
            start: Coord { x: 2, y: 1 },
            end: Coord { x: 3, y: 2 },
        }
    );
    let c10 = case_segments(10);
    assert_eq!(c10.len(), 2);
    for code in 1..15u8 {
        let n = case_segments(code).len();
        if code == 5 || code == 10 {
            assert_eq!(n, 2);
        } else {
            assert_eq!(n, 1);
        }
    }
}

#[test]
fn tiled_extents_scan_each_window_exactly_once() {
    // four assigned tiles: the extents' scan regions must tile the window
    // space without overlap, and cover every window whose corners resolve
    let mut g: TiledBuffer<3> = TiledBuffer::new(2, 2);
    for ty in 0..2usize {
        for tx in 0..2usize {
            g.set_tile(tx, ty, vec![1i64; 9]).unwrap();
        }
    }
    let ex = g.extents();
    for wy in -2..9i64 {
        for wx in -2..9i64 {
            let mut count = 0;
            for e in ex.iter() {
                if e.top_left.x <= wx
                    && wx <= e.bottom_right.x + 1
                    && e.top_left.y <= wy
                    && wy <= e.bottom_right.y + 1
                {
                    count += 1;
                }
            }
            assert!(count <= 1);
            let resolvable = wx >= 1 && wx <= 5 && wy >= 1 && wy <= 5;
            if resolvable {
                assert_eq!(count, 1);
            }
        }
    }
}
