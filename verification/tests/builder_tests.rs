use contour::area::ring_contains;
use contour::frac::Frac;
use contour::isoringbuilder::Pt;
use contour::{Buffer, ContourBuilder, ErrorKind};

fn whole(n: i64) -> Frac {
    Frac { num: n, den: 1 }
}

fn ratio(n: i64, d: i64) -> Frac {
    Frac { num: n, den: d }
}

/// A 10 by 11 flat buffer with a 3 by 5 hot block (columns 3 to 5, rows 2
/// to 6).
fn block_grid() -> Buffer {
    let mut data = vec![0i64; 10 * 11];
    for y in 2..=6usize {
        for x in 3..=5usize {
            data[y * 10 + x] = 10;
        }
    }
    Buffer::new(data, 10, 11).unwrap()
}

#[test]
fn lines_keep_thresholds_in_order() {
    let b = ContourBuilder::new(false);
    let ls = b.lines(&block_grid(), &[5, 11]).unwrap();
    assert_eq!(ls.len(), 2);
    assert_eq!(ls[0].threshold, 5);
    assert_eq!(ls[1].threshold, 11);
    assert_eq!(ls[0].geometry.len(), 1);
    assert_eq!(ls[1].geometry.len(), 0);
}

#[test]
fn smoothing_at_exact_midpoint_changes_nothing() {
    // samples 0 and 10 with threshold 5: the crossing already lies exactly
    // halfway between the bracketing samples
    let plain = ContourBuilder::new(false).lines(&block_grid(), &[5]).unwrap();
    let smooth = ContourBuilder::new(true).lines(&block_grid(), &[5]).unwrap();
    assert_eq!(plain.len(), smooth.len());
    for (a, b) in plain.iter().zip(smooth.iter()) {
        assert_eq!(a.geometry.len(), b.geometry.len());
        for (ra, rb) in a.geometry.iter().zip(b.geometry.iter()) {
            assert_eq!(ra, rb);
        }
    }
}

#[test]
fn smoothing_interpolates_between_bracketing_samples() {
    // threshold 2 between samples 0 and 10 shifts crossings by
    // 2/10 - 1/2 = -3/10, so smoothed coordinates carry denominator 10
    let smooth = ContourBuilder::new(true).lines(&block_grid(), &[2]).unwrap();
    assert_eq!(smooth[0].geometry.len(), 1);
    let ring = &smooth[0].geometry[0];
    assert!(ring.iter().any(|p| p.x.den == 10 || p.y.den == 10));
    // and the ring stays closed
    assert_eq!(ring.first().unwrap(), ring.last().unwrap());
}

#[test]
fn smoothing_reports_unrepresentable_coordinates() {
    let mut data = vec![-(1i64 << 62); 15];
    data[1 * 5 + 2] = 1 << 62;
    let g = Buffer::new(data, 5, 3).unwrap();
    let r = ContourBuilder::new(true).lines(&g, &[1]);
    assert_eq!(r.err().unwrap().kind, ErrorKind::BadCast);
}

#[test]
fn affine_transform_round_trips() {
    let plain = ContourBuilder::new(false).lines(&block_grid(), &[5]).unwrap();
    let mapped_builder = ContourBuilder::new(false)
        .x_origin(whole(10))
        .y_origin(whole(-3))
        .x_step(whole(2))
        .y_step(ratio(1, 2));
    let mapped = mapped_builder.lines(&block_grid(), &[5]).unwrap();
    assert_eq!(plain[0].geometry.len(), mapped[0].geometry.len());
    for (ra, rb) in plain[0].geometry.iter().zip(mapped[0].geometry.iter()) {
        assert_eq!(ra.len(), rb.len());
        for (pa, pb) in ra.iter().zip(rb.iter()) {
            let back = mapped_builder.invert_point(pb).unwrap();
            assert!(back.x.eq_val(pa.x));
            assert!(back.y.eq_val(pa.y));
        }
    }
}

#[test]
fn contours_classify_exterior_and_hole() {
    // a hot frame (a 5 by 5 block with a cold 3 by 3 center) produces one
    // polygon whose single hole is the inner boundary
    let mut data = vec![0i64; 81];
    for y in 1..=5usize {
        for x in 1..=5usize {
            data[y * 9 + x] = 10;
        }
    }
    for y in 2..=4usize {
        for x in 2..=4usize {
            data[y * 9 + x] = 0;
        }
    }
    let g = Buffer::new(data, 9, 9).unwrap();
    let cs = ContourBuilder::new(false).contours(&g, &[5]).unwrap();
    assert_eq!(cs.len(), 1);
    assert_eq!(cs[0].threshold, 5);
    assert_eq!(cs[0].geometry.len(), 1);
    let polygon = &cs[0].geometry[0];
    assert_eq!(polygon.interiors.len(), 1);
    assert!(polygon.exterior.len() > polygon.interiors[0].len());
}

#[test]
fn isobands_require_two_thresholds() {
    let b = ContourBuilder::new(false);
    let r1 = b.isobands(&block_grid(), &[5]);
    assert_eq!(r1.err().unwrap().kind, ErrorKind::Unexpected);
    let r0 = b.isobands(&block_grid(), &[]);
    assert_eq!(r0.err().unwrap().kind, ErrorKind::Unexpected);
}

#[test]
fn isobands_cover_samples_between_thresholds() {
    // background 0, hot 3 by 3 block of fives; every sample strictly
    // between the two thresholds lies inside exactly one band polygon
    let mut data = vec![0i64; 49];
    for y in 2..=4usize {
        for x in 2..=4usize {
            data[y * 7 + x] = 5;
        }
    }
    let g = Buffer::new(data, 7, 7).unwrap();
    let bands = ContourBuilder::new(false).isobands(&g, &[1, 10]).unwrap();
    assert_eq!(bands.len(), 1);
    assert_eq!(bands[0].min_v, 1);
    assert_eq!(bands[0].max_v, 10);
    assert!(!bands[0].geometry.is_empty());
    for y in 2..=4i64 {
        for x in 2..=4i64 {
            // the sample (x, y) sits at lookup coordinate (x + 1.5, y + 1.5)
            let pt = Pt {
                x: Frac { num: 2 * x + 3, den: 2 },
                y: Frac { num: 2 * y + 3, den: 2 },
            };
            let mut inside = 0;
            for polygon in bands[0].geometry.iter() {
                // the containment test is boundary inclusive: a point level
                // with the ring's closing vertex reads as on the boundary
                if ring_contains(&polygon.exterior, &pt).unwrap() != -1 {
                    inside += 1;
                }
            }
            assert_eq!(inside, 1);
        }
    }
}

#[test]
fn isobands_between_two_levels_form_a_band_with_a_hole() {
    // a wide warm block with a hotter core: the band between the two
    // levels is the warm frame, a polygon with one hole
    let mut data = vec![0i64; 81];
    for y in 1..=5usize {
        for x in 1..=5usize {
            data[y * 9 + x] = 5;
        }
    }
    for y in 2..=4usize {
        for x in 2..=4usize {
            data[y * 9 + x] = 20;
        }
    }
    let g = Buffer::new(data, 9, 9).unwrap();
    let bands = ContourBuilder::new(false).isobands(&g, &[1, 10]).unwrap();
    assert_eq!(bands.len(), 1);
    assert_eq!(bands[0].geometry.len(), 1);
    assert_eq!(bands[0].geometry[0].interiors.len(), 1);
}
