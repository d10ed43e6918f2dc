use contour::area::{area, contains, ring_contains};
use contour::error::{new_error, ErrorKind};
use contour::frac::Frac;
use contour::isoringbuilder::{Pt, Ring};

fn pt(x: i64, y: i64) -> Pt {
    Pt { x: Frac { num: x, den: 1 }, y: Frac { num: y, den: 1 } }
}

fn square(x0: i64, y0: i64, side: i64) -> Ring {
    vec![
        pt(x0, y0),
        pt(x0 + side, y0),
        pt(x0 + side, y0 + side),
        pt(x0, y0 + side),
        pt(x0, y0),
    ]
}

#[test]
fn doubled_signed_area_of_a_square() {
    let ccw = square(0, 0, 2);
    let a = area(&ccw).unwrap();
    assert_eq!(a, Frac { num: -8, den: 1 });
    let cw: Ring = ccw.iter().rev().cloned().collect();
    let b = area(&cw).unwrap();
    assert_eq!(b, Frac { num: 8, den: 1 });
}

#[test]
fn ring_contains_classifies_inside_outside_boundary() {
    let ring = square(0, 0, 2);
    assert_eq!(ring_contains(&ring, &pt(1, 1)).unwrap(), 1);
    assert_eq!(ring_contains(&ring, &pt(3, 1)).unwrap(), -1);
    assert_eq!(ring_contains(&ring, &pt(-1, 3)).unwrap(), -1);
    // a vertex and an edge midpoint are on the boundary
    assert_eq!(ring_contains(&ring, &pt(0, 0)).unwrap(), 0);
    assert_eq!(ring_contains(&ring, &pt(1, 0)).unwrap(), 0);
}

#[test]
fn contains_uses_the_first_decisive_vertex() {
    let outer = square(0, 0, 10);
    let inner = square(4, 4, 2);
    let far = square(20, 20, 2);
    assert!(contains(&outer, &inner).unwrap() != -1);
    assert_eq!(contains(&outer, &far).unwrap(), -1);
    // a hole sharing the outer boundary still counts as contained
    let touching = square(0, 0, 2);
    assert!(contains(&outer, &touching).unwrap() != -1);
}

#[test]
fn error_reports_its_kind() {
    let e = new_error(ErrorKind::BadCast);
    assert_eq!(e.kind(), ErrorKind::BadCast);
    assert_eq!(e.kind, ErrorKind::BadCast);
}
