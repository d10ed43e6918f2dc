//! The marching-squares case table.
//!
//! A cell window is classified by a 4-bit code in which bit *i* says whether
//! corner *i* lies at or above the threshold. Every code maps to zero, one
//! or two line segments whose endpoints are offsets inside the cell,
//! expressed in half-unit steps (so `2` is a whole cell step and the
//! endpoints stay on the integer lattice). The two diagonally ambiguous
//! ("saddle") codes produce two disjoint segments: the diagonal pair is
//! always treated as two separate crossings, never merged through the cell
//! center.

use crate::grid::Coord;
use vstd::prelude::*;

verus! {

/// One directed line segment in half-unit cell space.
#[derive(Clone, Copy, Debug, PartialEq, Eq, Structural)]
pub struct Seg {
    pub start: Coord,
    pub end: Coord,
}

/// Both endpoints lie strictly inside the half-unit cell window and the
/// segment is not degenerate.
pub open spec fn seg_in_cell(s: Seg) -> bool {
    &&& 1 <= s.start.x <= 3
    &&& 1 <= s.start.y <= 3
    &&& 1 <= s.end.x <= 3
    &&& 1 <= s.end.y <= 3
    &&& !(s.start.x == s.end.x && s.start.y == s.end.y)
}

/// One segment as a spec value.
pub open spec fn seg(sx: int, sy: int, ex: int, ey: int) -> Seg {
    Seg {
        start: Coord { x: sx as i64, y: sy as i64 },
        end: Coord { x: ex as i64, y: ey as i64 },
    }
}

/// The segments produced for each 4-bit corner code, in half-unit offsets.
pub open spec fn spec_cases(code: int) -> Seq<Seg> {
    if code == 1 {
        seq![seg(2, 3, 1, 2)]
    } else if code == 2 {
        seq![seg(3, 2, 2, 3)]
    } else if code == 3 {
        seq![seg(3, 2, 1, 2)]
    } else if code == 4 {
        seq![seg(2, 1, 3, 2)]
    } else if code == 5 {
        seq![seg(2, 3, 1, 2), seg(2, 1, 3, 2)]
    } else if code == 6 {
        seq![seg(2, 1, 2, 3)]
    } else if code == 7 {
        seq![seg(2, 1, 1, 2)]
    } else if code == 8 {
        seq![seg(1, 2, 2, 1)]
    } else if code == 9 {
        seq![seg(2, 3, 2, 1)]
    } else if code == 10 {
        seq![seg(1, 2, 2, 1), seg(3, 2, 2, 3)]
    } else if code == 11 {
        seq![seg(3, 2, 2, 1)]
    } else if code == 12 {
        seq![seg(1, 2, 3, 2)]
    } else if code == 13 {
        seq![seg(2, 3, 3, 2)]
    } else if code == 14 {
        seq![seg(1, 2, 2, 3)]
    } else {
        seq![]
    }
}

/// Builds one executable segment.
fn mk(sx: i64, sy: i64, ex: i64, ey: i64) -> (s: Seg)
    ensures
        s == (Seg { start: Coord { x: sx, y: sy }, end: Coord { x: ex, y: ey } }),
{
    Seg { start: Coord { x: sx, y: sy }, end: Coord { x: ex, y: ey } }
}

/// The segments for one corner code.
///
/// The uniform codes 0 and 15 produce no segments; the saddle codes 5 and
/// 10 produce two; every other code produces exactly one.
pub fn case_segments(code: u8) -> (v: Vec<Seg>)
    ensures
        v@ == spec_cases(code as int),
        code as int == 0 || code as int == 15 ==> v@.len() == 0,
        forall|i: int| 0 <= i < v@.len() ==> seg_in_cell(#[trigger] v@[i]),
{
    let mut v: Vec<Seg> = Vec::new();
    match code {
        1 => v.push(mk(2, 3, 1, 2)),
        2 => v.push(mk(3, 2, 2, 3)),
        3 => v.push(mk(3, 2, 1, 2)),
        4 => v.push(mk(2, 1, 3, 2)),
        5 => {
            v.push(mk(2, 3, 1, 2));
            v.push(mk(2, 1, 3, 2));
        },
        6 => v.push(mk(2, 1, 2, 3)),
        7 => v.push(mk(2, 1, 1, 2)),
        8 => v.push(mk(1, 2, 2, 1)),
        9 => v.push(mk(2, 3, 2, 1)),
        10 => {
            v.push(mk(1, 2, 2, 1));
            v.push(mk(3, 2, 2, 3));
        },
        11 => v.push(mk(3, 2, 2, 1)),
        12 => v.push(mk(1, 2, 3, 2)),
        13 => v.push(mk(2, 3, 3, 2)),
        14 => v.push(mk(1, 2, 2, 3)),
        _ => {},
    }
    proof {
        assert(v@ =~= spec_cases(code as int));
    }
    v
}

} // verus!
