//! The ring-stitching engine.
//!
//! Marching squares emits short directed segments, one cell window at a
//! time. This module joins them end to end into closed rings: two maps from
//! a quantized endpoint key to an open fragment (one keyed by the fragment's
//! current start, one by its current end) and an index-based arena of
//! fragment slots with a free list. When a segment closes a fragment onto
//! itself the ring is emitted; fragments still open after the scan are
//! dropped, since open boundaries at the domain edge are expected.
//!
//! Points are held in half-unit grid coordinates (integers counting half
//! cells), so endpoint keys are exact and two segment endpoints stitch
//! together exactly when they are the same point.

use crate::cases::{case_segments, seg_in_cell, spec_cases, Seg};
use crate::error::{new_error, Error, ErrorKind};
use crate::frac::{half_spec, Frac};
use crate::grid::{Coord, Extent, Grid};
use std::collections::HashMap;
use vstd::arithmetic::div_mod::lemma_fundamental_div_mod_converse;
use vstd::prelude::*;

verus! {

/// A vertex of an output ring: an exact fractional grid-space coordinate.
#[derive(Clone, Copy, Debug, PartialEq, Eq, Structural)]
pub struct Pt {
    pub x: Frac,
    pub y: Frac,
}

/// An ordered sequence of points; closed when traversal returns to its
/// start.
pub type Ring = Vec<Pt>;

/// The point for a half-unit grid coordinate.
pub open spec fn pt_of(c: Coord) -> Pt {
    Pt { x: half_spec(c.x), y: half_spec(c.y) }
}

/// A coordinate produced by halving a nonnegative half-unit count: either
/// an integer, or an odd numerator over two.
pub open spec fn half_frac(f: Frac) -> bool {
    (f.den == 1 && 0 <= f.num) || (f.den == 2 && 0 <= f.num && f.num % 2 == 1)
}

/// A well-formed emitted ring: closed, at least three points, no two
/// consecutive points equal, every coordinate a nonnegative half coordinate.
pub open spec fn pt_ring_good(ring: Seq<Pt>) -> bool {
    &&& ring.len() >= 3
    &&& ring.first() == ring.last()
    &&& forall|j: int| 0 <= j < ring.len() - 1 ==> (#[trigger] ring[j]) != ring[j + 1]
    &&& forall|j: int|
        0 <= j < ring.len() ==> half_frac((#[trigger] ring[j]).x) && half_frac(ring[j].y)
}

/// The quantized endpoint key: column plus row times the doubled padded
/// width, so coincident points from adjacent cells map identically and
/// distinct in-domain points map to distinct keys.
pub open spec fn spec_key(p: Coord, sw: int) -> int {
    p.x + 2 * sw * p.y
}

/// A half-unit point whose key is well defined: the column fits one row
/// band and the key fits the key type.
pub open spec fn pt_in_dom(p: Coord, sw: int) -> bool {
    &&& 0 <= p.x < 2 * sw
    &&& 0 <= p.y
    &&& spec_key(p, sw) <= u64::MAX
}

/// The padded grid size leaves room for every cell key.
pub open spec fn key_space_ok(w: int, h: int) -> bool {
    &&& 2 <= w
    &&& 2 <= h
    &&& 4 * w * h <= u64::MAX
}

/// In-domain points with equal keys are equal.
proof fn lemma_key_injective(p: Coord, q: Coord, sw: int)
    requires
        pt_in_dom(p, sw),
        pt_in_dom(q, sw),
        spec_key(p, sw) == spec_key(q, sw),
    ensures
        p == q,
{
    assert(p.x + 2 * sw * p.y == p.y * (2 * sw) + p.x) by (nonlinear_arith);
    assert(q.x + 2 * sw * q.y == q.y * (2 * sw) + q.x) by (nonlinear_arith);
    lemma_fundamental_div_mod_converse(spec_key(p, sw), 2 * sw, p.y as int, p.x as int);
    lemma_fundamental_div_mod_converse(spec_key(q, sw), 2 * sw, q.y as int, q.x as int);
}

/// A closed ring in half-unit coordinates.
pub open spec fn ring_good(ring: Seq<Coord>) -> bool {
    &&& ring.len() >= 3
    &&& ring.first() == ring.last()
    &&& forall|j: int| 0 <= j < ring.len() - 1 ==> (#[trigger] ring[j]) != ring[j + 1]
    &&& forall|j: int| 0 <= j < ring.len() ==> 0 <= (#[trigger] ring[j]).x && 0 <= ring[j].y
}

/// An in-progress open ring under construction.
struct Fragment {
    start: u64,
    end: u64,
    ring: Vec<Coord>,
}

/// The engine state as a specification value: the two key maps, the arena
/// slots (each an open fragment of start key, end key and points), the free
/// list, and the rings emitted so far.
pub type EngineSt = (
    Map<u64, usize>,
    Map<u64, usize>,
    Seq<Option<(u64, u64, Seq<Coord>)>>,
    Seq<usize>,
    Seq<Seq<Coord>>,
);

/// The engine state before any segment: empty maps, empty arena, no rings.
pub open spec fn init_st() -> EngineSt {
    (
        Map::<u64, usize>::empty(),
        Map::<u64, usize>::empty(),
        Seq::<Option<(u64, u64, Seq<Coord>)>>::empty(),
        Seq::<usize>::empty(),
        Seq::<Seq<Coord>>::empty(),
    )
}

/// Storing a fragment reuses the most recently freed slot, or appends one.
pub open spec fn arena_ins_spec(
    slots: Seq<Option<(u64, u64, Seq<Coord>)>>,
    free: Seq<usize>,
    fr: (u64, u64, Seq<Coord>),
) -> (Seq<Option<(u64, u64, Seq<Coord>)>>, Seq<usize>, int) {
    if free.len() > 0 {
        (slots.update(free.last() as int, Some(fr)), free.drop_last(), free.last() as int)
    } else {
        (slots.push(Some(fr)), free, slots.len() as int)
    }
}

/// One stitch of the directed segment from `start` to `end` into the
/// engine state, by the four cases: a fragment ending at `start` and one
/// starting at `end` (the same fragment closes and its ring is emitted;
/// different fragments are spliced into one), only the first (extend at the
/// back), only the second (extend at the front), neither (a fresh
/// two-point fragment indexed under both keys).
pub open spec fn stitch_step(st: EngineSt, sw: int, start: Coord, end: Coord) -> EngineSt {
    let (bs, be, slots, free, rings) = st;
    let ks = spec_key(start, sw) as u64;
    let ke = spec_key(end, sw) as u64;
    if be.contains_key(ks) {
        if bs.contains_key(ke) {
            let f_ix = be[ks] as int;
            let g_ix = bs[ke] as int;
            if f_ix == g_ix {
                let fr = slots[f_ix].unwrap();
                (
                    bs.remove(ke),
                    be.remove(ks),
                    slots.update(f_ix, None),
                    free.push(f_ix as usize),
                    rings.push(fr.2.push(end)),
                )
            } else {
                let fr = slots[f_ix].unwrap();
                let g = slots[g_ix].unwrap();
                let slots2 = slots.update(f_ix, None).update(g_ix, None);
                let free2 = free.push(f_ix as usize).push(g_ix as usize);
                let ins = arena_ins_spec(slots2, free2, (fr.0, g.1, fr.2 + g.2));
                (
                    bs.remove(ke).insert(fr.0, ins.2 as usize),
                    be.remove(ks).insert(g.1, ins.2 as usize),
                    ins.0,
                    ins.1,
                    rings,
                )
            }
        } else {
            let f_ix = be[ks] as int;
            let fr = slots[f_ix].unwrap();
            (
                bs,
                be.remove(ks).insert(ke, f_ix as usize),
                slots.update(f_ix, Some((fr.0, ke, fr.2.push(end)))),
                free,
                rings,
            )
        }
    } else if bs.contains_key(ke) {
        let f_ix = bs[ke] as int;
        let fr = slots[f_ix].unwrap();
        (
            bs.remove(ke).insert(ks, f_ix as usize),
            be,
            slots.update(f_ix, Some((ks, fr.1, fr.2.insert(0, start)))),
            free,
            rings,
        )
    } else {
        let ins = arena_ins_spec(slots, free, (ks, ke, seq![start, end]));
        (bs.insert(ks, ins.2 as usize), be.insert(ke, ins.2 as usize), ins.0, ins.1, rings)
    }
}

/// Folding a whole segment stream from the initial state.
pub open spec fn st_fold(sw: int, segs: Seq<(Coord, Coord)>) -> EngineSt
    decreases segs.len(),
{
    if segs.len() == 0 {
        init_st()
    } else {
        stitch_step(st_fold(sw, segs.drop_last()), sw, segs.last().0, segs.last().1)
    }
}

/// The segments of one cell window at `(x, y)`: none when any corner
/// sample is absent, else the case-table segments for the corner code,
/// placed at the window's position in half-unit coordinates.
pub open spec fn win_segs<G: Grid>(g: &G, t: i64, x: int, y: int) -> Seq<(Coord, Coord)> {
    let f0 = flag_spec(g.spec_value(x - 1, y), t);
    let f1 = flag_spec(g.spec_value(x, y), t);
    let f2 = flag_spec(g.spec_value(x, y - 1), t);
    let f3 = flag_spec(g.spec_value(x - 1, y - 1), t);
    if f0 is Some && f1 is Some && f2 is Some && f3 is Some {
        let code = f0.unwrap() + 2 * f1.unwrap() + 4 * f2.unwrap() + 8 * f3.unwrap();
        spec_cases(code as int).map_values(
            |s: Seg|
                (
                    Coord { x: (2 * x + s.start.x) as i64, y: (2 * y + s.start.y) as i64 },
                    Coord { x: (2 * x + s.end.x) as i64, y: (2 * y + s.end.y) as i64 },
                ),
        )
    } else {
        Seq::empty()
    }
}

/// The segments of one extent row `y`, over windows left of column `x`.
pub open spec fn row_upto<G: Grid>(g: &G, t: i64, e: Extent, y: int, x: int) -> Seq<
    (Coord, Coord),
>
    decreases x - e.top_left.x,
{
    if x <= e.top_left.x {
        Seq::empty()
    } else {
        row_upto(g, t, e, y, x - 1) + win_segs(g, t, x - 1, y)
    }
}

/// The segments of one extent, over rows above `y`.
pub open spec fn ext_upto<G: Grid>(g: &G, t: i64, e: Extent, y: int) -> Seq<(Coord, Coord)>
    decreases y - e.top_left.y,
{
    if y <= e.top_left.y {
        Seq::empty()
    } else {
        ext_upto(g, t, e, y - 1) + row_upto(g, t, e, y - 1, e.bottom_right.x + 2)
    }
}

/// The segments of the first `i` extents, in scan order.
pub open spec fn scan_upto<G: Grid>(g: &G, t: i64, exts: Seq<Extent>, i: int) -> Seq<
    (Coord, Coord),
>
    decreases i,
{
    if i <= 0 {
        Seq::empty()
    } else {
        scan_upto(g, t, exts, i - 1) + ext_upto(
            g,
            t,
            exts[i - 1],
            exts[i - 1].bottom_right.y + 2,
        )
    }
}

/// The whole segment stream of one scan of the grid.
pub open spec fn scan_stream<G: Grid>(g: &G, t: i64) -> Seq<(Coord, Coord)> {
    scan_upto(g, t, g.spec_extents(), g.spec_extents().len() as int)
}

/// The rings emitted by scanning the grid at `t`, in half-unit
/// coordinates and emission order.
pub open spec fn scan_rings<G: Grid>(g: &G, t: i64) -> Seq<Seq<Coord>> {
    st_fold(g.spec_width(), scan_stream(g, t)).4
}

/// The rings emitted by scanning the grid at `t`, as exact points.
pub open spec fn scan_pts<G: Grid>(g: &G, t: i64) -> Seq<Seq<Pt>> {
    scan_rings(g, t).map_values(|r: Seq<Coord>| r.map_values(|c: Coord| pt_of(c)))
}

/// No sample present, or its relation to the threshold.
pub open spec fn flag_spec(v: Option<i64>, threshold: i64) -> Option<u8> {
    match v {
        Some(x) => Some(if x >= threshold { 1u8 } else { 0u8 }),
        None => None,
    }
}

/// Every present sample is strictly below the threshold.
pub open spec fn uniform_below<G: Grid>(values: &G, threshold: i64) -> bool {
    forall|x: int, y: int|
        (#[trigger] values.spec_value(x, y)) is Some ==> values.spec_value(x, y).unwrap()
            < threshold
}

/// Every present sample is at or above the threshold.
pub open spec fn uniform_at_or_above<G: Grid>(values: &G, threshold: i64) -> bool {
    forall|x: int, y: int|
        (#[trigger] values.spec_value(x, y)) is Some ==> values.spec_value(x, y).unwrap()
            >= threshold
}

/// Compares one sample against the threshold.
fn flag(v: Option<i64>, threshold: i64) -> (r: Option<u8>)
    ensures
        r == flag_spec(v, threshold),
{
    match v {
        Some(x) => Some(if x >= threshold { 1 } else { 0 }),
        None => None,
    }
}

/// Computes the rings of the isoline at `threshold` for `values` (the
/// inside of the isoline is the surface where samples are at or above the
/// threshold value).
pub fn contour_rings<G: Grid>(values: G, threshold: i64) -> (r: Result<Vec<Ring>, Error>)
    requires
        key_space_ok(values.spec_width(), values.spec_height()),
    ensures
        r is Ok,
        r.unwrap()@.len() == scan_pts(&values, threshold).len(),
        forall|i: int|
            0 <= i < r.unwrap()@.len() ==> (#[trigger] r.unwrap()@[i])@ == scan_pts(
                &values,
                threshold,
            )[i],
        forall|i: int|
            0 <= i < r.unwrap()@.len() ==> pt_ring_good((#[trigger] r.unwrap()@[i])@),
        uniform_below(&values, threshold) ==> r.unwrap()@.len() == 0,
        uniform_at_or_above(&values, threshold) ==> r.unwrap()@.len() == 0,
{
    let mut isoring = IsoRingBuilder::new();
    isoring.compute(&values, threshold)
}

/// Halving distinct half-unit counts gives distinct fractions.
proof fn lemma_half_injective(a: i64, b: i64)
    requires
        0 <= a,
        0 <= b,
        a != b,
    ensures
        half_spec(a) != half_spec(b),
{
    vstd::arithmetic::div_mod::lemma_fundamental_div_mod(a as int, 2);
    vstd::arithmetic::div_mod::lemma_fundamental_div_mod(b as int, 2);
}

/// A cell-window point of the scan has a well-defined key.
proof fn lemma_cell_pt_in_dom(p: Coord, sw: int, sh: int)
    requires
        3 <= p.x,
        p.x <= 2 * sw - 3,
        3 <= p.y,
        p.y <= 2 * sh - 3,
        key_space_ok(sw, sh),
    ensures
        pt_in_dom(p, sw),
{
    assert(p.x + 2 * sw * p.y <= 4 * sw * sh) by (nonlinear_arith)
        requires
            p.x <= 2 * sw - 3,
            p.y <= 2 * sh - 3,
            2 <= sw,
            2 <= sh,
            3 <= p.x,
            3 <= p.y,
    ;
}

/// Converts a closed half-unit ring to exact fractional points.
fn ring_points(ring: &Vec<Coord>) -> (r: Vec<Pt>)
    requires
        ring_good(ring@),
    ensures
        r@.len() == ring@.len(),
        forall|j: int| 0 <= j < ring@.len() ==> r@[j] == pt_of(#[trigger] ring@[j]),
        pt_ring_good(r@),
{
    let mut r: Vec<Pt> = Vec::new();
    let mut i: usize = 0;
    while i < ring.len()
        invariant
            i <= ring@.len(),
            r@.len() == i,
            ring_good(ring@),
            forall|j: int| 0 <= j < i ==> r@[j] == pt_of(#[trigger] ring@[j]),
        decreases ring@.len() - i,
    {
        let c = ring[i];
        let p = Pt { x: Frac::from_half(c.x), y: Frac::from_half(c.y) };
        r.push(p);
        i += 1;
    }
    proof {
        assert forall|j: int| 0 <= j < r@.len() - 1 implies (#[trigger] r@[j]) != r@[j + 1] by {
            if ring@[j].x != ring@[j + 1].x {
                lemma_half_injective(ring@[j].x, ring@[j + 1].x);
            } else {
                lemma_half_injective(ring@[j].y, ring@[j + 1].y);
            }
        }
        assert forall|j: int|
            0 <= j < r@.len() implies half_frac((#[trigger] r@[j]).x) && half_frac(r@[j].y) by {
            vstd::arithmetic::div_mod::lemma_div_pos_is_pos(ring@[j].x as int, 2);
            vstd::arithmetic::div_mod::lemma_div_pos_is_pos(ring@[j].y as int, 2);
        }
    }
    r
}

/// Converts a batch of closed half-unit rings to exact fractional points.
fn convert_rings(result: Vec<Vec<Coord>>) -> (out: Vec<Ring>)
    requires
        forall|i: int| 0 <= i < result@.len() ==> ring_good((#[trigger] result@[i])@),
    ensures
        out@.len() == result@.len(),
        forall|i: int|
            0 <= i < out@.len() ==> (#[trigger] out@[i])@ == result@[i]@.map_values(
                |c: Coord| pt_of(c),
            ),
        forall|i: int| 0 <= i < out@.len() ==> pt_ring_good((#[trigger] out@[i])@),
{
    let mut out: Vec<Ring> = Vec::new();
    let mut ri: usize = 0;
    while ri < result.len()
        invariant
            ri as int <= result@.len(),
            out@.len() == ri as int,
            forall|i: int|
                0 <= i < out@.len() ==> (#[trigger] out@[i])@ == result@[i]@.map_values(
                    |c: Coord| pt_of(c),
                ),
            forall|i: int| 0 <= i < out@.len() ==> pt_ring_good((#[trigger] out@[i])@),
            forall|i: int| 0 <= i < result@.len() ==> ring_good((#[trigger] result@[i])@),
        decreases result@.len() - ri,
    {
        let pts = ring_points(&result[ri]);
        proof {
            assert(pts@ =~= result@[ri as int]@.map_values(|c: Coord| pt_of(c)));
        }
        out.push(pts);
        ri += 1;
    }
    out
}

/// Isoring generator: marching squares with isolines stitched into rings.
pub struct IsoRingBuilder {
    fragment_by_start: HashMap<u64, usize>,
    fragment_by_end: HashMap<u64, usize>,
    f: Vec<Option<Fragment>>,
    free: Vec<usize>,
    is_empty: bool,
}

/// One open fragment is internally consistent: at least two in-domain
/// points, no two consecutive equal, and its stored keys are the keys of
/// its first and last point.
spec fn frag_wf(fr: Fragment, sw: int) -> bool {
    &&& fr.ring@.len() >= 2
    &&& forall|j: int| 0 <= j < fr.ring@.len() ==> pt_in_dom(#[trigger] fr.ring@[j], sw)
    &&& spec_key(fr.ring@.first(), sw) == fr.start
    &&& spec_key(fr.ring@.last(), sw) == fr.end
    &&& forall|j: int| 0 <= j < fr.ring@.len() - 1 ==> (#[trigger] fr.ring@[j]) != fr.ring@[j + 1]
}

/// Every key map entry points at a live slot whose matching endpoint key is
/// that entry's key.
spec fn map_entries_ok(m: Map<u64, usize>, f: Seq<Option<Fragment>>, is_start: bool) -> bool {
    forall|k: u64|
        #[trigger] m.contains_key(k) ==> {
            let i = m[k] as int;
            &&& 0 <= i < f.len()
            &&& f[i] is Some
            &&& (if is_start {
                f[i].unwrap().start == k
            } else {
                f[i].unwrap().end == k
            })
        }
}

/// The free list holds distinct indices of empty slots.
spec fn arena_wf(f: Seq<Option<Fragment>>, free: Seq<usize>) -> bool {
    &&& forall|j: int| 0 <= j < free.len() ==> (#[trigger] free[j] as int) < f.len()
    &&& forall|j: int| 0 <= j < free.len() ==> f[#[trigger] free[j] as int] is None
    &&& forall|j1: int, j2: int|
        0 <= j1 < free.len() && 0 <= j2 < free.len() && j1 != j2 ==> free[j1] != free[j2]
}

/// The engine's fields and the rings emitted so far, as one state value.
spec fn st_abs(b: IsoRingBuilder, rings: Seq<Vec<Coord>>) -> EngineSt {
    (
        b.fragment_by_start@,
        b.fragment_by_end@,
        b.f@.map_values(
            |o: Option<Fragment>|
                match o {
                    Some(fr) => Some((fr.start, fr.end, fr.ring@)),
                    None => None::<(u64, u64, Seq<Coord>)>,
                },
        ),
        b.free@,
        rings.map_values(|r: Vec<Coord>| r@),
    )
}

impl IsoRingBuilder {
    /// The whole engine state is consistent for a grid of padded width `sw`.
    spec fn state_wf(self, sw: int) -> bool {
        &&& map_entries_ok(self.fragment_by_start@, self.f@, true)
        &&& map_entries_ok(self.fragment_by_end@, self.f@, false)
        &&& forall|i: int|
            0 <= i < self.f@.len() && (#[trigger] self.f@[i]) is Some ==> frag_wf(
                self.f@[i].unwrap(),
                sw,
            )
        &&& arena_wf(self.f@, self.free@)
    }

    /// The engine holds no fragments and no key entries.
    pub closed spec fn fresh(self) -> bool {
        &&& self.is_empty
        &&& self.fragment_by_start@ == Map::<u64, usize>::empty()
        &&& self.fragment_by_end@ == Map::<u64, usize>::empty()
        &&& self.f@.len() == 0
        &&& self.free@.len() == 0
    }

    /// The engine never holds stale state while it claims to be fresh.
    pub closed spec fn wf(self) -> bool {
        self.is_empty ==> self.fresh()
    }

    /// Constructs a fresh engine.
    pub fn new() -> (r: IsoRingBuilder)
        ensures
            r.wf(),
            r.fresh(),
    {
        IsoRingBuilder {
            fragment_by_start: HashMap::new(),
            fragment_by_end: HashMap::new(),
            f: Vec::new(),
            free: Vec::new(),
            is_empty: true,
        }
    }

    /// Drops all fragments and key entries, making the engine fresh again.
    pub fn clear(&mut self)
        ensures
            final(self).wf(),
            final(self).fresh(),
    {
        self.f.clear();
        self.free.clear();
        self.fragment_by_end.clear();
        self.fragment_by_start.clear();
        self.is_empty = true;
    }

    /// Computes the rings of the isoline at `threshold` for `values` (the
    /// inside of the isoline is the surface where samples are at or above
    /// the threshold value).
    ///
    /// Every extent of the grid is scanned cell window by cell window; a
    /// window with an absent corner produces nothing, and a window that is
    /// uniformly below, or uniformly at or above, the threshold produces no
    /// segments, so a uniform grid yields no rings. Every emitted ring is
    /// closed.
    #[verifier::loop_isolation(false)]
    #[verifier::rlimit(100)]
    pub fn compute<G: Grid>(&mut self, values: &G, threshold: i64) -> (r: Result<
        Vec<Ring>,
        Error,
    >)
        requires
            old(self).wf(),
            key_space_ok(values.spec_width(), values.spec_height()),
        ensures
            r is Ok,
            final(self).wf(),
            r.unwrap()@.len() == scan_pts(values, threshold).len(),
            forall|i: int|
                0 <= i < r.unwrap()@.len() ==> (#[trigger] r.unwrap()@[i])@ == scan_pts(
                    values,
                    threshold,
                )[i],
            forall|i: int|
                0 <= i < r.unwrap()@.len() ==> pt_ring_good((#[trigger] r.unwrap()@[i])@),
            uniform_below(values, threshold) ==> r.unwrap()@.len() == 0,
            uniform_at_or_above(values, threshold) ==> r.unwrap()@.len() == 0,
    {
        let ghost gw = values.spec_width();
        let ghost gh = values.spec_height();
        let (sw, sh) = values.size();
        proof {
            assert(8 * gw <= u64::MAX && 8 * gh <= u64::MAX) by (nonlinear_arith)
                requires
                    4 * gw * gh <= u64::MAX,
                    2 <= gw,
                    2 <= gh,
            ;
        }
        if !self.is_empty {
            self.clear();
        }
        let mut result: Vec<Vec<Coord>> = Vec::new();
        let ghost mut consumed: Seq<(Coord, Coord)> = Seq::empty();
        proof {
            assert(st_abs(*self, result@).2 =~= init_st().2);
            assert(st_abs(*self, result@).4 =~= init_st().4);
            assert(st_abs(*self, result@) == st_fold(gw, consumed));
        }
        let extents = values.extents();
        let mut ei: usize = 0;
        while ei < extents.len()
            invariant
                ei <= extents@.len(),
                self.state_wf(gw),
                st_abs(*self, result@) == st_fold(gw, consumed),
                consumed == scan_upto(values, threshold, extents@, ei as int),
                forall|i: int| 0 <= i < result@.len() ==> ring_good((#[trigger] result@[i])@),
                uniform_below(values, threshold) ==> result@.len() == 0,
                uniform_at_or_above(values, threshold) ==> result@.len() == 0,
            decreases extents@.len() - ei,
        {
            let e = extents[ei];
            let x0 = e.top_left.x;
            let x_end = e.bottom_right.x;
            let y_end = e.bottom_right.y;
            let ghost pre_e = consumed;
            let mut y = e.top_left.y;
            proof {
                assert(consumed =~= pre_e + ext_upto(values, threshold, e, y as int));
            }
            while y <= y_end + 1
                invariant
                    e.top_left.y <= y,
                    y as int <= y_end as int + 2 || y == e.top_left.y,
                    self.state_wf(gw),
                    st_abs(*self, result@) == st_fold(gw, consumed),
                    consumed == pre_e + ext_upto(values, threshold, e, y as int),
                    forall|i: int|
                        0 <= i < result@.len() ==> ring_good((#[trigger] result@[i])@),
                    uniform_below(values, threshold) ==> result@.len() == 0,
                    uniform_at_or_above(values, threshold) ==> result@.len() == 0,
                decreases y_end + 2 - y,
            {
                // corner layout per cell window at (x, y):
                //   t3 t2
                //   t0 t1
                let mut t3 = flag(values.get_point(Coord { x: x0 - 1, y: y - 1 }), threshold);
                let mut t0 = flag(values.get_point(Coord { x: x0 - 1, y }), threshold);
                let ghost pre_y = consumed;
                let mut x = x0;
                proof {
                    assert(consumed =~= pre_y + row_upto(values, threshold, e, y as int, x as int));
                }
                while x <= x_end + 1
                    invariant
                        x0 <= x,
                        x as int <= x_end as int + 2 || x == x0,
                        t3 == flag_spec(
                            values.spec_value(x as int - 1, y as int - 1),
                            threshold,
                        ),
                        t0 == flag_spec(values.spec_value(x as int - 1, y as int), threshold),
                        t3 is Some ==> 0 <= x as int - 1 <= gw - 3 && 0 <= y as int - 1 <= gh
                            - 3,
                        t0 is Some ==> 0 <= x as int - 1 <= gw - 3 && 0 <= y as int <= gh - 3,
                        self.state_wf(gw),
                        st_abs(*self, result@) == st_fold(gw, consumed),
                        consumed == pre_y + row_upto(values, threshold, e, y as int, x as int),
                        forall|i: int|
                            0 <= i < result@.len() ==> ring_good((#[trigger] result@[i])@),
                        uniform_below(values, threshold) ==> result@.len() == 0,
                        uniform_at_or_above(values, threshold) ==> result@.len() == 0,
                    decreases x_end + 2 - x,
                {
                    let t2 = flag(values.get_point(Coord { x, y: y - 1 }), threshold);
                    let t1 = flag(values.get_point(Coord { x, y }), threshold);
                    let ghost pre_w = consumed;
                    let ghost wsegs = win_segs(values, threshold, x as int, y as int);
                    match (t0, t1, t2, t3) {
                        (Some(b0), Some(b1), Some(b2), Some(b3)) => {
                            let code: u8 = b0 + 2 * b1 + 4 * b2 + 8 * b3;
                            proof {
                                if uniform_below(values, threshold) {
                                    assert(code == 0);
                                }
                                if uniform_at_or_above(values, threshold) {
                                    assert(code == 15);
                                }
                            }
                            let segs = case_segments(code);
                            proof {
                                assert(wsegs =~= spec_cases(code as int).map_values(
                                    |s: Seg|
                                        (
                                            Coord {
                                                x: (2 * (x as int) + s.start.x) as i64,
                                                y: (2 * (y as int) + s.start.y) as i64,
                                            },
                                            Coord {
                                                x: (2 * (x as int) + s.end.x) as i64,
                                                y: (2 * (y as int) + s.end.y) as i64,
                                            },
                                        ),
                                ));
                                assert(consumed =~= pre_w + wsegs.subrange(0, 0));
                            }
                            let mut si: usize = 0;
                            while si < segs.len()
                                invariant
                                    si <= segs@.len(),
                                    self.state_wf(gw),
                                    st_abs(*self, result@) == st_fold(gw, consumed),
                                    consumed == pre_w + wsegs.subrange(0, si as int),
                                    forall|i: int|
                                        0 <= i < result@.len() ==> ring_good(
                                            (#[trigger] result@[i])@,
                                        ),
                                    uniform_below(values, threshold) ==> result@.len() == 0,
                                    uniform_at_or_above(values, threshold) ==> result@.len()
                                        == 0,
                                decreases segs@.len() - si,
                            {
                                let s = segs[si];
                                let sp = Coord { x: 2 * x + s.start.x, y: 2 * y + s.start.y };
                                let ep = Coord { x: 2 * x + s.end.x, y: 2 * y + s.end.y };
                                proof {
                                    assert(seg_in_cell(spec_cases(code as int)[si as int]));
                                    lemma_cell_pt_in_dom(sp, gw, gh);
                                    lemma_cell_pt_in_dom(ep, gw, gh);
                                    assert(wsegs[si as int] == (sp, ep));
                                }
                                match self.stitch(sw, sp, ep, &mut result) {
                                    Ok(()) => {},
                                    Err(er) => {
                                        return Err(er);
                                    },
                                }
                                proof {
                                    consumed = consumed.push((sp, ep));
                                    assert(consumed.drop_last() =~= pre_w + wsegs.subrange(
                                        0,
                                        si as int,
                                    ));
                                    assert(consumed =~= pre_w + wsegs.subrange(
                                        0,
                                        si as int + 1,
                                    ));
                                }
                                si += 1;
                            }
                            proof {
                                assert(wsegs.subrange(0, segs@.len() as int) =~= wsegs);
                                assert(consumed =~= pre_y + row_upto(
                                    values,
                                    threshold,
                                    e,
                                    y as int,
                                    x as int + 1,
                                ));
                            }
                        },
                        _ => {
                            proof {
                                assert(wsegs =~= Seq::<(Coord, Coord)>::empty());
                                assert(consumed =~= pre_y + row_upto(
                                    values,
                                    threshold,
                                    e,
                                    y as int,
                                    x as int + 1,
                                ));
                            }
                        },
                    }
                    t0 = t1;
                    t3 = t2;
                    x += 1;
                }
                proof {
                    if !(x as int == x_end as int + 2) {
                        // a degenerate extent: both the scanned part of the
                        // row and the whole row are empty
                        assert(row_upto(values, threshold, e, y as int, x as int)
                            =~= Seq::<(Coord, Coord)>::empty());
                        assert(row_upto(values, threshold, e, y as int, e.bottom_right.x + 2)
                            =~= Seq::<(Coord, Coord)>::empty());
                    }
                    assert(consumed =~= pre_e + ext_upto(values, threshold, e, y as int + 1));
                }
                y += 1;
            }
            proof {
                if !(y as int == y_end as int + 2) {
                    assert(ext_upto(values, threshold, e, y as int) =~= Seq::<
                        (Coord, Coord),
                    >::empty());
                    assert(ext_upto(values, threshold, e, e.bottom_right.y + 2) =~= Seq::<
                        (Coord, Coord),
                    >::empty());
                }
                assert(consumed =~= scan_upto(values, threshold, extents@, ei as int + 1));
            }
            ei += 1;
        }
        proof {
            assert(consumed == scan_stream(values, threshold));
            assert(result@.map_values(|r: Vec<Coord>| r@) == scan_rings(values, threshold));
        }
        self.is_empty = false;
        let out = convert_rings(result);
        proof {
            assert forall|i: int|
                0 <= i < out@.len() implies (#[trigger] out@[i])@ == scan_pts(
                values,
                threshold,
            )[i] by {
                assert(result@[i]@ == scan_rings(values, threshold)[i]);
                assert(out@[i]@ =~= scan_pts(values, threshold)[i]);
            }
            assert(out@.len() == scan_pts(values, threshold).len());
        }
        Ok(out)
    }

    /// Stores a fragment in a free slot (or a new one) and returns its id.
    fn arena_insert(&mut self, fr: Fragment) -> (ix: usize)
        requires
            arena_wf(old(self).f@, old(self).free@),
        ensures
            arena_wf(final(self).f@, final(self).free@),
            final(self).fragment_by_start == old(self).fragment_by_start,
            final(self).fragment_by_end == old(self).fragment_by_end,
            final(self).is_empty == old(self).is_empty,
            (ix as int) < final(self).f@.len(),
            final(self).f@[ix as int] == Some(fr),
            final(self).f@.len() == old(self).f@.len()
                || final(self).f@.len() == old(self).f@.len() + 1,
            forall|j: int|
                0 <= j < old(self).f@.len() && j != ix as int
                    ==> final(self).f@[j] == old(self).f@[j],
            (ix as int) < old(self).f@.len()
                ==> old(self).f@[ix as int] is None
                    && final(self).f@.len() == old(self).f@.len(),
            old(self).free@.len() > 0 ==> ix == old(self).free@.last() && final(self).f@
                == old(self).f@.update(ix as int, Some(fr)) && final(self).free@ == old(
                self,
            ).free@.drop_last(),
            old(self).free@.len() == 0 ==> ix as int == old(self).f@.len() && final(self).f@
                == old(self).f@.push(Some(fr)) && final(self).free@ == old(self).free@,
    {
        match self.free.pop() {
            Some(i) => {
                self.f.set(i, Some(fr));
                i
            },
            None => {
                let i = self.f.len();
                self.f.push(Some(fr));
                i
            },
        }
    }

    /// Removes and returns the fragment in slot `ix`, freeing the slot.
    fn arena_remove(&mut self, ix: usize) -> (fr: Fragment)
        requires
            arena_wf(old(self).f@, old(self).free@),
            (ix as int) < old(self).f@.len(),
            old(self).f@[ix as int] is Some,
        ensures
            arena_wf(final(self).f@, final(self).free@),
            final(self).fragment_by_start == old(self).fragment_by_start,
            final(self).fragment_by_end == old(self).fragment_by_end,
            final(self).is_empty == old(self).is_empty,
            fr == old(self).f@[ix as int].unwrap(),
            final(self).f@ == old(self).f@.update(ix as int, Option::<Fragment>::None),
            final(self).free@ == old(self).free@.push(ix),
    {
        let slot = &mut self.f[ix];
        let taken = slot.take();
        match taken {
            Some(fr) => {
                self.free.push(ix);
                fr
            },
            None => vstd::pervasive::unreached(),
        }
    }

    /// The quantized key of one endpoint.
    fn index(&self, width: usize, point: &Coord) -> (k: u64)
        requires
            pt_in_dom(*point, width as int),
            2 * (width as int) <= u64::MAX,
        ensures
            k as int == spec_key(*point, width as int),
    {
        (point.x as u64) + 2 * (width as u64) * (point.y as u64)
    }

    // Stitches one segment into the open fragments. Four cases:
    // a fragment ends at the segment's start and another starts at its end
    // (the same fragment: a ring closes and is emitted; different ones:
    // they are spliced through this segment into one longer fragment);
    // only the first exists (extend at the back); only the second exists
    // (extend at the front); neither (allocate a fresh two-point fragment).
    #[verifier::rlimit(60)]
    fn stitch(
        &mut self,
        width: usize,
        start: Coord,
        end: Coord,
        result: &mut Vec<Vec<Coord>>,
    ) -> (r: Result<(), Error>)
        requires
            old(self).state_wf(width as int),
            pt_in_dom(start, width as int),
            pt_in_dom(end, width as int),
            start != end,
            2 * (width as int) <= u64::MAX,
        ensures
            r is Ok,
            final(self).state_wf(width as int),
            final(self).is_empty == old(self).is_empty,
            st_abs(*final(self), final(result)@) == stitch_step(
                st_abs(*old(self), old(result)@),
                width as int,
                start,
                end,
            ),
            final(result)@.len() >= old(result)@.len(),
            forall|i: int|
                0 <= i < old(result)@.len() ==> final(result)@[i] == old(result)@[i],
            forall|i: int|
                old(result)@.len() <= i < final(result)@.len() ==> ring_good(
                    (#[trigger] final(result)@[i])@,
                ),
    {
        let start_index = self.index(width, &start);
        let end_index = self.index(width, &end);
        let ghost st0 = st_abs(*self, result@);
        let ghost sw = width as int;
        let ghost ks = spec_key(start, sw) as u64;
        let ghost ke = spec_key(end, sw) as u64;
        proof {
            if start_index == end_index {
                lemma_key_injective(start, end, width as int);
            }
            assert(start_index == ks);
            assert(end_index == ke);
        }
        if self.fragment_by_end.contains_key(&start_index) {
            if self.fragment_by_start.contains_key(&end_index) {
                let f_ix = match self.fragment_by_end.remove(&start_index) {
                    Some(i) => i,
                    None => {
                        return Err(new_error(ErrorKind::Unexpected));
                    },
                };
                let g_ix = match self.fragment_by_start.remove(&end_index) {
                    Some(i) => i,
                    None => {
                        return Err(new_error(ErrorKind::Unexpected));
                    },
                };
                if f_ix == g_ix {
                    // the fragment closes onto itself: emit the ring
                    let mut fr = self.arena_remove(f_ix);
                    proof {
                        let ring = fr.ring@;
                        lemma_key_injective(ring.last(), start, width as int);
                        lemma_key_injective(ring.first(), end, width as int);
                    }
                    fr.ring.push(end);
                    proof {
                        assert(ring_good(fr.ring@));
                    }
                    result.push(fr.ring);
                    proof {
                        let cur = st_abs(*self, result@);
                        assert(f_ix as int == st0.1[ks] as int);
                        assert(cur.2 =~~= st0.2.update(
                            f_ix as int,
                            None::<(u64, u64, Seq<Coord>)>,
                        ));
                        assert(cur.4 =~~= st0.4.push(st0.2[f_ix as int].unwrap().2.push(end)));
                        assert(cur == stitch_step(st0, sw, start, end));
                    }
                } else {
                    // splice the two fragments through this segment
                    let mut fr = self.arena_remove(f_ix);
                    let mut g = self.arena_remove(g_ix);
                    proof {
                        lemma_key_injective(fr.ring@.last(), start, width as int);
                        lemma_key_injective(g.ring@.first(), end, width as int);
                    }
                    let fstart = fr.start;
                    let gend = g.end;
                    fr.ring.append(&mut g.ring);
                    let ix = self.arena_insert(
                        Fragment { start: fstart, end: gend, ring: fr.ring },
                    );
                    self.fragment_by_start.insert(fstart, ix);
                    self.fragment_by_end.insert(gend, ix);
                    proof {
                        let cur = st_abs(*self, result@);
                        assert(f_ix as int == st0.1[ks] as int);
                        assert(g_ix as int == st0.0[ke] as int);
                        let slots2 = st0.2.update(
                            f_ix as int,
                            None::<(u64, u64, Seq<Coord>)>,
                        ).update(g_ix as int, None::<(u64, u64, Seq<Coord>)>);
                        let free2 = st0.3.push(f_ix).push(g_ix);
                        let merged = (
                            st0.2[f_ix as int].unwrap().0,
                            st0.2[g_ix as int].unwrap().1,
                            st0.2[f_ix as int].unwrap().2 + st0.2[g_ix as int].unwrap().2,
                        );
                        let ins = arena_ins_spec(slots2, free2, merged);
                        assert(ins.2 == ix as int);
                        assert(cur.2 =~~= ins.0);
                        assert(cur.3 =~~= ins.1);
                        assert(cur.4 =~~= st0.4);
                        assert(cur == stitch_step(st0, sw, start, end));
                    }
                }
            } else {
                // extend the fragment that ends at the segment's start
                let f_ix = match self.fragment_by_end.remove(&start_index) {
                    Some(i) => i,
                    None => {
                        return Err(new_error(ErrorKind::Unexpected));
                    },
                };
                let slot = &mut self.f[f_ix];
                match slot {
                    Some(fr) => {
                        proof {
                            lemma_key_injective(fr.ring@.last(), start, width as int);
                        }
                        fr.ring.push(end);
                        fr.end = end_index;
                    },
                    None => {
                        return Err(new_error(ErrorKind::Unexpected));
                    },
                }
                self.fragment_by_end.insert(end_index, f_ix);
                proof {
                    let cur = st_abs(*self, result@);
                    assert(f_ix as int == st0.1[ks] as int);
                    assert(cur.2 =~~= st0.2.update(
                        f_ix as int,
                        Some(
                            (
                                st0.2[f_ix as int].unwrap().0,
                                ke,
                                st0.2[f_ix as int].unwrap().2.push(end),
                            ),
                        ),
                    ));
                    assert(cur.4 =~~= st0.4);
                    assert(cur == stitch_step(st0, sw, start, end));
                }
            }
        } else if self.fragment_by_start.contains_key(&end_index) {
            // extend the fragment that starts at the segment's end
            let f_ix = match self.fragment_by_start.remove(&end_index) {
                Some(i) => i,
                None => {
                    return Err(new_error(ErrorKind::Unexpected));
                },
            };
            let slot = &mut self.f[f_ix];
            match slot {
                Some(fr) => {
                    proof {
                        lemma_key_injective(fr.ring@.first(), end, width as int);
                    }
                    fr.ring.insert(0, start);
                    fr.start = start_index;
                },
                None => {
                    return Err(new_error(ErrorKind::Unexpected));
                },
            }
            self.fragment_by_start.insert(start_index, f_ix);
            proof {
                let cur = st_abs(*self, result@);
                assert(f_ix as int == st0.0[ke] as int);
                assert(cur.2 =~~= st0.2.update(
                    f_ix as int,
                    Some(
                        (
                            ks,
                            st0.2[f_ix as int].unwrap().1,
                            st0.2[f_ix as int].unwrap().2.insert(0, start),
                        ),
                    ),
                ));
                assert(cur.4 =~~= st0.4);
                assert(cur == stitch_step(st0, sw, start, end));
            }
        } else {
            // a fresh two-point fragment, indexed by both keys
            let mut ring: Vec<Coord> = Vec::new();
            ring.push(start);
            ring.push(end);
            let ix = self.arena_insert(Fragment { start: start_index, end: end_index, ring });
            self.fragment_by_start.insert(start_index, ix);
            self.fragment_by_end.insert(end_index, ix);
            proof {
                let cur = st_abs(*self, result@);
                let ins = arena_ins_spec(st0.2, st0.3, (ks, ke, seq![start, end]));
                assert(ix as int == ins.2);
                assert(cur.2 =~~= ins.0);
                assert(cur.3 =~~= ins.1);
                assert(cur.4 =~~= st0.4);
                assert(cur == stitch_step(st0, sw, start, end));
            }
        }
        Ok(())
    }
}

} // verus!
