//! The contour and isoband construction layer.
//!
//! A [`ContourBuilder`] drives the ring-stitching engine once per threshold,
//! optionally smooths each ring by linear interpolation between the
//! bracketing samples, applies an affine grid-to-world mapping
//! `output = point * step + origin`, and classifies rings into polygons and
//! holes (for contours) or into enclosure-parity bands (for isobands).

use crate::area::{
    area, area_exec_spec, area_spec, cont_exec, contains, contains_spec, pt_wf, ring_wf,
};
use crate::error::{new_error, Error, ErrorKind};
use crate::frac::{
    add_spec, div_spec, lemma_norm_value, lemma_q_cmp_congr, lemma_q_eq_trans, mul_spec,
    norm_spec, q_add, q_div, q_eq, q_lt, q_mul, q_sub, sub_spec, Frac,
};
use crate::grid::{Coord, Grid};
use crate::isoringbuilder::{
    half_frac, key_space_ok, pt_ring_good, scan_pts, IsoRingBuilder, Pt, Ring,
};
use vstd::prelude::*;

verus! {

/// The rings of one isoline, keyed by its threshold.
#[derive(Debug)]
pub struct Line {
    pub geometry: Vec<Ring>,
    pub threshold: i64,
}

/// A polygon: one exterior boundary and its holes.
#[derive(Debug)]
pub struct Polygon {
    pub exterior: Ring,
    pub interiors: Vec<Ring>,
}

/// The polygons of one filled contour, keyed by its threshold.
#[derive(Debug)]
pub struct Contour {
    pub geometry: Vec<Polygon>,
    pub threshold: i64,
}

/// The polygons of the region between two thresholds.
#[derive(Debug)]
pub struct Band {
    pub geometry: Vec<Polygon>,
    pub min_v: i64,
    pub max_v: i64,
}

/// A ring as delivered by the construction layer: closed, at least three
/// points, every coordinate a well-formed fraction.
pub open spec fn out_ring_ok(ring: Seq<Pt>) -> bool {
    &&& ring.len() >= 3
    &&& ring.first() == ring.last()
    &&& ring_wf(ring)
}

/// A point whose coordinates are nonnegative half coordinates.
pub open spec fn half_pt(p: Pt) -> bool {
    half_frac(p.x) && half_frac(p.y)
}

/// The exact new coordinate `x * s + o`, or `None` when it cannot be
/// represented.
pub open spec fn mul_add_spec(x: Frac, s: Frac, o: Frac) -> Option<Frac> {
    match mul_spec(x, s) {
        None => None,
        Some(m) => add_spec(m, o),
    }
}

/// The exact inverse coordinate `(x - o) / s`, or `None` when it cannot be
/// represented.
pub open spec fn sub_div_spec(x: Frac, o: Frac, s: Frac) -> Option<Frac> {
    match sub_spec(x, o) {
        None => None,
        Some(d) => div_spec(d, s),
    }
}

/// Contours generator, using a builder pattern: configure smoothing and the
/// affine grid-to-world mapping, then ask for lines, contours or isobands.
pub struct ContourBuilder {
    /// Whether to smooth the contours.
    smooth: bool,
    /// The horizontal coordinate for the origin of the grid.
    x_origin: Frac,
    /// The vertical coordinate for the origin of the grid.
    y_origin: Frac,
    /// The horizontal step for the grid.
    x_step: Frac,
    /// The vertical step for the grid.
    y_step: Frac,
}

impl ContourBuilder {
    /// All affine parameters are well-formed fractions.
    pub closed spec fn wf(self) -> bool {
        &&& self.x_origin.wf()
        &&& self.y_origin.wf()
        &&& self.x_step.wf()
        &&& self.y_step.wf()
    }

    /// Whether smoothing is enabled.
    pub closed spec fn spec_smooth(self) -> bool {
        self.smooth
    }

    /// The configured horizontal origin.
    pub closed spec fn spec_x_origin(self) -> Frac {
        self.x_origin
    }

    /// The configured vertical origin.
    pub closed spec fn spec_y_origin(self) -> Frac {
        self.y_origin
    }

    /// The configured horizontal step.
    pub closed spec fn spec_x_step(self) -> Frac {
        self.x_step
    }

    /// The configured vertical step.
    pub closed spec fn spec_y_step(self) -> Frac {
        self.y_step
    }

    /// Constructs a new contours generator; by default the origin is
    /// `(0, 0)` and the step `(1, 1)`. Set `smooth` to true to smooth the
    /// contour lines by linear interpolation.
    pub fn new(smooth: bool) -> (r: ContourBuilder)
        ensures
            r.wf(),
            r.spec_smooth() == smooth,
            r.spec_x_origin()@ == (0int, 1int),
            r.spec_y_origin()@ == (0int, 1int),
            r.spec_x_step()@ == (1int, 1int),
            r.spec_y_step()@ == (1int, 1int),
    {
        ContourBuilder {
            smooth,
            x_origin: Frac { num: 0, den: 1 },
            y_origin: Frac { num: 0, den: 1 },
            x_step: Frac { num: 1, den: 1 },
            y_step: Frac { num: 1, den: 1 },
        }
    }

    /// Sets the x origin of the grid.
    pub fn x_origin(self, x_origin: Frac) -> (r: ContourBuilder)
        requires
            x_origin.wf(),
        ensures
            self.wf() ==> r.wf(),
            r.spec_x_origin() == x_origin,
            r.spec_y_origin() == self.spec_y_origin(),
            r.spec_x_step() == self.spec_x_step(),
            r.spec_y_step() == self.spec_y_step(),
            r.spec_smooth() == self.spec_smooth(),
    {
        ContourBuilder { x_origin, ..self }
    }

    /// Sets the y origin of the grid.
    pub fn y_origin(self, y_origin: Frac) -> (r: ContourBuilder)
        requires
            y_origin.wf(),
        ensures
            self.wf() ==> r.wf(),
            r.spec_y_origin() == y_origin,
            r.spec_x_origin() == self.spec_x_origin(),
            r.spec_x_step() == self.spec_x_step(),
            r.spec_y_step() == self.spec_y_step(),
            r.spec_smooth() == self.spec_smooth(),
    {
        ContourBuilder { y_origin, ..self }
    }

    /// Sets the x step of the grid.
    pub fn x_step(self, x_step: Frac) -> (r: ContourBuilder)
        requires
            x_step.wf(),
        ensures
            self.wf() ==> r.wf(),
            r.spec_x_step() == x_step,
            r.spec_x_origin() == self.spec_x_origin(),
            r.spec_y_origin() == self.spec_y_origin(),
            r.spec_y_step() == self.spec_y_step(),
            r.spec_smooth() == self.spec_smooth(),
    {
        ContourBuilder { x_step, ..self }
    }

    /// Sets the y step of the grid.
    pub fn y_step(self, y_step: Frac) -> (r: ContourBuilder)
        requires
            y_step.wf(),
        ensures
            self.wf() ==> r.wf(),
            r.spec_y_step() == y_step,
            r.spec_x_origin() == self.spec_x_origin(),
            r.spec_y_origin() == self.spec_y_origin(),
            r.spec_x_step() == self.spec_x_step(),
            r.spec_smooth() == self.spec_smooth(),
    {
        ContourBuilder { y_step, ..self }
    }

    /// Maps one point by the affine transform `point * step + origin`.
    pub fn transform_point(&self, p: &Pt) -> (r: Result<Pt, Error>)
        requires
            self.wf(),
            pt_wf(*p),
        ensures
            r is Ok <==> mul_add_spec(p.x, self.spec_x_step(), self.spec_x_origin()) is Some
                && mul_add_spec(p.y, self.spec_y_step(), self.spec_y_origin()) is Some,
            r matches Ok(q) ==> {
                &&& pt_wf(q)
                &&& Some(q.x) == mul_add_spec(p.x, self.spec_x_step(), self.spec_x_origin())
                &&& Some(q.y) == mul_add_spec(p.y, self.spec_y_step(), self.spec_y_origin())
                &&& q_eq(q.x@, q_add(q_mul(p.x@, self.spec_x_step()@), self.spec_x_origin()@))
                &&& q_eq(q.y@, q_add(q_mul(p.y@, self.spec_y_step()@), self.spec_y_origin()@))
            },
            r is Err ==> r.unwrap_err().kind == ErrorKind::BadCast,
    {
        let mx = match p.x.checked_mul(self.x_step) {
            Some(v) => v,
            None => {
                return Err(new_error(ErrorKind::BadCast));
            },
        };
        let qx = match mx.checked_add(self.x_origin) {
            Some(v) => v,
            None => {
                return Err(new_error(ErrorKind::BadCast));
            },
        };
        let my = match p.y.checked_mul(self.y_step) {
            Some(v) => v,
            None => {
                return Err(new_error(ErrorKind::BadCast));
            },
        };
        let qy = match my.checked_add(self.y_origin) {
            Some(v) => v,
            None => {
                return Err(new_error(ErrorKind::BadCast));
            },
        };
        proof {
            lemma_mul_add_value(p.x, self.x_step, self.x_origin, mx, qx);
            lemma_mul_add_value(p.y, self.y_step, self.y_origin, my, qy);
        }
        Ok(Pt { x: qx, y: qy })
    }

    /// Maps one point by the inverse affine transform
    /// `(point - origin) / step`; both steps must be nonzero.
    pub fn invert_point(&self, p: &Pt) -> (r: Result<Pt, Error>)
        requires
            self.wf(),
            pt_wf(*p),
            self.spec_x_step().num != 0,
            self.spec_y_step().num != 0,
        ensures
            r is Ok <==> sub_div_spec(p.x, self.spec_x_origin(), self.spec_x_step()) is Some
                && sub_div_spec(p.y, self.spec_y_origin(), self.spec_y_step()) is Some,
            r matches Ok(q) ==> {
                &&& pt_wf(q)
                &&& Some(q.x) == sub_div_spec(p.x, self.spec_x_origin(), self.spec_x_step())
                &&& Some(q.y) == sub_div_spec(p.y, self.spec_y_origin(), self.spec_y_step())
                &&& q_eq(q.x@, q_div(q_sub(p.x@, self.spec_x_origin()@), self.spec_x_step()@))
                &&& q_eq(q.y@, q_div(q_sub(p.y@, self.spec_y_origin()@), self.spec_y_step()@))
            },
            r is Err ==> r.unwrap_err().kind == ErrorKind::BadCast,
    {
        let dx = match p.x.checked_sub(self.x_origin) {
            Some(v) => v,
            None => {
                return Err(new_error(ErrorKind::BadCast));
            },
        };
        let qx = match dx.checked_div(self.x_step) {
            Some(v) => v,
            None => {
                return Err(new_error(ErrorKind::BadCast));
            },
        };
        let dy = match p.y.checked_sub(self.y_origin) {
            Some(v) => v,
            None => {
                return Err(new_error(ErrorKind::BadCast));
            },
        };
        let qy = match dy.checked_div(self.y_step) {
            Some(v) => v,
            None => {
                return Err(new_error(ErrorKind::BadCast));
            },
        };
        proof {
            lemma_sub_div_value(p.x, self.x_origin, self.x_step, dx, qx);
            lemma_sub_div_value(p.y, self.y_origin, self.y_step, dy, qy);
        }
        Ok(Pt { x: qx, y: qy })
    }
}

/// The integer part of a fraction's value (for nonnegative values).
pub open spec fn trunc_val(f: Frac) -> int {
    f.num as int / f.den as int
}

/// The horizontal smoothing step applies to a point: its x coordinate is an
/// interior integer crossing and both bracketing samples are present and
/// distinct.
pub open spec fn smooth_x_applicable<G: Grid>(g: &G, p: Pt) -> bool {
    &&& p.x.den == 1
    &&& 0 < p.x.num
    &&& (p.x.num as int) < g.spec_width()
    &&& g.spec_value(p.x.num as int - 1, trunc_val(p.y) - 1) is Some
    &&& g.spec_value(p.x.num as int - 2, trunc_val(p.y) - 1) is Some
    &&& g.spec_value(p.x.num as int - 1, trunc_val(p.y) - 1) != g.spec_value(
        p.x.num as int - 2,
        trunc_val(p.y) - 1,
    )
}

/// The numerator of the horizontal shift: zero exactly when the threshold
/// already sits halfway between the bracketing samples.
pub open spec fn smooth_x_shift<G: Grid>(g: &G, t: i64, p: Pt) -> int {
    let v1 = g.spec_value(p.x.num as int - 1, trunc_val(p.y) - 1).unwrap();
    let v0 = g.spec_value(p.x.num as int - 2, trunc_val(p.y) - 1).unwrap();
    2 * (t - v0) - (v1 - v0)
}

/// The new x coordinate after smoothing: `x + (t - v0)/(v1 - v0) - 1/2`
/// when applicable, unchanged otherwise; `None` when the exact value cannot
/// be represented.
pub open spec fn smooth_new_x<G: Grid>(g: &G, t: i64, p: Pt) -> Option<Frac> {
    if !smooth_x_applicable(g, p) {
        Some(p.x)
    } else {
        let v1 = g.spec_value(p.x.num as int - 1, trunc_val(p.y) - 1).unwrap();
        let v0 = g.spec_value(p.x.num as int - 2, trunc_val(p.y) - 1).unwrap();
        let d = v1 - v0;
        let sn = 2 * (t - v0) - d;
        if sn == 0 {
            Some(p.x)
        } else {
            let prod = 2 * p.x.num * d;
            if prod < i128::MIN || prod > i128::MAX {
                None
            } else if prod + sn < i128::MIN || prod + sn > i128::MAX {
                None
            } else {
                norm_spec(prod + sn, 2 * d)
            }
        }
    }
}

/// The vertical smoothing step applies to a point.
pub open spec fn smooth_y_applicable<G: Grid>(g: &G, p: Pt) -> bool {
    &&& p.y.den == 1
    &&& 0 < p.y.num
    &&& (p.y.num as int) < g.spec_height()
    &&& g.spec_value(trunc_val(p.x) - 1, p.y.num as int - 1) is Some
    &&& g.spec_value(trunc_val(p.x) - 1, p.y.num as int - 2) is Some
    &&& g.spec_value(trunc_val(p.x) - 1, p.y.num as int - 1) != g.spec_value(
        trunc_val(p.x) - 1,
        p.y.num as int - 2,
    )
}

/// The numerator of the vertical shift.
pub open spec fn smooth_y_shift<G: Grid>(g: &G, t: i64, p: Pt) -> int {
    let v1 = g.spec_value(trunc_val(p.x) - 1, p.y.num as int - 1).unwrap();
    let v0 = g.spec_value(trunc_val(p.x) - 1, p.y.num as int - 2).unwrap();
    2 * (t - v0) - (v1 - v0)
}

/// The new y coordinate after smoothing.
pub open spec fn smooth_new_y<G: Grid>(g: &G, t: i64, p: Pt) -> Option<Frac> {
    if !smooth_y_applicable(g, p) {
        Some(p.y)
    } else {
        let v1 = g.spec_value(trunc_val(p.x) - 1, p.y.num as int - 1).unwrap();
        let v0 = g.spec_value(trunc_val(p.x) - 1, p.y.num as int - 2).unwrap();
        let d = v1 - v0;
        let sn = 2 * (t - v0) - d;
        if sn == 0 {
            Some(p.y)
        } else {
            let prod = 2 * p.y.num * d;
            if prod < i128::MIN || prod > i128::MAX {
                None
            } else if prod + sn < i128::MIN || prod + sn > i128::MAX {
                None
            } else {
                norm_spec(prod + sn, 2 * d)
            }
        }
    }
}

/// A point already in exact agreement with its bracketing samples: where a
/// smoothing step applies, its shift is zero.
pub open spec fn smooth_keeps_pt<G: Grid>(g: &G, t: i64, p: Pt) -> bool {
    &&& (smooth_x_applicable(g, p) ==> smooth_x_shift(g, t, p) == 0)
    &&& (smooth_y_applicable(g, p) ==> smooth_y_shift(g, t, p) == 0)
}

/// Smoothing a point whose position already satisfies exact equality with
/// its bracketing samples leaves the point unchanged: wherever a smoothing
/// step applies with a zero shift, the smoothed coordinates are exactly the
/// old ones.
pub proof fn lemma_smooth_keeps_exact_points<G: Grid>(g: &G, t: i64, p: Pt)
    requires
        smooth_keeps_pt(g, t, p),
    ensures
        smooth_new_x(g, t, p) == Some(p.x),
        smooth_new_y(g, t, p) == Some(p.y),
{
}

/// The smoothed point, or `None` when a coordinate cannot be represented.
pub open spec fn smooth_pt_spec<G: Grid>(g: &G, t: i64, p: Pt) -> Option<Pt> {
    match smooth_new_x(g, t, p) {
        None => None,
        Some(nx) => match smooth_new_y(g, t, p) {
            None => None,
            Some(ny) => Some(Pt { x: nx, y: ny }),
        },
    }
}

impl ContourBuilder {
    /// The configured affine mapping is the identity.
    pub open spec fn spec_is_identity(self) -> bool {
        &&& self.spec_x_origin().num == 0
        &&& self.spec_y_origin().num == 0
        &&& self.spec_x_step().num == self.spec_x_step().den
        &&& self.spec_y_step().num == self.spec_y_step().den
    }

    /// The affine image of one point, or `None` when a coordinate cannot be
    /// represented.
    pub open spec fn transform_pt_spec(self, p: Pt) -> Option<Pt> {
        match mul_add_spec(p.x, self.spec_x_step(), self.spec_x_origin()) {
            None => None,
            Some(nx) => match mul_add_spec(p.y, self.spec_y_step(), self.spec_y_origin()) {
                None => None,
                Some(ny) => Some(Pt { x: nx, y: ny }),
            },
        }
    }

    /// One point through the construction pipeline: smoothed when
    /// configured, then affinely mapped unless the mapping is the identity.
    pub open spec fn process_pt<G: Grid>(self, g: &G, t: i64, p: Pt) -> Option<Pt> {
        let sp = if self.spec_smooth() {
            smooth_pt_spec(g, t, p)
        } else {
            Some(p)
        };
        match sp {
            None => None,
            Some(q) => if self.spec_is_identity() {
                Some(q)
            } else {
                self.transform_pt_spec(q)
            },
        }
    }

    /// A ring through the pipeline, point by point.
    pub open spec fn process_ring_upto<G: Grid>(
        self,
        g: &G,
        t: i64,
        ring: Seq<Pt>,
        i: int,
    ) -> Option<Seq<Pt>>
        decreases i,
    {
        if i <= 0 {
            Some(Seq::empty())
        } else {
            match self.process_ring_upto(g, t, ring, i - 1) {
                None => None,
                Some(pre) => match self.process_pt(g, t, ring[i - 1]) {
                    None => None,
                    Some(q) => Some(pre.push(q)),
                },
            }
        }
    }

    /// A whole ring through the pipeline, or `None` when any point fails.
    pub open spec fn process_ring<G: Grid>(self, g: &G, t: i64, ring: Seq<Pt>) -> Option<
        Seq<Pt>,
    > {
        self.process_ring_upto(g, t, ring, ring.len() as int)
    }

    /// Pointwise success assembles the processed ring.
    proof fn lemma_process_ring_pointwise<G: Grid>(
        self,
        g: &G,
        t: i64,
        ring: Seq<Pt>,
        out: Seq<Pt>,
        i: int,
    )
        requires
            0 <= i <= ring.len(),
            out.len() == ring.len(),
            forall|k: int|
                0 <= k < ring.len() ==> self.process_pt(g, t, #[trigger] ring[k]) == Some(
                    out[k],
                ),
        ensures
            self.process_ring_upto(g, t, ring, i) == Some(out.subrange(0, i)),
        decreases i,
    {
        if i > 0 {
            self.lemma_process_ring_pointwise(g, t, ring, out, i - 1);
            assert(out.subrange(0, i - 1).push(out[i - 1]) =~= out.subrange(0, i));
        } else {
            assert(out.subrange(0, 0) =~= Seq::<Pt>::empty());
        }
    }

    /// One failing point fails the whole ring.
    proof fn lemma_process_ring_fails<G: Grid>(self, g: &G, t: i64, ring: Seq<Pt>, k: int, i: int)
        requires
            0 <= k < ring.len(),
            self.process_pt(g, t, ring[k]) is None,
            k < i <= ring.len(),
        ensures
            self.process_ring_upto(g, t, ring, i) is None,
        decreases i,
    {
        if i - 1 > k {
            self.lemma_process_ring_fails(g, t, ring, k, i - 1);
        }
    }
}

/// The line's geometry is exactly the scanned rings, each passed through
/// the pipeline.
pub open spec fn line_geometry_is<G: Grid>(
    b: ContourBuilder,
    g: &G,
    t: i64,
    geo: Seq<Ring>,
) -> bool {
    &&& geo.len() == scan_pts(g, t).len()
    &&& forall|i: int|
        0 <= i < geo.len() ==> Some((#[trigger] geo[i])@) == b.process_ring(
            g,
            t,
            scan_pts(g, t)[i],
        )
}

/// Some scanned ring of this threshold has a point the pipeline cannot
/// represent.
pub open spec fn line_fails<G: Grid>(b: ContourBuilder, g: &G, t: i64) -> bool {
    exists|i: int|
        0 <= i < scan_pts(g, t).len() && (#[trigger] b.process_ring(g, t, scan_pts(g, t)[i]))
            is None
}

/// An affine image produced by `mul_add_spec` is well formed and has the
/// value `x * s + o`.
proof fn lemma_mul_add_value_spec(x: Frac, s: Frac, o: Frac)
    requires
        x.wf(),
        s.wf(),
        o.wf(),
        mul_add_spec(x, s, o) is Some,
    ensures
        mul_add_spec(x, s, o).unwrap().wf(),
        q_eq(mul_add_spec(x, s, o).unwrap()@, q_add(q_mul(x@, s@), o@)),
{
    lemma_pos2(x@.1, s@.1);
    let m = mul_spec(x, s).unwrap();
    lemma_norm_value(x.num as int * s.num, x.den as int * s.den);
    assert(m.wf() && q_eq(m@, q_mul(x@, s@)));
    let v = mul_add_spec(x, s, o).unwrap();
    lemma_pos2(m@.1, o@.1);
    lemma_norm_value(m.num as int * o.den + o.num as int * m.den, m.den as int * o.den);
    assert(v.wf() && q_eq(v@, q_add(m@, o@)));
    crate::area::lemma_q_op_congr(m@, q_mul(x@, s@), o@, o@);
    lemma_pos2(q_mul(x@, s@).1, o@.1);
    lemma_q_eq_trans(v@, q_add(m@, o@), q_add(q_mul(x@, s@), o@));
}

/// An identity affine mapping sends every coordinate to itself in value.
proof fn lemma_identity_map(v: (int, int), s: (int, int), o: (int, int))
    requires
        v.1 > 0,
        s.1 > 0,
        o.1 > 0,
        s.0 == s.1,
        o.0 == 0,
    ensures
        q_eq(q_add(q_mul(v, s), o), v),
{
    assert((v.0 * s.0 * o.1 + 0 * (v.1 * s.1)) * v.1 == v.0 * (v.1 * s.1 * o.1))
        by (nonlinear_arith)
        requires
            s.0 == s.1,
    ;
}

/// A coordinate produced by smoothing is well formed.
proof fn lemma_smooth_new_wf<G: Grid>(g: &G, t: i64, p: Pt)
    requires
        pt_wf(p),
    ensures
        smooth_new_x(g, t, p) is Some ==> smooth_new_x(g, t, p).unwrap().wf(),
        smooth_new_y(g, t, p) is Some ==> smooth_new_y(g, t, p).unwrap().wf(),
{
    if smooth_new_x(g, t, p) is Some && smooth_x_applicable(g, p) {
        let v1 = g.spec_value(p.x.num as int - 1, trunc_val(p.y) - 1).unwrap();
        let v0 = g.spec_value(p.x.num as int - 2, trunc_val(p.y) - 1).unwrap();
        let d = v1 - v0;
        let sn = 2 * (t - v0) - d;
        if sn != 0 {
            lemma_norm_value(2 * p.x.num * d + sn, 2 * d);
        }
    }
    if smooth_new_y(g, t, p) is Some && smooth_y_applicable(g, p) {
        let v1 = g.spec_value(trunc_val(p.x) - 1, p.y.num as int - 1).unwrap();
        let v0 = g.spec_value(trunc_val(p.x) - 1, p.y.num as int - 2).unwrap();
        let d = v1 - v0;
        let sn = 2 * (t - v0) - d;
        if sn != 0 {
            lemma_norm_value(2 * p.y.num * d + sn, 2 * d);
        }
    }
}

impl ContourBuilder {
    /// A processed ring determines each of its points.
    proof fn lemma_process_ring_index<G: Grid>(
        self,
        g: &G,
        t: i64,
        ring: Seq<Pt>,
        out: Seq<Pt>,
        i: int,
    )
        requires
            0 <= i <= ring.len(),
            self.process_ring_upto(g, t, ring, i) == Some(out),
        ensures
            out.len() == i,
            forall|j: int|
                0 <= j < i ==> self.process_pt(g, t, #[trigger] ring[j]) == Some(out[j]),
        decreases i,
    {
        if i > 0 {
            let pre = self.process_ring_upto(g, t, ring, i - 1).unwrap();
            self.lemma_process_ring_index(g, t, ring, pre, i - 1);
        }
    }
}

/// Applying an affine configuration and the identity configuration to the
/// same grid and threshold gives line geometries related pointwise by the
/// inverse affine map: mapping every point of the affine output through
/// `((x - ox)/sx, (y - oy)/sy)` reproduces the identity output in value,
/// with the same thresholds, ring order and ring lengths.
pub proof fn lemma_lines_affine_round_trip<G: Grid>(
    plain: ContourBuilder,
    mapped: ContourBuilder,
    g: &G,
    t: i64,
    geo1: Seq<Ring>,
    geo2: Seq<Ring>,
)
    requires
        plain.wf(),
        mapped.wf(),
        plain.spec_smooth() == mapped.spec_smooth(),
        plain.spec_is_identity(),
        mapped.spec_x_step().num != 0,
        mapped.spec_y_step().num != 0,
        line_geometry_is(plain, g, t, geo1),
        line_geometry_is(mapped, g, t, geo2),
    ensures
        geo1.len() == geo2.len(),
        forall|i: int| 0 <= i < geo1.len() ==> (#[trigger] geo2[i])@.len() == geo1[i]@.len(),
        forall|i: int, j: int|
            0 <= i < geo1.len() && 0 <= j < geo1[i]@.len() ==> q_eq(
                q_div(
                    q_sub((#[trigger] geo2[i]@[j]).x@, mapped.spec_x_origin()@),
                    mapped.spec_x_step()@,
                ),
                geo1[i]@[j].x@,
            ) && q_eq(
                q_div(
                    q_sub(geo2[i]@[j].y@, mapped.spec_y_origin()@),
                    mapped.spec_y_step()@,
                ),
                geo1[i]@[j].y@,
            ),
{
    assert forall|i: int| 0 <= i < geo1.len() implies (#[trigger] geo2[i])@.len()
        == geo1[i]@.len() by {
        let ring = scan_pts(g, t)[i];
        plain.lemma_process_ring_index(g, t, ring, geo1[i]@, ring.len() as int);
        mapped.lemma_process_ring_index(g, t, ring, geo2[i]@, ring.len() as int);
    }
    assert forall|i: int, j: int|
        0 <= i < geo1.len() && 0 <= j < geo1[i]@.len() implies q_eq(
        q_div(
            q_sub((#[trigger] geo2[i]@[j]).x@, mapped.spec_x_origin()@),
            mapped.spec_x_step()@,
        ),
        geo1[i]@[j].x@,
    ) && q_eq(
        q_div(q_sub(geo2[i]@[j].y@, mapped.spec_y_origin()@), mapped.spec_y_step()@),
        geo1[i]@[j].y@,
    ) by {
        let ring = scan_pts(g, t)[i];
        plain.lemma_process_ring_index(g, t, ring, geo1[i]@, ring.len() as int);
        mapped.lemma_process_ring_index(g, t, ring, geo2[i]@, ring.len() as int);
        let p = ring[j];
        assert(pt_wf(p));
        // both pipelines share the smoothing stage
        let sp = if plain.spec_smooth() {
            smooth_pt_spec(g, t, p)
        } else {
            Some(p)
        };
        let m = sp.unwrap();
        lemma_smooth_new_wf(g, t, p);
        assert(pt_wf(m));
        let q1 = geo1[i]@[j];
        let q2 = geo2[i]@[j];
        assert(q1 == m);
        let sx = mapped.spec_x_step();
        let ox = mapped.spec_x_origin();
        let sy = mapped.spec_y_step();
        let oy = mapped.spec_y_origin();
        // the affine output is the image of the shared smoothed point
        assert(q_eq(q2.x@, q_add(q_mul(m.x@, sx@), ox@)) && q_eq(
            q2.y@,
            q_add(q_mul(m.y@, sy@), oy@),
        )) by {
            if mapped.spec_is_identity() {
                assert(q2 == m);
                lemma_identity_map(m.x@, sx@, ox@);
                lemma_identity_map(m.y@, sy@, oy@);
            } else {
                lemma_mul_add_value_spec(m.x, sx, ox);
                lemma_mul_add_value_spec(m.y, sy, oy);
            }
        }
        assert(pt_wf(q2)) by {
            if mapped.spec_is_identity() {
                assert(q2 == m);
            } else {
                lemma_mul_add_value_spec(m.x, sx, ox);
                lemma_mul_add_value_spec(m.y, sy, oy);
            }
        }
        lemma_pos2(m.x@.1, sx@.1);
        lemma_pos2(m.x@.1 * sx@.1, ox@.1);
        lemma_pos2(m.y@.1, sy@.1);
        lemma_pos2(m.y@.1 * sy@.1, oy@.1);
        lemma_pos2(q2.x@.1, ox@.1);
        lemma_pos2(q2.y@.1, oy@.1);
        lemma_q_div_den_pos(q_sub(q2.x@, ox@), sx@);
        lemma_q_div_den_pos(q_sub(q2.y@, oy@), sy@);
        lemma_affine_round_trip(
            m.x@,
            q2.x@,
            q_div(q_sub(q2.x@, ox@), sx@),
            sx@,
            ox@,
        );
        lemma_affine_round_trip(
            m.y@,
            q2.y@,
            q_div(q_sub(q2.y@, oy@), sy@),
            sy@,
            oy@,
        );
    }
}

/// Every ring of the line is a well-formed closed ring.
pub open spec fn line_ok(l: Line) -> bool {
    forall|k: int| 0 <= k < l.geometry@.len() ==> out_ring_ok((#[trigger] l.geometry@[k])@)
}

/// The two-step affine image has the value `x * s + o`.
proof fn lemma_mul_add_value(x: Frac, s: Frac, o: Frac, m: Frac, q: Frac)
    requires
        x.wf(),
        s.wf(),
        o.wf(),
        m.wf(),
        q.wf(),
        q_eq(m@, q_mul(x@, s@)),
        q_eq(q@, q_add(m@, o@)),
    ensures
        q_eq(q@, q_add(q_mul(x@, s@), o@)),
{
    lemma_pos2(x@.1, s@.1);
    crate::area::lemma_q_op_congr(m@, q_mul(x@, s@), o@, o@);
    lemma_pos2(m@.1, o@.1);
    lemma_pos2(x@.1 * s@.1, o@.1);
    lemma_q_eq_trans(q@, q_add(m@, o@), q_add(q_mul(x@, s@), o@));
}

/// The two-step inverse image has the value `(x - o) / s`.
proof fn lemma_sub_div_value(x: Frac, o: Frac, s: Frac, d: Frac, q: Frac)
    requires
        x.wf(),
        o.wf(),
        s.wf(),
        s.num != 0,
        d.wf(),
        q.wf(),
        q_eq(d@, q_sub(x@, o@)),
        q_eq(q@, q_div(d@, s@)),
    ensures
        q_eq(q@, q_div(q_sub(x@, o@), s@)),
{
    lemma_pos2(x@.1, o@.1);
    lemma_q_div_congr(d@, q_sub(x@, o@), s@);
    lemma_q_div_den_pos(d@, s@);
    lemma_q_div_den_pos(q_sub(x@, o@), s@);
    lemma_q_eq_trans(q@, q_div(d@, s@), q_div(q_sub(x@, o@), s@));
}

/// The product of positives is positive.
proof fn lemma_pos2(a: int, b: int)
    requires
        a > 0,
        b > 0,
    ensures
        a * b > 0,
{
    vstd::arithmetic::mul::lemma_mul_strictly_positive(a, b);
}

/// A rational quotient has a positive denominator.
proof fn lemma_q_div_den_pos(a: (int, int), b: (int, int))
    requires
        a.1 > 0,
        b.1 > 0,
        b.0 != 0,
    ensures
        q_div(a, b).1 > 0,
{
    if b.0 > 0 {
        lemma_pos2(a.1, b.0);
    } else {
        assert(-(a.1 * b.0) > 0) by (nonlinear_arith)
            requires
                a.1 > 0,
                b.0 < 0,
        ;
    }
}

/// Value equality is a congruence for rational division on the left.
proof fn lemma_q_div_congr(a: (int, int), a2: (int, int), b: (int, int))
    requires
        a.1 > 0,
        a2.1 > 0,
        b.1 > 0,
        b.0 != 0,
        q_eq(a, a2),
    ensures
        q_eq(q_div(a, b), q_div(a2, b)),
{
    assert((a.0 * b.1) * (a2.1 * b.0) == (a2.0 * b.1) * (a.1 * b.0)) by (nonlinear_arith)
        requires
            a.0 * a2.1 == a2.0 * a.1,
    ;
    if b.0 >= 0 {
    } else {
        assert((-(a.0 * b.1)) * (-(a2.1 * b.0)) == (-(a2.0 * b.1)) * (-(a.1 * b.0)))
            by (nonlinear_arith)
            requires
                (a.0 * b.1) * (a2.1 * b.0) == (a2.0 * b.1) * (a.1 * b.0),
        ;
    }
}

/// Applying the affine map `x * s + o` and then its inverse
/// `(x' - o) / s` on the image reproduces the original coordinate: the
/// forward image `xp` and the backward image `xb` of `xp` satisfy
/// `xb == x` in value, for any nonzero step.
pub proof fn lemma_affine_round_trip(
    x: (int, int),
    xp: (int, int),
    xb: (int, int),
    s: (int, int),
    o: (int, int),
)
    requires
        x.1 > 0,
        xp.1 > 0,
        xb.1 > 0,
        s.1 > 0,
        o.1 > 0,
        s.0 != 0,
        q_eq(xp, q_add(q_mul(x, s), o)),
        q_eq(xb, q_div(q_sub(xp, o), s)),
    ensures
        q_eq(xb, x),
{
    let fwd = q_add(q_mul(x, s), o);
    lemma_pos2(x.1, s.1);
    lemma_pos2(x.1 * s.1, o.1);
    // carry the backward image over to the exact forward value
    lemma_pos2(xp.1, o.1);
    crate::area::lemma_q_op_congr(xp, fwd, o, o);
    lemma_pos2(fwd.1, o.1);
    lemma_q_div_congr(q_sub(xp, o), q_sub(fwd, o), s);
    lemma_q_div_den_pos(q_sub(xp, o), s);
    lemma_q_div_den_pos(q_sub(fwd, o), s);
    lemma_q_eq_trans(xb, q_div(q_sub(xp, o), s), q_div(q_sub(fwd, o), s));
    // the core identity: ((x*s + o) - o) / s == x
    let (x0, x1) = x;
    let (s0, s1) = s;
    let (o0, o1) = o;
    assert((x0 * s0 * o1 + o0 * (x1 * s1)) * o1 - o0 * ((x1 * s1) * o1) == x0 * s0 * (o1 * o1))
        by (nonlinear_arith);
    assert(((x1 * s1) * o1) * o1 == x1 * s1 * (o1 * o1)) by (nonlinear_arith);
    assert(q_sub(fwd, o).0 == x0 * s0 * (o1 * o1));
    assert(q_sub(fwd, o).1 == x1 * s1 * (o1 * o1));
    let flat = (x0 * s0 * (o1 * o1), x1 * s1 * (o1 * o1));
    if s0 >= 0 {
        assert((x0 * s0 * (o1 * o1)) * s1 * x1 == x0 * ((x1 * s1 * (o1 * o1)) * s0))
            by (nonlinear_arith);
        assert(q_eq(q_div(flat, s), x));
    } else {
        assert((-((x0 * s0 * (o1 * o1)) * s1)) * x1 == x0 * (-((x1 * s1 * (o1 * o1)) * s0)))
            by (nonlinear_arith);
        assert(q_eq(q_div(flat, s), x));
    }
    lemma_q_div_den_pos(flat, s);
    assert(q_div(q_sub(fwd, o), s) == q_div(flat, s));
    lemma_q_eq_trans(xb, q_div(q_sub(fwd, o), s), x);
}

impl ContourBuilder {
    /// Smooths a ring in place: a point lying exactly on an interior cell
    /// boundary along an axis is moved by `(t - v0)/(v1 - v0) - 1/2` along
    /// that axis, interpolating between the two samples bracketing the
    /// point (`v0` on the lower side, `v1` on the upper). No change is made
    /// along an axis whose bracketing sample is absent or equal to the
    /// other; a point whose interpolated position already equals its
    /// current position is left exactly unchanged.
    #[verifier::loop_isolation(false)]
    #[verifier::rlimit(100)]
    fn smooth_linear<G: Grid>(&self, ring: &mut Ring, values: &G, value: i64) -> (r: Result<
        (),
        Error,
    >)
        requires
            forall|j: int| 0 <= j < old(ring)@.len() ==> half_pt(#[trigger] old(ring)@[j]),
        ensures
            r is Ok ==> {
                &&& final(ring)@.len() == old(ring)@.len()
                &&& forall|j: int|
                    0 <= j < old(ring)@.len() ==> smooth_new_x(values, value, old(ring)@[j])
                        == Some((#[trigger] final(ring)@[j]).x) && smooth_new_y(
                        values,
                        value,
                        old(ring)@[j],
                    ) == Some(final(ring)@[j].y)
                &&& forall|j: int|
                    0 <= j < final(ring)@.len() ==> pt_wf(#[trigger] final(ring)@[j])
                &&& forall|j: int|
                    0 <= j < old(ring)@.len() && smooth_keeps_pt(values, value, old(ring)@[j])
                        ==> final(ring)@[j] == old(ring)@[j]
            },
            r is Err ==> r.unwrap_err().kind == ErrorKind::BadCast,
            r is Err ==> exists|j: int|
                0 <= j < old(ring)@.len() && (smooth_new_x(
                    values,
                    value,
                    #[trigger] old(ring)@[j],
                ) is None || smooth_new_y(values, value, old(ring)@[j]) is None),
    {
        let (dx, dy) = values.size();
        let n = ring.len();
        let mut j: usize = 0;
        while j < n
            invariant
                j <= n,
                ring@.len() == n,
                forall|k: int| j <= k < n ==> ring@[k] == old(ring)@[k],
                forall|k: int|
                    0 <= k < j ==> smooth_new_x(values, value, old(ring)@[k]) == Some(
                        (#[trigger] ring@[k]).x,
                    ) && smooth_new_y(values, value, old(ring)@[k]) == Some(ring@[k].y),
                forall|k: int| 0 <= k < j ==> pt_wf(#[trigger] ring@[k]),
                forall|k: int|
                    0 <= k < j && smooth_keeps_pt(values, value, old(ring)@[k]) ==> ring@[k]
                        == old(ring)@[k],
            decreases n - j,
        {
            let p = ring[j];
            let xt = p.x.trunc();
            let yt = p.y.trunc();
            proof {
                if p.x.den == 1 {
                    vstd::arithmetic::div_mod::lemma_div_multiples_vanish(p.x.num as int, 1);
                }
                if p.y.den == 1 {
                    vstd::arithmetic::div_mod::lemma_div_multiples_vanish(p.y.num as int, 1);
                }
            }
            let mut nx = p.x;
            let mut ny = p.y;
            let v1_opt = values.get_point(Coord { x: xt - 1, y: yt - 1 });
            if let Some(v1) = v1_opt {
                // horizontal axis
                if p.x.is_int() && p.x.num > 0 && p.x.num < dx as i64 {
                    if let Some(v0) = values.get_point(Coord { x: xt - 2, y: yt - 1 }) {
                        let d = (v1 as i128) - (v0 as i128);
                        if d != 0 {
                            let sn = 2 * ((value as i128) - (v0 as i128)) - d;
                            if sn != 0 {
                                let prod = match (2 * (xt as i128)).checked_mul(d) {
                                    Some(v) => v,
                                    None => {
                                        proof {
                                            assert(smooth_new_x(
                                                values,
                                                value,
                                                old(ring)@[j as int],
                                            ) is None);
                                        }
                                        return Err(new_error(ErrorKind::BadCast));
                                    },
                                };
                                let nn = match prod.checked_add(sn) {
                                    Some(v) => v,
                                    None => {
                                        proof {
                                            assert(smooth_new_x(
                                                values,
                                                value,
                                                old(ring)@[j as int],
                                            ) is None);
                                        }
                                        return Err(new_error(ErrorKind::BadCast));
                                    },
                                };
                                match crate::frac::norm128(nn, 2 * d) {
                                    Some(f) => {
                                        nx = f;
                                    },
                                    None => {
                                        proof {
                                            assert(smooth_new_x(
                                                values,
                                                value,
                                                old(ring)@[j as int],
                                            ) is None);
                                        }
                                        return Err(new_error(ErrorKind::BadCast));
                                    },
                                }
                            }
                        }
                    }
                }
                // vertical axis
                if p.y.is_int() && p.y.num > 0 && p.y.num < dy as i64 {
                    if let Some(v0) = values.get_point(Coord { x: xt - 1, y: yt - 2 }) {
                        let d = (v1 as i128) - (v0 as i128);
                        if d != 0 {
                            let sn = 2 * ((value as i128) - (v0 as i128)) - d;
                            if sn != 0 {
                                let prod = match (2 * (yt as i128)).checked_mul(d) {
                                    Some(v) => v,
                                    None => {
                                        proof {
                                            assert(smooth_new_y(
                                                values,
                                                value,
                                                old(ring)@[j as int],
                                            ) is None);
                                        }
                                        return Err(new_error(ErrorKind::BadCast));
                                    },
                                };
                                let nn = match prod.checked_add(sn) {
                                    Some(v) => v,
                                    None => {
                                        proof {
                                            assert(smooth_new_y(
                                                values,
                                                value,
                                                old(ring)@[j as int],
                                            ) is None);
                                        }
                                        return Err(new_error(ErrorKind::BadCast));
                                    },
                                };
                                match crate::frac::norm128(nn, 2 * d) {
                                    Some(f) => {
                                        ny = f;
                                    },
                                    None => {
                                        proof {
                                            assert(smooth_new_y(
                                                values,
                                                value,
                                                old(ring)@[j as int],
                                            ) is None);
                                        }
                                        return Err(new_error(ErrorKind::BadCast));
                                    },
                                }
                            }
                        }
                    }
                }
            }
            ring.set(j, Pt { x: nx, y: ny });
            j += 1;
        }
        Ok(())
    }

    /// Applies the affine grid-to-world mapping to every point of a ring.
    #[verifier::loop_isolation(false)]
    fn transform_ring(&self, ring: &mut Ring) -> (r: Result<(), Error>)
        requires
            self.wf(),
            forall|j: int| 0 <= j < old(ring)@.len() ==> pt_wf(#[trigger] old(ring)@[j]),
        ensures
            r is Ok ==> {
                &&& final(ring)@.len() == old(ring)@.len()
                &&& forall|j: int|
                    0 <= j < old(ring)@.len() ==> Some(
                        (#[trigger] final(ring)@[j]).x,
                    ) == mul_add_spec(
                        old(ring)@[j].x,
                        self.spec_x_step(),
                        self.spec_x_origin(),
                    ) && Some(final(ring)@[j].y) == mul_add_spec(
                        old(ring)@[j].y,
                        self.spec_y_step(),
                        self.spec_y_origin(),
                    )
                &&& forall|j: int|
                    0 <= j < final(ring)@.len() ==> pt_wf(#[trigger] final(ring)@[j])
            },
            r is Err ==> r.unwrap_err().kind == ErrorKind::BadCast,
            r is Err ==> exists|j: int|
                0 <= j < old(ring)@.len() && (mul_add_spec(
                    (#[trigger] old(ring)@[j]).x,
                    self.spec_x_step(),
                    self.spec_x_origin(),
                ) is None || mul_add_spec(
                    old(ring)@[j].y,
                    self.spec_y_step(),
                    self.spec_y_origin(),
                ) is None),
    {
        let n = ring.len();
        let mut j: usize = 0;
        while j < n
            invariant
                j <= n,
                ring@.len() == n,
                forall|k: int| j <= k < n ==> ring@[k] == old(ring)@[k],
                forall|k: int|
                    0 <= k < j ==> Some((#[trigger] ring@[k]).x) == mul_add_spec(
                        old(ring)@[k].x,
                        self.spec_x_step(),
                        self.spec_x_origin(),
                    ) && Some(ring@[k].y) == mul_add_spec(
                        old(ring)@[k].y,
                        self.spec_y_step(),
                        self.spec_y_origin(),
                    ),
                forall|k: int| 0 <= k < j ==> pt_wf(#[trigger] ring@[k]),
            decreases n - j,
        {
            let p = ring[j];
            let q = match self.transform_point(&p) {
                Ok(v) => v,
                Err(e) => {
                    proof {
                        assert(p == old(ring)@[j as int]);
                    }
                    return Err(e);
                },
            };
            ring.set(j, q);
            j += 1;
        }
        Ok(())
    }

    /// Whether the configured affine mapping is the identity.
    fn is_identity(&self) -> (r: bool)
        requires
            self.wf(),
        ensures
            r == (self.spec_x_origin().num == 0 && self.spec_y_origin().num == 0
                && self.spec_x_step().num == self.spec_x_step().den && self.spec_y_step().num
                == self.spec_y_step().den),
    {
        self.x_origin.num == 0 && self.y_origin.num == 0 && self.x_step.num == self.x_step.den
            && self.y_step.num == self.y_step.den
    }

    /// Computes one isoline: the stitched rings for one threshold, smoothed
    /// if configured and mapped by the affine transform.
    #[verifier::loop_isolation(false)]
    #[verifier::rlimit(100)]
    fn line<G: Grid>(&self, values: &G, threshold: i64, isoring: &mut IsoRingBuilder) -> (r:
        Result<Line, Error>)
        requires
            self.wf(),
            old(isoring).wf(),
            key_space_ok(values.spec_width(), values.spec_height()),
        ensures
            final(isoring).wf(),
            r matches Ok(l) ==> l.threshold == threshold && line_ok(l) && line_geometry_is(
                *self,
                values,
                threshold,
                l.geometry@,
            ),
            r is Err ==> r.unwrap_err().kind == ErrorKind::BadCast && line_fails(
                *self,
                values,
                threshold,
            ),
    {
        let mut result = match isoring.compute(values, threshold) {
            Ok(v) => v,
            Err(e) => {
                return Err(e);
            },
        };
        let identity = self.is_identity();
        let n = result.len();
        let mut j: usize = 0;
        while j < n
            invariant
                j <= n,
                result@.len() == n,
                n == scan_pts(values, threshold).len(),
                forall|k: int|
                    j <= k < n ==> (#[trigger] result@[k])@ == scan_pts(values, threshold)[k],
                forall|k: int|
                    j <= k < n ==> pt_ring_good((#[trigger] result@[k])@),
                forall|k: int| 0 <= k < j ==> out_ring_ok((#[trigger] result@[k])@),
                forall|k: int|
                    0 <= k < j ==> Some((#[trigger] result@[k])@) == self.process_ring(
                        values,
                        threshold,
                        scan_pts(values, threshold)[k],
                    ),
            decreases n - j,
        {
            let ghost pre = result@[j as int]@;
            if self.smooth {
                proof {
                    assert(forall|i: int|
                        0 <= i < pre.len() ==> half_pt(#[trigger] pre[i]));
                }
                match self.smooth_linear(&mut result[j], values, threshold) {
                    Ok(()) => {},
                    Err(e) => {
                        proof {
                            let k = choose|k: int|
                                0 <= k < pre.len() && (smooth_new_x(
                                    values,
                                    threshold,
                                    #[trigger] pre[k],
                                ) is None || smooth_new_y(values, threshold, pre[k]) is None);
                            assert(self.process_pt(values, threshold, pre[k]) is None);
                            self.lemma_process_ring_fails(
                                values,
                                threshold,
                                pre,
                                k,
                                pre.len() as int,
                            );
                        }
                        return Err(e);
                    },
                }
            }
            let ghost mid = result@[j as int]@;
            proof {
                assert(mid.len() == pre.len());
                assert(mid.first() == mid.last());
                assert(forall|i: int| 0 <= i < mid.len() ==> pt_wf(#[trigger] mid[i]));
                if self.spec_smooth() {
                    assert(forall|k: int|
                        0 <= k < pre.len() ==> smooth_pt_spec(
                            values,
                            threshold,
                            #[trigger] pre[k],
                        ) == Some(mid[k]));
                }
            }
            if !identity {
                match self.transform_ring(&mut result[j]) {
                    Ok(()) => {},
                    Err(e) => {
                        proof {
                            let k = choose|k: int|
                                0 <= k < mid.len() && (mul_add_spec(
                                    (#[trigger] mid[k]).x,
                                    self.spec_x_step(),
                                    self.spec_x_origin(),
                                ) is None || mul_add_spec(
                                    mid[k].y,
                                    self.spec_y_step(),
                                    self.spec_y_origin(),
                                ) is None);
                            assert(self.process_pt(values, threshold, pre[k]) is None);
                            self.lemma_process_ring_fails(
                                values,
                                threshold,
                                pre,
                                k,
                                pre.len() as int,
                            );
                        }
                        return Err(e);
                    },
                }
            }
            proof {
                let cur = result@[j as int]@;
                assert(cur.len() == pre.len());
                assert(cur.first() == cur.last());
                assert(out_ring_ok(cur));
                assert forall|k: int|
                    0 <= k < pre.len() implies self.process_pt(
                    values,
                    threshold,
                    #[trigger] pre[k],
                ) == Some(cur[k]) by {
                    if !self.spec_is_identity() {
                        assert(Some(cur[k].x) == mul_add_spec(
                            mid[k].x,
                            self.spec_x_step(),
                            self.spec_x_origin(),
                        ));
                        assert(Some(cur[k].y) == mul_add_spec(
                            mid[k].y,
                            self.spec_y_step(),
                            self.spec_y_origin(),
                        ));
                        assert(self.transform_pt_spec(mid[k]) == Some(cur[k]));
                    } else {
                        assert(cur[k] == mid[k]);
                    }
                }
                self.lemma_process_ring_pointwise(values, threshold, pre, cur, pre.len() as int);
                assert(cur.subrange(0, cur.len() as int) =~= cur);
                assert(Some(cur) == self.process_ring(values, threshold, pre));
            }
            j += 1;
        }
        Ok(Line { geometry: result, threshold })
    }

    /// Computes the isolines for every threshold, in order, failing on the
    /// first error and returning no partial results.
    #[verifier::loop_isolation(false)]
    pub fn lines<G: Grid>(&self, values: &G, thresholds: &[i64]) -> (r: Result<Vec<Line>, Error>)
        requires
            self.wf(),
            key_space_ok(values.spec_width(), values.spec_height()),
        ensures
            r matches Ok(v) ==> {
                &&& v@.len() == thresholds@.len()
                &&& forall|i: int|
                    0 <= i < v@.len() ==> (#[trigger] v@[i]).threshold == thresholds@[i]
                        && line_ok(v@[i]) && line_geometry_is(
                        *self,
                        values,
                        thresholds@[i],
                        v@[i].geometry@,
                    )
            },
            r is Err ==> r.unwrap_err().kind == ErrorKind::BadCast && exists|i: int|
                0 <= i < thresholds@.len() && line_fails(*self, values, #[trigger] thresholds@[i]),
    {
        let mut isoring = IsoRingBuilder::new();
        let mut out: Vec<Line> = Vec::new();
        let n = thresholds.len();
        let mut i: usize = 0;
        while i < n
            invariant
                i <= n,
                isoring.wf(),
                out@.len() == i,
                forall|k: int|
                    0 <= k < i ==> (#[trigger] out@[k]).threshold == thresholds@[k] && line_ok(
                        out@[k],
                    ) && line_geometry_is(*self, values, thresholds@[k], out@[k].geometry@),
            decreases n - i,
        {
            let l = match self.line(values, thresholds[i], &mut isoring) {
                Ok(v) => v,
                Err(e) => {
                    return Err(e);
                },
            };
            out.push(l);
            i += 1;
        }
        Ok(out)
    }

    /// Computes one filled contour: the rings for one threshold, classified
    /// by signed area into exterior polygon boundaries (positive) and holes
    /// (non-positive); each hole is attached to the first exterior whose
    /// boundary contains it, in scan order.
    #[verifier::loop_isolation(false)]
    #[verifier::rlimit(100)]
    fn contour<G: Grid>(&self, values: &G, threshold: i64, isoring: &mut IsoRingBuilder) -> (r:
        Result<Contour, Error>)
        requires
            self.wf(),
            old(isoring).wf(),
            key_space_ok(values.spec_width(), values.spec_height()),
        ensures
            final(isoring).wf(),
            r matches Ok(c) ==> c.threshold == threshold && contour_ok(c)
                && c.geometry@.map_values(|p: Polygon| poly_abs(p)) == classify_spec(
                processed_rings(*self, values, threshold),
            ),
            r is Err ==> r.unwrap_err().kind == ErrorKind::BadCast && (line_fails(
                *self,
                values,
                threshold,
            ) || contour_comp_fails(*self, values, threshold)),
    {
        let l = match self.line(values, threshold, isoring) {
            Ok(v) => v,
            Err(e) => {
                return Err(e);
            },
        };
        let ghost procd = processed_rings(*self, values, threshold);
        let mut rings = l.geometry;
        proof {
            assert forall|k: int| 0 <= k < rings@.len() implies (#[trigger] rings@[k])@
                == procd[k] by {
                assert(Some(rings@[k]@) == self.process_ring(
                    values,
                    threshold,
                    scan_pts(values, threshold)[k],
                ));
            }
        }
        let mut polygons: Vec<Polygon> = Vec::new();
        let mut holes: Vec<Ring> = Vec::new();
        let n = rings.len();
        let mut i: usize = 0;
        while i < n
            invariant
                i <= n,
                rings@.len() == n,
                n == procd.len(),
                forall|k: int| i <= k < n ==> (#[trigger] rings@[k])@ == procd[k],
                forall|k: int| i <= k < n ==> out_ring_ok((#[trigger] rings@[k])@),
                polygons@.map_values(|p: Polygon| poly_abs(p)) == pos_part(procd, i as int),
                holes@.map_values(|r: Ring| r@) == neg_part(procd, i as int),
                forall|k: int| 0 <= k < polygons@.len() ==> polygon_ok(#[trigger] polygons@[k]),
                forall|k: int|
                    0 <= k < holes@.len() ==> out_ring_ok((#[trigger] holes@[k])@) && !q_lt(
                        (0int, 1int),
                        area_spec(holes@[k]@),
                    ),
            decreases n - i,
        {
            let mut ring: Ring = Vec::new();
            core::mem::swap(&mut ring, &mut rings[i]);
            let a = match area(&ring) {
                Ok(v) => v,
                Err(e) => {
                    proof {
                        assert(area_exec_spec(procd[i as int]) is None);
                    }
                    return Err(e);
                },
            };
            proof {
                crate::area::lemma_area_spec_den_pos(ring@);
                lemma_q_cmp_congr((0int, 1int), (0int, 1int), a@, area_spec(ring@));
                assert((a.num > 0) == ring_positive(procd[i as int]));
            }
            if a.num > 0 {
                polygons.push(Polygon { exterior: ring, interiors: Vec::new() });
                proof {
                    assert(polygons@.map_values(|p: Polygon| poly_abs(p)) =~~= pos_part(
                        procd,
                        i as int + 1,
                    ));
                    assert(holes@.map_values(|r: Ring| r@) =~~= neg_part(procd, i as int + 1));
                }
            } else {
                holes.push(ring);
                proof {
                    assert(polygons@.map_values(|p: Polygon| poly_abs(p)) =~~= pos_part(
                        procd,
                        i as int + 1,
                    ));
                    assert(holes@.map_values(|r: Ring| r@) =~~= neg_part(procd, i as int + 1));
                }
            }
            i += 1;
        }
        let ghost polys0 = pos_part(procd, n as int);
        let ghost holes0 = neg_part(procd, n as int);
        let nh = holes.len();
        let mut hi: usize = 0;
        while hi < nh
            invariant
                hi <= nh,
                holes@.len() == nh,
                nh == holes0.len(),
                forall|k: int| hi <= k < nh ==> (#[trigger] holes@[k])@ == holes0[k],
                polygons@.map_values(|p: Polygon| poly_abs(p)) == attach_all(
                    polys0,
                    holes0,
                    hi as int,
                ),
                forall|k: int| 0 <= k < polygons@.len() ==> polygon_ok(#[trigger] polygons@[k]),
                forall|k: int|
                    hi <= k < nh ==> out_ring_ok((#[trigger] holes@[k])@) && !q_lt(
                        (0int, 1int),
                        area_spec(holes@[k]@),
                    ),
            decreases nh - hi,
        {
            let mut hole: Ring = Vec::new();
            core::mem::swap(&mut hole, &mut holes[hi]);
            let ghost pabs = polygons@.map_values(|p: Polygon| poly_abs(p));
            let np = polygons.len();
            let mut k: usize = 0;
            let mut found = false;
            while k < np && !found
                invariant
                    k <= np,
                    np == polygons@.len(),
                    found ==> k < np && contains_spec(polygons@[k as int].exterior@, hole@)
                        != -1,
                    forall|kk: int|
                        0 <= kk < k ==> contains_spec(
                            (#[trigger] polygons@[kk]).exterior@,
                            hole@,
                        ) == -1,
                    forall|kk: int|
                        0 <= kk < polygons@.len() ==> polygon_ok(#[trigger] polygons@[kk]),
                    out_ring_ok(hole@),
                    !q_lt((0int, 1int), area_spec(hole@)),
                decreases (np - k) + (if found { 0int } else { 1int }),
            {
                let c = match contains(&polygons[k].exterior, &hole) {
                    Ok(v) => v,
                    Err(e) => {
                        proof {
                            assert(pabs[k as int].0 == polygons@[k as int].exterior@);
                            assert(cont_exec(
                                attach_all(polys0, holes0, hi as int)[k as int].0,
                                holes0[hi as int],
                                holes0[hi as int].len() as int,
                            ) is None);
                        }
                        return Err(e);
                    },
                };
                if c != -1 {
                    found = true;
                } else {
                    k += 1;
                }
            }
            proof {
                assert forall|kk: int| 0 <= kk < pabs.len() implies (#[trigger] pabs[kk]).0
                    == polygons@[kk].exterior@ by {}
            }
            if found {
                polygons[k].interiors.push(hole);
                proof {
                    lemma_attach_hole_at(pabs, hole@, 0, k as int);
                    assert(polygons@.map_values(|p: Polygon| poly_abs(p)) =~~= pabs.update(
                        k as int,
                        (pabs[k as int].0, pabs[k as int].1.push(hole@)),
                    ));
                }
            } else {
                proof {
                    lemma_attach_hole_none(pabs, hole@, 0);
                }
            }
            hi += 1;
        }
        Ok(Contour { geometry: polygons, threshold })
    }

    /// Computes the filled contours for every threshold, in order, failing
    /// on the first error and returning no partial results.
    #[verifier::loop_isolation(false)]
    pub fn contours<G: Grid>(&self, values: &G, thresholds: &[i64]) -> (r: Result<
        Vec<Contour>,
        Error,
    >)
        requires
            self.wf(),
            key_space_ok(values.spec_width(), values.spec_height()),
        ensures
            r matches Ok(v) ==> {
                &&& v@.len() == thresholds@.len()
                &&& forall|i: int|
                    0 <= i < v@.len() ==> (#[trigger] v@[i]).threshold == thresholds@[i]
                        && contour_ok(v@[i]) && v@[i].geometry@.map_values(
                        |p: Polygon| poly_abs(p),
                    ) == classify_spec(processed_rings(*self, values, thresholds@[i]))
            },
            r is Err ==> r.unwrap_err().kind == ErrorKind::BadCast && exists|i: int|
                0 <= i < thresholds@.len() && (line_fails(
                    *self,
                    values,
                    #[trigger] thresholds@[i],
                ) || contour_comp_fails(*self, values, thresholds@[i])),
    {
        let mut isoring = IsoRingBuilder::new();
        let mut out: Vec<Contour> = Vec::new();
        let n = thresholds.len();
        let mut i: usize = 0;
        while i < n
            invariant
                i <= n,
                isoring.wf(),
                out@.len() == i,
                forall|k: int|
                    0 <= k < i ==> (#[trigger] out@[k]).threshold == thresholds@[k]
                        && contour_ok(out@[k]) && out@[k].geometry@.map_values(
                        |p: Polygon| poly_abs(p),
                    ) == classify_spec(processed_rings(*self, values, thresholds@[k])),
            decreases n - i,
        {
            let c = match self.contour(values, thresholds[i], &mut isoring) {
                Ok(v) => v,
                Err(e) => {
                    return Err(e);
                },
            };
            out.push(c);
            i += 1;
        }
        Ok(out)
    }
}

/// A polygon as a specification value: its exterior and its holes.
pub open spec fn poly_abs(p: Polygon) -> (Seq<Pt>, Seq<Seq<Pt>>) {
    (p.exterior@, p.interiors@.map_values(|r: Ring| r@))
}

/// A ring with positive doubled signed area: an exterior boundary.
pub open spec fn ring_positive(r: Seq<Pt>) -> bool {
    q_lt((0int, 1int), area_spec(r))
}

/// The positive-area rings of the first `i`, in order, each as a polygon
/// with no holes yet.
pub open spec fn pos_part(rings: Seq<Seq<Pt>>, i: int) -> Seq<(Seq<Pt>, Seq<Seq<Pt>>)>
    decreases i,
{
    if i <= 0 {
        Seq::empty()
    } else {
        pos_part(rings, i - 1) + (if ring_positive(rings[i - 1]) {
            seq![(rings[i - 1], Seq::<Seq<Pt>>::empty())]
        } else {
            Seq::empty()
        })
    }
}

/// The non-positive-area rings of the first `i`, in order: the holes.
pub open spec fn neg_part(rings: Seq<Seq<Pt>>, i: int) -> Seq<Seq<Pt>>
    decreases i,
{
    if i <= 0 {
        Seq::empty()
    } else {
        neg_part(rings, i - 1) + (if !ring_positive(rings[i - 1]) {
            seq![rings[i - 1]]
        } else {
            Seq::empty()
        })
    }
}

/// Attaches one hole to the first polygon from position `i` on whose
/// exterior contains it; a hole contained in none is dropped.
pub open spec fn attach_hole(
    polys: Seq<(Seq<Pt>, Seq<Seq<Pt>>)>,
    hole: Seq<Pt>,
    i: int,
) -> Seq<(Seq<Pt>, Seq<Seq<Pt>>)>
    decreases polys.len() - i,
{
    if i < 0 || i >= polys.len() {
        polys
    } else if contains_spec(polys[i].0, hole) != -1 {
        polys.update(i, (polys[i].0, polys[i].1.push(hole)))
    } else {
        attach_hole(polys, hole, i + 1)
    }
}

/// Attaches the first `k` holes, in order.
pub open spec fn attach_all(
    polys: Seq<(Seq<Pt>, Seq<Seq<Pt>>)>,
    holes: Seq<Seq<Pt>>,
    k: int,
) -> Seq<(Seq<Pt>, Seq<Seq<Pt>>)>
    decreases k,
{
    if k <= 0 {
        polys
    } else {
        attach_hole(attach_all(polys, holes, k - 1), holes[k - 1], 0)
    }
}

/// The polygon-with-holes classification of a ring list: positive-area
/// rings become exteriors in order; every other ring is attached as a hole
/// to the first exterior containing it, or dropped.
pub open spec fn classify_spec(rings: Seq<Seq<Pt>>) -> Seq<(Seq<Pt>, Seq<Seq<Pt>>)> {
    let polys0 = pos_part(rings, rings.len() as int);
    let holes = neg_part(rings, rings.len() as int);
    attach_all(polys0, holes, holes.len() as int)
}

/// The scanned rings of one threshold after the pipeline, when every point
/// is representable.
pub open spec fn processed_rings<G: Grid>(b: ContourBuilder, g: &G, t: i64) -> Seq<Seq<Pt>> {
    Seq::new(scan_pts(g, t).len(), |i: int| b.process_ring(g, t, scan_pts(g, t)[i]).unwrap())
}

/// Some classification step of this threshold overflows: a ring's exact
/// area, or a containment test between an exterior and a hole.
pub open spec fn contour_comp_fails<G: Grid>(b: ContourBuilder, g: &G, t: i64) -> bool {
    let rings = processed_rings(b, g, t);
    let polys0 = pos_part(rings, rings.len() as int);
    let holes = neg_part(rings, rings.len() as int);
    ||| exists|i: int| 0 <= i < rings.len() && (#[trigger] area_exec_spec(rings[i])) is None
    ||| exists|hi: int, k: int|
        0 <= hi < holes.len() && 0 <= k < attach_all(polys0, holes, hi).len() && (
        #[trigger] cont_exec(
            attach_all(polys0, holes, hi)[k].0,
            holes[hi],
            holes[hi].len() as int,
        )) is None
}

/// Attaching a hole never changes the exteriors, from any position.
proof fn lemma_attach_hole_at(
    polys: Seq<(Seq<Pt>, Seq<Seq<Pt>>)>,
    hole: Seq<Pt>,
    i: int,
    k: int,
)
    requires
        0 <= i <= k < polys.len(),
        forall|j: int| i <= j < k ==> contains_spec((#[trigger] polys[j]).0, hole) == -1,
        contains_spec(polys[k].0, hole) != -1,
    ensures
        attach_hole(polys, hole, i) == polys.update(k, (polys[k].0, polys[k].1.push(hole))),
    decreases k - i,
{
    if i < k {
        lemma_attach_hole_at(polys, hole, i + 1, k);
    }
}

/// A hole contained in no exterior leaves the polygons unchanged.
proof fn lemma_attach_hole_none(polys: Seq<(Seq<Pt>, Seq<Seq<Pt>>)>, hole: Seq<Pt>, i: int)
    requires
        0 <= i,
        forall|j: int| i <= j < polys.len() ==> contains_spec((#[trigger] polys[j]).0, hole)
            == -1,
    ensures
        attach_hole(polys, hole, i) == polys,
    decreases polys.len() - i,
{
    if i < polys.len() {
        lemma_attach_hole_none(polys, hole, i + 1);
    }
}

/// A classified polygon: a positive-area exterior whose holes all have
/// non-positive area and are contained in the exterior by the
/// boundary-inclusive vertex test.
pub open spec fn polygon_ok(p: Polygon) -> bool {
    &&& out_ring_ok(p.exterior@)
    &&& q_lt((0int, 1int), area_spec(p.exterior@))
    &&& forall|k: int|
        0 <= k < p.interiors@.len() ==> out_ring_ok((#[trigger] p.interiors@[k])@) && !q_lt(
            (0int, 1int),
            area_spec(p.interiors@[k]@),
        ) && contains_spec(p.exterior@, p.interiors@[k]@) != -1
}

/// Every polygon of the contour is classified consistently.
pub open spec fn contour_ok(c: Contour) -> bool {
    forall|i: int| 0 <= i < c.geometry@.len() ==> polygon_ok(#[trigger] c.geometry@[i])
}

/// A candidate ring of a band: closed, well formed, and longer than three
/// points after duplicate removal.
pub open spec fn band_ring_ok(ring: Seq<Pt>) -> bool {
    out_ring_ok(ring) && ring.len() > 3
}

/// A band polygon built from candidate rings, each hole contained in the
/// exterior by the boundary-inclusive vertex test.
pub open spec fn band_polygon_ok(p: Polygon) -> bool {
    &&& band_ring_ok(p.exterior@)
    &&& forall|k: int|
        0 <= k < p.interiors@.len() ==> band_ring_ok((#[trigger] p.interiors@[k])@)
            && contains_spec(p.exterior@, p.interiors@[k]@) != -1
}

/// Every polygon of the band is built from candidate rings.
pub open spec fn band_ok(b: Band) -> bool {
    forall|i: int| 0 <= i < b.geometry@.len() ==> band_polygon_ok(#[trigger] b.geometry@[i])
}

impl ContourBuilder {
    /// This builder's smoothing stage alone: same smoothing flag, identity
    /// affine mapping.
    pub closed spec fn smooth_stage(self) -> ContourBuilder {
        ContourBuilder {
            smooth: self.smooth,
            x_origin: Frac { num: 0, den: 1 },
            y_origin: Frac { num: 0, den: 1 },
            x_step: Frac { num: 1, den: 1 },
            y_step: Frac { num: 1, den: 1 },
        }
    }

    /// This builder's affine stage alone: same mapping, no smoothing.
    pub closed spec fn affine_stage(self) -> ContourBuilder {
        ContourBuilder { smooth: false, ..self }
    }

    /// One candidate ring for isoband reconstruction: smoothed, stripped of
    /// consecutive duplicates, then affinely mapped; `None` when a point
    /// cannot be represented.
    pub open spec fn band_ring_spec<G: Grid>(self, g: &G, t: i64, ring: Seq<Pt>) -> Option<
        Seq<Pt>,
    > {
        match self.smooth_stage().process_ring(g, t, ring) {
            None => None,
            Some(sm) => self.affine_stage().process_ring(g, t, dedup_spec(sm)),
        }
    }
}

/// The candidate rings of one threshold: the scanned rings through the
/// band pipeline, keeping those with more than three points.
pub open spec fn band_cand_upto<G: Grid>(b: ContourBuilder, g: &G, t: i64, i: int) -> Seq<
    Seq<Pt>,
>
    decreases i,
{
    if i <= 0 {
        Seq::empty()
    } else {
        band_cand_upto(b, g, t, i - 1) + {
            let r = b.band_ring_spec(g, t, scan_pts(g, t)[i - 1]);
            if r is Some && r.unwrap().len() > 3 {
                seq![r.unwrap()]
            } else {
                Seq::empty()
            }
        }
    }
}

/// The candidate rings of one threshold, in scan order.
pub open spec fn band_candidates<G: Grid>(b: ContourBuilder, g: &G, t: i64) -> Seq<Seq<Pt>> {
    band_cand_upto(b, g, t, scan_pts(g, t).len() as int)
}

/// Some scanned ring of this threshold has a point the band pipeline
/// cannot represent.
pub open spec fn band_fails<G: Grid>(b: ContourBuilder, g: &G, t: i64) -> bool {
    exists|i: int|
        0 <= i < scan_pts(g, t).len() && (#[trigger] b.band_ring_spec(
            g,
            t,
            scan_pts(g, t)[i],
        )) is None
}

/// Candidate rings with their coarse area sort keys.
pub open spec fn keyed(rings: Seq<Seq<Pt>>) -> Seq<(Seq<Pt>, u64)> {
    rings.map_values(|r: Seq<Pt>| (r, area_key_spec(area_exec_spec(r).unwrap()) as u64))
}

/// The pooled candidate rings of one threshold pair: the lower isoline's
/// candidates, then the upper's.
pub open spec fn pooled<G: Grid>(b: ContourBuilder, g: &G, t0: i64, t1: i64) -> Seq<Seq<Pt>> {
    band_candidates(b, g, t0) + band_candidates(b, g, t1)
}

/// How many of the first `j` rings other than `i` contain ring `i`.
pub open spec fn encl_upto(rings: Seq<Seq<Pt>>, i: int, j: int) -> int
    decreases j,
{
    if j <= 0 {
        0
    } else {
        encl_upto(rings, i, j - 1) + (if j - 1 != i && contains_spec(rings[j - 1], rings[i])
            != -1 {
            1int
        } else {
            0int
        })
    }
}

/// How many other rings contain ring `i`.
pub open spec fn encl_count(rings: Seq<Seq<Pt>>, i: int) -> int {
    encl_upto(rings, i, rings.len() as int)
}

/// The rings with even enclosure count among the first `i`: the top-level
/// exteriors, in order, with no holes yet.
pub open spec fn par_pos(rings: Seq<Seq<Pt>>, i: int) -> Seq<(Seq<Pt>, Seq<Seq<Pt>>)>
    decreases i,
{
    if i <= 0 {
        Seq::empty()
    } else {
        par_pos(rings, i - 1) + (if encl_count(rings, i - 1) % 2 == 0 {
            seq![(rings[i - 1], Seq::<Seq<Pt>>::empty())]
        } else {
            Seq::empty()
        })
    }
}

/// The rings with odd enclosure count among the first `i`: the holes.
pub open spec fn par_neg(rings: Seq<Seq<Pt>>, i: int) -> Seq<Seq<Pt>>
    decreases i,
{
    if i <= 0 {
        Seq::empty()
    } else {
        par_neg(rings, i - 1) + (if encl_count(rings, i - 1) % 2 != 0 {
            seq![rings[i - 1]]
        } else {
            Seq::empty()
        })
    }
}

/// The polygon list reversed.
pub open spec fn rev_polys(polys: Seq<(Seq<Pt>, Seq<Seq<Pt>>)>) -> Seq<(Seq<Pt>, Seq<Seq<Pt>>)> {
    Seq::new(polys.len(), |i: int| polys[polys.len() - 1 - i])
}

/// The pooled candidates sorted ascending by coarse area key, equal keys
/// in pooling order.
pub open spec fn sorted_pool(cands: Seq<Seq<Pt>>) -> Seq<Seq<Pt>> {
    sort_spec(keyed(cands)).map_values(|p: (Seq<Pt>, u64)| p.0)
}

/// The isoband classification of one pooled candidate set: sort by coarse
/// absolute area, split by enclosure parity, attach each hole to the first
/// containing exterior in sorted order, and reverse the exterior list.
pub open spec fn band_classify_spec(cands: Seq<Seq<Pt>>) -> Seq<(Seq<Pt>, Seq<Seq<Pt>>)> {
    let sorted = sorted_pool(cands);
    let pol0 = par_pos(sorted, sorted.len() as int);
    let holes = par_neg(sorted, sorted.len() as int);
    rev_polys(attach_all(pol0, holes, holes.len() as int))
}

/// Some classification step over this candidate set overflows: a ring's
/// exact area, a pairwise containment test, or an attachment test.
pub open spec fn classify_fails(cands: Seq<Seq<Pt>>) -> bool {
    let sorted = sorted_pool(cands);
    let pol0 = par_pos(sorted, sorted.len() as int);
    let holes = par_neg(sorted, sorted.len() as int);
    ||| exists|i: int| 0 <= i < cands.len() && (#[trigger] area_exec_spec(cands[i])) is None
    ||| exists|i: int, j: int|
        0 <= i < sorted.len() && 0 <= j < sorted.len() && i != j && (#[trigger] cont_exec(
            sorted[j],
            sorted[i],
            sorted[i].len() as int,
        )) is None
    ||| exists|hi: int, k: int|
        0 <= hi < holes.len() && 0 <= k < attach_all(pol0, holes, hi).len() && (
        #[trigger] cont_exec(
            attach_all(pol0, holes, hi)[k].0,
            holes[hi],
            holes[hi].len() as int,
        )) is None
}

/// Some classification step of this threshold pair overflows.
pub open spec fn band_comp_fails<G: Grid>(b: ContourBuilder, g: &G, t0: i64, t1: i64) -> bool {
    classify_fails(pooled(b, g, t0, t1))
}

/// Every ring of the list is a band candidate ring.
pub open spec fn band_rings_ok(rs: Seq<Ring>) -> bool {
    forall|k: int| 0 <= k < rs.len() ==> band_ring_ok((#[trigger] rs[k])@)
}

impl ContourBuilder {
    /// Prepares the candidate rings of one threshold for isoband
    /// reconstruction: smoothed if configured, stripped of consecutive
    /// duplicate points, mapped by the affine transform, and kept only when
    /// more than three points remain.
    #[verifier::loop_isolation(false)]
    #[verifier::rlimit(100)]
    #[verifier::spinoff_prover]
    fn band_rings<G: Grid>(&self, values: &G, threshold: i64, isoring: &mut IsoRingBuilder)
        -> (r: Result<Vec<Ring>, Error>)
        requires
            self.wf(),
            old(isoring).wf(),
            key_space_ok(values.spec_width(), values.spec_height()),
        ensures
            final(isoring).wf(),
            r matches Ok(v) ==> band_rings_ok(v@) && v@.map_values(|rr: Ring| rr@)
                == band_candidates(*self, values, threshold),
            r is Err ==> r.unwrap_err().kind == ErrorKind::BadCast && band_fails(
                *self,
                values,
                threshold,
            ),
    {
        let mut rings = match isoring.compute(values, threshold) {
            Ok(v) => v,
            Err(e) => {
                return Err(e);
            },
        };
        let identity = self.is_identity();
        let mut kept: Vec<Ring> = Vec::new();
        let n = rings.len();
        let mut j: usize = 0;
        while j < n
            invariant
                j <= n,
                rings@.len() == n,
                n == scan_pts(values, threshold).len(),
                forall|k: int|
                    j <= k < n ==> (#[trigger] rings@[k])@ == scan_pts(values, threshold)[k],
                forall|k: int| j <= k < n ==> pt_ring_good((#[trigger] rings@[k])@),
                kept@.map_values(|rr: Ring| rr@) == band_cand_upto(
                    *self,
                    values,
                    threshold,
                    j as int,
                ),
                band_rings_ok(kept@),
            decreases n - j,
        {
            let mut ring: Ring = Vec::new();
            core::mem::swap(&mut ring, &mut rings[j]);
            let ghost pre = ring@;
            let ghost ss = self.smooth_stage();
            let ghost af = self.affine_stage();
            if self.smooth {
                proof {
                    assert(forall|i: int| 0 <= i < pre.len() ==> half_pt(#[trigger] pre[i]));
                }
                match self.smooth_linear(&mut ring, values, threshold) {
                    Ok(()) => {},
                    Err(e) => {
                        proof {
                            let k = choose|k: int|
                                0 <= k < pre.len() && (smooth_new_x(
                                    values,
                                    threshold,
                                    #[trigger] pre[k],
                                ) is None || smooth_new_y(values, threshold, pre[k]) is None);
                            assert(ss.process_pt(values, threshold, pre[k]) is None);
                            ss.lemma_process_ring_fails(
                                values,
                                threshold,
                                pre,
                                k,
                                pre.len() as int,
                            );
                        }
                        return Err(e);
                    },
                }
            }
            let ghost mid = ring@;
            proof {
                assert(mid.len() == pre.len());
                assert(mid.first() == mid.last());
                assert(forall|i: int| 0 <= i < mid.len() ==> pt_wf(#[trigger] mid[i]));
                assert forall|k: int|
                    0 <= k < pre.len() implies ss.process_pt(values, threshold, #[trigger] pre[k])
                    == Some(mid[k]) by {
                    if self.spec_smooth() {
                        assert(smooth_pt_spec(values, threshold, pre[k]) == Some(mid[k]));
                    } else {
                        assert(mid[k] == pre[k]);
                    }
                }
                ss.lemma_process_ring_pointwise(values, threshold, pre, mid, pre.len() as int);
                assert(mid.subrange(0, mid.len() as int) =~= mid);
                assert(ss.process_ring(values, threshold, pre) == Some(mid));
            }
            dedup_ring(&mut ring);
            let ghost dd = ring@;
            proof {
                assert(dd == dedup_spec(mid));
                assert(dd.len() >= 1);
                assert(dd.first() == dd.last());
            }
            if !identity {
                match self.transform_ring(&mut ring) {
                    Ok(()) => {},
                    Err(e) => {
                        proof {
                            let k = choose|k: int|
                                0 <= k < dd.len() && (mul_add_spec(
                                    (#[trigger] dd[k]).x,
                                    self.spec_x_step(),
                                    self.spec_x_origin(),
                                ) is None || mul_add_spec(
                                    dd[k].y,
                                    self.spec_y_step(),
                                    self.spec_y_origin(),
                                ) is None);
                            assert(af.process_pt(values, threshold, dd[k]) is None);
                            af.lemma_process_ring_fails(
                                values,
                                threshold,
                                dd,
                                k,
                                dd.len() as int,
                            );
                            assert(self.band_ring_spec(values, threshold, pre) is None);
                        }
                        return Err(e);
                    },
                }
            }
            proof {
                let cur = ring@;
                assert(cur.len() == dd.len());
                assert(cur.first() == cur.last());
                assert(forall|i: int| 0 <= i < cur.len() ==> pt_wf(#[trigger] cur[i]));
                assert forall|k: int|
                    0 <= k < dd.len() implies af.process_pt(values, threshold, #[trigger] dd[k])
                    == Some(cur[k]) by {
                    if !self.spec_is_identity() {
                        assert(Some(cur[k].x) == mul_add_spec(
                            dd[k].x,
                            self.spec_x_step(),
                            self.spec_x_origin(),
                        ));
                        assert(Some(cur[k].y) == mul_add_spec(
                            dd[k].y,
                            self.spec_y_step(),
                            self.spec_y_origin(),
                        ));
                        assert(af.transform_pt_spec(dd[k]) == Some(cur[k]));
                    } else {
                        assert(cur[k] == dd[k]);
                    }
                }
                af.lemma_process_ring_pointwise(values, threshold, dd, cur, dd.len() as int);
                assert(cur.subrange(0, cur.len() as int) =~= cur);
                assert(self.band_ring_spec(values, threshold, pre) == Some(cur));
            }
            if ring.len() > 3 {
                kept.push(ring);
                proof {
                    assert(kept@.map_values(|rr: Ring| rr@) =~~= band_cand_upto(
                        *self,
                        values,
                        threshold,
                        j as int + 1,
                    ));
                }
            } else {
                proof {
                    assert(kept@.map_values(|rr: Ring| rr@) =~~= band_cand_upto(
                        *self,
                        values,
                        threshold,
                        j as int + 1,
                    ));
                }
            }
            j += 1;
        }
        Ok(kept)
    }

    /// Pools the candidate rings of the two bounding isolines, keyed by
    /// their coarse absolute area.
    #[verifier::loop_isolation(false)]
    #[verifier::rlimit(100)]
    fn pool_candidates(lo: &Vec<Ring>, up: &Vec<Ring>) -> (r: Result<Vec<(Ring, u64)>, Error>)
        requires
            band_rings_ok(lo@),
            band_rings_ok(up@),
        ensures
            r matches Ok(cand) ==> {
                &&& cand@.map_values(|p: (Ring, u64)| cand_view(p)) == keyed(
                    lo@.map_values(|rr: Ring| rr@) + up@.map_values(|rr: Ring| rr@),
                )
                &&& forall|kk: int|
                    0 <= kk < cand@.len() ==> band_ring_ok((#[trigger] cand@[kk]).0@)
            },
            r is Err ==> r.unwrap_err().kind == ErrorKind::BadCast && ((exists|i: int|
                0 <= i < lo@.len() && area_exec_spec((#[trigger] lo@[i])@) is None) || (exists|
                i: int,
            |
                0 <= i < up@.len() && area_exec_spec((#[trigger] up@[i])@) is None)),
    {
        let ghost bc0 = lo@.map_values(|rr: Ring| rr@);
        let ghost bc1 = up@.map_values(|rr: Ring| rr@);
        let ghost cands = bc0 + bc1;
        let mut cand: Vec<(Ring, u64)> = Vec::new();
        let n0 = lo.len();
        let mut k: usize = 0;
        proof {
            assert(cand@.map_values(|p: (Ring, u64)| cand_view(p)) =~~= keyed(
                bc0.subrange(0, 0),
            ));
        }
        while k < n0
            invariant
                k <= n0,
                n0 == lo@.len(),
                cand@.map_values(|p: (Ring, u64)| cand_view(p)) == keyed(
                    bc0.subrange(0, k as int),
                ),
                forall|kk: int|
                    0 <= kk < cand@.len() ==> band_ring_ok((#[trigger] cand@[kk]).0@),
            decreases n0 - k,
        {
            let c = clone_ring(&lo[k]);
            let a = match area(&c) {
                Ok(v) => v,
                Err(e) => {
                    proof {
                        assert(area_exec_spec((lo@[k as int])@) is None);
                    }
                    return Err(e);
                },
            };
            let key = area_abs_key(a);
            let ghost pre_cand = cand@;
            cand.push((c, key));
            proof {
                lemma_area_key_range(a);
                assert(key == area_key_spec(area_exec_spec(bc0[k as int]).unwrap()) as u64);
                assert(bc0.subrange(0, k as int + 1) =~= bc0.subrange(0, k as int).push(
                    bc0[k as int],
                ));
                let lhsq = cand@.map_values(|p: (Ring, u64)| cand_view(p));
                let rhsq = keyed(bc0.subrange(0, k as int + 1));
                assert forall|ii: int| 0 <= ii < lhsq.len() implies #[trigger] lhsq[ii]
                    == rhsq[ii] by {
                    if ii < k as int {
                        assert(cand@[ii] == pre_cand[ii]);
                        assert(pre_cand.map_values(|p: (Ring, u64)| cand_view(p))[ii] == keyed(
                            bc0.subrange(0, k as int),
                        )[ii]);
                    } else {
                        assert(cand@[ii] == (c, key));
                        assert(c@ == bc0[k as int]);
                    }
                }
                assert(lhsq =~= rhsq);
            }
            k += 1;
        }
        proof {
            assert(bc0.subrange(0, n0 as int) =~= bc0);
            assert(bc0 + bc1.subrange(0, 0) =~= bc0);
        }
        let n1 = up.len();
        let mut k1: usize = 0;
        while k1 < n1
            invariant
                k1 <= n1,
                n1 == up@.len(),
                cand@.map_values(|p: (Ring, u64)| cand_view(p)) == keyed(
                    bc0 + bc1.subrange(0, k1 as int),
                ),
                forall|kk: int|
                    0 <= kk < cand@.len() ==> band_ring_ok((#[trigger] cand@[kk]).0@),
            decreases n1 - k1,
        {
            let c = clone_ring(&up[k1]);
            let a = match area(&c) {
                Ok(v) => v,
                Err(e) => {
                    proof {
                        assert(area_exec_spec((up@[k1 as int])@) is None);
                    }
                    return Err(e);
                },
            };
            let key = area_abs_key(a);
            let ghost pre_cand = cand@;
            cand.push((c, key));
            proof {
                lemma_area_key_range(a);
                assert(key == area_key_spec(area_exec_spec(bc1[k1 as int]).unwrap()) as u64);
                assert(bc0 + bc1.subrange(0, k1 as int + 1) =~= (bc0 + bc1.subrange(
                    0,
                    k1 as int,
                )).push(bc1[k1 as int]));
                let lhsq = cand@.map_values(|p: (Ring, u64)| cand_view(p));
                let rhsq = keyed(bc0 + bc1.subrange(0, k1 as int + 1));
                assert forall|ii: int| 0 <= ii < lhsq.len() implies #[trigger] lhsq[ii]
                    == rhsq[ii] by {
                    if ii < pre_cand.len() as int {
                        assert(cand@[ii] == pre_cand[ii]);
                        assert(pre_cand.map_values(|p: (Ring, u64)| cand_view(p))[ii] == keyed(
                            bc0 + bc1.subrange(0, k1 as int),
                        )[ii]);
                    } else {
                        assert(cand@[ii] == (c, key));
                        assert(c@ == bc1[k1 as int]);
                    }
                }
                assert(lhsq =~= rhsq);
            }
            k1 += 1;
        }
        proof {
            assert(bc0 + bc1.subrange(0, n1 as int) =~= cands);
        }
        Ok(cand)
    }

    /// Counts, for each candidate ring, how many other candidates contain
    /// it by the boundary-inclusive vertex test.
    #[verifier::loop_isolation(false)]
    #[verifier::rlimit(100)]
    fn enclosure_counts(cand: &Vec<(Ring, u64)>) -> (r: Result<Vec<u64>, Error>)
        requires
            forall|kk: int| 0 <= kk < cand@.len() ==> band_ring_ok((#[trigger] cand@[kk]).0@),
        ensures
            r matches Ok(counts) ==> {
                &&& counts@.len() == cand@.len()
                &&& forall|k: int|
                    0 <= k < counts@.len() ==> (#[trigger] counts@[k]) as int == encl_count(
                        cand@.map_values(|p: (Ring, u64)| p.0@),
                        k,
                    )
            },
            r is Err ==> r.unwrap_err().kind == ErrorKind::BadCast && exists|i: int, j: int|
                0 <= i < cand@.len() && 0 <= j < cand@.len() && i != j && cont_exec(
                    (#[trigger] cand@[j]).0@,
                    (#[trigger] cand@[i]).0@,
                    cand@[i].0@.len() as int,
                ) is None,
    {
        let ghost sviews = cand@.map_values(|p: (Ring, u64)| p.0@);
        let nc = cand.len();
        let mut counts: Vec<u64> = Vec::new();
        let mut i2: usize = 0;
        while i2 < nc
            invariant
                i2 <= nc,
                nc == cand@.len(),
                counts@.len() == i2,
                forall|k: int|
                    0 <= k < i2 ==> (#[trigger] counts@[k]) as int == encl_count(sviews, k),
            decreases nc - i2,
        {
            let mut cnt: u64 = 0;
            let mut j2: usize = 0;
            while j2 < nc
                invariant
                    j2 <= nc,
                    nc == cand@.len(),
                    cnt <= j2,
                    cnt as int == encl_upto(sviews, i2 as int, j2 as int),
                decreases nc - j2,
            {
                if j2 != i2 {
                    let c = match contains(&cand[j2].0, &cand[i2].0) {
                        Ok(v) => v,
                        Err(e) => {
                            proof {
                                assert(cont_exec(
                                    sviews[j2 as int],
                                    sviews[i2 as int],
                                    sviews[i2 as int].len() as int,
                                ) is None);
                            }
                            return Err(e);
                        },
                    };
                    if c != -1 {
                        cnt = cnt + 1;
                    }
                }
                j2 += 1;
            }
            counts.push(cnt);
            i2 += 1;
        }
        Ok(counts)
    }

    /// Builds the polygons of one band from the candidate rings of its two
    /// bounding isolines: pool, sort by coarse absolute area, classify by
    /// enclosure parity, attach holes, and reverse the exterior list.
    #[verifier::loop_isolation(false)]
    #[verifier::rlimit(100)]
    fn band_polygons(&self, lo: &Vec<Ring>, up: &Vec<Ring>) -> (r: Result<Vec<Polygon>, Error>)
        requires
            band_rings_ok(lo@),
            band_rings_ok(up@),
        ensures
            r matches Ok(polys) ==> {
                &&& polys@.map_values(|p: Polygon| poly_abs(p)) == band_classify_spec(
                    lo@.map_values(|rr: Ring| rr@) + up@.map_values(|rr: Ring| rr@),
                )
                &&& forall|k: int|
                    0 <= k < polys@.len() ==> band_polygon_ok(#[trigger] polys@[k])
            },
            r is Err ==> r.unwrap_err().kind == ErrorKind::BadCast && classify_fails(
                lo@.map_values(|rr: Ring| rr@) + up@.map_values(|rr: Ring| rr@),
            ),
    {
        let ghost cands = lo@.map_values(|rr: Ring| rr@) + up@.map_values(|rr: Ring| rr@);
        let mut cand = match Self::pool_candidates(lo, up) {
            Ok(v) => v,
            Err(e) => {
                proof {
                    if exists|i: int|
                        0 <= i < lo@.len() && area_exec_spec((#[trigger] lo@[i])@) is None {
                        let i = choose|i: int|
                            0 <= i < lo@.len() && area_exec_spec((#[trigger] lo@[i])@) is None;
                        assert(cands[i] == lo@[i]@);
                        assert(area_exec_spec(cands[i]) is None);
                    } else {
                        let i = choose|i: int|
                            0 <= i < up@.len() && area_exec_spec((#[trigger] up@[i])@) is None;
                        assert(cands[lo@.len() + i] == up@[i]@);
                        assert(area_exec_spec(cands[lo@.len() + i]) is None);
                    }
                }
                return Err(e);
            },
        };
        let ghost presort = cand@;
        sort_rings(&mut cand);
        proof {
            lemma_sort_view(presort);
            assert(cand@.map_values(|p: (Ring, u64)| cand_view(p)) == sort_spec(keyed(cands)));
        }
        let ghost sviews = sorted_pool(cands);
        proof {
            assert forall|kk: int| 0 <= kk < cand@.len() implies (#[trigger] cand@[kk]).0@
                == sviews[kk] by {
                assert(cand@.map_values(|p: (Ring, u64)| cand_view(p))[kk] == cand_view(
                    cand@[kk],
                ));
            }
            assert(sviews.len() == cand@.len());
            assert(cand@.map_values(|p: (Ring, u64)| p.0@) =~= sviews);
        }
        let counts = match Self::enclosure_counts(&cand) {
            Ok(v) => v,
            Err(e) => {
                return Err(e);
            },
        };
        let nc = cand.len();
        // even enclosure count: a top-level exterior; odd: a hole
        let mut polygons: Vec<Polygon> = Vec::new();
        let mut interior_rings: Vec<Ring> = Vec::new();
        let mut i3: usize = 0;
        while i3 < nc
            invariant
                i3 <= nc,
                nc == cand@.len(),
                nc == sviews.len(),
                counts@.len() == nc,
                forall|k: int|
                    0 <= k < nc ==> (#[trigger] counts@[k]) as int == encl_count(sviews, k),
                forall|k: int| i3 <= k < nc ==> (#[trigger] cand@[k]).0@ == sviews[k],
                polygons@.map_values(|p: Polygon| poly_abs(p)) == par_pos(sviews, i3 as int),
                interior_rings@.map_values(|rr: Ring| rr@) == par_neg(sviews, i3 as int),
                forall|k: int|
                    i3 <= k < cand@.len() ==> band_ring_ok((#[trigger] cand@[k]).0@),
                forall|k: int|
                    0 <= k < polygons@.len() ==> band_polygon_ok(#[trigger] polygons@[k]),
                forall|k: int|
                    0 <= k < interior_rings@.len() ==> band_ring_ok(
                        (#[trigger] interior_rings@[k])@,
                    ),
            decreases nc - i3,
        {
            let mut ring: Ring = Vec::new();
            core::mem::swap(&mut ring, &mut cand[i3].0);
            if counts[i3] % 2 == 0 {
                polygons.push(Polygon { exterior: ring, interiors: Vec::new() });
                proof {
                    assert(polygons@.map_values(|p: Polygon| poly_abs(p)) =~~= par_pos(
                        sviews,
                        i3 as int + 1,
                    ));
                    assert(interior_rings@.map_values(|rr: Ring| rr@) =~~= par_neg(
                        sviews,
                        i3 as int + 1,
                    ));
                }
            } else {
                interior_rings.push(ring);
                proof {
                    assert(polygons@.map_values(|p: Polygon| poly_abs(p)) =~~= par_pos(
                        sviews,
                        i3 as int + 1,
                    ));
                    assert(interior_rings@.map_values(|rr: Ring| rr@) =~~= par_neg(
                        sviews,
                        i3 as int + 1,
                    ));
                }
            }
            i3 += 1;
        }
        // attach each hole to the first containing exterior
        let ghost pol0 = par_pos(sviews, nc as int);
        let ghost holes0 = par_neg(sviews, nc as int);
        let nh = interior_rings.len();
        let mut hi: usize = 0;
        while hi < nh
            invariant
                hi <= nh,
                interior_rings@.len() == nh,
                nh == holes0.len(),
                forall|k: int| hi <= k < nh ==> (#[trigger] interior_rings@[k])@ == holes0[k],
                polygons@.map_values(|p: Polygon| poly_abs(p)) == attach_all(
                    pol0,
                    holes0,
                    hi as int,
                ),
                forall|k: int|
                    0 <= k < polygons@.len() ==> band_polygon_ok(#[trigger] polygons@[k]),
                forall|k: int|
                    hi <= k < nh ==> band_ring_ok((#[trigger] interior_rings@[k])@),
            decreases nh - hi,
        {
            let mut hole: Ring = Vec::new();
            core::mem::swap(&mut hole, &mut interior_rings[hi]);
            let ghost pabs = polygons@.map_values(|p: Polygon| poly_abs(p));
            let np = polygons.len();
            let mut k: usize = 0;
            let mut found = false;
            while k < np && !found
                invariant
                    k <= np,
                    np == polygons@.len(),
                    found ==> k < np && contains_spec(polygons@[k as int].exterior@, hole@)
                        != -1,
                    forall|kk: int|
                        0 <= kk < k ==> contains_spec(
                            (#[trigger] polygons@[kk]).exterior@,
                            hole@,
                        ) == -1,
                    forall|kk: int|
                        0 <= kk < polygons@.len() ==> band_polygon_ok(
                            #[trigger] polygons@[kk],
                        ),
                    band_ring_ok(hole@),
                decreases (np - k) + (if found {
                    0int
                } else {
                    1int
                }),
            {
                let c = match contains(&polygons[k].exterior, &hole) {
                    Ok(v) => v,
                    Err(e) => {
                        proof {
                            assert(pabs[k as int].0 == polygons@[k as int].exterior@);
                            assert(cont_exec(
                                attach_all(pol0, holes0, hi as int)[k as int].0,
                                holes0[hi as int],
                                holes0[hi as int].len() as int,
                            ) is None);
                        }
                        return Err(e);
                    },
                };
                if c != -1 {
                    found = true;
                } else {
                    k += 1;
                }
            }
            proof {
                assert forall|kk: int| 0 <= kk < pabs.len() implies (#[trigger] pabs[kk]).0
                    == polygons@[kk].exterior@ by {}
            }
            if found {
                polygons[k].interiors.push(hole);
                proof {
                    lemma_attach_hole_at(pabs, hole@, 0, k as int);
                    assert(polygons@.map_values(|p: Polygon| poly_abs(p)) =~~= pabs.update(
                        k as int,
                        (pabs[k as int].0, pabs[k as int].1.push(hole@)),
                    ));
                }
            } else {
                proof {
                    lemma_attach_hole_none(pabs, hole@, 0);
                }
            }
            hi += 1;
        }
        let ghost attached = polygons@.map_values(|p: Polygon| poly_abs(p));
        reverse_polygons(&mut polygons);
        proof {
            assert(polygons@.map_values(|p: Polygon| poly_abs(p)) =~~= rev_polys(attached));
        }
        Ok(polygons)
    }

    /// Computes the isobands between consecutive thresholds: the candidate
    /// rings of both bounding isolines are pooled, sorted by coarse
    /// absolute area, and classified by enclosure parity — a ring contained
    /// in an even number of other rings is a top-level exterior, one
    /// contained in an odd number is a hole attached to the first
    /// containing exterior in sorted order. Requires at least two
    /// thresholds, else fails with `Unexpected`.
    #[verifier::loop_isolation(false)]
    #[verifier::rlimit(100)]
    pub fn isobands<G: Grid>(&self, values: &G, thresholds: &[i64]) -> (r: Result<
        Vec<Band>,
        Error,
    >)
        requires
            self.wf(),
            key_space_ok(values.spec_width(), values.spec_height()),
        ensures
            thresholds@.len() < 2 ==> r is Err && r.unwrap_err().kind == ErrorKind::Unexpected,
            r is Err ==> (r.unwrap_err().kind == ErrorKind::Unexpected <==> thresholds@.len()
                < 2),
            r is Err ==> (r.unwrap_err().kind == ErrorKind::Unexpected || r.unwrap_err().kind
                == ErrorKind::BadCast),
            r is Err && r.unwrap_err().kind == ErrorKind::BadCast ==> (exists|i: int|
                0 <= i < thresholds@.len() && band_fails(
                    *self,
                    values,
                    #[trigger] thresholds@[i],
                )) || (exists|w: int|
                0 <= w < thresholds@.len() - 1 && band_comp_fails(
                    *self,
                    values,
                    #[trigger] thresholds@[w],
                    thresholds@[w + 1],
                )),
            r matches Ok(bands) ==> {
                &&& bands@.len() + 1 == thresholds@.len()
                &&& forall|w: int|
                    0 <= w < bands@.len() ==> (#[trigger] bands@[w]).min_v == thresholds@[w]
                        && bands@[w].max_v == thresholds@[w + 1] && band_ok(bands@[w])
                        && bands@[w].geometry@.map_values(|p: Polygon| poly_abs(p))
                        == band_classify_spec(
                        pooled(*self, values, thresholds@[w], thresholds@[w + 1]),
                    )
            },
    {
        if thresholds.len() < 2 {
            return Err(new_error(ErrorKind::Unexpected));
        }
        let mut isoring = IsoRingBuilder::new();
        let m = thresholds.len();
        let mut per: Vec<Vec<Ring>> = Vec::new();
        let mut i: usize = 0;
        while i < m
            invariant
                i <= m,
                isoring.wf(),
                per@.len() == i,
                forall|k: int| 0 <= k < i ==> band_rings_ok((#[trigger] per@[k])@),
                forall|k: int|
                    0 <= k < i ==> (#[trigger] per@[k])@.map_values(|rr: Ring| rr@)
                        == band_candidates(*self, values, thresholds@[k]),
            decreases m - i,
        {
            let rs = match self.band_rings(values, thresholds[i], &mut isoring) {
                Ok(v) => v,
                Err(e) => {
                    return Err(e);
                },
            };
            per.push(rs);
            i += 1;
        }
        let mut bands: Vec<Band> = Vec::new();
        let mut w: usize = 0;
        while w < m - 1
            invariant
                w <= m - 1,
                bands@.len() == w,
                forall|ww: int|
                    0 <= ww < w ==> (#[trigger] bands@[ww]).min_v == thresholds@[ww]
                        && bands@[ww].max_v == thresholds@[ww + 1] && band_ok(bands@[ww])
                        && bands@[ww].geometry@.map_values(|p: Polygon| poly_abs(p))
                        == band_classify_spec(
                        pooled(*self, values, thresholds@[ww], thresholds@[ww + 1]),
                    ),
            decreases m - 1 - w,
        {
            let polygons = match self.band_polygons(&per[w], &per[w + 1]) {
                Ok(v) => v,
                Err(e) => {
                    proof {
                        assert(band_comp_fails(
                            *self,
                            values,
                            thresholds@[w as int],
                            thresholds@[w as int + 1],
                        ));
                    }
                    return Err(e);
                },
            };
            bands.push(
                Band { geometry: polygons, min_v: thresholds[w], max_v: thresholds[w + 1] },
            );
            w += 1;
        }
        Ok(bands)
    }
}

/// Copies a ring.
fn clone_ring(r: &Ring) -> (c: Ring)
    ensures
        c@ == r@,
{
    let mut c: Ring = Vec::new();
    let mut i: usize = 0;
    while i < r.len()
        invariant
            i <= r@.len(),
            c@.len() == i,
            forall|j: int| 0 <= j < i ==> #[trigger] c@[j] == r@[j],
        decreases r@.len() - i,
    {
        c.push(r[i]);
        i += 1;
    }
    proof {
        assert(c@ =~= r@);
    }
    c
}

/// The consecutive-duplicate-free subsequence of a ring's first `k`
/// points.
pub open spec fn dedup_upto(ring: Seq<Pt>, k: int) -> Seq<Pt>
    decreases k,
{
    if k <= 1 {
        if ring.len() == 0 {
            Seq::empty()
        } else {
            seq![ring[0]]
        }
    } else {
        let pre = dedup_upto(ring, k - 1);
        if ring[k - 1] == pre.last() {
            pre
        } else {
            pre.push(ring[k - 1])
        }
    }
}

/// The ring with consecutive duplicate points removed.
pub open spec fn dedup_spec(ring: Seq<Pt>) -> Seq<Pt> {
    dedup_upto(ring, ring.len() as int)
}

/// Removes consecutive duplicate points in place, keeping the first and
/// last points.
#[verifier::loop_isolation(false)]
fn dedup_ring(ring: &mut Ring)
    requires
        forall|j: int| 0 <= j < old(ring)@.len() ==> pt_wf(#[trigger] old(ring)@[j]),
    ensures
        final(ring)@ == dedup_spec(old(ring)@),
        old(ring)@.len() == 0 ==> final(ring)@.len() == 0,
        old(ring)@.len() >= 1 ==> {
            &&& 1 <= final(ring)@.len() <= old(ring)@.len()
            &&& final(ring)@.first() == old(ring)@.first()
            &&& final(ring)@.last() == old(ring)@.last()
            &&& forall|j: int|
                0 <= j < final(ring)@.len() - 1 ==> (#[trigger] final(ring)@[j])
                    != final(ring)@[j + 1]
        },
        forall|j: int| 0 <= j < final(ring)@.len() ==> pt_wf(#[trigger] final(ring)@[j]),
{
    let n = ring.len();
    if n == 0 {
        return ;
    }
    let mut out: Ring = Vec::new();
    out.push(ring[0]);
    let mut k: usize = 1;
    while k < n
        invariant
            1 <= k <= n,
            n == ring@.len(),
            out@ == dedup_upto(ring@, k as int),
            1 <= out@.len() <= k,
            out@.first() == ring@.first(),
            out@.last() == ring@[k - 1],
            forall|j: int| 0 <= j < out@.len() - 1 ==> (#[trigger] out@[j]) != out@[j + 1],
            forall|j: int| 0 <= j < out@.len() ==> pt_wf(#[trigger] out@[j]),
        decreases n - k,
    {
        let last = out[out.len() - 1];
        if !(ring[k] == last) {
            out.push(ring[k]);
        }
        k += 1;
    }
    core::mem::swap(ring, &mut out);
}

/// The sort key of a candidate ring: the integer-truncated absolute value
/// of its doubled signed area, saturated to the key type. Coarse on
/// purpose: rings whose areas differ by less than one may sort in either
/// order, which is kept as the established behavior.
pub open spec fn area_key_spec(a: Frac) -> int {
    let q = vstd::math::abs(a.num as int) as int / (a.den as int);
    if q > u64::MAX {
        u64::MAX as int
    } else {
        q
    }
}

/// The coarse sort key is a valid key value.
proof fn lemma_area_key_range(a: Frac)
    requires
        a.wf(),
    ensures
        0 <= area_key_spec(a) <= u64::MAX,
{
    vstd::arithmetic::div_mod::lemma_div_pos_is_pos(
        vstd::math::abs(a.num as int) as int,
        a.den as int,
    );
}

/// Computes the coarse sort key of a doubled signed area.
fn area_abs_key(a: Frac) -> (k: u64)
    requires
        a.wf(),
    ensures
        k as int == area_key_spec(a),
{
    let mag: u128 = if a.num < 0 {
        (-(a.num as i128)) as u128
    } else {
        a.num as u128
    };
    let q = mag / (a.den as u128);
    proof {
        vstd::arithmetic::div_mod::lemma_div_nonincreasing(mag as int, a.den as int);
        vstd::arithmetic::div_mod::lemma_div_pos_is_pos(mag as int, a.den as int);
    }
    if q > u64::MAX as u128 {
        u64::MAX
    } else {
        q as u64
    }
}

/// The position of the first minimal key among the first `k` entries.
pub open spec fn first_min<T>(v: Seq<(T, u64)>, k: int) -> int
    decreases k,
{
    if k <= 1 {
        0
    } else {
        if v[k - 1].1 < v[first_min(v, k - 1)].1 {
            k - 1
        } else {
            first_min(v, k - 1)
        }
    }
}

/// The stable ascending sort by key: the first minimal entry, then the
/// sorted rest.
pub open spec fn sort_spec<T>(v: Seq<(T, u64)>) -> Seq<(T, u64)>
    decreases v.len(),
{
    if v.len() == 0 {
        Seq::empty()
    } else {
        let m0 = first_min(v, v.len() as int);
        let m = if 0 <= m0 < v.len() {
            m0
        } else {
            0
        };
        seq![v[m]] + sort_spec(v.remove(m))
    }
}

/// The key-preserving view of one candidate entry.
pub open spec fn cand_view(p: (Ring, u64)) -> (Seq<Pt>, u64) {
    (p.0@, p.1)
}

/// Sorting commutes with taking views, since only keys are compared.
proof fn lemma_sort_view(v: Seq<(Ring, u64)>)
    ensures
        sort_spec(v).map_values(|p: (Ring, u64)| cand_view(p)) == sort_spec(
            v.map_values(|p: (Ring, u64)| cand_view(p)),
        ),
    decreases v.len(),
{
    let w = v.map_values(|p: (Ring, u64)| cand_view(p));
    assert forall|k: int| 1 <= k <= v.len() implies #[trigger] first_min(v, k) == first_min(
        w,
        k,
    ) by {
        lemma_first_min_view(v, k);
    }
    if v.len() > 0 {
        let m0 = first_min(v, v.len() as int);
        let m = if 0 <= m0 < v.len() {
            m0
        } else {
            0int
        };
        lemma_sort_view(v.remove(m));
        assert(v.remove(m).map_values(|p: (Ring, u64)| cand_view(p)) =~= w.remove(m));
        assert(sort_spec(v).map_values(|p: (Ring, u64)| cand_view(p)) =~= sort_spec(w));
    } else {
        assert(sort_spec(v).map_values(|p: (Ring, u64)| cand_view(p)) =~= sort_spec(w));
    }
}

/// The first minimal key lies among the entries compared.
proof fn lemma_first_min_range<T>(v: Seq<(T, u64)>, k: int)
    requires
        1 <= k,
    ensures
        0 <= first_min(v, k) < k,
    decreases k,
{
    if k > 1 {
        lemma_first_min_range(v, k - 1);
    }
}

/// The first minimal key is at the same position in the views.
proof fn lemma_first_min_view(v: Seq<(Ring, u64)>, k: int)
    requires
        1 <= k <= v.len(),
    ensures
        first_min(v, k) == first_min(v.map_values(|p: (Ring, u64)| cand_view(p)), k),
    decreases k,
{
    let w = v.map_values(|p: (Ring, u64)| cand_view(p));
    if k > 1 {
        lemma_first_min_view(v, k - 1);
        lemma_first_min_range(v, k - 1);
        let m = first_min(v, k - 1);
        assert(w[m].1 == v[m].1);
        assert(w[k - 1].1 == v[k - 1].1);
    }
}

/// Sorts candidate rings ascending by key, keeping the first-found minimum
/// first so that equal keys keep their relative order.
#[verifier::loop_isolation(false)]
fn sort_rings(v: &mut Vec<(Ring, u64)>)
    requires
        forall|k: int| 0 <= k < old(v)@.len() ==> band_ring_ok((#[trigger] old(v)@[k]).0@),
    ensures
        final(v)@ == sort_spec(old(v)@),
        final(v)@.len() == old(v)@.len(),
        forall|i: int, j: int|
            0 <= i < j < final(v)@.len() ==> (#[trigger] final(v)@[i]).1
                <= (#[trigger] final(v)@[j]).1,
        forall|i: int| 0 <= i < final(v)@.len() ==> band_ring_ok((#[trigger] final(v)@[i]).0@),
{
    let mut out: Vec<(Ring, u64)> = Vec::new();
    let ghost orig = v@;
    proof {
        assert(sort_spec(orig) =~= out@ + sort_spec(v@));
    }
    while v.len() > 0
        invariant
            out@.len() + v@.len() == orig.len(),
            sort_spec(orig) == out@ + sort_spec(v@),
            forall|i: int, j: int|
                0 <= i < j < out@.len() ==> (#[trigger] out@[i]).1 <= (#[trigger] out@[j]).1,
            forall|i: int, j: int|
                0 <= i < out@.len() && 0 <= j < v@.len() ==> (#[trigger] out@[i]).1 <= (
                #[trigger] v@[j]).1,
            forall|i: int| 0 <= i < out@.len() ==> band_ring_ok((#[trigger] out@[i]).0@),
            forall|i: int| 0 <= i < v@.len() ==> band_ring_ok((#[trigger] v@[i]).0@),
        decreases v@.len(),
    {
        let ghost v_pre = v@;
        let ghost out_pre = out@;
        let mut mi: usize = 0;
        let mut k: usize = 1;
        while k < v.len()
            invariant
                mi < k <= v@.len(),
                mi as int == first_min(v@, k as int),
                forall|j: int| 0 <= j < k ==> (#[trigger] v@[mi as int]).1 <= v@[j].1,
            decreases v@.len() - k,
        {
            if v[k].1 < v[mi].1 {
                mi = k;
            }
            k += 1;
        }
        let item = v.remove(mi);
        out.push(item);
        proof {
            assert(sort_spec(v_pre) == seq![v_pre[mi as int]] + sort_spec(v_pre.remove(
                mi as int,
            )));
            assert(out@ =~= out_pre + seq![item]);
            assert(sort_spec(orig) =~= out@ + sort_spec(v@));
        }
    }
    proof {
        assert(sort_spec(orig) =~= out@);
    }
    core::mem::swap(v, &mut out);
}

/// Reverses the polygon list in place.
fn reverse_polygons(v: &mut Vec<Polygon>)
    ensures
        final(v)@.len() == old(v)@.len(),
        forall|i: int|
            0 <= i < final(v)@.len() ==> #[trigger] final(v)@[i] == old(v)@[old(v)@.len() - 1
                - i],
{
    let mut out: Vec<Polygon> = Vec::new();
    let ghost n = v@.len();
    loop
        invariant
            out@.len() + v@.len() == n,
            forall|i: int| 0 <= i < v@.len() ==> #[trigger] v@[i] == old(v)@[i],
            forall|i: int| 0 <= i < out@.len() ==> #[trigger] out@[i] == old(v)@[n - 1 - i],
        ensures
            v@.len() == 0,
        decreases v@.len(),
    {
        match v.pop() {
            Some(p) => {
                out.push(p);
            },
            None => {
                break ;
            },
        }
    }
    core::mem::swap(v, &mut out);
}

} // verus!
