//! Signed area and ring containment, in exact rational arithmetic.
//!
//! The signed area drives polygon/hole classification: positive means an
//! exterior boundary, non-positive a hole. Containment is an even/odd
//! ray-casting test over a ring's vertices; a vertex exactly on the boundary
//! counts as contained (the test is boundary-inclusive).

use crate::error::{new_error, Error, ErrorKind};
use crate::frac::{
    add_spec, lemma_q_cmp_congr, lemma_q_eq_trans, mul_spec, q_add, q_eq, q_le, q_lt, q_mul,
    q_sub, sub_spec, Frac,
};
use crate::isoringbuilder::{Pt, Ring};
use vstd::prelude::*;

verus! {

/// Both coordinates of a point are well-formed fractions.
pub open spec fn pt_wf(p: Pt) -> bool {
    p.x.wf() && p.y.wf()
}

/// Every point of the ring is well formed.
pub open spec fn ring_wf(ring: Seq<Pt>) -> bool {
    forall|j: int| 0 <= j < ring.len() ==> pt_wf(#[trigger] ring[j])
}

/// One shoelace term: `a.y * b.x - a.x * b.y`.
pub open spec fn cross_term(a: Pt, b: Pt) -> (int, int) {
    q_sub(q_mul(a.y@, b.x@), q_mul(a.x@, b.y@))
}

/// The shoelace sum after folding the wrap-around term and the first
/// `i - 1` consecutive edges, in evaluation order.
pub open spec fn area_fold(ring: Seq<Pt>, i: int) -> (int, int)
    decreases i,
{
    if i <= 1 {
        cross_term(ring.last(), ring[0])
    } else {
        q_add(area_fold(ring, i - 1), cross_term(ring[i - 2], ring[i - 1]))
    }
}

/// Twice the signed area of a ring, as an exact rational.
pub open spec fn area_spec(ring: Seq<Pt>) -> (int, int) {
    area_fold(ring, ring.len() as int)
}

/// One shoelace term as the reduced fraction the computation produces, or
/// `None` when a reduced intermediate does not fit the fixed-width fields.
pub open spec fn cross_exec(a: Pt, b: Pt) -> Option<Frac> {
    match mul_spec(a.y, b.x) {
        None => None,
        Some(m1) => match mul_spec(a.x, b.y) {
            None => None,
            Some(m2) => sub_spec(m1, m2),
        },
    }
}

/// The reduced shoelace accumulation after the wrap-around term and the
/// first `i - 1` consecutive edges, or `None` once any step overflows.
pub open spec fn area_fold_exec(ring: Seq<Pt>, i: int) -> Option<Frac>
    decreases i,
{
    if i <= 1 {
        cross_exec(ring.last(), ring[0])
    } else {
        match area_fold_exec(ring, i - 1) {
            None => None,
            Some(acc) => match cross_exec(ring[i - 2], ring[i - 1]) {
                None => None,
                Some(t) => add_spec(acc, t),
            },
        }
    }
}

/// The reduced doubled signed area as computed, or `None` on overflow.
pub open spec fn area_exec_spec(ring: Seq<Pt>) -> Option<Frac> {
    area_fold_exec(ring, ring.len() as int)
}

/// Once the accumulation overflows it stays failed.
proof fn lemma_area_fold_exec_sticky(ring: Seq<Pt>, i: int, n: int)
    requires
        1 <= i <= n,
        area_fold_exec(ring, i) is None,
    ensures
        area_fold_exec(ring, n) is None,
    decreases n - i,
{
    if i < n {
        lemma_area_fold_exec_sticky(ring, i + 1, n);
    }
}

/// The denominators of the shoelace folds are positive.
proof fn lemma_area_fold_den_pos(ring: Seq<Pt>, i: int)
    requires
        ring_wf(ring),
        ring.len() >= 1,
        i <= ring.len(),
    ensures
        area_fold(ring, i).1 > 0,
    decreases i,
{
    if i <= 1 {
        lemma_cross_den_pos(ring.last(), ring[0]);
    } else {
        lemma_area_fold_den_pos(ring, i - 1);
        lemma_cross_den_pos(ring[i - 2], ring[i - 1]);
        lemma_pos_mul(area_fold(ring, i - 1).1, cross_term(ring[i - 2], ring[i - 1]).1);
    }
}

/// The exact doubled area of a well-formed ring has a positive denominator.
pub proof fn lemma_area_spec_den_pos(ring: Seq<Pt>)
    requires
        ring_wf(ring),
        ring.len() >= 1,
    ensures
        area_spec(ring).1 > 0,
{
    lemma_area_fold_den_pos(ring, ring.len() as int);
}

/// A shoelace term has a positive denominator.
proof fn lemma_cross_den_pos(a: Pt, b: Pt)
    requires
        pt_wf(a),
        pt_wf(b),
    ensures
        cross_term(a, b).1 > 0,
{
    lemma_pos_mul(a.y@.1, b.x@.1);
    lemma_pos_mul(a.x@.1, b.y@.1);
    lemma_pos_mul(a.y@.1 * b.x@.1, a.x@.1 * b.y@.1);
}

/// The product of positives is positive.
proof fn lemma_pos_mul(a: int, b: int)
    requires
        a > 0,
        b > 0,
    ensures
        a * b > 0,
{
    vstd::arithmetic::mul::lemma_mul_strictly_positive(a, b);
}

/// Value equality is a congruence for the rational operations.
pub proof fn lemma_q_op_congr(a: (int, int), a2: (int, int), b: (int, int), b2: (int, int))
    requires
        a.1 > 0,
        a2.1 > 0,
        b.1 > 0,
        b2.1 > 0,
        q_eq(a, a2),
        q_eq(b, b2),
    ensures
        q_eq(q_add(a, b), q_add(a2, b2)),
        q_eq(q_sub(a, b), q_sub(a2, b2)),
        q_eq(q_mul(a, b), q_mul(a2, b2)),
{
    let (a0, a1) = a;
    let (b0, b1) = b;
    let (c0, c1) = a2;
    let (d0, d1) = b2;
    assert((a0 * b1) * (c1 * d1) == (c0 * d1) * (a1 * b1)) by (nonlinear_arith)
        requires
            a0 * c1 == c0 * a1,
    ;
    assert((b0 * a1) * (c1 * d1) == (d0 * c1) * (a1 * b1)) by (nonlinear_arith)
        requires
            b0 * d1 == d0 * b1,
    ;
    assert((a0 * b1 + b0 * a1) * (c1 * d1) == (a0 * b1) * (c1 * d1) + (b0 * a1) * (c1 * d1))
        by (nonlinear_arith);
    assert((c0 * d1 + d0 * c1) * (a1 * b1) == (c0 * d1) * (a1 * b1) + (d0 * c1) * (a1 * b1))
        by (nonlinear_arith);
    assert((a0 * b1 - b0 * a1) * (c1 * d1) == (a0 * b1) * (c1 * d1) - (b0 * a1) * (c1 * d1))
        by (nonlinear_arith);
    assert((c0 * d1 - d0 * c1) * (a1 * b1) == (c0 * d1) * (a1 * b1) - (d0 * c1) * (a1 * b1))
        by (nonlinear_arith);
    assert((a0 * b0) * (c1 * d1) == (a0 * c1) * (b0 * d1)) by (nonlinear_arith);
    assert((a0 * c1) * (b0 * d1) == (c0 * a1) * (d0 * b1)) by (nonlinear_arith)
        requires
            a0 * c1 == c0 * a1,
            b0 * d1 == d0 * b1,
    ;
    assert((c0 * a1) * (d0 * b1) == (c0 * d0) * (a1 * b1)) by (nonlinear_arith);
}

/// Computes one shoelace term exactly.
fn cross(a: &Pt, b: &Pt) -> (r: Result<Frac, Error>)
    requires
        pt_wf(*a),
        pt_wf(*b),
    ensures
        r is Ok <==> cross_exec(*a, *b) is Some,
        r matches Ok(v) ==> v == cross_exec(*a, *b).unwrap() && v.wf() && q_eq(
            v@,
            cross_term(*a, *b),
        ),
        r is Err ==> r.unwrap_err().kind == ErrorKind::BadCast,
{
    let m1 = match a.y.checked_mul(b.x) {
        Some(v) => v,
        None => {
            return Err(new_error(ErrorKind::BadCast));
        },
    };
    let m2 = match a.x.checked_mul(b.y) {
        Some(v) => v,
        None => {
            return Err(new_error(ErrorKind::BadCast));
        },
    };
    let d = match m1.checked_sub(m2) {
        Some(v) => v,
        None => {
            return Err(new_error(ErrorKind::BadCast));
        },
    };
    proof {
        lemma_pos_mul(a.y@.1, b.x@.1);
        lemma_pos_mul(a.x@.1, b.y@.1);
        lemma_q_op_congr(m1@, q_mul(a.y@, b.x@), m2@, q_mul(a.x@, b.y@));
        lemma_pos_mul(m1@.1, m2@.1);
        lemma_pos_mul(a.y@.1 * b.x@.1, a.x@.1 * b.y@.1);
        lemma_q_eq_trans(d@, q_sub(m1@, m2@), cross_term(*a, *b));
    }
    Ok(d)
}

/// Computes twice the signed area of `ring` exactly, by the shoelace
/// accumulation; fails with `BadCast` when an intermediate value cannot be
/// represented.
pub fn area(ring: &Ring) -> (r: Result<Frac, Error>)
    requires
        ring@.len() >= 1,
        ring_wf(ring@),
    ensures
        r is Ok <==> area_exec_spec(ring@) is Some,
        r matches Ok(a) ==> a == area_exec_spec(ring@).unwrap() && a.wf() && q_eq(
            a@,
            area_spec(ring@),
        ),
        r is Err ==> r.unwrap_err().kind == ErrorKind::BadCast,
{
    let n = ring.len();
    let mut acc = match cross(&ring[n - 1], &ring[0]) {
        Ok(v) => v,
        Err(e) => {
            proof {
                lemma_area_fold_exec_sticky(ring@, 1, n as int);
            }
            return Err(e);
        },
    };
    let mut i: usize = 1;
    while i < n
        invariant
            1 <= i <= n,
            n == ring@.len(),
            ring_wf(ring@),
            acc.wf(),
            q_eq(acc@, area_fold(ring@, i as int)),
            Some(acc) == area_fold_exec(ring@, i as int),
        decreases n - i,
    {
        let t = match cross(&ring[i - 1], &ring[i]) {
            Ok(v) => v,
            Err(e) => {
                proof {
                    assert(area_fold_exec(ring@, i as int + 1) is None);
                    lemma_area_fold_exec_sticky(ring@, i as int + 1, n as int);
                }
                return Err(e);
            },
        };
        let acc2 = match acc.checked_add(t) {
            Some(v) => v,
            None => {
                proof {
                    assert(area_fold_exec(ring@, i as int + 1) is None);
                    lemma_area_fold_exec_sticky(ring@, i as int + 1, n as int);
                }
                return Err(new_error(ErrorKind::BadCast));
            },
        };
        proof {
            let gi = i as int;
            lemma_area_fold_den_pos(ring@, gi);
            lemma_cross_den_pos(ring@[gi - 1], ring@[gi]);
            lemma_q_op_congr(
                acc@,
                area_fold(ring@, gi),
                t@,
                cross_term(ring@[gi - 1], ring@[gi]),
            );
            lemma_pos_mul(acc@.1, t@.1);
            lemma_pos_mul(area_fold(ring@, gi).1, cross_term(ring@[gi - 1], ring@[gi]).1);
            lemma_q_eq_trans(acc2@, q_add(acc@, t@), area_fold(ring@, gi + 1));
        }
        acc = acc2;
        i += 1;
    }
    Ok(acc)
}

/// `q` lies between `p` and `r` in value (either order).
pub open spec fn within(p: (int, int), q: (int, int), r: (int, int)) -> bool {
    (q_le(p, q) && q_le(q, r)) || (q_le(r, q) && q_le(q, p))
}

/// The three points lie on one line.
pub open spec fn collinear_spec(a: Pt, b: Pt, c: Pt) -> bool {
    q_eq(
        q_mul(q_sub(b.x@, a.x@), q_sub(c.y@, a.y@)),
        q_mul(q_sub(c.x@, a.x@), q_sub(b.y@, a.y@)),
    )
}

/// `c` lies on the closed segment from `a` to `b`.
pub open spec fn seg_contains_spec(a: Pt, b: Pt, c: Pt) -> bool {
    collinear_spec(a, b, c) && (if q_eq(a.x@, b.x@) {
        within(a.y@, c.y@, b.y@)
    } else {
        within(a.x@, c.x@, b.x@)
    })
}

/// A rightward ray from `p` crosses the open edge from `pi` to `pj`.
pub open spec fn crossing_spec(pi: Pt, pj: Pt, p: Pt) -> bool {
    let yi_gt = q_lt(p.y@, pi.y@);
    let yj_gt = q_lt(p.y@, pj.y@);
    let lhs = q_mul(q_sub(p.x@, pi.x@), q_sub(pj.y@, pi.y@));
    let rhs = q_mul(q_sub(pj.x@, pi.x@), q_sub(p.y@, pi.y@));
    (yi_gt != yj_gt) && (if yj_gt {
        q_lt(lhs, rhs)
    } else {
        q_lt(rhs, lhs)
    })
}

/// The even/odd verdict after scanning the first `i` edges: `0` when the
/// point was found on an edge, else `1` for an odd and `-1` for an even
/// number of ray crossings so far.
pub open spec fn ring_contains_fold(ring: Seq<Pt>, p: Pt, i: int) -> int
    decreases i,
{
    if i <= 0 {
        -1
    } else {
        let prevv = ring_contains_fold(ring, p, i - 1);
        let pi = ring[i - 1];
        let pj = if i - 1 == 0 {
            ring[ring.len() - 1]
        } else {
            ring[i - 2]
        };
        if prevv == 0 {
            0
        } else if seg_contains_spec(pi, pj, p) {
            0
        } else if crossing_spec(pi, pj, p) {
            -prevv
        } else {
            prevv
        }
    }
}

/// Where `p` lies relative to `ring`: `1` inside, `-1` outside, `0` on the
/// boundary.
pub open spec fn ring_contains_spec(ring: Seq<Pt>, p: Pt) -> int {
    ring_contains_fold(ring, p, ring.len() as int)
}

/// The verdict of the first vertex of `hole` not on `ring`'s boundary,
/// scanning the first `k` vertices; `0` when all seen so far are on the
/// boundary.
pub open spec fn contains_fold(ring: Seq<Pt>, hole: Seq<Pt>, k: int) -> int
    decreases k,
{
    if k <= 0 {
        0
    } else {
        let prevv = contains_fold(ring, hole, k - 1);
        if prevv != 0 {
            prevv
        } else {
            ring_contains_spec(ring, hole[k - 1])
        }
    }
}

/// Whether `ring` contains `hole`, by the first decisive vertex: `-1` is
/// the non-contained sentinel; any other value means contained (a vertex on
/// the boundary counts as contained).
pub open spec fn contains_spec(ring: Seq<Pt>, hole: Seq<Pt>) -> int {
    contains_fold(ring, hole, hole.len() as int)
}

/// A product of differences as the reduced fraction the computation
/// produces, or `None` when a reduced intermediate does not fit.
pub open spec fn dp_exec(a1: Frac, a2: Frac, b1: Frac, b2: Frac) -> Option<Frac> {
    match sub_spec(a1, a2) {
        None => None,
        Some(s1) => match sub_spec(b1, b2) {
            None => None,
            Some(s2) => mul_spec(s1, s2),
        },
    }
}

/// The segment test for one edge can be computed without overflow.
pub open spec fn seg_ok(a: Pt, b: Pt, c: Pt) -> bool {
    dp_exec(b.x, a.x, c.y, a.y) is Some && dp_exec(c.x, a.x, b.y, a.y) is Some
}

/// The crossing test for one edge can be computed without overflow (it
/// computes nothing when both endpoints lie on the same side).
pub open spec fn cross_ok(pi: Pt, pj: Pt, p: Pt) -> bool {
    (q_lt(p.y@, pi.y@) == q_lt(p.y@, pj.y@)) || (dp_exec(p.x, pi.x, pj.y, pi.y) is Some
        && dp_exec(pj.x, pi.x, p.y, pi.y) is Some)
}

/// The ray cast as computed: the verdict after the first `i` edges, or
/// `None` once an edge test overflows. Edges after a boundary hit are not
/// evaluated.
pub open spec fn rc_exec(ring: Seq<Pt>, p: Pt, i: int) -> Option<int>
    decreases i,
{
    if i <= 0 {
        Some(-1)
    } else {
        match rc_exec(ring, p, i - 1) {
            None => None,
            Some(prevv) => {
                let pi = ring[i - 1];
                let pj = if i - 1 == 0 {
                    ring[ring.len() - 1]
                } else {
                    ring[i - 2]
                };
                if prevv == 0 {
                    Some(0)
                } else if !seg_ok(pi, pj, p) {
                    None
                } else if seg_contains_spec(pi, pj, p) {
                    Some(0)
                } else if !cross_ok(pi, pj, p) {
                    None
                } else if crossing_spec(pi, pj, p) {
                    Some(-prevv)
                } else {
                    Some(prevv)
                }
            },
        }
    }
}

/// The containment test as computed: the verdict after the first `k`
/// vertices of the hole, or `None` once a ray cast overflows. Vertices
/// after a decisive one are not evaluated.
pub open spec fn cont_exec(ring: Seq<Pt>, hole: Seq<Pt>, k: int) -> Option<int>
    decreases k,
{
    if k <= 0 {
        Some(0)
    } else {
        match cont_exec(ring, hole, k - 1) {
            None => None,
            Some(prevv) => if prevv != 0 {
                Some(prevv)
            } else {
                rc_exec(ring, hole[k - 1], ring.len() as int)
            },
        }
    }
}

/// Once the computed ray cast fails or hits the boundary, it keeps that
/// outcome.
proof fn lemma_rc_exec_sticky(ring: Seq<Pt>, p: Pt, i: int, n: int)
    requires
        0 <= i <= n,
        rc_exec(ring, p, i) is None || rc_exec(ring, p, i) == Some(0int),
    ensures
        rc_exec(ring, p, n) == rc_exec(ring, p, i),
    decreases n - i,
{
    if i < n {
        lemma_rc_exec_sticky(ring, p, i + 1, n);
    }
}

/// Once the computed containment test fails or is decisive, it keeps that
/// outcome.
proof fn lemma_cont_exec_sticky(ring: Seq<Pt>, hole: Seq<Pt>, k: int, n: int)
    requires
        0 <= k <= n,
        cont_exec(ring, hole, k) is None || (cont_exec(ring, hole, k) is Some && cont_exec(
            ring,
            hole,
            k,
        ).unwrap() != 0),
    ensures
        cont_exec(ring, hole, n) == cont_exec(ring, hole, k),
    decreases n - k,
{
    if k < n {
        lemma_cont_exec_sticky(ring, hole, k + 1, n);
    }
}

/// Once the fold reaches `0` it stays `0`.
proof fn lemma_rc_fold_sticky(ring: Seq<Pt>, p: Pt, i: int, n: int)
    requires
        0 <= i <= n,
        ring_contains_fold(ring, p, i) == 0,
    ensures
        ring_contains_fold(ring, p, n) == 0,
    decreases n - i,
{
    if i < n {
        lemma_rc_fold_sticky(ring, p, i + 1, n);
    }
}

/// Once the fold is decisive it keeps its verdict.
proof fn lemma_contains_fold_sticky(ring: Seq<Pt>, hole: Seq<Pt>, k: int, n: int)
    requires
        0 <= k <= n,
        contains_fold(ring, hole, k) != 0,
    ensures
        contains_fold(ring, hole, n) == contains_fold(ring, hole, k),
    decreases n - k,
{
    if k < n {
        lemma_contains_fold_sticky(ring, hole, k + 1, n);
    }
}

/// The denominator of a product of differences is positive.
proof fn lemma_dp_den_pos(a1: Frac, a2: Frac, b1: Frac, b2: Frac)
    requires
        a1.wf(),
        a2.wf(),
        b1.wf(),
        b2.wf(),
    ensures
        q_mul(q_sub(a1@, a2@), q_sub(b1@, b2@)).1 > 0,
        q_sub(a1@, a2@).1 > 0,
        q_sub(b1@, b2@).1 > 0,
{
    lemma_pos_mul(a1@.1, a2@.1);
    lemma_pos_mul(b1@.1, b2@.1);
    lemma_pos_mul(a1@.1 * a2@.1, b1@.1 * b2@.1);
}

/// Computes `(a1 - a2) * (b1 - b2)` exactly.
fn diff_prod(a1: Frac, a2: Frac, b1: Frac, b2: Frac) -> (r: Result<Frac, Error>)
    requires
        a1.wf(),
        a2.wf(),
        b1.wf(),
        b2.wf(),
    ensures
        r is Ok <==> dp_exec(a1, a2, b1, b2) is Some,
        r matches Ok(v) ==> v == dp_exec(a1, a2, b1, b2).unwrap() && v.wf() && q_eq(
            v@,
            q_mul(q_sub(a1@, a2@), q_sub(b1@, b2@)),
        ),
        r is Err ==> r.unwrap_err().kind == ErrorKind::BadCast,
{
    let s1 = match a1.checked_sub(a2) {
        Some(v) => v,
        None => {
            return Err(new_error(ErrorKind::BadCast));
        },
    };
    let s2 = match b1.checked_sub(b2) {
        Some(v) => v,
        None => {
            return Err(new_error(ErrorKind::BadCast));
        },
    };
    let m = match s1.checked_mul(s2) {
        Some(v) => v,
        None => {
            return Err(new_error(ErrorKind::BadCast));
        },
    };
    proof {
        lemma_dp_den_pos(a1, a2, b1, b2);
        lemma_q_op_congr(s1@, q_sub(a1@, a2@), s2@, q_sub(b1@, b2@));
        lemma_pos_mul(s1@.1, s2@.1);
        lemma_q_eq_trans(m@, q_mul(s1@, s2@), q_mul(q_sub(a1@, a2@), q_sub(b1@, b2@)));
    }
    Ok(m)
}

/// Whether `c` lies on the closed segment from `a` to `b`.
fn segment_contains(a: &Pt, b: &Pt, c: &Pt) -> (r: Result<bool, Error>)
    requires
        pt_wf(*a),
        pt_wf(*b),
        pt_wf(*c),
    ensures
        r is Ok <==> seg_ok(*a, *b, *c),
        r matches Ok(v) ==> v == seg_contains_spec(*a, *b, *c),
        r is Err ==> r.unwrap_err().kind == ErrorKind::BadCast,
{
    let m1 = match diff_prod(b.x, a.x, c.y, a.y) {
        Ok(v) => v,
        Err(e) => {
            return Err(e);
        },
    };
    let m2 = match diff_prod(c.x, a.x, b.y, a.y) {
        Ok(v) => v,
        Err(e) => {
            return Err(e);
        },
    };
    proof {
        lemma_dp_den_pos(b.x, a.x, c.y, a.y);
        lemma_dp_den_pos(c.x, a.x, b.y, a.y);
        lemma_q_cmp_congr(
            m1@,
            q_mul(q_sub(b.x@, a.x@), q_sub(c.y@, a.y@)),
            m2@,
            q_mul(q_sub(c.x@, a.x@), q_sub(b.y@, a.y@)),
        );
    }
    if !m1.eq_val(m2) {
        return Ok(false);
    }
    if a.x.eq_val(b.x) {
        Ok((a.y.le(c.y) && c.y.le(b.y)) || (b.y.le(c.y) && c.y.le(a.y)))
    } else {
        Ok((a.x.le(c.x) && c.x.le(b.x)) || (b.x.le(c.x) && c.x.le(a.x)))
    }
}

/// Whether a rightward ray from `p` crosses the edge from `pi` to `pj`.
fn crossing(pi: &Pt, pj: &Pt, p: &Pt) -> (r: Result<bool, Error>)
    requires
        pt_wf(*pi),
        pt_wf(*pj),
        pt_wf(*p),
    ensures
        r is Ok <==> cross_ok(*pi, *pj, *p),
        r matches Ok(v) ==> v == crossing_spec(*pi, *pj, *p),
        r is Err ==> r.unwrap_err().kind == ErrorKind::BadCast,
{
    let yi_gt = p.y.lt(pi.y);
    let yj_gt = p.y.lt(pj.y);
    if yi_gt == yj_gt {
        return Ok(false);
    }
    let lhs = match diff_prod(p.x, pi.x, pj.y, pi.y) {
        Ok(v) => v,
        Err(e) => {
            return Err(e);
        },
    };
    let rhs = match diff_prod(pj.x, pi.x, p.y, pi.y) {
        Ok(v) => v,
        Err(e) => {
            return Err(e);
        },
    };
    proof {
        lemma_dp_den_pos(p.x, pi.x, pj.y, pi.y);
        lemma_dp_den_pos(pj.x, pi.x, p.y, pi.y);
        lemma_q_cmp_congr(
            lhs@,
            q_mul(q_sub(p.x@, pi.x@), q_sub(pj.y@, pi.y@)),
            rhs@,
            q_mul(q_sub(pj.x@, pi.x@), q_sub(p.y@, pi.y@)),
        );
    }
    if yj_gt {
        Ok(lhs.lt(rhs))
    } else {
        Ok(rhs.lt(lhs))
    }
}

/// Classifies `point` against `ring` by a boundary-inclusive even/odd
/// ray cast: `1` inside, `-1` outside, `0` on the boundary.
pub fn ring_contains(ring: &Ring, point: &Pt) -> (r: Result<i32, Error>)
    requires
        ring_wf(ring@),
        pt_wf(*point),
    ensures
        r is Ok <==> rc_exec(ring@, *point, ring@.len() as int) is Some,
        r matches Ok(c) ==> c as int == ring_contains_spec(ring@, *point) && c as int
            == rc_exec(ring@, *point, ring@.len() as int).unwrap(),
        r is Err ==> r.unwrap_err().kind == ErrorKind::BadCast,
{
    let n = ring.len();
    let mut c: i32 = -1;
    let mut i: usize = 0;
    while i < n
        invariant
            i <= n,
            n == ring@.len(),
            ring_wf(ring@),
            pt_wf(*point),
            c as int == ring_contains_fold(ring@, *point, i as int),
            Some(c as int) == rc_exec(ring@, *point, i as int),
            c == -1 || c == 1,
        decreases n - i,
    {
        let j = if i == 0 {
            n - 1
        } else {
            i - 1
        };
        let on_seg = match segment_contains(&ring[i], &ring[j], point) {
            Ok(v) => v,
            Err(e) => {
                proof {
                    assert(rc_exec(ring@, *point, i as int + 1) is None);
                    lemma_rc_exec_sticky(ring@, *point, i as int + 1, n as int);
                }
                return Err(e);
            },
        };
        if on_seg {
            proof {
                lemma_rc_fold_sticky(ring@, *point, i as int + 1, n as int);
                assert(rc_exec(ring@, *point, i as int + 1) == Some(0int));
                lemma_rc_exec_sticky(ring@, *point, i as int + 1, n as int);
            }
            return Ok(0);
        }
        let cr = match crossing(&ring[i], &ring[j], point) {
            Ok(v) => v,
            Err(e) => {
                proof {
                    assert(rc_exec(ring@, *point, i as int + 1) is None);
                    lemma_rc_exec_sticky(ring@, *point, i as int + 1, n as int);
                }
                return Err(e);
            },
        };
        if cr {
            c = -c;
        }
        i += 1;
    }
    Ok(c)
}

/// Whether `ring` contains `hole`: the verdict of the first vertex of
/// `hole` that is strictly inside or outside; `-1` means not contained,
/// anything else contained.
pub fn contains(ring: &Ring, hole: &Ring) -> (r: Result<i32, Error>)
    requires
        ring_wf(ring@),
        ring_wf(hole@),
    ensures
        r is Ok <==> cont_exec(ring@, hole@, hole@.len() as int) is Some,
        r matches Ok(c) ==> c as int == contains_spec(ring@, hole@) && c as int == cont_exec(
            ring@,
            hole@,
            hole@.len() as int,
        ).unwrap(),
        r is Err ==> r.unwrap_err().kind == ErrorKind::BadCast,
{
    let n = hole.len();
    let mut i: usize = 0;
    while i < n
        invariant
            i <= n,
            n == hole@.len(),
            ring_wf(ring@),
            ring_wf(hole@),
            contains_fold(ring@, hole@, i as int) == 0,
            cont_exec(ring@, hole@, i as int) == Some(0int),
        decreases n - i,
    {
        let c = match ring_contains(ring, &hole[i]) {
            Ok(v) => v,
            Err(e) => {
                proof {
                    assert(cont_exec(ring@, hole@, i as int + 1) is None);
                    lemma_cont_exec_sticky(ring@, hole@, i as int + 1, n as int);
                }
                return Err(e);
            },
        };
        if c != 0 {
            proof {
                lemma_contains_fold_sticky(ring@, hole@, i as int + 1, n as int);
                assert(cont_exec(ring@, hole@, i as int + 1) == Some(c as int));
                lemma_cont_exec_sticky(ring@, hole@, i as int + 1, n as int);
            }
            return Ok(c);
        }
        i += 1;
    }
    Ok(0)
}

} // verus!
