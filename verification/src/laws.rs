//! Guarantees of the integrator, stated over the tick's spec functions.
//!
//! Distances are compared without square roots: a claim "distance at most
//! `b / SCALE`" is stated as `SCALE^2` times the squared norm staying within
//! `b^2`.

use crate::fixed::{
    lemma_abs_mul_le, lemma_div_at_least_one, lemma_mul_div_bound_by_den, lemma_mul_div_cancel,
    lemma_mul_div_delta_bound, lemma_mul_div_of_zero_num, lemma_rescale_norm_bound_scaled,
    lemma_sqrt_ceil_bounds, lemma_sqrt_floor_bounds, lemma_sqrt_of_square, mul_div_toward_zero,
    norm2, sqrt_ceil, sqrt_floor, COEFF_LIMIT, DISP_LIMIT, POS_LIMIT, SCALE,
};
use crate::graph::{Displacement, Edge, Position};
use crate::params::Parameters;
use crate::sim::{
    apply_attraction_edge, apply_repulsion_pair, attraction_pass, attraction_step, center_apply,
    center_pass, center_step, contain_of, integrate_of, repulsion_pass, repulsion_row,
    repulsion_step, sat_add, step_of, tick_disps, zero_disps,
};
use vstd::arithmetic::div_mod::{
    lemma_div_is_ordered, lemma_div_multiples_vanish, lemma_fundamental_div_mod,
    lemma_mod_division_less_than_divisor, lemma_multiply_divide_lt,
};
use vstd::math::abs;
use vstd::prelude::*;

verus! {

/// Containment: wherever a tick's integration lands a node, its distance
/// from the origin is at most `max_diameter / 2`. Stated squared: the new
/// position `r` satisfies `4 * SCALE^2 * |r|^2 <= max_diameter^2`, whatever
/// the node's displacement was.
pub proof fn lemma_containment(p: Position, d: Displacement, max_step: int, max_diameter: int)
    requires
        0 <= max_diameter,
    ensures
        4 * (SCALE as int) * (SCALE as int) * norm2(
            integrate_of(p, d, max_step, max_diameter).0,
            integrate_of(p, d, max_step, max_diameter).1,
        ) <= max_diameter * max_diameter,
{
    let s = step_of(d, max_step);
    let x = p.x as int + s.0;
    let y = p.y as int + s.1;
    lemma_contain_of_bounded(x, y, max_diameter);
}

/// The containment clamp alone: whatever position it is given, the result
/// lies inside the layout circle.
pub proof fn lemma_contain_of_bounded(x: int, y: int, max_diameter: int)
    requires
        0 <= max_diameter,
    ensures
        4 * (SCALE as int) * (SCALE as int) * norm2(
            contain_of(x, y, max_diameter).0,
            contain_of(x, y, max_diameter).1,
        ) <= max_diameter * max_diameter,
{
    let n2 = norm2(x, y);
    assert(x * x >= 0 && y * y >= 0) by (nonlinear_arith);
    if 4 * (SCALE as int) * (SCALE as int) * n2 <= max_diameter * max_diameter {
    } else {
        assert(n2 >= 1) by (nonlinear_arith)
            requires
                !(4 * (SCALE as int) * (SCALE as int) * n2 <= max_diameter * max_diameter),
                SCALE == 1_000_000u64,
                n2 >= 0,
                max_diameter >= 0,
        ;
        lemma_sqrt_ceil_bounds(n2);
        let c = sqrt_ceil(n2);
        lemma_rescale_norm_bound_scaled(x, y, max_diameter, 2 * (SCALE as int), c);
        let rx = contain_of(x, y, max_diameter).0;
        let ry = contain_of(x, y, max_diameter).1;
        assert((2 * (SCALE as int)) * (2 * (SCALE as int)) * norm2(rx, ry) == 4 * (SCALE as int)
            * (SCALE as int) * norm2(rx, ry)) by (nonlinear_arith);
    }
}

/// Step bound: the move integration applies to a node, before containment,
/// never exceeds `max_step` in magnitude. Stated squared: the step `s`
/// satisfies `SCALE^2 * |s|^2 <= max_step^2`.
pub proof fn lemma_step_bound(d: Displacement, max_step: int)
    requires
        0 <= max_step,
    ensures
        (SCALE as int) * (SCALE as int) * norm2(step_of(d, max_step).0, step_of(d, max_step).1)
            <= max_step * max_step,
{
    let d2 = norm2(d.x as int, d.y as int);
    assert((d.x as int) * (d.x as int) >= 0 && (d.y as int) * (d.y as int) >= 0)
        by (nonlinear_arith);
    if (SCALE as int) * (SCALE as int) * d2 <= max_step * max_step {
    } else {
        assert(d2 >= 1) by (nonlinear_arith)
            requires
                !((SCALE as int) * (SCALE as int) * d2 <= max_step * max_step),
                SCALE == 1_000_000u64,
                d2 >= 0,
                max_step >= 0,
        ;
        lemma_sqrt_ceil_bounds(d2);
        lemma_rescale_norm_bound_scaled(
            d.x as int,
            d.y as int,
            max_step,
            SCALE as int,
            sqrt_ceil(d2),
        );
    }
}

/// Zero-force idempotence: a node whose accumulator is zero and which
/// already lies inside the layout circle does not move when integrated.
pub proof fn lemma_zero_force_fixed(p: Position, d: Displacement, max_step: int, max_diameter: int)
    requires
        d == (Displacement { x: 0i128, y: 0i128 }),
        0 <= max_step,
        4 * (SCALE as int) * (SCALE as int) * norm2(p.x as int, p.y as int) <= max_diameter
            * max_diameter,
    ensures
        integrate_of(p, d, max_step, max_diameter) == (p.x as int, p.y as int),
{
    assert((SCALE as int) * (SCALE as int) * norm2(0, 0) <= max_step * max_step)
        by (nonlinear_arith)
        requires
            max_step >= 0,
    ;
    assert(step_of(d, max_step) == (0int, 0int));
}

/// The two-node state the pair laws speak of: nodes `a` and `b` on one
/// horizontal line.
pub open spec fn pair_positions(xa: i64, xb: i64, y: i64) -> Seq<Position> {
    seq![Position { x: xa, y: y }, Position { x: xb, y: y }]
}

/// A single directed edge from node `a` to node `b`.
pub open spec fn single_edge() -> Seq<Edge> {
    seq![Edge { from: 0usize, to: 1usize }]
}

/// Where one tick of the full pipeline puts the two nodes of a pair state.
pub open spec fn pair_after_tick(
    xa: i64,
    xb: i64,
    y: i64,
    edges: Seq<Edge>,
    params: Parameters,
) -> ((int, int), (int, int)) {
    let pos = pair_positions(xa, xb, y);
    let ds = tick_disps(pos, edges, params);
    (
        integrate_of(pos[0], ds[0], params.max_step as int, params.max_diameter as int),
        integrate_of(pos[1], ds[1], params.max_step as int, params.max_diameter as int),
    )
}

/// A horizontal displacement is integrated into a horizontal move of
/// between one unit and the displacement's own magnitude, capped by the
/// per-tick step bound.
proof fn lemma_step_horizontal(d: Displacement, ms: int) -> (m: int)
    requires
        d.y as int == 0,
        d.x as int != 0,
        SCALE as int <= ms,
    ensures
        1 <= m <= abs(d.x as int),
        m <= ms / (SCALE as int),
        step_of(d, ms) == (if d.x as int > 0 { m } else { -m }, 0int),
{
    let dx = d.x as int;
    let a = abs(dx) as int;
    let s = SCALE as int;
    assert(dx * dx == a * a) by (nonlinear_arith)
        requires
            a == if dx >= 0 { dx } else { -dx },
    ;
    assert(0int * 0int == 0int) by (nonlinear_arith);
    let d2 = norm2(dx, 0);
    assert(d2 == a * a);
    if s * s * d2 <= ms * ms {
        assert(a * a >= 0) by (nonlinear_arith);
        assert(s * a <= ms) by (nonlinear_arith)
            requires
                s * s * (a * a) <= ms * ms,
                s >= 1,
                a >= 0,
                ms >= 0,
        ;
        lemma_div_multiples_vanish(a, s);
        lemma_div_is_ordered(s * a, ms, s);
        assert(step_of(d, ms) == (dx, 0int));
        a
    } else {
        lemma_sqrt_of_square(a);
        assert(sqrt_ceil(d2) == a);
        let u = ms / s;
        lemma_div_at_least_one(ms, s);
        lemma_mul_div_cancel(a, ms, s);
        assert(s * a >= 1) by (nonlinear_arith)
            requires
                s >= 1,
                a >= 1,
        ;
        lemma_mul_div_of_zero_num(ms, s * a);
        assert(mul_div_toward_zero(dx, ms, s * a) == (if dx > 0 { u } else { -u })) by {
            if dx > 0 {
                assert((dx * ms) / (s * a) == (a * ms) / (s * a));
            } else {
                assert(((-dx) * ms) / (s * a) == (a * ms) / (s * a));
            }
        }
        lemma_fundamental_div_mod(ms, s);
        lemma_mod_division_less_than_divisor(ms, s);
        assert(s * a > ms) by (nonlinear_arith)
            requires
                !(s * s * (a * a) <= ms * ms),
                s >= 1,
                a >= 1,
                ms >= 0,
        ;
        assert(u < a) by (nonlinear_arith)
            requires
                ms == s * u + ms % s,
                ms % s >= 0,
                s * a > ms,
                s >= 1,
        ;
        u
    }
}


/// With repulsion and centering off, a tick's three force passes over the
/// pair state with its one edge leave exactly the attraction contribution
/// in the two accumulators, equal and opposite.
proof fn lemma_pair_disps_attraction(xa: i64, xb: i64, y: i64, params: Parameters)
    requires
        params.wf(),
        params.repulsion == 0,
        params.center == 0,
        -POS_LIMIT <= xa <= POS_LIMIT,
        -POS_LIMIT <= xb <= POS_LIMIT,
        -POS_LIMIT <= y <= POS_LIMIT,
        xa != xb,
    ensures
        ({
            let sx = mul_div_toward_zero(
                xa as int - xb as int,
                params.attraction as int,
                params.k as int,
            );
            tick_disps(pair_positions(xa, xb, y), single_edge(), params) == seq![
                Displacement { x: (-sx) as i128, y: 0i128 },
                Displacement { x: sx as i128, y: 0i128 },
            ]
        }),
{
    let pos = pair_positions(xa, xb, y);
    let edges = single_edge();
    let attr = params.attraction as int;
    let k = params.k as int;
    let sx = mul_div_toward_zero(xa as int - xb as int, attr, k);
    lemma_mul_div_delta_bound(
        xa as int - xb as int,
        2 * POS_LIMIT as int,
        attr,
        COEFF_LIMIT as int,
        k,
    );
    let z = zero_disps(2);
    assert(pos.len() == 2 && edges.len() == 1);
    assert(z.len() == 2 && z[0] == (Displacement { x: 0i128, y: 0i128 }) && z[1] == (Displacement {
        x: 0i128,
        y: 0i128,
    }));
    // The attraction pass folds the one edge.
    assert(attraction_pass(pos, z, edges, attr, k, 0) == z);
    let a1 = attraction_pass(pos, z, edges, attr, k, 1);
    assert(a1 == apply_attraction_edge(pos, z, edges[0], attr, k));
    lemma_mul_div_of_zero_num(attr, k);
    assert(attraction_step(pos, edges[0], attr, k) == (sx, 0int));
    let da = seq![
        Displacement { x: (-sx) as i128, y: 0i128 },
        Displacement { x: sx as i128, y: 0i128 },
    ];
    assert(a1 =~= da);
    // The repulsion pass has a zero coefficient: every contribution is zero.
    let dxr = xb as int - xa as int;
    assert(dxr * dxr >= 1) by (nonlinear_arith)
        requires
            dxr != 0,
    ;
    assert(0int * 0int == 0int) by (nonlinear_arith);
    let d2r = norm2(dxr, 0);
    lemma_sqrt_floor_bounds(d2r);
    let dist = sqrt_floor(d2r);
    assert(dist >= 1) by (nonlinear_arith)
        requires
            d2r >= 1,
            dist >= 0,
            d2r < (dist + 1) * (dist + 1),
    ;
    let denr = (SCALE as int) * (SCALE as int) * (SCALE as int) * (dist * dist);
    assert(denr >= 1) by (nonlinear_arith)
        requires
            dist >= 1,
            denr == 1_000_000_000_000_000_000 * (dist * dist),
    ;
    assert((params.repulsion as int) * k * k == 0) by (nonlinear_arith)
        requires
            params.repulsion == 0u64,
    ;
    lemma_mul_div_of_zero_num(dxr, denr);
    assert(repulsion_step(pos, 0, 1, 0, k) == (0int, 0int));
    assert(sat_add(da[0], 0, 0) == da[0] && sat_add(da[1], 0, 0) == da[1]);
    assert(apply_repulsion_pair(pos, da, 0, 1, 0, k) =~= da);
    assert(repulsion_row(pos, da, 0, 1, 0, k) == da);
    assert(repulsion_pass(pos, da, 0, 0, k) == da);
    assert(repulsion_row(pos, repulsion_pass(pos, da, 0, 0, k), 0, 2, 0, k) =~= da);
    assert(repulsion_pass(pos, da, 1, 0, k) =~= da);
    assert(repulsion_row(pos, repulsion_pass(pos, da, 1, 0, k), 1, 2, 0, k) =~= da);
    assert(repulsion_pass(pos, da, 2, 0, k) =~= da);
    // The centering pass has a zero coefficient: every contribution is zero.
    lemma_center_zero(pos[0], da[0]);
    lemma_center_zero(pos[1], da[1]);
    assert(center_pass(pos, da, 0) =~= da);
    assert(tick_disps(pos, edges, params) =~= da);
}

/// With a zero centering coefficient, the centering pass leaves an
/// in-bounds accumulator unchanged.
proof fn lemma_center_zero(p: Position, d: Displacement)
    requires
        -DISP_LIMIT <= d.x <= DISP_LIMIT,
        -DISP_LIMIT <= d.y <= DISP_LIMIT,
    ensures
        center_apply(d, p, 0) == d,
{
    let n2 = norm2(p.x as int, p.y as int);
    assert((p.x as int) * (p.x as int) >= 0 && (p.y as int) * (p.y as int) >= 0)
        by (nonlinear_arith);
    lemma_sqrt_floor_bounds(n2);
    let dist = sqrt_floor(n2);
    assert(0int * dist == 0) by (nonlinear_arith);
    lemma_mul_div_of_zero_num(p.x as int, SCALE as int);
    lemma_mul_div_of_zero_num(p.y as int, SCALE as int);
    assert(center_step(p, 0) == (0int, 0int));
    assert(sat_add(d, 0, 0) == d);
}

/// With attraction idle (no edges) and centering off, a tick's force passes
/// over the unconnected pair state leave exactly the repulsion
/// contribution in the two accumulators, equal and opposite.
proof fn lemma_pair_disps_repulsion(xa: i64, xb: i64, y: i64, params: Parameters)
    requires
        params.wf(),
        params.center == 0,
        -POS_LIMIT <= xa <= POS_LIMIT,
        -POS_LIMIT <= xb <= POS_LIMIT,
        -POS_LIMIT <= y <= POS_LIMIT,
        xa != xb,
    ensures
        ({
            let dxr = xb as int - xa as int;
            let dist = sqrt_floor(norm2(dxr, 0));
            let den = (SCALE as int) * (SCALE as int) * (SCALE as int) * (dist * dist);
            let sr = mul_div_toward_zero(
                dxr,
                (params.repulsion as int) * (params.k as int) * (params.k as int),
                den,
            );
            tick_disps(pair_positions(xa, xb, y), Seq::<Edge>::empty(), params) == seq![
                Displacement { x: (-sr) as i128, y: 0i128 },
                Displacement { x: sr as i128, y: 0i128 },
            ]
        }),
{
    let pos = pair_positions(xa, xb, y);
    let edges = Seq::<Edge>::empty();
    let rep = params.repulsion as int;
    let k = params.k as int;
    let num = rep * k * k;
    let z = zero_disps(2);
    assert(pos.len() == 2 && edges.len() == 0);
    assert(z.len() == 2 && z[0] == (Displacement { x: 0i128, y: 0i128 }) && z[1] == (Displacement {
        x: 0i128,
        y: 0i128,
    }));
    assert(attraction_pass(pos, z, edges, params.attraction as int, k, 0) == z);
    // The repulsion pass folds the one pair.
    let dxr = xb as int - xa as int;
    assert(dxr * dxr >= 1) by (nonlinear_arith)
        requires
            dxr != 0,
    ;
    assert(0int * 0int == 0int) by (nonlinear_arith);
    let d2r = norm2(dxr, 0);
    lemma_sqrt_floor_bounds(d2r);
    let dist = sqrt_floor(d2r);
    assert(dist >= 1) by (nonlinear_arith)
        requires
            d2r >= 1,
            dist >= 0,
            d2r < (dist + 1) * (dist + 1),
    ;
    let den = (SCALE as int) * (SCALE as int) * (SCALE as int) * (dist * dist);
    assert(den >= 1_000_000_000_000_000_000) by (nonlinear_arith)
        requires
            dist >= 1,
            den == 1_000_000_000_000_000_000 * (dist * dist),
    ;
    lemma_abs_mul_le(rep, COEFF_LIMIT as int, k, COEFF_LIMIT as int);
    lemma_abs_mul_le(rep * k, 1_000_000_000_000_000_000, k, COEFF_LIMIT as int);
    lemma_mul_div_bound_by_den(
        dxr,
        2 * POS_LIMIT as int,
        num,
        1_000_000_000_000_000_000_000_000_000,
        den,
        1_000_000_000_000_000_000,
    );
    let sr = mul_div_toward_zero(dxr, num, den);
    lemma_mul_div_of_zero_num(num, den);
    assert(repulsion_step(pos, 0, 1, rep, k) == (sr, 0int));
    let dr = seq![
        Displacement { x: (-sr) as i128, y: 0i128 },
        Displacement { x: sr as i128, y: 0i128 },
    ];
    assert(apply_repulsion_pair(pos, z, 0, 1, rep, k) =~= dr);
    assert(repulsion_row(pos, z, 0, 1, rep, k) == z);
    assert(repulsion_pass(pos, z, 0, rep, k) == z);
    assert(repulsion_row(pos, repulsion_pass(pos, z, 0, rep, k), 0, 2, rep, k) =~= dr);
    assert(repulsion_pass(pos, z, 1, rep, k) =~= dr);
    assert(repulsion_row(pos, repulsion_pass(pos, z, 1, rep, k), 1, 2, rep, k) =~= dr);
    assert(repulsion_pass(pos, z, 2, rep, k) =~= dr);
    lemma_center_zero(pos[0], dr[0]);
    lemma_center_zero(pos[1], dr[1]);
    assert(center_pass(pos, dr, 0) =~= dr);
    assert(tick_disps(pos, edges, params) =~= dr);
}


/// A position on the horizontal line `y` that lies strictly between two
/// in-circle positions on that line is itself in the circle, so the
/// containment clamp leaves it alone.
proof fn lemma_contain_between(px: i64, qx: i64, y: i64, nx: int, diam: int)
    requires
        (qx as int) < nx < (px as int) || (px as int) < nx < (qx as int),
        4 * (SCALE as int) * (SCALE as int) * norm2(px as int, y as int) <= diam * diam,
        4 * (SCALE as int) * (SCALE as int) * norm2(qx as int, y as int) <= diam * diam,
    ensures
        contain_of(nx, y as int, diam) == (nx, y as int),
{
    let yy = (y as int) * (y as int);
    assert(nx * nx <= (px as int) * (px as int) || nx * nx <= (qx as int) * (qx as int))
        by (nonlinear_arith)
        requires
            (qx as int) < nx < (px as int) || (px as int) < nx < (qx as int),
    ;
    if nx * nx <= (px as int) * (px as int) {
        assert(4 * (SCALE as int) * (SCALE as int) * (nx * nx + yy) <= 4 * (SCALE as int) * (
        SCALE as int) * ((px as int) * (px as int) + yy)) by (nonlinear_arith)
            requires
                nx * nx <= (px as int) * (px as int),
        ;
    } else {
        assert(4 * (SCALE as int) * (SCALE as int) * (nx * nx + yy) <= 4 * (SCALE as int) * (
        SCALE as int) * ((qx as int) * (qx as int) + yy)) by (nonlinear_arith)
            requires
                nx * nx <= (qx as int) * (qx as int),
        ;
    }
}

/// Attraction-only convergence, on one horizontal line: with repulsion and
/// centering off, an attraction coefficient below `k` (no overshoot), a
/// maximum step of at least one whole coordinate unit, both nodes inside
/// the layout circle, and the separation still wide enough that the
/// truncated pull moves the nodes (`attraction * separation >= k`), one
/// tick keeps both nodes on their line and strictly decreases their
/// separation. Once the separation falls below `k / attraction`, the pull
/// truncates to zero and the pair has converged.
pub proof fn lemma_attraction_tick_shrinks(xa: i64, xb: i64, y: i64, params: Parameters)
    requires
        params.wf(),
        params.repulsion == 0,
        params.center == 0,
        (params.attraction as int) < params.k as int,
        SCALE as int <= params.max_step as int,
        -POS_LIMIT <= xa <= POS_LIMIT,
        -POS_LIMIT <= xb <= POS_LIMIT,
        -POS_LIMIT <= y <= POS_LIMIT,
        (params.attraction as int) * abs(xa as int - xb as int) >= params.k as int,
        4 * (SCALE as int) * (SCALE as int) * norm2(xa as int, y as int) <= (
        params.max_diameter as int) * (params.max_diameter as int),
        4 * (SCALE as int) * (SCALE as int) * norm2(xb as int, y as int) <= (
        params.max_diameter as int) * (params.max_diameter as int),
    ensures
        pair_after_tick(xa, xb, y, single_edge(), params).0.1 == y as int,
        pair_after_tick(xa, xb, y, single_edge(), params).1.1 == y as int,
        abs(
            pair_after_tick(xa, xb, y, single_edge(), params).0.0 - pair_after_tick(
                xa,
                xb,
                y,
                single_edge(),
                params,
            ).1.0,
        ) < abs(xa as int - xb as int),
{
    let attr = params.attraction as int;
    let k = params.k as int;
    let ms = params.max_step as int;
    let diam = params.max_diameter as int;
    let dd = xa as int - xb as int;
    let a = abs(dd) as int;
    assert(a >= 1) by (nonlinear_arith)
        requires
            attr * a >= k,
            k >= 1,
            attr >= 0,
            a >= 0,
    ;
    assert(xa != xb);
    lemma_pair_disps_attraction(xa, xb, y, params);
    let pos = pair_positions(xa, xb, y);
    let ds = tick_disps(pos, single_edge(), params);
    let sx = mul_div_toward_zero(dd, attr, k);
    assert(ds[0] == (Displacement { x: (-sx) as i128, y: 0i128 }) && ds[1] == (Displacement {
        x: sx as i128,
        y: 0i128,
    }));
    let t = (a * attr) / k;
    assert(sx == (if dd > 0 { t } else { -t }));
    assert(a * attr >= k) by (nonlinear_arith)
        requires
            attr * a >= k,
    ;
    lemma_div_at_least_one(a * attr, k);
    assert(a * attr < k * a) by (nonlinear_arith)
        requires
            attr < k,
            a >= 1,
    ;
    lemma_multiply_divide_lt(a * attr, k, a);
    assert(1 <= t <= a - 1);
    assert(a <= 2 * POS_LIMIT as int);
    let m0 = lemma_step_horizontal(ds[0], ms);
    let m1 = lemma_step_horizontal(ds[1], ms);
    assert(abs(ds[0].x as int) == t && abs(ds[1].x as int) == t);
    if dd > 0 {
        // node a sits to the right: it steps left, node b steps right
        assert(step_of(ds[0], ms) == (-m0, 0int));
        assert(step_of(ds[1], ms) == (m1, 0int));
        let x0 = xa as int - m0;
        let x1 = xb as int + m1;
        assert((xb as int) < x0 < (xa as int));
        assert((xb as int) < x1 < (xa as int));
        lemma_contain_between(xa, xb, y, x0, diam);
        lemma_contain_between(xa, xb, y, x1, diam);
        assert(integrate_of(pos[0], ds[0], ms, diam) == (x0, y as int));
        assert(integrate_of(pos[1], ds[1], ms, diam) == (x1, y as int));
        assert(abs(x0 - x1) < a);
    } else {
        // node a sits to the left: it steps right, node b steps left
        assert(step_of(ds[0], ms) == (m0, 0int));
        assert(step_of(ds[1], ms) == (-m1, 0int));
        let x0 = xa as int + m0;
        let x1 = xb as int - m1;
        assert((xa as int) < x0 < (xb as int));
        assert((xa as int) < x1 < (xb as int));
        lemma_contain_between(xb, xa, y, x0, diam);
        lemma_contain_between(xb, xa, y, x1, diam);
        assert(integrate_of(pos[0], ds[0], ms, diam) == (x0, y as int));
        assert(integrate_of(pos[1], ds[1], ms, diam) == (x1, y as int));
        assert(abs(x0 - x1) < a);
    }
}


/// A position on the line `y` whose horizontal distance from the origin
/// grew by at most `margin` over an in-circle-with-margin position is
/// still inside the circle, so the containment clamp leaves it alone.
proof fn lemma_contain_within_margin(px: i64, y: i64, nx: int, margin: int, diam: int)
    requires
        margin >= 0,
        abs(nx) <= abs(px as int) + margin,
        inside_circle_with_margin(px as int, y as int, margin, diam),
    ensures
        contain_of(nx, y as int, diam) == (nx, y as int),
{
    let yy = (y as int) * (y as int);
    let reach = abs(px as int) + margin;
    assert(nx * nx <= reach * reach) by (nonlinear_arith)
        requires
            abs(nx) <= reach,
            abs(nx) == if nx >= 0 { nx } else { -nx },
    ;
    assert(4 * (SCALE as int) * (SCALE as int) * (nx * nx + yy) <= 4 * (SCALE as int) * (
    SCALE as int) * (reach * reach + yy)) by (nonlinear_arith)
        requires
            nx * nx <= reach * reach,
    ;
}

/// A position and a spare horizontal distance that together still fit in
/// the layout circle of diameter `diam`.
pub open spec fn inside_circle_with_margin(x: int, y: int, margin: int, diam: int) -> bool {
    4 * (SCALE as int) * (SCALE as int) * ((abs(x) + margin) * (abs(x) + margin) + y * y) <= diam
        * diam
}

/// Repulsion-only divergence, on one horizontal line: with centering off
/// and no edges, a maximum step of at least one whole coordinate unit,
/// both nodes far enough inside the layout circle that a full step stays
/// inside it, and a separation still small enough that the truncated push
/// moves the nodes (`repulsion * k^2 >= SCALE^3 * separation`), one tick
/// keeps both nodes on their line and strictly increases their
/// separation.
pub proof fn lemma_repulsion_tick_grows(xa: i64, xb: i64, y: i64, params: Parameters)
    requires
        params.wf(),
        params.center == 0,
        SCALE as int <= params.max_step as int,
        -POS_LIMIT <= xa <= POS_LIMIT,
        -POS_LIMIT <= xb <= POS_LIMIT,
        -POS_LIMIT <= y <= POS_LIMIT,
        xa != xb,
        (params.repulsion as int) * (params.k as int) * (params.k as int) >= (SCALE as int) * (
        SCALE as int) * (SCALE as int) * abs(xa as int - xb as int),
        inside_circle_with_margin(
            xa as int,
            y as int,
            (params.max_step as int) / (SCALE as int),
            params.max_diameter as int,
        ),
        inside_circle_with_margin(
            xb as int,
            y as int,
            (params.max_step as int) / (SCALE as int),
            params.max_diameter as int,
        ),
    ensures
        pair_after_tick(xa, xb, y, Seq::<Edge>::empty(), params).0.1 == y as int,
        pair_after_tick(xa, xb, y, Seq::<Edge>::empty(), params).1.1 == y as int,
        abs(
            pair_after_tick(xa, xb, y, Seq::<Edge>::empty(), params).0.0 - pair_after_tick(
                xa,
                xb,
                y,
                Seq::<Edge>::empty(),
                params,
            ).1.0,
        ) > abs(xa as int - xb as int),
{
    let rep = params.repulsion as int;
    let k = params.k as int;
    let ms = params.max_step as int;
    let diam = params.max_diameter as int;
    let num = rep * k * k;
    let dd = xa as int - xb as int;
    let a = abs(dd) as int;
    let u = ms / (SCALE as int);
    lemma_div_at_least_one(ms, SCALE as int);
    lemma_pair_disps_repulsion(xa, xb, y, params);
    let pos = pair_positions(xa, xb, y);
    let ds = tick_disps(pos, Seq::<Edge>::empty(), params);
    let dxr = xb as int - xa as int;
    assert(dxr * dxr == a * a && 0int * 0int == 0int) by (nonlinear_arith)
        requires
            a == if dxr >= 0 { dxr } else { -dxr },
    ;
    lemma_sqrt_of_square(a);
    let dist = sqrt_floor(norm2(dxr, 0));
    assert(dist == a);
    let den = (SCALE as int) * (SCALE as int) * (SCALE as int) * (dist * dist);
    let sr = mul_div_toward_zero(dxr, num, den);
    assert(ds[0] == (Displacement { x: (-sr) as i128, y: 0i128 }) && ds[1] == (Displacement {
        x: sr as i128,
        y: 0i128,
    }));
    let tr = (a * num) / den;
    assert(sr == (if dxr > 0 { tr } else { -tr }));
    assert(a * num >= den) by (nonlinear_arith)
        requires
            num >= (SCALE as int) * (SCALE as int) * (SCALE as int) * a,
            den == (SCALE as int) * (SCALE as int) * (SCALE as int) * (a * a),
            a >= 1,
    ;
    assert(den >= 1) by (nonlinear_arith)
        requires
            den == (SCALE as int) * (SCALE as int) * (SCALE as int) * (dist * dist),
            dist >= 1,
            SCALE == 1_000_000u64,
    ;
    lemma_div_at_least_one(a * num, den);
    lemma_abs_mul_le(rep, COEFF_LIMIT as int, k, COEFF_LIMIT as int);
    lemma_abs_mul_le(rep * k, 1_000_000_000_000_000_000, k, COEFF_LIMIT as int);
    lemma_mul_div_bound_by_den(
        dxr,
        2 * POS_LIMIT as int,
        num,
        1_000_000_000_000_000_000_000_000_000,
        den,
        1_000_000_000_000_000_000,
    );
    let m0 = lemma_step_horizontal(ds[0], ms);
    let m1 = lemma_step_horizontal(ds[1], ms);
    assert(abs(ds[0].x as int) == tr && abs(ds[1].x as int) == tr);
    if dd > 0 {
        // node a sits to the right: it steps further right, node b further left
        assert(dxr < 0);
        assert(step_of(ds[0], ms) == (m0, 0int));
        assert(step_of(ds[1], ms) == (-m1, 0int));
        let x0 = xa as int + m0;
        let x1 = xb as int - m1;
        assert(abs(x0) <= abs(xa as int) + u && abs(x1) <= abs(xb as int) + u);
        lemma_contain_within_margin(xa, y, x0, u, diam);
        lemma_contain_within_margin(xb, y, x1, u, diam);
        assert(integrate_of(pos[0], ds[0], ms, diam) == (x0, y as int));
        assert(integrate_of(pos[1], ds[1], ms, diam) == (x1, y as int));
        assert(abs(x0 - x1) > a);
    } else {
        // node a sits to the left: it steps further left, node b further right
        assert(dxr > 0);
        assert(step_of(ds[0], ms) == (-m0, 0int));
        assert(step_of(ds[1], ms) == (m1, 0int));
        let x0 = xa as int - m0;
        let x1 = xb as int + m1;
        assert(abs(x0) <= abs(xa as int) + u && abs(x1) <= abs(xb as int) + u);
        lemma_contain_within_margin(xa, y, x0, u, diam);
        lemma_contain_within_margin(xb, y, x1, u, diam);
        assert(integrate_of(pos[0], ds[0], ms, diam) == (x0, y as int));
        assert(integrate_of(pos[1], ds[1], ms, diam) == (x1, y as int));
        assert(abs(x0 - x1) > a);
    }
}

/// The degenerate pair: exactly coincident unconnected nodes feel no
/// repulsion, and a tick leaves both exactly in place, so their
/// separation stays zero.
pub proof fn lemma_repulsion_coincident_stays(x: i64, y: i64, params: Parameters)
    requires
        params.wf(),
        params.center == 0,
        -POS_LIMIT <= x <= POS_LIMIT,
        -POS_LIMIT <= y <= POS_LIMIT,
        4 * (SCALE as int) * (SCALE as int) * norm2(x as int, y as int) <= (
        params.max_diameter as int) * (params.max_diameter as int),
    ensures
        pair_after_tick(x, x, y, Seq::<Edge>::empty(), params).0 == (x as int, y as int),
        pair_after_tick(x, x, y, Seq::<Edge>::empty(), params).1 == (x as int, y as int),
{
    let pos = pair_positions(x, x, y);
    let edges = Seq::<Edge>::empty();
    let rep = params.repulsion as int;
    let k = params.k as int;
    let z = zero_disps(2);
    assert(pos.len() == 2 && edges.len() == 0);
    assert(z.len() == 2 && z[0] == (Displacement { x: 0i128, y: 0i128 }) && z[1] == (Displacement {
        x: 0i128,
        y: 0i128,
    }));
    assert(attraction_pass(pos, z, edges, params.attraction as int, k, 0) == z);
    assert(0int * 0int == 0int) by (nonlinear_arith);
    assert(apply_repulsion_pair(pos, z, 0, 1, rep, k) == z);
    assert(repulsion_row(pos, z, 0, 1, rep, k) == z);
    assert(repulsion_pass(pos, z, 0, rep, k) == z);
    assert(repulsion_row(pos, repulsion_pass(pos, z, 0, rep, k), 0, 2, rep, k) == z);
    assert(repulsion_pass(pos, z, 1, rep, k) == z);
    assert(repulsion_row(pos, repulsion_pass(pos, z, 1, rep, k), 1, 2, rep, k) == z);
    assert(repulsion_pass(pos, z, 2, rep, k) == z);
    lemma_center_zero(pos[0], z[0]);
    lemma_center_zero(pos[1], z[1]);
    assert(center_pass(pos, z, 0) =~= z);
    let ds = tick_disps(pos, edges, params);
    assert(ds == z);
    lemma_zero_force_fixed(pos[0], ds[0], params.max_step as int, params.max_diameter as int);
    lemma_zero_force_fixed(pos[1], ds[1], params.max_step as int, params.max_diameter as int);
}

} // verus!
