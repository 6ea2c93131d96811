//! The force kernels and the integrator.
//!
//! One tick runs four passes over one position snapshot: zero every
//! accumulator, pull edge endpoints together (attraction), push every pair
//! of distinct nodes apart (repulsion), pull every node softly toward the
//! origin (centering), then integrate: clamp the accumulated displacement to
//! the maximum step, move the node, and clamp the new position into the
//! layout circle. Every pass is specified exactly by a spec function over
//! the graph's views, so the tick's outcome is a mathematical function of
//! the previous state and the current parameters.

use crate::fixed::{
    isqrt, isqrt_ceil, lemma_abs_mul_le, lemma_mul_div_delta_bound, lemma_mul_div_le_factor,
    lemma_rescale_norm_bound_scaled, lemma_sqrt_ceil_bounds, lemma_sqrt_floor_bounds,
    mul_div_i128, mul_div_toward_zero, norm2, sqrt_ceil, sqrt_floor, COEFF_LIMIT, DIAMETER_LIMIT,
    DISP_LIMIT, POS_LIMIT, SCALE,
};
use crate::graph::{disp_in_bounds, pos_in_bounds, Displacement, Edge, Graph, Position};
use crate::params::Parameters;
use vstd::pervasive::VecAdditionalExecFns;
use vstd::prelude::*;

verus! {

/// Largest single force contribution the saturating accumulator accepts;
/// adding it to a saturated accumulator still fits `i128` comfortably.
pub const DELTA_LIMIT: i128 = 1_000_000_000_000_000_000_000_000_000_000_000_000;

/// A displacement component saturated at the accumulator bound.
pub open spec fn clamp_disp(v: int) -> int {
    if v > DISP_LIMIT as int {
        DISP_LIMIT as int
    } else if v < -(DISP_LIMIT as int) {
        -(DISP_LIMIT as int)
    } else {
        v
    }
}

/// Add a force contribution to an accumulator, saturating at the bound.
pub open spec fn sat_add(d: Displacement, dx: int, dy: int) -> Displacement {
    Displacement { x: clamp_disp(d.x as int + dx) as i128, y: clamp_disp(d.y as int + dy) as i128 }
}

/// Exec mirror of [`sat_add`].
fn sat_add_exec(d: Displacement, dx: i128, dy: i128) -> (r: Displacement)
    requires
        disp_in_bounds(d),
        -DELTA_LIMIT <= dx <= DELTA_LIMIT,
        -DELTA_LIMIT <= dy <= DELTA_LIMIT,
    ensures
        r == sat_add(d, dx as int, dy as int),
        disp_in_bounds(r),
{
    let x: i128 = d.x + dx;
    let y: i128 = d.y + dy;
    let cx: i128 = if x > DISP_LIMIT {
        DISP_LIMIT
    } else if x < -DISP_LIMIT {
        -DISP_LIMIT
    } else {
        x
    };
    let cy: i128 = if y > DISP_LIMIT {
        DISP_LIMIT
    } else if y < -DISP_LIMIT {
        -DISP_LIMIT
    } else {
        y
    };
    Displacement { x: cx, y: cy }
}

/// All-zero accumulators for `n` nodes.
pub open spec fn zero_disps(n: int) -> Seq<Displacement> {
    Seq::new(n as nat, |i: int| Displacement { x: 0i128, y: 0i128 })
}

/// Reset every node's accumulator: the start of a tick.
#[verifier::loop_isolation(false)]
pub fn zero_displacements(g: &mut Graph)
    requires
        old(g).wf(),
    ensures
        final(g).wf(),
        final(g).nodes@ == old(g).nodes@,
        final(g).positions@ == old(g).positions@,
        final(g).edges@ == old(g).edges@,
        final(g).disps@ == zero_disps(old(g).nodes@.len() as int),
{
    let n = g.disps.len();
    let mut i: usize = 0;
    while i < n
        invariant
            i <= n,
            g.wf(),
            g.nodes@ == old(g).nodes@,
            g.positions@ == old(g).positions@,
            g.edges@ == old(g).edges@,
            g.disps@.len() == n,
            forall|j: int|
                0 <= j < i ==> (#[trigger] g.disps@[j]) == (Displacement { x: 0i128, y: 0i128 }),
        decreases n - i,
    {
        g.disps.set(i, Displacement { x: 0, y: 0 });
        i = i + 1;
    }
    proof {
        assert(g.disps@ =~= zero_disps(old(g).nodes@.len() as int));
    }
}

/// The attraction contribution of one edge: the edge vector scaled by
/// `attraction / k`, truncated toward zero componentwise.
pub open spec fn attraction_step(pos: Seq<Position>, e: Edge, attraction: int, k: int) -> (
    int,
    int,
) {
    let dx = pos[e.from as int].x as int - pos[e.to as int].x as int;
    let dy = pos[e.from as int].y as int - pos[e.to as int].y as int;
    (mul_div_toward_zero(dx, attraction, k), mul_div_toward_zero(dy, attraction, k))
}

/// Fold one edge into the accumulators: the source is pulled toward the
/// target and the target toward the source, symmetrically.
pub open spec fn apply_attraction_edge(
    pos: Seq<Position>,
    disps: Seq<Displacement>,
    e: Edge,
    attraction: int,
    k: int,
) -> Seq<Displacement> {
    if e.from < pos.len() && e.to < pos.len() {
        let s = attraction_step(pos, e, attraction, k);
        let d1 = disps.update(e.from as int, sat_add(disps[e.from as int], -s.0, -s.1));
        d1.update(e.to as int, sat_add(d1[e.to as int], s.0, s.1))
    } else {
        disps
    }
}

/// The accumulators after folding the first `n` edges, in order.
pub open spec fn attraction_pass(
    pos: Seq<Position>,
    disps: Seq<Displacement>,
    edges: Seq<Edge>,
    attraction: int,
    k: int,
    n: int,
) -> Seq<Displacement>
    decreases n,
{
    if n <= 0 {
        disps
    } else {
        apply_attraction_edge(
            pos,
            attraction_pass(pos, disps, edges, attraction, k, n - 1),
            edges[n - 1],
            attraction,
            k,
        )
    }
}

/// Accumulate the attraction force of every edge: each edge pulls its two
/// endpoints toward each other by `attraction * |dir| / k` along their
/// connecting line; parallel edges contribute cumulatively. Positions are
/// only read.
#[verifier::loop_isolation(false)]
pub fn attraction(g: &mut Graph, params: &Parameters)
    requires
        old(g).wf(),
        params.wf(),
    ensures
        final(g).wf(),
        final(g).nodes@ == old(g).nodes@,
        final(g).positions@ == old(g).positions@,
        final(g).edges@ == old(g).edges@,
        final(g).disps@ == attraction_pass(
            old(g).positions@,
            old(g).disps@,
            old(g).edges@,
            params.attraction as int,
            params.k as int,
            old(g).edges@.len() as int,
        ),
{
    let m = g.edges.len();
    let mut e: usize = 0;
    while e < m
        invariant
            e <= m,
            m == g.edges@.len(),
            g.wf(),
            g.nodes@ == old(g).nodes@,
            g.positions@ == old(g).positions@,
            g.edges@ == old(g).edges@,
            g.disps@ == attraction_pass(
                old(g).positions@,
                old(g).disps@,
                old(g).edges@,
                params.attraction as int,
                params.k as int,
                e as int,
            ),
        decreases m - e,
    {
        let edge = g.edges[e];
        let pa = g.positions[edge.from];
        let pb = g.positions[edge.to];
        let dx: i128 = (pa.x as i128) - (pb.x as i128);
        let dy: i128 = (pa.y as i128) - (pb.y as i128);
        proof {
            assert(pos_in_bounds(g.positions@[edge.from as int]));
            assert(pos_in_bounds(g.positions@[edge.to as int]));
            lemma_abs_mul_le(
                dx as int,
                2 * POS_LIMIT as int,
                params.attraction as int,
                COEFF_LIMIT as int,
            );
            lemma_abs_mul_le(
                dy as int,
                2 * POS_LIMIT as int,
                params.attraction as int,
                COEFF_LIMIT as int,
            );
            lemma_mul_div_delta_bound(
                dx as int,
                2 * POS_LIMIT as int,
                params.attraction as int,
                COEFF_LIMIT as int,
                params.k as int,
            );
            lemma_mul_div_delta_bound(
                dy as int,
                2 * POS_LIMIT as int,
                params.attraction as int,
                COEFF_LIMIT as int,
                params.k as int,
            );
        }
        let sx = mul_div_i128(dx, params.attraction as u128, params.k as u128);
        let sy = mul_div_i128(dy, params.attraction as u128, params.k as u128);
        let da = sat_add_exec(g.disps[edge.from], -sx, -sy);
        g.disps.set(edge.from, da);
        let db = sat_add_exec(g.disps[edge.to], sx, sy);
        g.disps.set(edge.to, db);
        proof {
            assert(g.disps@ =~= attraction_pass(
                old(g).positions@,
                old(g).disps@,
                old(g).edges@,
                params.attraction as int,
                params.k as int,
                e as int + 1,
            ));
        }
        e = e + 1;
    }
}

/// The repulsion contribution of one pair of distinct, non-coincident nodes
/// `a`, `b`: the direction from `a` to `b` scaled by
/// `repulsion * k^2 / dist^2`, truncated toward zero componentwise.
pub open spec fn repulsion_step(pos: Seq<Position>, a: int, b: int, repulsion: int, k: int) -> (
    int,
    int,
)
    recommends
        0 < norm2(
            pos[b].x as int - pos[a].x as int,
            pos[b].y as int - pos[a].y as int,
        ),
{
    let dx = pos[b].x as int - pos[a].x as int;
    let dy = pos[b].y as int - pos[a].y as int;
    let dist = sqrt_floor(dx * dx + dy * dy);
    let den = (SCALE as int) * (SCALE as int) * (SCALE as int) * (dist * dist);
    (
        mul_div_toward_zero(dx, repulsion * k * k, den),
        mul_div_toward_zero(dy, repulsion * k * k, den),
    )
}

/// Fold one pair into the accumulators: `a` is pushed away from `b` and `b`
/// away from `a`, symmetrically. Coincident nodes contribute nothing.
pub open spec fn apply_repulsion_pair(
    pos: Seq<Position>,
    disps: Seq<Displacement>,
    a: int,
    b: int,
    repulsion: int,
    k: int,
) -> Seq<Displacement> {
    let dx = pos[b].x as int - pos[a].x as int;
    let dy = pos[b].y as int - pos[a].y as int;
    if dx * dx + dy * dy > 0 {
        let s = repulsion_step(pos, a, b, repulsion, k);
        let d1 = disps.update(a, sat_add(disps[a], -s.0, -s.1));
        d1.update(b, sat_add(d1[b], s.0, s.1))
    } else {
        disps
    }
}

/// The accumulators after folding the pairs `(i, i + 1), ..., (i, j - 1)`.
pub open spec fn repulsion_row(
    pos: Seq<Position>,
    disps: Seq<Displacement>,
    i: int,
    j: int,
    repulsion: int,
    k: int,
) -> Seq<Displacement>
    decreases j - i,
{
    if j <= i + 1 {
        disps
    } else {
        apply_repulsion_pair(
            pos,
            repulsion_row(pos, disps, i, j - 1, repulsion, k),
            i,
            j - 1,
            repulsion,
            k,
        )
    }
}

/// The accumulators after folding every pair whose smaller index is below
/// `i`, rows in index order.
pub open spec fn repulsion_pass(
    pos: Seq<Position>,
    disps: Seq<Displacement>,
    i: int,
    repulsion: int,
    k: int,
) -> Seq<Displacement>
    decreases i,
{
    if i <= 0 {
        disps
    } else {
        repulsion_row(
            pos,
            repulsion_pass(pos, disps, i - 1, repulsion, k),
            i - 1,
            pos.len() as int,
            repulsion,
            k,
        )
    }
}

/// Accumulate the repulsion force over every unordered pair of distinct
/// nodes: each pair is pushed apart by `repulsion * k^2 / dist` along the
/// line joining it; exactly coincident nodes contribute nothing. Positions
/// are only read.
#[verifier::loop_isolation(false)]
pub fn repulsion(g: &mut Graph, params: &Parameters)
    requires
        old(g).wf(),
        params.wf(),
    ensures
        final(g).wf(),
        final(g).nodes@ == old(g).nodes@,
        final(g).positions@ == old(g).positions@,
        final(g).edges@ == old(g).edges@,
        final(g).disps@ == repulsion_pass(
            old(g).positions@,
            old(g).disps@,
            old(g).nodes@.len() as int,
            params.repulsion as int,
            params.k as int,
        ),
{
    let n = g.nodes.len();
    let mut i: usize = 0;
    while i < n
        invariant
            i <= n,
            n == g.nodes@.len(),
            g.wf(),
            g.nodes@ == old(g).nodes@,
            g.positions@ == old(g).positions@,
            g.edges@ == old(g).edges@,
            g.disps@ == repulsion_pass(
                old(g).positions@,
                old(g).disps@,
                i as int,
                params.repulsion as int,
                params.k as int,
            ),
        decreases n - i,
    {
        let mut j: usize = i + 1;
        while j < n
            invariant
                i < n,
                i + 1 <= j <= n,
                g.wf(),
                g.nodes@ == old(g).nodes@,
                g.positions@ == old(g).positions@,
                g.edges@ == old(g).edges@,
                g.disps@ == repulsion_row(
                    old(g).positions@,
                    repulsion_pass(
                        old(g).positions@,
                        old(g).disps@,
                        i as int,
                        params.repulsion as int,
                        params.k as int,
                    ),
                    i as int,
                    j as int,
                    params.repulsion as int,
                    params.k as int,
                ),
            decreases n - j,
        {
            let pi = g.positions[i];
            let pj = g.positions[j];
            let dx: i128 = (pj.x as i128) - (pi.x as i128);
            let dy: i128 = (pj.y as i128) - (pi.y as i128);
            proof {
                assert(pos_in_bounds(g.positions@[i as int]));
                assert(pos_in_bounds(g.positions@[j as int]));
                assert(dx * dx <= 40_000_000_000_000_000 && dy * dy <= 40_000_000_000_000_000)
                    by (nonlinear_arith)
                    requires
                        -200_000_000 <= dx <= 200_000_000,
                        -200_000_000 <= dy <= 200_000_000,
                ;
                assert(dx * dx >= 0 && dy * dy >= 0) by (nonlinear_arith);
            }
            let d2: i128 = dx * dx + dy * dy;
            if d2 > 0 {
                let dist: u128 = isqrt(d2 as u128);
                proof {
                    lemma_sqrt_floor_bounds(d2 as int);
                    assert(dist >= 1) by (nonlinear_arith)
                        requires
                            d2 as int >= 1,
                            dist as int >= 0,
                            (d2 as int) < (dist as int + 1) * (dist as int + 1),
                    ;
                }
                proof {
                    lemma_abs_mul_le(
                        params.repulsion as int,
                        COEFF_LIMIT as int,
                        params.k as int,
                        COEFF_LIMIT as int,
                    );
                    lemma_abs_mul_le(
                        (params.repulsion as int) * (params.k as int),
                        1_000_000_000_000_000_000,
                        params.k as int,
                        COEFF_LIMIT as int,
                    );
                }
                let num: u128 = (params.repulsion as u128) * (params.k as u128) * (
                params.k as u128);
                let den: u128 = (SCALE as u128) * (SCALE as u128) * (SCALE as u128) * (dist * dist);
                proof {
                    assert(dist * dist <= d2 as int);
                    assert(den as int >= 1) by (nonlinear_arith)
                        requires
                            den as int == 1_000_000_000_000_000_000 * ((dist as int) * (
                            dist as int)),
                            dist as int >= 1,
                    ;
                    lemma_abs_mul_le(
                        dx as int,
                        2 * POS_LIMIT as int,
                        num as int,
                        1_000_000_000_000_000_000_000_000_000,
                    );
                    lemma_abs_mul_le(
                        dy as int,
                        2 * POS_LIMIT as int,
                        num as int,
                        1_000_000_000_000_000_000_000_000_000,
                    );
                    lemma_mul_div_delta_bound(
                        dx as int,
                        2 * POS_LIMIT as int,
                        num as int,
                        1_000_000_000_000_000_000_000_000_000,
                        den as int,
                    );
                    lemma_mul_div_delta_bound(
                        dy as int,
                        2 * POS_LIMIT as int,
                        num as int,
                        1_000_000_000_000_000_000_000_000_000,
                        den as int,
                    );
                }
                let sx = mul_div_i128(dx, num, den);
                let sy = mul_div_i128(dy, num, den);
                let da = sat_add_exec(g.disps[i], -sx, -sy);
                g.disps.set(i, da);
                let db = sat_add_exec(g.disps[j], sx, sy);
                g.disps.set(j, db);
            }
            proof {
                assert(g.disps@ =~= repulsion_row(
                    old(g).positions@,
                    repulsion_pass(
                        old(g).positions@,
                        old(g).disps@,
                        i as int,
                        params.repulsion as int,
                        params.k as int,
                    ),
                    i as int,
                    j as int + 1,
                    params.repulsion as int,
                    params.k as int,
                ));
            }
            j = j + 1;
        }
        proof {
            assert(g.disps@ =~= repulsion_pass(
                old(g).positions@,
                old(g).disps@,
                i as int + 1,
                params.repulsion as int,
                params.k as int,
            ));
        }
        i = i + 1;
    }
}

/// The centering contribution of one node: its position scaled by
/// `center * |position|`, truncated toward zero componentwise. The node is
/// pulled toward the origin by this amount.
pub open spec fn center_step(p: Position, center: int) -> (int, int) {
    let dist = sqrt_floor(norm2(p.x as int, p.y as int));
    (
        mul_div_toward_zero(p.x as int, center * dist, SCALE as int),
        mul_div_toward_zero(p.y as int, center * dist, SCALE as int),
    )
}

/// One node's accumulator after the centering pull.
pub open spec fn center_apply(d: Displacement, p: Position, center: int) -> Displacement {
    sat_add(d, -center_step(p, center).0, -center_step(p, center).1)
}

/// All accumulators after the centering pass.
pub open spec fn center_pass(pos: Seq<Position>, disps: Seq<Displacement>, center: int) -> Seq<
    Displacement,
> {
    Seq::new(disps.len(), |i: int| center_apply(disps[i], pos[i], center))
}

/// Accumulate the centering force on every node: a soft quadratic pull
/// toward the origin of magnitude `center * |position|^2`, independent of
/// the hard containment clamp. Positions are only read.
#[verifier::loop_isolation(false)]
pub fn center_force(g: &mut Graph, params: &Parameters)
    requires
        old(g).wf(),
        params.wf(),
    ensures
        final(g).wf(),
        final(g).nodes@ == old(g).nodes@,
        final(g).positions@ == old(g).positions@,
        final(g).edges@ == old(g).edges@,
        final(g).disps@ == center_pass(old(g).positions@, old(g).disps@, params.center as int),
{
    let n = g.nodes.len();
    let mut i: usize = 0;
    while i < n
        invariant
            i <= n,
            n == g.nodes@.len(),
            g.wf(),
            g.nodes@ == old(g).nodes@,
            g.positions@ == old(g).positions@,
            g.edges@ == old(g).edges@,
            forall|t: int|
                0 <= t < i ==> (#[trigger] g.disps@[t]) == center_apply(
                    old(g).disps@[t],
                    old(g).positions@[t],
                    params.center as int,
                ),
            forall|t: int| i <= t < n ==> (#[trigger] g.disps@[t]) == old(g).disps@[t],
        decreases n - i,
    {
        let p = g.positions[i];
        let dx: i128 = p.x as i128;
        let dy: i128 = p.y as i128;
        proof {
            assert(pos_in_bounds(g.positions@[i as int]));
            assert(dx * dx <= 10_000_000_000_000_000 && dy * dy <= 10_000_000_000_000_000)
                by (nonlinear_arith)
                requires
                    -100_000_000 <= dx <= 100_000_000,
                    -100_000_000 <= dy <= 100_000_000,
            ;
            assert(dx * dx >= 0 && dy * dy >= 0) by (nonlinear_arith);
        }
        let d2: i128 = dx * dx + dy * dy;
        let dist: u128 = isqrt(d2 as u128);
        proof {
            lemma_sqrt_floor_bounds(d2 as int);
            assert(dist * dist <= d2 as int);
            assert(dist <= 200_000_000) by (nonlinear_arith)
                requires
                    dist * dist <= 20_000_000_000_000_000,
                    dist >= 0,
            ;
            lemma_abs_mul_le(
                params.center as int,
                COEFF_LIMIT as int,
                dist as int,
                200_000_000,
            );
        }
        let num: u128 = (params.center as u128) * dist;
        proof {
            lemma_abs_mul_le(
                dx as int,
                POS_LIMIT as int,
                num as int,
                200_000_000_000_000_000,
            );
            lemma_abs_mul_le(
                dy as int,
                POS_LIMIT as int,
                num as int,
                200_000_000_000_000_000,
            );
            lemma_mul_div_delta_bound(
                dx as int,
                POS_LIMIT as int,
                num as int,
                200_000_000_000_000_000,
                SCALE as int,
            );
            lemma_mul_div_delta_bound(
                dy as int,
                POS_LIMIT as int,
                num as int,
                200_000_000_000_000_000,
                SCALE as int,
            );
        }
        let sx = mul_div_i128(dx, num, SCALE as u128);
        let sy = mul_div_i128(dy, num, SCALE as u128);
        let dnew = sat_add_exec(g.disps[i], -sx, -sy);
        g.disps.set(i, dnew);
        i = i + 1;
    }
    proof {
        assert(g.disps@ =~= center_pass(old(g).positions@, old(g).disps@, params.center as int));
    }
}

/// The bounded move one node makes this tick: the accumulated displacement
/// itself when its magnitude is within `max_step`, else the displacement
/// rescaled radially onto that magnitude (never amplified), truncated
/// toward zero componentwise.
pub open spec fn step_of(d: Displacement, max_step: int) -> (int, int) {
    let d2 = norm2(d.x as int, d.y as int);
    if (SCALE as int) * (SCALE as int) * d2 <= max_step * max_step {
        (d.x as int, d.y as int)
    } else {
        let dc = sqrt_ceil(d2);
        (
            mul_div_toward_zero(d.x as int, max_step, (SCALE as int) * dc),
            mul_div_toward_zero(d.y as int, max_step, (SCALE as int) * dc),
        )
    }
}

/// The hard containment clamp: a position within the layout circle of
/// diameter `max_diameter` is kept; one outside is rescaled radially onto
/// the circle's boundary, truncated toward zero componentwise.
pub open spec fn contain_of(x: int, y: int, max_diameter: int) -> (int, int) {
    let n2 = norm2(x, y);
    if 4 * (SCALE as int) * (SCALE as int) * n2 <= max_diameter * max_diameter {
        (x, y)
    } else {
        let c = sqrt_ceil(n2);
        (
            mul_div_toward_zero(x, max_diameter, 2 * (SCALE as int) * c),
            mul_div_toward_zero(y, max_diameter, 2 * (SCALE as int) * c),
        )
    }
}

/// One node's position after integration: move by the clamped step, then
/// apply the containment clamp.
pub open spec fn integrate_of(p: Position, d: Displacement, max_step: int, max_diameter: int) -> (
    int,
    int,
) {
    let s = step_of(d, max_step);
    contain_of(p.x as int + s.0, p.y as int + s.1, max_diameter)
}


/// Integrate one node.
fn integrate_node(p: Position, d: Displacement, max_step: u64, max_diameter: u64) -> (r: Position)
    requires
        pos_in_bounds(p),
        disp_in_bounds(d),
        max_step <= COEFF_LIMIT,
        max_diameter <= DIAMETER_LIMIT,
    ensures
        r.x as int == integrate_of(p, d, max_step as int, max_diameter as int).0,
        r.y as int == integrate_of(p, d, max_step as int, max_diameter as int).1,
        pos_in_bounds(r),
{
    let dx: i128 = d.x;
    let dy: i128 = d.y;
    proof {
        assert(dx * dx >= 0 && dy * dy >= 0) by (nonlinear_arith);
        assert(dx * dx <= 1_000_000_000_000_000_000_000_000_000_000_000_000 && dy * dy
            <= 1_000_000_000_000_000_000_000_000_000_000_000_000) by (nonlinear_arith)
            requires
                -1_000_000_000_000_000_000 <= dx <= 1_000_000_000_000_000_000,
                -1_000_000_000_000_000_000 <= dy <= 1_000_000_000_000_000_000,
        ;
    }
    let d2: i128 = dx * dx + dy * dy;
    let ms: u128 = max_step as u128;
    let step_direct: bool = if d2 > 1_000_000_000_000_000_000_000_000 {
        proof {
            assert((SCALE as int) * (SCALE as int) * (d2 as int) > (ms as int) * (ms as int))
                by (nonlinear_arith)
                requires
                    d2 as int > 1_000_000_000_000_000_000_000_000,
                    0 <= ms as int <= 1_000_000_000,
            ;
        }
        false
    } else {
        proof {
            assert((ms as int) * (ms as int) <= 1_000_000_000_000_000_000) by (nonlinear_arith)
                requires
                    0 <= ms as int <= 1_000_000_000,
            ;
            assert((SCALE as int) * (SCALE as int) * (d2 as int)
                <= 1_000_000_000_000_000_000_000_000_000_000_000_000) by (nonlinear_arith)
                requires
                    SCALE == 1_000_000u64,
                    0 <= d2 as int <= 1_000_000_000_000_000_000_000_000,
            ;
        }
        (SCALE as u128) * (SCALE as u128) * (d2 as u128) <= ms * ms
    };
    let mxi: i64;
    let myi: i64;
    if step_direct {
        proof {
            assert(dx * dx <= (ms as int) * (ms as int) && dy * dy <= (ms as int) * (ms as int))
                by (nonlinear_arith)
                requires
                    (SCALE as int) * (SCALE as int) * (dx * dx + dy * dy) <= (ms as int) * (
                    ms as int),
                    SCALE == 1_000_000u64,
                    dx * dx >= 0,
                    dy * dy >= 0,
            ;
            assert(-1_000_000_000 <= dx <= 1_000_000_000 && -1_000_000_000 <= dy
                <= 1_000_000_000) by (nonlinear_arith)
                requires
                    dx * dx <= 1_000_000_000_000_000_000,
                    dy * dy <= 1_000_000_000_000_000_000,
            ;
        }
        mxi = dx as i64;
        myi = dy as i64;
    } else {
        proof {
            assert(d2 as int >= 1) by (nonlinear_arith)
                requires
                    !((SCALE as int) * (SCALE as int) * (d2 as int) <= (ms as int) * (ms as int)),
                    d2 as int >= 0,
                    ms as int >= 0,
            ;
        }
        let dc: u128 = isqrt_ceil(d2 as u128);
        proof {
            lemma_sqrt_ceil_bounds(d2 as int);
            assert(dc >= 1);
            assert(dc <= 2_000_000_000_000_000_000) by (nonlinear_arith)
                requires
                    dc as int >= 1,
                    (dc as int - 1) * (dc as int - 1) < d2 as int,
                    d2 as int <= 2_000_000_000_000_000_000_000_000_000_000_000_000,
            ;
            assert(-(dc as int) <= dx as int <= dc as int && -(dc as int) <= dy as int
                <= dc as int) by (nonlinear_arith)
                requires
                    dx * dx + dy * dy <= (dc as int) * (dc as int),
                    dx * dx >= 0,
                    dy * dy >= 0,
                    dc as int >= 0,
            ;
            lemma_abs_mul_le(dx as int, 1_000_000_000_000_000_000, ms as int, COEFF_LIMIT as int);
            lemma_abs_mul_le(dy as int, 1_000_000_000_000_000_000, ms as int, COEFF_LIMIT as int);
            lemma_mul_div_le_factor(dx as int, ms as int, SCALE as int, dc as int);
            lemma_mul_div_le_factor(dy as int, ms as int, SCALE as int, dc as int);
        }
        let den: u128 = (SCALE as u128) * dc;
        let mx = mul_div_i128(dx, ms, den);
        let my = mul_div_i128(dy, ms, den);
        mxi = mx as i64;
        myi = my as i64;
    }
    let nx: i64 = p.x + mxi;
    let ny: i64 = p.y + myi;
    proof {
        assert((nx as i128) * (nx as i128) >= 0 && (ny as i128) * (ny as i128) >= 0)
            by (nonlinear_arith);
        assert((nx as i128) * (nx as i128) <= 4_000_000_000_000_000_000 && (ny as i128) * (
        ny as i128) <= 4_000_000_000_000_000_000) by (nonlinear_arith)
            requires
                -2_000_000_000 <= nx as i128 <= 2_000_000_000,
                -2_000_000_000 <= ny as i128 <= 2_000_000_000,
        ;
    }
    let n2: i128 = (nx as i128) * (nx as i128) + (ny as i128) * (ny as i128);
    let diam: u128 = max_diameter as u128;
    proof {
        assert((diam as int) * (diam as int) <= 1_000_000_000_000_000_000_000_000)
            by (nonlinear_arith)
            requires
                0 <= diam as int <= 1_000_000_000_000,
        ;
        assert(4 * (SCALE as int) * (SCALE as int) * (n2 as int)
            <= 100_000_000_000_000_000_000_000_000_000_000) by (nonlinear_arith)
            requires
                SCALE == 1_000_000u64,
                0 <= n2 as int <= 8_000_000_000_000_000_000,
        ;
    }
    if 4 * (SCALE as u128) * (SCALE as u128) * (n2 as u128) <= diam * diam {
        proof {
            assert(-POS_LIMIT <= nx && nx <= POS_LIMIT && -POS_LIMIT <= ny && ny <= POS_LIMIT)
                by (nonlinear_arith)
                requires
                    4 * (SCALE as int) * (SCALE as int) * ((nx as int) * (nx as int) + (ny as int)
                        * (ny as int)) <= (diam as int) * (diam as int),
                    (nx as int) * (nx as int) >= 0,
                    (ny as int) * (ny as int) >= 0,
                    0 <= diam as int <= 1_000_000_000_000,
                    SCALE == 1_000_000u64,
                    POS_LIMIT == 100_000_000i64,
            ;
        }
        Position { x: nx, y: ny }
    } else {
        proof {
            assert(n2 as int >= 1) by (nonlinear_arith)
                requires
                    !(4 * (SCALE as int) * (SCALE as int) * (n2 as int) <= (diam as int) * (
                    diam as int)),
                    n2 as int >= 0,
                    diam as int >= 0,
            ;
        }
        let c: u128 = isqrt_ceil(n2 as u128);
        proof {
            lemma_sqrt_ceil_bounds(n2 as int);
            assert(c >= 1);
            assert(c <= 4_000_000_000) by (nonlinear_arith)
                requires
                    c as int >= 1,
                    (c as int - 1) * (c as int - 1) < n2 as int,
                    n2 as int <= 8_000_000_000_000_000_000,
            ;
            assert(-(c as int) <= nx as int <= c as int && -(c as int) <= ny as int <= c as int)
                by (nonlinear_arith)
                requires
                    (nx as int) * (nx as int) + (ny as int) * (ny as int) <= (c as int) * (
                    c as int),
                    (nx as int) * (nx as int) >= 0,
                    (ny as int) * (ny as int) >= 0,
                    c as int >= 0,
            ;
            lemma_abs_mul_le(nx as int, 2_000_000_000, diam as int, DIAMETER_LIMIT as int);
            lemma_abs_mul_le(ny as int, 2_000_000_000, diam as int, DIAMETER_LIMIT as int);
            lemma_rescale_norm_bound_scaled(
                nx as int,
                ny as int,
                diam as int,
                2 * (SCALE as int),
                c as int,
            );
            lemma_mul_div_le_factor(nx as int, diam as int, 2 * (SCALE as int), c as int);
            lemma_mul_div_le_factor(ny as int, diam as int, 2 * (SCALE as int), c as int);
        }
        let den2: u128 = 2 * (SCALE as u128) * c;
        let rx = mul_div_i128(nx as i128, diam, den2);
        let ry = mul_div_i128(ny as i128, diam, den2);
        proof {
            let sx = mul_div_toward_zero(nx as int, diam as int, 2 * (SCALE as int) * (c as int));
            let sy = mul_div_toward_zero(ny as int, diam as int, 2 * (SCALE as int) * (c as int));
            assert(sx * sx >= 0 && sy * sy >= 0) by (nonlinear_arith);
            assert(-POS_LIMIT <= sx && sx <= POS_LIMIT && -POS_LIMIT <= sy && sy <= POS_LIMIT)
                by (nonlinear_arith)
                requires
                    (2 * (SCALE as int)) * (2 * (SCALE as int)) * (sx * sx + sy * sy) <= (
                    diam as int) * (diam as int),
                    0 <= diam as int <= 1_000_000_000_000,
                    SCALE == 1_000_000u64,
                    POS_LIMIT == 100_000_000i64,
                    sx * sx >= 0,
                    sy * sy >= 0,
            ;
        }
        Position { x: rx as i64, y: ry as i64 }
    }
}

/// Integrate every node: clamp the accumulated displacement to `max_step`
/// (preserving direction, never amplifying), add it to the position, apply
/// the containment clamp, and reset the accumulator for the next tick.
#[verifier::loop_isolation(false)]
pub fn apply_physics(g: &mut Graph, params: &Parameters)
    requires
        old(g).wf(),
        params.wf(),
    ensures
        final(g).wf(),
        final(g).nodes@ == old(g).nodes@,
        final(g).edges@ == old(g).edges@,
        final(g).positions@.len() == old(g).positions@.len(),
        final(g).disps@ == zero_disps(old(g).nodes@.len() as int),
        forall|t: int|
            0 <= t < old(g).positions@.len() ==> (#[trigger] final(g).positions@[t]).x as int
                == integrate_of(
                old(g).positions@[t],
                old(g).disps@[t],
                params.max_step as int,
                params.max_diameter as int,
            ).0 && final(g).positions@[t].y as int == integrate_of(
                old(g).positions@[t],
                old(g).disps@[t],
                params.max_step as int,
                params.max_diameter as int,
            ).1,
        forall|t: int|
            0 <= t < old(g).positions@.len() ==> 4 * (SCALE as int) * (SCALE as int) * norm2(
                (#[trigger] final(g).positions@[t]).x as int,
                final(g).positions@[t].y as int,
            ) <= (params.max_diameter as int) * (params.max_diameter as int),
{
    let n = g.nodes.len();
    let mut i: usize = 0;
    while i < n
        invariant
            i <= n,
            n == g.nodes@.len(),
            g.wf(),
            g.nodes@ == old(g).nodes@,
            g.edges@ == old(g).edges@,
            g.positions@.len() == old(g).positions@.len(),
            forall|t: int|
                0 <= t < i ==> (#[trigger] g.positions@[t]).x as int == integrate_of(
                    old(g).positions@[t],
                    old(g).disps@[t],
                    params.max_step as int,
                    params.max_diameter as int,
                ).0 && g.positions@[t].y as int == integrate_of(
                    old(g).positions@[t],
                    old(g).disps@[t],
                    params.max_step as int,
                    params.max_diameter as int,
                ).1,
            forall|t: int| i <= t < n ==> (#[trigger] g.positions@[t]) == old(g).positions@[t],
            forall|t: int|
                0 <= t < i ==> (#[trigger] g.disps@[t]) == (Displacement { x: 0i128, y: 0i128 }),
            forall|t: int| i <= t < n ==> (#[trigger] g.disps@[t]) == old(g).disps@[t],
        decreases n - i,
    {
        let np = integrate_node(g.positions[i], g.disps[i], params.max_step, params.max_diameter);
        g.positions.set(i, np);
        g.disps.set(i, Displacement { x: 0, y: 0 });
        i = i + 1;
    }
    proof {
        assert(g.disps@ =~= zero_disps(old(g).nodes@.len() as int));
        assert forall|t: int| 0 <= t < old(g).positions@.len() implies 4 * (SCALE as int) * (
        SCALE as int) * norm2(
            (#[trigger] g.positions@[t]).x as int,
            g.positions@[t].y as int,
        ) <= (params.max_diameter as int) * (params.max_diameter as int) by {
            crate::laws::lemma_containment(
                old(g).positions@[t],
                old(g).disps@[t],
                params.max_step as int,
                params.max_diameter as int,
            );
        }
    }
}


/// The displacement every node has accumulated by the end of a tick's three
/// force passes, starting from zeroed accumulators: attraction over the
/// edges, then repulsion over the pairs, then centering.
pub open spec fn tick_disps(pos: Seq<Position>, edges: Seq<Edge>, params: Parameters) -> Seq<
    Displacement,
> {
    center_pass(
        pos,
        repulsion_pass(
            pos,
            attraction_pass(
                pos,
                zero_disps(pos.len() as int),
                edges,
                params.attraction as int,
                params.k as int,
                edges.len() as int,
            ),
            pos.len() as int,
            params.repulsion as int,
            params.k as int,
        ),
        params.center as int,
    )
}

/// Advance the simulation by one tick: zero the accumulators, run the three
/// force passes over the current position snapshot, then integrate every
/// node under the step clamp and the containment clamp. Each node's new
/// position is the mathematical function [`integrate_of`] of its old
/// position and the tick's accumulated displacement [`tick_disps`].
pub fn tick(g: &mut Graph, params: &Parameters)
    requires
        old(g).wf(),
        params.wf(),
    ensures
        final(g).wf(),
        final(g).nodes@ == old(g).nodes@,
        final(g).edges@ == old(g).edges@,
        final(g).positions@.len() == old(g).positions@.len(),
        final(g).disps@ == zero_disps(old(g).nodes@.len() as int),
        forall|t: int|
            0 <= t < old(g).positions@.len() ==> (#[trigger] final(g).positions@[t]).x as int
                == integrate_of(
                old(g).positions@[t],
                tick_disps(old(g).positions@, old(g).edges@, *params)[t],
                params.max_step as int,
                params.max_diameter as int,
            ).0 && final(g).positions@[t].y as int == integrate_of(
                old(g).positions@[t],
                tick_disps(old(g).positions@, old(g).edges@, *params)[t],
                params.max_step as int,
                params.max_diameter as int,
            ).1,
        forall|t: int|
            0 <= t < old(g).positions@.len() ==> 4 * (SCALE as int) * (SCALE as int) * norm2(
                (#[trigger] final(g).positions@[t]).x as int,
                final(g).positions@[t].y as int,
            ) <= (params.max_diameter as int) * (params.max_diameter as int),
{
    zero_displacements(g);
    attraction(g, params);
    repulsion(g, params);
    center_force(g, params);
    apply_physics(g, params);
}

} // verus!
