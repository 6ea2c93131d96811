use forcelayout::fixed::SCALE;
use forcelayout::graph::{build_graph, NodeRecord, Position};
use forcelayout::params::Parameters;
use forcelayout::sim::{apply_physics, attraction, repulsion, tick, zero_displacements};

fn rec(name: &str, group: &str, deps: &[&str]) -> NodeRecord {
    NodeRecord {
        name: name.to_string(),
        group: group.to_string(),
        deps: deps.iter().map(|d| d.to_string()).collect(),
    }
}

/// A two-node graph, optionally with `a` depending on `b`, placed
/// symmetrically on the x-axis at the given separation.
fn two_nodes(deps: bool, separation: i64) -> forcelayout::graph::Graph {
    let records = if deps {
        vec![rec("a", "0", &["b"]), rec("b", "1", &[])]
    } else {
        vec![rec("a", "0", &[]), rec("b", "1", &[])]
    };
    let mut g = build_graph(records).unwrap();
    g.positions[0] = Position { x: -separation / 2, y: 0 };
    g.positions[1] = Position { x: separation / 2, y: 0 };
    g
}

fn distance(g: &forcelayout::graph::Graph) -> f64 {
    let a = g.position_of(0);
    let b = g.position_of(1);
    let dx = (a.x - b.x) as f64;
    let dy = (a.y - b.y) as f64;
    (dx * dx + dy * dy).sqrt()
}

fn coefficients(repulsion: f64, attraction: f64, center: f64) -> Parameters {
    let mut p = Parameters::new();
    p.set_repulsion((repulsion * SCALE as f64) as u64);
    p.set_attraction((attraction * SCALE as f64) as u64);
    p.set_center((center * SCALE as f64) as u64);
    p
}

#[test]
fn check_repulsion() {
    let params = coefficients(100.0, 0.0, 0.0);
    let mut g = two_nodes(true, 5000);
    zero_displacements(&mut g);
    let mut prev_distance = distance(&g);
    for _ in 0..100 {
        repulsion(&mut g, &params);
        apply_physics(&mut g, &params);
        let new_distance = distance(&g);
        assert!(new_distance > prev_distance);
        prev_distance = new_distance;
    }
}

#[test]
fn check_attraction() {
    let params = coefficients(0.0, 10.0, 0.0);
    let mut g = two_nodes(true, 5000);
    zero_displacements(&mut g);
    let mut prev_distance = distance(&g);
    for _ in 0..100 {
        attraction(&mut g, &params);
        apply_physics(&mut g, &params);
        let new_distance = distance(&g);
        assert!(new_distance < prev_distance);
        prev_distance = new_distance;
    }
}

#[test]
fn attraction_scenario_closes_the_gap_over_100_ticks() {
    let params = coefficients(0.0, 10.0, 0.0);
    let mut g = two_nodes(true, 5000);
    let d0 = distance(&g);
    for _ in 0..100 {
        tick(&mut g, &params);
    }
    let d100 = distance(&g);
    assert!(d100 < d0);
}

#[test]
fn repulsion_scenario_widens_the_gap_over_100_ticks() {
    let params = coefficients(100.0, 0.0, 0.0);
    let mut g = two_nodes(false, 5000);
    let d0 = distance(&g);
    for _ in 0..100 {
        tick(&mut g, &params);
    }
    let d100 = distance(&g);
    assert!(d100 > d0);
}

#[test]
fn containment_rescales_onto_the_boundary() {
    // All forces off; one node far outside the default 30000-unit diameter.
    let params = coefficients(0.0, 0.0, 0.0);
    let records = vec![rec("a", "0", &[])];
    let mut g = build_graph(records).unwrap();
    g.positions[0] = Position { x: 50_000, y: 0 };
    tick(&mut g, &params);
    let p = g.position_of(0);
    assert_eq!(p.x, 15_000);
    assert_eq!(p.y, 0);
}

#[test]
fn containment_holds_every_tick() {
    let params = Parameters::new();
    let records = vec![
        rec("a", "0", &["b", "c"]),
        rec("b", "1", &[]),
        rec("c", "2", &["a"]),
    ];
    let mut g = build_graph(records).unwrap();
    let radius = (params.max_diameter / (2 * SCALE)) as f64;
    for _ in 0..50 {
        tick(&mut g, &params);
        for i in 0..g.node_count() {
            let p = g.position_of(i);
            let norm = ((p.x as f64).powi(2) + (p.y as f64).powi(2)).sqrt();
            assert!(norm <= radius + 1.0);
        }
    }
}

#[test]
fn per_tick_step_never_exceeds_max_step() {
    // Strong attraction across a wide gap: the raw pull far exceeds the
    // step bound, so the clamp must hold the move to max_step exactly.
    let params = coefficients(0.0, 10.0, 0.0);
    let max_step = (params.max_step / SCALE) as i64;
    let mut g = two_nodes(true, 5000);
    let before_a = g.position_of(0);
    let before_b = g.position_of(1);
    tick(&mut g, &params);
    let after_a = g.position_of(0);
    let after_b = g.position_of(1);
    assert_eq!((after_a.x - before_a.x).abs(), max_step);
    assert_eq!(after_a.y, before_a.y);
    assert_eq!((after_b.x - before_b.x).abs(), max_step);
    assert_eq!(after_b.y, before_b.y);
}

#[test]
fn zero_force_node_does_not_move() {
    let params = coefficients(0.0, 0.0, 0.0);
    let records = vec![rec("a", "0", &[])];
    let mut g = build_graph(records).unwrap();
    g.positions[0] = Position { x: 100, y: 200 };
    for _ in 0..10 {
        tick(&mut g, &params);
    }
    let p = g.position_of(0);
    assert_eq!(p.x, 100);
    assert_eq!(p.y, 200);
}

#[test]
fn coincident_nodes_feel_no_repulsion() {
    let params = coefficients(100.0, 0.0, 0.0);
    let mut g = two_nodes(false, 0);
    for _ in 0..5 {
        tick(&mut g, &params);
    }
    assert_eq!(g.position_of(0).x, g.position_of(1).x);
    assert_eq!(g.position_of(0).y, g.position_of(1).y);
    assert_eq!(distance(&g), 0.0);
}

#[test]
fn parallel_edges_accumulate_twice() {
    let params = coefficients(0.0, 10.0, 0.0);
    let single = vec![rec("a", "0", &["b"]), rec("b", "1", &[])];
    let double = vec![rec("a", "0", &["b", "b"]), rec("b", "1", &[])];
    let mut g1 = build_graph(single).unwrap();
    let mut g2 = build_graph(double).unwrap();
    for g in [&mut g1, &mut g2] {
        g.positions[0] = Position { x: -2500, y: 0 };
        g.positions[1] = Position { x: 2500, y: 0 };
        zero_displacements(g);
    }
    attraction(&mut g1, &params);
    attraction(&mut g2, &params);
    assert!(g1.disps[0].x > 0);
    assert_eq!(g2.disps[0].x, 2 * g1.disps[0].x);
    assert_eq!(g2.disps[1].x, 2 * g1.disps[1].x);
}

#[test]
fn centering_pulls_toward_the_origin() {
    let params = coefficients(0.0, 0.0, 0.001);
    let records = vec![rec("a", "0", &[])];
    let mut g = build_graph(records).unwrap();
    g.positions[0] = Position { x: 10_000, y: 0 };
    tick(&mut g, &params);
    let p = g.position_of(0);
    assert!(p.x < 10_000);
    assert!(p.x > 0);
    assert_eq!(p.y, 0);
}

#[test]
fn tick_resets_accumulators() {
    let params = Parameters::new();
    let mut g = two_nodes(true, 5000);
    tick(&mut g, &params);
    for i in 0..g.node_count() {
        assert_eq!(g.disps[i].x, 0);
        assert_eq!(g.disps[i].y, 0);
    }
}

#[test]
fn attraction_accumulates_the_exact_truncated_pull() {
    // separation 5000, attraction 10, default k = 198.164:
    // floor(5000 * 10_000_000 / 198_164_000) = 252 scaled steps.
    let params = coefficients(0.0, 10.0, 0.0);
    let mut g = two_nodes(true, 5000);
    zero_displacements(&mut g);
    attraction(&mut g, &params);
    assert_eq!(g.disps[0].x, 252);
    assert_eq!(g.disps[0].y, 0);
    assert_eq!(g.disps[1].x, -252);
    assert_eq!(g.disps[1].y, 0);
}
