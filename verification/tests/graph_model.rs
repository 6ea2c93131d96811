use forcelayout::graph::{build_graph, merge_node_lists, GraphError, NodeRecord, SPAWN_RANGE};

fn rec(name: &str, group: &str, deps: &[&str]) -> NodeRecord {
    NodeRecord {
        name: name.to_string(),
        group: group.to_string(),
        deps: deps.iter().map(|d| d.to_string()).collect(),
    }
}

#[test]
fn build_resolves_dependencies_in_order() {
    let records = vec![
        rec("a", "0", &["b", "c"]),
        rec("b", "1", &["c"]),
        rec("c", "1", &[]),
    ];
    let g = build_graph(records).unwrap();
    assert_eq!(g.node_count(), 3);
    assert_eq!(g.edge_count(), 3);
    let e0 = g.edge_of(0);
    let e1 = g.edge_of(1);
    let e2 = g.edge_of(2);
    assert_eq!((e0.from, e0.to), (0, 1));
    assert_eq!((e1.from, e1.to), (0, 2));
    assert_eq!((e2.from, e2.to), (1, 2));
    assert_eq!(g.name_of(0), "a");
    assert_eq!(g.group_of(0), "0");
    assert_eq!(g.name_of(2), "c");
}

#[test]
fn build_keeps_parallel_edges() {
    let records = vec![rec("a", "0", &["b", "b"]), rec("b", "1", &[])];
    let g = build_graph(records).unwrap();
    assert_eq!(g.edge_count(), 2);
    assert_eq!((g.edge_of(0).from, g.edge_of(0).to), (0, 1));
    assert_eq!((g.edge_of(1).from, g.edge_of(1).to), (0, 1));
}

#[test]
fn build_fails_naming_the_missing_dependency() {
    let records = vec![rec("a", "0", &["missing"]), rec("b", "1", &[])];
    match build_graph(records) {
        Err(GraphError::UnresolvedDependency { node, dependency }) => {
            assert_eq!(node, "a");
            assert_eq!(dependency, "missing");
        }
        Ok(_) => panic!("construction should fail on an unresolved dependency"),
    }
}

#[test]
fn build_reports_the_first_unresolved_dependency() {
    let records = vec![
        rec("a", "0", &["b"]),
        rec("b", "1", &["ghost", "phantom"]),
    ];
    match build_graph(records) {
        Err(GraphError::UnresolvedDependency { node, dependency }) => {
            assert_eq!(node, "b");
            assert_eq!(dependency, "ghost");
        }
        Ok(_) => panic!("construction should fail on an unresolved dependency"),
    }
}

#[test]
fn build_spawns_inside_the_spawn_square_with_zero_displacement() {
    let records = vec![rec("a", "0", &[]), rec("b", "0", &[]), rec("c", "0", &[])];
    let g = build_graph(records).unwrap();
    for i in 0..g.node_count() {
        let p = g.position_of(i);
        assert!(-SPAWN_RANGE <= p.x && p.x <= SPAWN_RANGE);
        assert!(-SPAWN_RANGE <= p.y && p.y <= SPAWN_RANGE);
        assert_eq!(g.disps[i].x, 0);
        assert_eq!(g.disps[i].y, 0);
    }
}

#[test]
fn merge_appends_the_second_list() {
    let a = vec![rec("a", "0", &[]), rec("b", "0", &[])];
    let b = vec![rec("c", "1", &[])];
    let merged = merge_node_lists(a, b);
    assert_eq!(merged.len(), 3);
    assert_eq!(merged[0].name, "a");
    assert_eq!(merged[1].name, "b");
    assert_eq!(merged[2].name, "c");
}

#[test]
fn self_loops_are_tolerated() {
    let records = vec![rec("a", "0", &["a"])];
    let g = build_graph(records).unwrap();
    assert_eq!(g.edge_count(), 1);
    assert_eq!((g.edge_of(0).from, g.edge_of(0).to), (0, 0));
}
