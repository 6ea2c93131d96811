//! The graph model: nodes, directed dependency edges, and construction from
//! external node records.
//!
//! A graph is built once from a list of records (name, group tag, dependency
//! names). Dependency names are resolved to stable indices into the dense
//! node array; an unresolvable name aborts construction with a
//! [`GraphError`] carrying the offending reference. Nodes receive random
//! initial positions inside a fixed spawn square and a zeroed displacement
//! accumulator.

use crate::fixed::{DISP_LIMIT, POS_LIMIT};
use rand::Rng;
use vstd::prelude::*;

verus! {

/// Half-width of the square in which fresh nodes are spawned.
pub const SPAWN_RANGE: i64 = 50_000;

/// One external input record: a node and the names of the nodes it depends
/// on. The group tag is carried for presentation only; the layout math never
/// reads it.
#[derive(Clone, Debug)]
pub struct NodeRecord {
    /// Unique node name; dependency lists refer to these.
    pub name: String,
    /// Presentation-only group tag.
    pub group: String,
    /// Names of the nodes this record depends on.
    pub deps: Vec<String>,
}

/// The identity data of one node in the graph.
#[derive(Clone, Debug)]
pub struct NodeInfo {
    /// Unique node name.
    pub name: String,
    /// Presentation-only group tag.
    pub group: String,
}

/// A 2D node position in plain integer coordinates.
#[derive(Clone, Copy, Debug, PartialEq, Eq, Structural)]
pub struct Position {
    pub x: i64,
    pub y: i64,
}

/// The per-node displacement accumulator for the current tick.
#[derive(Clone, Copy, Debug, PartialEq, Eq, Structural)]
pub struct Displacement {
    pub x: i128,
    pub y: i128,
}

/// A directed edge between two nodes, by index into the node array.
#[derive(Clone, Copy, Debug, PartialEq, Eq, Structural)]
pub struct Edge {
    /// Index of the depending node.
    pub from: usize,
    /// Index of the node depended on.
    pub to: usize,
}

/// Why graph construction failed.
#[derive(Clone, Debug, PartialEq)]
pub enum GraphError {
    /// A record listed a dependency name that matches no node.
    UnresolvedDependency {
        /// Name of the node whose dependency list is malformed.
        node: String,
        /// The dependency name that resolved to no node.
        dependency: String,
    },
}

/// The layout state: a dense node array with positions and displacement
/// accumulators, and the directed edges between nodes.
pub struct Graph {
    /// Identity data, one entry per node.
    pub nodes: Vec<NodeInfo>,
    /// Current position, one entry per node.
    pub positions: Vec<Position>,
    /// Displacement accumulated during the current tick, one entry per node.
    pub disps: Vec<Displacement>,
    /// Directed dependency edges; duplicates are kept and each acts on its
    /// own.
    pub edges: Vec<Edge>,
}

/// A position inside the spawn square.
pub open spec fn in_spawn_range(p: Position) -> bool {
    &&& -SPAWN_RANGE <= p.x <= SPAWN_RANGE
    &&& -SPAWN_RANGE <= p.y <= SPAWN_RANGE
}

/// A position inside the absolute coordinate bounds of a well-formed graph.
pub open spec fn pos_in_bounds(p: Position) -> bool {
    &&& -POS_LIMIT <= p.x <= POS_LIMIT
    &&& -POS_LIMIT <= p.y <= POS_LIMIT
}

/// A displacement inside the accumulator's saturation bounds.
pub open spec fn disp_in_bounds(d: Displacement) -> bool {
    &&& -DISP_LIMIT <= d.x <= DISP_LIMIT
    &&& -DISP_LIMIT <= d.y <= DISP_LIMIT
}

/// Some record carries `name`.
pub open spec fn resolvable(records: Seq<NodeRecord>, name: Seq<char>) -> bool {
    exists|k: int| 0 <= k < records.len() && records[k].name@ == name
}

/// Every dependency of every record names some record.
pub open spec fn all_deps_resolvable(records: Seq<NodeRecord>) -> bool {
    forall|i: int, j: int|
        0 <= i < records.len() && 0 <= j < records[i].deps@.len() ==> resolvable(
            records,
            (#[trigger] records[i].deps@[j])@,
        )
}

/// Number of dependencies carried by the first `i` records: the index of the
/// first edge contributed by record `i`.
pub open spec fn deps_before(records: Seq<NodeRecord>, i: int) -> int
    decreases i,
{
    if i <= 0 {
        0
    } else {
        deps_before(records, i - 1) + records[i - 1].deps@.len()
    }
}

/// Total number of dependencies over all records.
pub open spec fn total_deps(records: Seq<NodeRecord>) -> int {
    deps_before(records, records.len() as int)
}

/// The edge produced for dependency `j` of record `i` sits at its flattened
/// index, points from `i`, and points to the first record carrying the
/// dependency's name.
pub open spec fn edge_resolves(records: Seq<NodeRecord>, edges: Seq<Edge>, i: int, j: int) -> bool {
    let e = edges[deps_before(records, i) + j];
    &&& e.from == i
    &&& 0 <= e.to < records.len()
    &&& records[e.to as int].name@ == records[i].deps@[j]@
    &&& forall|k: int| 0 <= k < e.to ==> records[k].name@ != records[i].deps@[j]@
}

/// `e` names the first dependency, in record order then list order, that no
/// record carries.
pub open spec fn is_first_unresolved(records: Seq<NodeRecord>, e: GraphError) -> bool {
    match e {
        GraphError::UnresolvedDependency { node, dependency } => exists|i: int, j: int|
            {
                &&& 0 <= i < records.len()
                &&& 0 <= j < records[i].deps@.len()
                &&& !resolvable(records, (#[trigger] records[i].deps@[j])@)
                &&& node@ == records[i].name@
                &&& dependency@ == records[i].deps@[j]@
                &&& forall|i2: int, j2: int|
                    0 <= i2 < records.len() && 0 <= j2 < records[i2].deps@.len() && (i2 < i || (i2
                        == i && j2 < j)) ==> resolvable(records, (#[trigger] records[i2].deps@[j2])@)
            },
    }
}

/// `deps_before` never decreases along the record list.
proof fn lemma_deps_before_mono(records: Seq<NodeRecord>, i: int, j: int)
    requires
        0 <= i <= j,
    ensures
        deps_before(records, i) <= deps_before(records, j),
    decreases j - i,
{
    if i < j {
        lemma_deps_before_mono(records, i, j - 1);
    }
}

impl Graph {
    /// Structural soundness: the per-node arrays agree in length, every edge
    /// points at existing nodes, and positions and accumulators sit inside
    /// the bounds the tick arithmetic needs.
    pub open spec fn wf(&self) -> bool {
        &&& self.positions@.len() == self.nodes@.len()
        &&& self.disps@.len() == self.nodes@.len()
        &&& forall|i: int|
            0 <= i < self.edges@.len() ==> (#[trigger] self.edges@[i]).from < self.nodes@.len()
                && self.edges@[i].to < self.nodes@.len()
        &&& forall|i: int|
            0 <= i < self.positions@.len() ==> pos_in_bounds(#[trigger] self.positions@[i])
        &&& forall|i: int| 0 <= i < self.disps@.len() ==> disp_in_bounds(#[trigger] self.disps@[i])
    }

    /// Number of nodes.
    pub fn node_count(&self) -> (n: usize)
        ensures
            n == self.nodes@.len(),
    {
        self.nodes.len()
    }

    /// Number of edges.
    pub fn edge_count(&self) -> (n: usize)
        ensures
            n == self.edges@.len(),
    {
        self.edges.len()
    }

    /// Current position of node `i`, for the rendering boundary.
    pub fn position_of(&self, i: usize) -> (p: Position)
        requires
            i < self.positions@.len(),
        ensures
            p == self.positions@[i as int],
    {
        self.positions[i]
    }

    /// Name of node `i`, for the rendering boundary.
    pub fn name_of(&self, i: usize) -> (name: &String)
        requires
            i < self.nodes@.len(),
        ensures
            name@ == self.nodes@[i as int].name@,
    {
        &self.nodes[i].name
    }

    /// Group tag of node `i`, for the rendering boundary.
    pub fn group_of(&self, i: usize) -> (group: &String)
        requires
            i < self.nodes@.len(),
        ensures
            group@ == self.nodes@[i as int].group@,
    {
        &self.nodes[i].group
    }

    /// Endpoints of edge `e`, for the rendering boundary.
    pub fn edge_of(&self, e: usize) -> (edge: Edge)
        requires
            e < self.edges@.len(),
        ensures
            edge == self.edges@[e as int],
    {
        self.edges[e]
    }
}

/// Relies on `rand::rng` and `rand::Rng::random_range`: a sample from a
/// non-empty inclusive integer range lies inside that range. Which value
/// comes back is the generator's choice; nothing more is assumed.
#[verifier::external_body]
fn random_coord(lo: i64, hi: i64) -> (r: i64)
    requires
        lo <= hi,
    ensures
        lo <= r <= hi,
{
    rand::rng().random_range(lo..=hi)
}

/// Index of the first record named `name`, if any.
fn find_index(records: &Vec<NodeRecord>, name: &String) -> (r: Option<usize>)
    ensures
        match r {
            Some(t) => {
                &&& t < records@.len()
                &&& records@[t as int].name@ == name@
                &&& forall|k: int| 0 <= k < t ==> records@[k].name@ != name@
            },
            None => !resolvable(records@, name@),
        },
{
    let n = records.len();
    let mut k: usize = 0;
    while k < n
        invariant
            k <= n,
            n == records@.len(),
            forall|k2: int| 0 <= k2 < k ==> records@[k2].name@ != name@,
        decreases n - k,
    {
        if records[k].name == *name {
            return Some(k);
        }
        k = k + 1;
    }
    None
}

/// Append `extra` to `base`: two node lists merged into one.
pub fn merge_node_lists(base: Vec<NodeRecord>, extra: Vec<NodeRecord>) -> (r: Vec<NodeRecord>)
    ensures
        r@ == base@ + extra@,
{
    let mut r = base;
    let mut rest = extra;
    let ghost base_view = r@;
    let ghost extra_view = rest@;
    let ghost mut taken: int = 0;
    while rest.len() > 0
        invariant
            0 <= taken <= extra_view.len(),
            r@ == base_view + extra_view.take(taken),
            rest@ == extra_view.skip(taken),
        decreases rest@.len(),
    {
        let rec = rest.remove(0);
        r.push(rec);
        proof {
            taken = taken + 1;
            assert(r@ =~= base_view + extra_view.take(taken));
            assert(rest@ =~= extra_view.skip(taken));
        }
    }
    proof {
        assert(r@ =~= base_view + extra_view);
    }
    r
}

/// Build the layout graph from external node records.
///
/// Succeeds exactly when every listed dependency names some record; the
/// node array then mirrors the records in order, every node starts inside
/// the spawn square with a zeroed accumulator, and the edges are the
/// flattened dependency lists resolved to first-match indices. Otherwise
/// the first unresolvable dependency is reported and nothing is built.
#[verifier::loop_isolation(false)]
pub fn build_graph(records: Vec<NodeRecord>) -> (r: Result<Graph, GraphError>)
    ensures
        r is Ok <==> all_deps_resolvable(records@),
        match r {
            Ok(g) => {
                &&& g.wf()
                &&& g.nodes@.len() == records@.len()
                &&& forall|i: int|
                    0 <= i < records@.len() ==> (#[trigger] g.nodes@[i]).name@
                        == records@[i].name@ && g.nodes@[i].group@ == records@[i].group@
                &&& forall|i: int|
                    0 <= i < records@.len() ==> in_spawn_range(#[trigger] g.positions@[i])
                &&& forall|i: int|
                    0 <= i < records@.len() ==> (#[trigger] g.disps@[i]) == (Displacement {
                        x: 0i128,
                        y: 0i128,
                    })
                &&& g.edges@.len() == total_deps(records@)
                &&& forall|i: int, j: int|
                    0 <= i < records@.len() && 0 <= j < records@[i].deps@.len()
                        ==> #[trigger] edge_resolves(records@, g.edges@, i, j)
            },
            Err(e) => is_first_unresolved(records@, e),
        },
{
    let n = records.len();
    let mut nodes: Vec<NodeInfo> = Vec::new();
    let mut positions: Vec<Position> = Vec::new();
    let mut disps: Vec<Displacement> = Vec::new();
    let mut idx: usize = 0;
    while idx < n
        invariant
            idx <= n,
            nodes@.len() == idx,
            positions@.len() == idx,
            disps@.len() == idx,
            forall|i: int|
                0 <= i < idx ==> (#[trigger] nodes@[i]).name@ == records@[i].name@
                    && nodes@[i].group@ == records@[i].group@,
            forall|i: int| 0 <= i < idx ==> in_spawn_range(#[trigger] positions@[i]),
            forall|i: int|
                0 <= i < idx ==> (#[trigger] disps@[i]) == (Displacement { x: 0i128, y: 0i128 }),
        decreases n - idx,
    {
        let rec = &records[idx];
        nodes.push(NodeInfo { name: rec.name.clone(), group: rec.group.clone() });
        let x = random_coord(-SPAWN_RANGE, SPAWN_RANGE);
        let y = random_coord(-SPAWN_RANGE, SPAWN_RANGE);
        positions.push(Position { x, y });
        disps.push(Displacement { x: 0, y: 0 });
        idx = idx + 1;
    }
    let mut edges: Vec<Edge> = Vec::new();
    let mut i: usize = 0;
    while i < n
        invariant
            i <= n,
            edges@.len() == deps_before(records@, i as int),
            forall|e: int|
                0 <= e < edges@.len() ==> (#[trigger] edges@[e]).from < n && edges@[e].to < n,
            forall|i2: int, j2: int|
                0 <= i2 < i && 0 <= j2 < records@[i2].deps@.len() ==> #[trigger] edge_resolves(
                    records@,
                    edges@,
                    i2,
                    j2,
                ),
            forall|i2: int, j2: int|
                0 <= i2 < i && 0 <= j2 < records@[i2].deps@.len() ==> resolvable(
                    records@,
                    (#[trigger] records@[i2].deps@[j2])@,
                ),
        decreases n - i,
    {
        let deps_len = records[i].deps.len();
        let mut j: usize = 0;
        while j < deps_len
            invariant
                j <= deps_len,
                i < n,
                deps_len == records@[i as int].deps@.len(),
                edges@.len() == deps_before(records@, i as int) + j,
                forall|e: int|
                    0 <= e < edges@.len() ==> (#[trigger] edges@[e]).from < n && edges@[e].to < n,
                forall|i2: int, j2: int|
                    0 <= i2 < i && 0 <= j2 < records@[i2].deps@.len()
                        ==> #[trigger] edge_resolves(records@, edges@, i2, j2),
                forall|i2: int, j2: int|
                    0 <= i2 < i && 0 <= j2 < records@[i2].deps@.len() ==> resolvable(
                        records@,
                        (#[trigger] records@[i2].deps@[j2])@,
                    ),
                forall|j2: int|
                    0 <= j2 < j ==> edge_resolves(records@, edges@, i as int, j2),
                forall|j2: int|
                    0 <= j2 < j ==> resolvable(records@, (#[trigger] records@[i as int].deps@[j2])@),
            decreases deps_len - j,
        {
            let dep = &records[i].deps[j];
            match find_index(&records, dep) {
                Some(t) => {
                    let ghost old_edges = edges@;
                    edges.push(Edge { from: i, to: t });
                    proof {
                        assert(edges@ == old_edges.push(Edge { from: i, to: t }));
                        assert forall|idx: int| 0 <= idx < old_edges.len() implies #[trigger] edges@[idx]
                            == old_edges[idx] by {
                            assert(old_edges.push(Edge { from: i, to: t })[idx] == old_edges[idx]);
                        }
                        assert forall|i2: int, j2: int|
                            0 <= i2 < i && 0 <= j2 < records@[i2].deps@.len()
                            implies #[trigger] edge_resolves(records@, edges@, i2, j2) by {
                            lemma_deps_before_mono(records@, 0, i2);
                            lemma_deps_before_mono(records@, i2 + 1, i as int);
                            assert(deps_before(records@, i2 + 1) == deps_before(records@, i2)
                                + records@[i2].deps@.len());
                            assert(deps_before(records@, i2) + j2 < old_edges.len());
                            assert(edge_resolves(records@, old_edges, i2, j2));
                            assert(edges@[deps_before(records@, i2) + j2] == old_edges[deps_before(
                                records@,
                                i2,
                            ) + j2]);
                        }
                        assert forall|j2: int| 0 <= j2 < j + 1 implies edge_resolves(
                            records@,
                            edges@,
                            i as int,
                            j2,
                        ) by {
                            if j2 < j {
                                assert(edge_resolves(records@, old_edges, i as int, j2));
                            }
                        }
                    }
                },
                None => {
                    proof {
                        assert(!resolvable(records@, records@[i as int].deps@[j as int]@));
                        assert(!all_deps_resolvable(records@));
                    }
                    return Err(
                        GraphError::UnresolvedDependency {
                            node: records[i].name.clone(),
                            dependency: dep.clone(),
                        },
                    );
                },
            }
            j = j + 1;
        }
        i = i + 1;
    }
    proof {
        assert forall|i2: int, j2: int|
            0 <= i2 < records@.len() && 0 <= j2 < records@[i2].deps@.len()
            implies resolvable(records@, (#[trigger] records@[i2].deps@[j2])@) by {}
        assert(all_deps_resolvable(records@));
    }
    Ok(Graph { nodes, positions, disps, edges })
}

} // verus!
