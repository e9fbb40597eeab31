//! The relation graph: a directed graph over task identifiers whose edges
//! carry a relation type, kept in petgraph's `DiGraphMap`.
use petgraph::graphmap::DiGraphMap;
use vstd::prelude::*;

verus! {

/// The type of a relation from one task to another.
#[derive(Debug, Clone, Copy, PartialEq, Eq, Structural)]
pub enum RelationType {
    /// The source is a subtask of the target.
    Compose,
    /// The source must be accepted before the target may be.
    Require,
}

#[verifier::external_type_specification]
#[verifier::external_body]
#[verifier::reject_recursive_types(N)]
#[verifier::reject_recursive_types(E)]
#[verifier::reject_recursive_types(Ty)]
#[verifier::reject_recursive_types(S)]
pub struct ExGraphMap<N, E, Ty, S: std::hash::BuildHasher>(
    petgraph::graphmap::GraphMap<N, E, Ty, S>,
);

#[verifier::external_type_specification]
#[verifier::external_body]
pub struct ExDirected(petgraph::Directed);

/// The edges of a graph, keyed by (source, target).
pub uninterp spec fn graph_edges(g: DiGraphMap<u128, RelationType>) -> Map<(u128, u128), RelationType>;

/// The nodes of a graph.
pub uninterp spec fn graph_nodes(g: DiGraphMap<u128, RelationType>) -> Set<u128>;


/// `p` is a walk along edges: one or more nodes, each joined to the next.
pub open spec fn is_path(edges: Map<(u128, u128), RelationType>, p: Seq<u128>) -> bool {
    &&& p.len() >= 1
    &&& forall|i: int| 0 <= i < p.len() - 1 ==> #[trigger] edges.contains_key((p[i], p[i + 1]))
}

/// There is a walk, possibly of no edge, from `a` to `b`.
pub open spec fn reachable(edges: Map<(u128, u128), RelationType>, a: u128, b: u128) -> bool {
    exists|p: Seq<u128>| #[trigger] is_path(edges, p) && p[0] == a && p.last() == b
}

/// No walk of one or more edges returns to where it started.
pub open spec fn acyclic(edges: Map<(u128, u128), RelationType>) -> bool {
    forall|p: Seq<u128>| #[trigger] is_path(edges, p) && p.len() >= 2 ==> p[0] != p.last()
}

/// Every edge joins two nodes of `nodes`.
pub open spec fn edges_within(edges: Map<(u128, u128), RelationType>, nodes: Set<u128>) -> bool {
    forall|k: (u128, u128)| #[trigger] edges.contains_key(k) ==> nodes.contains(k.0) && nodes.contains(k.1)
}

/// `order` lists each node once, every source before its target.
pub open spec fn is_topological_order(
    edges: Map<(u128, u128), RelationType>,
    nodes: Set<u128>,
    order: Seq<u128>,
) -> bool {
    &&& order.no_duplicates()
    &&& order.to_set() == nodes
    &&& forall|i: int, j: int|
        0 <= i < order.len() && 0 <= j < order.len() && #[trigger] edges.contains_key(
            (order[i], order[j]),
        ) ==> i < j
}

/// The edges that remain once `n` and every edge touching it are gone.
pub open spec fn edges_without(edges: Map<(u128, u128), RelationType>, n: u128) -> Map<(u128, u128), RelationType> {
    Map::new(|k: (u128, u128)| edges.contains_key(k) && k.0 != n && k.1 != n, |k: (u128, u128)| edges[k])
}

/// Along a walk, positions in a topological order strictly increase.
proof fn lemma_path_ascends(
    edges: Map<(u128, u128), RelationType>,
    nodes: Set<u128>,
    order: Seq<u128>,
    p: Seq<u128>,
    k: int,
)
    requires
        edges_within(edges, nodes),
        is_topological_order(edges, nodes, order),
        is_path(edges, p),
        1 <= k < p.len(),
    ensures
        0 <= order.index_of(p[0]) < order.index_of(p[k]) < order.len(),
        order[order.index_of(p[0])] == p[0],
        order[order.index_of(p[k])] == p[k],
    decreases k,
{
    assert(edges.contains_key((p[k - 1], p[k - 1 + 1])));
    assert(order.to_set().contains(p[k]));
    assert(order.contains(p[k]));
    assert(order.to_set().contains(p[k - 1]));
    assert(order.contains(p[k - 1]));
    let a = order.index_of(p[k - 1]);
    let b = order.index_of(p[k]);
    assert(edges.contains_key((order[a], order[b])));
    if k > 1 {
        lemma_path_ascends(edges, nodes, order, p, k - 1);
    }
}

/// A graph with a topological order has no cycle.
pub proof fn lemma_topological_order_acyclic(
    edges: Map<(u128, u128), RelationType>,
    nodes: Set<u128>,
    order: Seq<u128>,
)
    requires
        edges_within(edges, nodes),
        is_topological_order(edges, nodes, order),
    ensures
        acyclic(edges),
{
    assert forall|p: Seq<u128>| #[trigger] is_path(edges, p) && p.len() >= 2 implies p[0] != p.last() by {
        lemma_path_ascends(edges, nodes, order, p, p.len() - 1);
    }
}

/// A walk from `t` to `f` that may use the new edge `f -> t` can be cut
/// down to one that does not.
proof fn lemma_walk_without_new_edge(
    edges: Map<(u128, u128), RelationType>,
    f: u128,
    t: u128,
    w: RelationType,
    q: Seq<u128>,
)
    requires
        is_path(edges.insert((f, t), w), q),
        q[0] == t,
        q.last() == f,
    ensures
        reachable(edges, t, f),
    decreases q.len(),
{
    let e2 = edges.insert((f, t), w);
    if exists|k: int| 0 <= k < q.len() - 1 && #[trigger] q[k] == f && q[k + 1] == t {
        let k = choose|k: int| 0 <= k < q.len() - 1 && #[trigger] q[k] == f && q[k + 1] == t;
        let r = q.subrange(k + 1, q.len() as int);
        assert forall|i: int| 0 <= i < r.len() - 1 implies #[trigger] e2.contains_key((r[i], r[i + 1])) by {
            assert(e2.contains_key((q[k + 1 + i], q[k + 1 + i + 1])));
        }
        lemma_walk_without_new_edge(edges, f, t, w, r);
    } else {
        assert forall|i: int| 0 <= i < q.len() - 1 implies #[trigger] edges.contains_key((q[i], q[i + 1])) by {
            assert(e2.contains_key((q[i], q[i + 1])));
        }
        assert(is_path(edges, q));
    }
}

/// Adding the edge `f -> t` keeps a graph acyclic when no walk leads from `t`
/// to `f`.
pub proof fn lemma_add_edge_acyclic(
    edges: Map<(u128, u128), RelationType>,
    f: u128,
    t: u128,
    w: RelationType,
)
    requires
        acyclic(edges),
        !reachable(edges, t, f),
    ensures
        acyclic(edges.insert((f, t), w)),
{
    let e2 = edges.insert((f, t), w);
    assert forall|p: Seq<u128>| #[trigger] is_path(e2, p) && p.len() >= 2 implies p[0] != p.last() by {
        if p[0] == p.last() {
            let n = p.len() as int;
            if exists|k: int| 0 <= k < n - 1 && #[trigger] p[k] == f && p[k + 1] == t {
                let k = choose|k: int| 0 <= k < n - 1 && #[trigger] p[k] == f && p[k + 1] == t;
                let q = p.subrange(k + 1, n) + p.subrange(1, k + 1);
                assert forall|i: int| 0 <= i < q.len() - 1 implies #[trigger] e2.contains_key((q[i], q[i + 1])) by {
                    if i < n - k - 2 {
                        assert(e2.contains_key((p[k + 1 + i], p[k + 1 + i + 1])));
                    } else if i == n - k - 2 {
                        assert(e2.contains_key((p[0int], p[0int + 1])));
                    } else {
                        let m = i - (n - k - 1) + 1;
                        assert(e2.contains_key((p[m], p[m + 1])));
                    }
                }
                assert(q.last() == f);
                lemma_walk_without_new_edge(edges, f, t, w, q);
            } else {
                assert forall|i: int| 0 <= i < p.len() - 1 implies #[trigger] edges.contains_key((p[i], p[i + 1])) by {
                    assert(e2.contains_key((p[i], p[i + 1])));
                }
                assert(is_path(edges, p));
            }
        }
    }
}

/// Every node reaches itself.
pub proof fn lemma_reachable_self(edges: Map<(u128, u128), RelationType>, a: u128)
    ensures
        reachable(edges, a, a),
{
    assert(is_path(edges, seq![a]));
}

/// A walk to `s` goes on over the edge `s -> t`.
pub proof fn lemma_reachable_step(edges: Map<(u128, u128), RelationType>, a: u128, s: u128, t: u128)
    requires
        reachable(edges, a, s),
        edges.contains_key((s, t)),
    ensures
        reachable(edges, a, t),
{
    let p = choose|p: Seq<u128>| #[trigger] is_path(edges, p) && p[0] == a && p.last() == s;
    let q = p.push(t);
    assert forall|i: int| 0 <= i < q.len() - 1 implies #[trigger] edges.contains_key((q[i], q[i + 1])) by {
        if i < p.len() - 1 {
            assert(edges.contains_key((p[i], p[i + 1])));
        }
    }
    assert(is_path(edges, q));
}

/// What a node reaches, other than itself, comes after it in a topological
/// order.
pub proof fn lemma_reachable_later(
    edges: Map<(u128, u128), RelationType>,
    nodes: Set<u128>,
    order: Seq<u128>,
    a: u128,
    b: u128,
)
    requires
        edges_within(edges, nodes),
        is_topological_order(edges, nodes, order),
        reachable(edges, a, b),
        a != b,
    ensures
        0 <= order.index_of(a) < order.index_of(b) < order.len(),
        order[order.index_of(a)] == a,
        order[order.index_of(b)] == b,
{
    let p = choose|p: Seq<u128>| #[trigger] is_path(edges, p) && p[0] == a && p.last() == b;
    lemma_path_ascends(edges, nodes, order, p, p.len() - 1);
}

/// A task outside the graph reaches only itself.
pub proof fn lemma_reachable_outside(
    edges: Map<(u128, u128), RelationType>,
    nodes: Set<u128>,
    a: u128,
    b: u128,
)
    requires
        edges_within(edges, nodes),
        !nodes.contains(a),
        reachable(edges, a, b),
    ensures
        a == b,
{
    let p = choose|p: Seq<u128>| #[trigger] is_path(edges, p) && p[0] == a && p.last() == b;
    if p.len() > 1 {
        assert(edges.contains_key((p[0int], p[0int + 1])));
    }
}

/// Dropping edges keeps a graph acyclic.
pub proof fn lemma_fewer_edges_acyclic(
    fewer: Map<(u128, u128), RelationType>,
    edges: Map<(u128, u128), RelationType>,
)
    requires
        acyclic(edges),
        forall|k: (u128, u128)| #[trigger] fewer.contains_key(k) ==> edges.contains_key(k),
    ensures
        acyclic(fewer),
{
    assert forall|p: Seq<u128>| #[trigger] is_path(fewer, p) && p.len() >= 2 implies p[0] != p.last() by {
        assert forall|i: int| 0 <= i < p.len() - 1 implies #[trigger] edges.contains_key((p[i], p[i + 1])) by {
            assert(fewer.contains_key((p[i], p[i + 1])));
        }
        assert(is_path(edges, p));
    }
}

/// Relies on GraphMap::new: a graph without nodes or edges.
#[verifier::external_body]
pub(crate) fn graph_new() -> (r: DiGraphMap<u128, RelationType>)
    ensures
        graph_edges(r).dom().is_empty(),
        graph_nodes(r).is_empty(),
{
    DiGraphMap::new()
}

/// Relies on GraphMap::add_node: the node is added if absent, edges are kept.
#[verifier::external_body]
pub(crate) fn graph_add_node(g: &mut DiGraphMap<u128, RelationType>, n: u128)
    ensures
        graph_nodes(*final(g)) == graph_nodes(*old(g)).insert(n),
        graph_edges(*final(g)) == graph_edges(*old(g)),
{
    g.add_node(n);
}

/// Relies on GraphMap::remove_node: the node goes, with every edge to or from it.
#[verifier::external_body]
pub(crate) fn graph_remove_node(g: &mut DiGraphMap<u128, RelationType>, n: u128)
    ensures
        graph_nodes(*final(g)) == graph_nodes(*old(g)).remove(n),
        graph_edges(*final(g)) == edges_without(graph_edges(*old(g)), n),
{
    g.remove_node(n);
}

/// Relies on GraphMap::add_edge: the edge from `a` to `b` is set to `w`, and
/// both endpoints become nodes.
#[verifier::external_body]
pub(crate) fn graph_add_edge(g: &mut DiGraphMap<u128, RelationType>, a: u128, b: u128, w: RelationType)
    ensures
        graph_edges(*final(g)) == graph_edges(*old(g)).insert((a, b), w),
        graph_nodes(*final(g)) == graph_nodes(*old(g)).insert(a).insert(b),
{
    g.add_edge(a, b, w);
}

/// Relies on GraphMap::remove_edge: the edge from `a` to `b` goes if present;
/// nodes are kept.
#[verifier::external_body]
pub(crate) fn graph_remove_edge(g: &mut DiGraphMap<u128, RelationType>, a: u128, b: u128)
    ensures
        graph_edges(*final(g)) == graph_edges(*old(g)).remove((a, b)),
        graph_nodes(*final(g)) == graph_nodes(*old(g)),
{
    g.remove_edge(a, b);
}

/// Relies on GraphMap::edge_weight: the type of the edge from `a` to `b`, if any.
#[verifier::external_body]
pub(crate) fn graph_edge_weight(g: &DiGraphMap<u128, RelationType>, a: u128, b: u128) -> (r: Option<RelationType>)
    ensures
        r == (if graph_edges(*g).contains_key((a, b)) {
            Some(graph_edges(*g)[(a, b)])
        } else {
            None
        }),
{
    g.edge_weight(a, b).copied()
}

/// Relies on GraphMap::edges_directed with `Incoming`: every edge into `t`,
/// as (source, type).
#[verifier::external_body]
pub(crate) fn graph_incoming(g: &DiGraphMap<u128, RelationType>, t: u128) -> (r: Vec<(u128, RelationType)>)
    ensures
        forall|i: int| 0 <= i < r@.len() ==> #[trigger] graph_edges(*g).contains_key((r@[i].0, t))
            && graph_edges(*g)[(r@[i].0, t)] == r@[i].1,
        forall|s: u128| #[trigger] graph_edges(*g).contains_key((s, t))
            ==> exists|i: int| 0 <= i < r@.len() && r@[i].0 == s,
{
    g.edges_directed(t, petgraph::Direction::Incoming).map(|(s, _, w)| (s, *w)).collect()
}

/// Relies on GraphMap::all_edges: every edge once, as (source, target, type).
#[verifier::external_body]
pub(crate) fn graph_all_edges(g: &DiGraphMap<u128, RelationType>) -> (r: Vec<(u128, u128, RelationType)>)
    ensures
        forall|i: int| 0 <= i < r@.len() ==> #[trigger] graph_edges(*g).contains_key((r@[i].0, r@[i].1))
            && graph_edges(*g)[(r@[i].0, r@[i].1)] == r@[i].2,
        forall|k: (u128, u128)| #[trigger] graph_edges(*g).contains_key(k)
            ==> exists|i: int| 0 <= i < r@.len() && r@[i].0 == k.0 && r@[i].1 == k.1,
        forall|i: int, j: int| 0 <= i < j < r@.len() ==> (#[trigger] r@[i].0, r@[i].1) != (#[trigger] r@[j].0, r@[j].1),
{
    g.all_edges().map(|(a, b, w)| (a, b, *w)).collect()
}

/// Relies on GraphMap::nodes: each node once.
#[verifier::external_body]
pub(crate) fn graph_node_list(g: &DiGraphMap<u128, RelationType>) -> (r: Vec<u128>)
    ensures
        r@.no_duplicates(),
        r@.to_set() == graph_nodes(*g),
{
    g.nodes().collect()
}

/// Relies on petgraph::algo::has_path_connecting: whether a walk leads from
/// `a` to `b` (always when they are equal).
#[verifier::external_body]
pub(crate) fn graph_has_path(g: &DiGraphMap<u128, RelationType>, a: u128, b: u128) -> (r: bool)
    ensures
        r == reachable(graph_edges(*g), a, b),
{
    petgraph::algo::has_path_connecting(g, a, b, None)
}

/// Relies on petgraph::algo::toposort: on an acyclic graph, each node once
/// with every node before its successors; a cycle is an error.
#[verifier::external_body]
pub(crate) fn graph_toposort(g: &DiGraphMap<u128, RelationType>) -> (r: Option<Vec<u128>>)
    ensures
        acyclic(graph_edges(*g)) ==> r is Some,
        r matches Some(order) ==> is_topological_order(graph_edges(*g), graph_nodes(*g), order@),
{
    petgraph::algo::toposort(g, None).ok()
}

} // verus!
