//! The task network aggregate: a status schema, a relation graph and the
//! status of each task, kept consistent by acceptance propagation.
use crate::error::TaskDomainError;
use crate::kernel::{Entity, Id};
use crate::relations::{
    acyclic, edges_within, edges_without, graph_add_edge, graph_all_edges, graph_add_node, graph_edge_weight,
    graph_edges, graph_has_path, graph_incoming, graph_new, graph_node_list, graph_nodes,
    graph_remove_edge, graph_remove_node, graph_toposort, is_topological_order,
    lemma_add_edge_acyclic, lemma_fewer_edges_acyclic, lemma_reachable_later, lemma_reachable_outside,
    lemma_reachable_self, lemma_reachable_step, lemma_topological_order_acyclic, reachable,
};
use crate::task::Task;
use petgraph::graphmap::DiGraphMap;
use std::collections::HashMap;
use vstd::prelude::*;
use vstd::set_lib::{lemma_int_range, lemma_len_subset, set_int_range};

pub use crate::relations::RelationType;

verus! {

broadcast use vstd::std_specs::hash::group_hash_axioms;

/// Represents a network of tasks and their relations.
#[derive(Debug)]
pub struct Net {
    relations: DiGraphMap<u128, RelationType>,
    schema: Schema,
    tasks: HashMap<u128, u128>,
}

/// The status schema of a network: its statuses, and which of them are the
/// default and the accepted status.
#[derive(Debug)]
pub struct Schema {
    status: Vec<Entity<Status>>,
    default: Id<Status>,
    accepted: Id<Status>,
}

/// Represents the status of a task.
#[derive(Debug)]
pub struct Status {
    pub name: String,
}

/// What a network holds, as mathematical values.
pub struct NetView {
    /// The schema's statuses in order, as (id, name).
    pub statuses: Seq<(u128, Seq<char>)>,
    pub default: u128,
    pub accepted: u128,
    /// The status of each task.
    pub tasks: Map<u128, u128>,
    /// The nodes of the relation graph.
    pub nodes: Set<u128>,
    /// The relation graph's edges, keyed by (from, to).
    pub edges: Map<(u128, u128), RelationType>,
}

/// Some edge leads into `t`.
pub open spec fn has_incoming(edges: Map<(u128, u128), RelationType>, t: u128) -> bool {
    exists|s: u128| #[trigger] edges.contains_key((s, t))
}

/// The source of every edge into `t` has the accepted status.
pub open spec fn parents_accepted(
    edges: Map<(u128, u128), RelationType>,
    st: Map<u128, u128>,
    t: u128,
    accepted: u128,
) -> bool {
    forall|s: u128| #[trigger] edges.contains_key((s, t)) ==> st[s] == accepted
}

/// Some `Compose` edge leads into `t`.
pub open spec fn has_compose(edges: Map<(u128, u128), RelationType>, t: u128) -> bool {
    exists|s: u128| #[trigger] edges.contains_key((s, t)) && edges[(s, t)] == RelationType::Compose
}

/// How the relations into `t` decide its acceptance: `None` when they leave
/// its status alone, else whether it is accepted.
pub open spec fn acceptance(
    edges: Map<(u128, u128), RelationType>,
    st: Map<u128, u128>,
    t: u128,
    accepted: u128,
) -> Option<bool> {
    if !has_incoming(edges, t) {
        None
    } else if !parents_accepted(edges, st, t, accepted) {
        Some(false)
    } else if has_compose(edges, t) {
        Some(true)
    } else {
        None
    }
}

/// The status that propagation gives a task whose status is `cur`, given the
/// statuses `st` of its parents.
pub open spec fn settle(
    edges: Map<(u128, u128), RelationType>,
    st: Map<u128, u128>,
    t: u128,
    cur: u128,
    default: u128,
    accepted: u128,
) -> u128 {
    match acceptance(edges, st, t, accepted) {
        Some(true) => accepted,
        Some(false) => if cur == accepted {
            default
        } else {
            cur
        },
        None => cur,
    }
}

/// `post` is what propagation makes of `pre`: each task holds the settled
/// value of its earlier status, given the new statuses of its parents.
/// On an acyclic graph this fixes `post` (see `lemma_propagation_result_unique`).
pub open spec fn propagated(
    edges: Map<(u128, u128), RelationType>,
    default: u128,
    accepted: u128,
    pre: Map<u128, u128>,
    post: Map<u128, u128>,
) -> bool {
    &&& post.dom() == pre.dom()
    &&& forall|t: u128| #[trigger]
        pre.contains_key(t) ==> post[t] == settle(edges, post, t, pre[t], default, accepted)
}

/// Every task that held `from` holds `to` instead.
pub open spec fn reassigned(m: Map<u128, u128>, from: u128, to: u128) -> Map<u128, u128> {
    Map::new(
        |k: u128| m.contains_key(k),
        |k: u128|
            if m[k] == from {
                to
            } else {
                m[k]
            },
    )
}

impl NetView {
    /// The schema holds a status with id `sid`.
    pub open spec fn has_status(self, sid: u128) -> bool {
        exists|i: int| 0 <= i < self.statuses.len() && #[trigger] self.statuses[i].0 == sid
    }

    /// Propagation would leave the status of `t` as it is.
    pub open spec fn settled_at(self, t: u128) -> bool {
        settle(self.edges, self.tasks, t, self.tasks[t], self.default, self.accepted)
            == self.tasks[t]
    }

    /// The schema's ids are unique and hold the default and the accepted
    /// status; every task holds a status of the schema; the graph's nodes are
    /// the tasks, and its edges join tasks.
    pub open spec fn sound(self) -> bool {
        &&& forall|i: int, j: int|
            0 <= i < self.statuses.len() && 0 <= j < self.statuses.len() && i != j
                ==> #[trigger] self.statuses[i].0 != #[trigger] self.statuses[j].0
        &&& self.has_status(self.default)
        &&& self.has_status(self.accepted)
        &&& forall|t: u128| #[trigger] self.tasks.contains_key(t) ==> self.has_status(self.tasks[t])
        &&& self.nodes == self.tasks.dom()
        &&& edges_within(self.edges, self.nodes)
    }

    /// The relation graph has a topological order.
    pub open spec fn ordered(self) -> bool {
        exists|o: Seq<u128>| is_topological_order(self.edges, self.nodes, o)
    }

    /// Every invariant but the propagation fixpoint.
    pub open spec fn structured(self) -> bool {
        self.sound() && self.ordered()
    }

    /// Every task is at the propagation fixpoint.
    pub open spec fn settled(self) -> bool {
        forall|t: u128| #[trigger] self.tasks.contains_key(t) ==> self.settled_at(t)
    }

    /// The invariants of a network.
    pub open spec fn wf(self) -> bool {
        self.structured() && self.settled()
    }

    /// `next` is `self` with one more status, named `name`, whose id the
    /// schema did not hold.
    pub open spec fn adds_status(self, name: Seq<char>, next: NetView) -> bool {
        &&& next.statuses.len() == self.statuses.len() + 1
        &&& !self.has_status(next.statuses.last().0)
        &&& next == (NetView { statuses: self.statuses.push((next.statuses.last().0, name)), ..self })
    }

    /// `next` is `self` with `d` as its default status, every task that held
    /// the former default holding `d`.
    pub open spec fn changes_default(self, d: u128, next: NetView) -> bool {
        next == (NetView { tasks: reassigned(self.tasks, self.default, d), default: d, ..self })
    }

    /// `next` is `self` with the accepted status `d` as its default status,
    /// every task that held the former default holding `d`, then propagated.
    pub open spec fn changes_default_propagated(self, d: u128, next: NetView) -> bool {
        &&& next == (NetView { tasks: next.tasks, default: d, ..self })
        &&& propagated(
            self.edges,
            d,
            self.accepted,
            reassigned(self.tasks, self.default, d),
            next.tasks,
        )
    }

    /// `next` is `self` without the status `sid`, every task that held it
    /// holding the default status, then propagated.
    pub open spec fn removes_status(self, sid: u128, next: NetView) -> bool {
        &&& exists|p: int|
            0 <= p < self.statuses.len() && #[trigger] self.statuses[p].0 == sid && next.statuses
                == self.statuses.remove(p)
        &&& next == (NetView { statuses: next.statuses, tasks: next.tasks, ..self })
        &&& propagated(
            self.edges,
            self.default,
            self.accepted,
            reassigned(self.tasks, sid, self.default),
            next.tasks,
        )
    }

    /// `next` is `self` with the edge `f -> t` set to `w`, then propagated.
    pub open spec fn adds_relation(self, f: u128, t: u128, w: RelationType, next: NetView) -> bool {
        &&& next == (NetView { tasks: next.tasks, edges: self.edges.insert((f, t), w), ..self })
        &&& propagated(next.edges, self.default, self.accepted, self.tasks, next.tasks)
    }

    /// `next` is `self` without the edge `f -> t`, then propagated.
    pub open spec fn removes_relation(self, f: u128, t: u128, next: NetView) -> bool {
        &&& next == (NetView { tasks: next.tasks, edges: self.edges.remove((f, t)), ..self })
        &&& propagated(next.edges, self.default, self.accepted, self.tasks, next.tasks)
    }

    /// `next` is `self` with the task `t` holding `sid`, then propagated.
    pub open spec fn sets_task_status(self, t: u128, sid: u128, next: NetView) -> bool {
        &&& next == (NetView { tasks: next.tasks, ..self })
        &&& propagated(self.edges, self.default, self.accepted, self.tasks.insert(t, sid), next.tasks)
    }

    /// `next` is `self` with the task `t` added, holding the default status.
    pub open spec fn adds_task(self, t: u128, next: NetView) -> bool {
        next == (NetView {
            tasks: self.tasks.insert(t, self.default),
            nodes: self.nodes.insert(t),
            ..self
        })
    }

    /// `next` is `self` without the task `t` and its edges, then propagated.
    pub open spec fn removes_task(self, t: u128, next: NetView) -> bool {
        &&& next == (NetView {
            tasks: next.tasks,
            nodes: self.nodes.remove(t),
            edges: edges_without(self.edges, t),
            ..self
        })
        &&& propagated(next.edges, self.default, self.accepted, self.tasks.remove(t), next.tasks)
    }
}

impl View for Entity<Net> {
    type V = NetView;

    closed spec fn view(&self) -> NetView {
        NetView {
            statuses: self.data.schema.status@.map_values(
                |e: Entity<Status>| (e.id.id, e.data.name@),
            ),
            default: self.data.schema.default.id,
            accepted: self.data.schema.accepted.id,
            tasks: self.data.tasks@,
            nodes: graph_nodes(self.data.relations),
            edges: graph_edges(self.data.relations),
        }
    }
}

/// The settled value depends only on the edges into `t` and on the statuses
/// of their sources.
proof fn lemma_settle_frame(
    e1: Map<(u128, u128), RelationType>,
    e2: Map<(u128, u128), RelationType>,
    st1: Map<u128, u128>,
    st2: Map<u128, u128>,
    t: u128,
    cur: u128,
    default: u128,
    accepted: u128,
)
    requires
        forall|s: u128|
            #![trigger e1.contains_key((s, t))]
            #![trigger e2.contains_key((s, t))]
            e1.contains_key((s, t)) == e2.contains_key((s, t)),
        forall|s: u128|
            #![trigger e1.contains_key((s, t))]
            #![trigger e2.contains_key((s, t))]
            e1.contains_key((s, t)) ==> e1[(s, t)] == e2[(s, t)] && st1[s] == st2[s],
    ensures
        settle(e1, st1, t, cur, default, accepted) == settle(e2, st2, t, cur, default, accepted),
{
    assert(has_incoming(e1, t) == has_incoming(e2, t));
    assert(parents_accepted(e1, st1, t, accepted) == parents_accepted(e2, st2, t, accepted));
    assert(has_compose(e1, t) == has_compose(e2, t));
}

/// Settling twice settles once.
proof fn lemma_settle_idempotent(
    edges: Map<(u128, u128), RelationType>,
    st: Map<u128, u128>,
    t: u128,
    cur: u128,
    default: u128,
    accepted: u128,
)
    ensures
        settle(edges, st, t, settle(edges, st, t, cur, default, accepted), default, accepted)
            == settle(edges, st, t, cur, default, accepted),
        settle(edges, st, t, cur, default, accepted) == cur || settle(
            edges,
            st,
            t,
            cur,
            default,
            accepted,
        ) == default || settle(edges, st, t, cur, default, accepted) == accepted,
{
}

/// What propagation yields is at the fixpoint, and holds the earlier status,
/// the default or the accepted status of each task.
proof fn lemma_propagated_settles(v: NetView, post: Map<u128, u128>)
    requires
        propagated(v.edges, v.default, v.accepted, v.tasks, post),
    ensures
        (NetView { tasks: post, ..v }).settled(),
        forall|t: u128| #[trigger]
            post.contains_key(t) ==> post[t] == v.tasks[t] || post[t] == v.default || post[t]
                == v.accepted,
{
    assert forall|t: u128| #[trigger] post.contains_key(t) implies (NetView {
        tasks: post,
        ..v
    }).settled_at(t) && (post[t] == v.tasks[t] || post[t] == v.default || post[t]
        == v.accepted) by {
        assert(v.tasks.contains_key(t));
        lemma_settle_idempotent(v.edges, post, t, v.tasks[t], v.default, v.accepted);
    }
}

/// Adding a task and then removing it gives back the network as it was.
pub proof fn lemma_add_then_remove_task(v0: NetView, v1: NetView, v2: NetView, t: u128)
    requires
        v0.wf(),
        !v0.tasks.contains_key(t),
        v0.adds_task(t, v1),
        v1.removes_task(t, v2),
    ensures
        v2 == v0,
{
    assert(v1.tasks.remove(t) =~= v0.tasks);
    assert(v0.nodes.insert(t).remove(t) =~= v0.nodes);
    assert(edges_without(v0.edges, t) =~= v0.edges);
    lemma_propagation_idempotent(v0, v2.tasks);
}

/// Two additions of a status with the same name give two distinct ids, both
/// in the schema.
pub proof fn lemma_new_status_twice(v0: NetView, v1: NetView, v2: NetView, name: Seq<char>)
    requires
        v0.adds_status(name, v1),
        v1.adds_status(name, v2),
    ensures
        v2.statuses.len() == v0.statuses.len() + 2,
        v1.statuses.last().0 != v2.statuses.last().0,
        v2.has_status(v1.statuses.last().0),
        v2.has_status(v2.statuses.last().0),
{
    let a = v1.statuses.last().0;
    let n = v0.statuses.len() as int;
    assert(v1.statuses[n].0 == a);
    assert(v1.has_status(a));
    assert(v2.statuses[n].0 == a);
    assert(v2.statuses[n + 1].0 == v2.statuses.last().0);
}

/// Membership of a status carries over to a view with the same statuses.
proof fn lemma_has_status_kept(v: NetView, w: NetView, x: u128)
    requires
        v.statuses == w.statuses,
        v.has_status(x),
    ensures
        w.has_status(x),
{
    let i = choose|i: int| 0 <= i < v.statuses.len() && #[trigger] v.statuses[i].0 == x;
    assert(w.statuses[i].0 == x);
}

/// A sound network whose statuses were just propagated, over a graph with a
/// topological order, is well formed.
proof fn lemma_propagated_wf(mid: NetView, post: NetView)
    requires
        mid.sound(),
        post == (NetView { tasks: post.tasks, ..mid }),
        propagated(mid.edges, mid.default, mid.accepted, mid.tasks, post.tasks),
        post.ordered(),
    ensures
        post.wf(),
{
    lemma_propagated_settles(mid, post.tasks);
    assert forall|t: u128| #[trigger] post.tasks.contains_key(t) implies post.has_status(
        post.tasks[t],
    ) by {
        assert(mid.tasks.contains_key(t));
        assert(post.statuses == mid.statuses);
        let x = post.tasks[t];
        if x == mid.tasks[t] {
            assert(mid.has_status(mid.tasks[t]));
        } else if x == mid.default {
            assert(mid.has_status(mid.default));
        } else {
            assert(mid.has_status(mid.accepted));
        }
    }
    assert(post.has_status(post.default)) by {
        assert(mid.has_status(mid.default));
        let i = choose|i: int| 0 <= i < mid.statuses.len() && #[trigger] mid.statuses[i].0 == mid.default;
        assert(post.default == mid.default);
        assert(post.statuses[i].0 == post.default);
    }
    assert(post.has_status(post.accepted)) by {
        assert(mid.has_status(mid.accepted));
    }
    assert(post.nodes == post.tasks.dom());
    assert(edges_within(post.edges, post.nodes));
}

/// Two results of propagating `pre` agree on the first `i` tasks of a
/// topological order.
proof fn lemma_propagation_agrees_upto(
    edges: Map<(u128, u128), RelationType>,
    nodes: Set<u128>,
    order: Seq<u128>,
    default: u128,
    accepted: u128,
    pre: Map<u128, u128>,
    left: Map<u128, u128>,
    right: Map<u128, u128>,
    i: int,
)
    requires
        edges_within(edges, nodes),
        is_topological_order(edges, nodes, order),
        nodes == pre.dom(),
        propagated(edges, default, accepted, pre, left),
        propagated(edges, default, accepted, pre, right),
        0 <= i <= order.len(),
    ensures
        forall|j: int| 0 <= j < i ==> left[#[trigger] order[j]] == right[order[j]],
    decreases i,
{
    if i > 0 {
        lemma_propagation_agrees_upto(edges, nodes, order, default, accepted, pre, left, right, i - 1);
        let x = order[i - 1];
        assert forall|s: u128| #[trigger] edges.contains_key((s, x)) implies left[s] == right[s] by {
            assert(order.to_set().contains(s));
            let m = choose|m: int| 0 <= m < order.len() && order[m] == s;
            assert(edges.contains_key((order[m], order[i - 1])));
        }
        lemma_settle_frame(edges, edges, left, right, x, pre[x], default, accepted);
        assert(order.to_set().contains(x));
        assert(pre.contains_key(x));
    }
}

/// On a graph with a topological order, propagation has a single result.
pub proof fn lemma_propagation_result_unique(
    edges: Map<(u128, u128), RelationType>,
    nodes: Set<u128>,
    default: u128,
    accepted: u128,
    pre: Map<u128, u128>,
    left: Map<u128, u128>,
    right: Map<u128, u128>,
)
    requires
        edges_within(edges, nodes),
        exists|o: Seq<u128>| is_topological_order(edges, nodes, o),
        nodes == pre.dom(),
        propagated(edges, default, accepted, pre, left),
        propagated(edges, default, accepted, pre, right),
    ensures
        left == right,
{
    let order = choose|o: Seq<u128>| is_topological_order(edges, nodes, o);
    lemma_propagation_agrees_upto(
        edges,
        nodes,
        order,
        default,
        accepted,
        pre,
        left,
        right,
        order.len() as int,
    );
    assert forall|t: u128| #[trigger] left.contains_key(t) implies left[t] == right[t] by {
        assert(order.to_set().contains(t));
        let j = choose|j: int| 0 <= j < order.len() && order[j] == t;
    }
    assert(left =~= right);
}

/// Propagation is idempotent: on a well-formed network, whatever propagating
/// once more yields is the status map the network already holds.
pub proof fn lemma_propagation_idempotent(v: NetView, post: Map<u128, u128>)
    requires
        v.wf(),
        propagated(v.edges, v.default, v.accepted, v.tasks, post),
    ensures
        post == v.tasks,
{
    assert(propagated(v.edges, v.default, v.accepted, v.tasks, v.tasks));
    lemma_propagation_result_unique(
        v.edges,
        v.nodes,
        v.default,
        v.accepted,
        v.tasks,
        post,
        v.tasks,
    );
}

/// The relation graph of a well-formed network has no directed cycle.
pub proof fn lemma_relations_acyclic(v: NetView)
    requires
        v.wf(),
    ensures
        acyclic(v.edges),
{
    let order = choose|o: Seq<u128>| is_topological_order(v.edges, v.nodes, o);
    lemma_topological_order_acyclic(v.edges, v.nodes, order);
}

/// A controlled task is accepted exactly when a `Compose` edge leads into it
/// and every parent is accepted. This holds where the default and the
/// accepted status differ, and for every controlled task but one whose parents
/// are all accepted and whose edges in are all `Require`: propagation leaves
/// the status of such a task alone.
pub proof fn lemma_controlled_acceptance(v: NetView, t: u128)
    requires
        v.wf(),
        v.default != v.accepted,
        v.tasks.contains_key(t),
        has_incoming(v.edges, t),
        has_compose(v.edges, t) || !parents_accepted(v.edges, v.tasks, t, v.accepted),
    ensures
        v.tasks[t] == v.accepted <==> has_compose(v.edges, t) && parents_accepted(
            v.edges,
            v.tasks,
            t,
            v.accepted,
        ),
{
    assert(v.settled_at(t));
}

/// The ids of a list of statuses are pairwise distinct.
pub open spec fn ids_unique(status: Seq<Entity<Status>>) -> bool {
    forall|i: int, j: int|
        0 <= i < status.len() && 0 <= j < status.len() && i != j ==> #[trigger] status[i].id.id
            != #[trigger] status[j].id.id
}

/// The position of the status with id `sid` in `status`, if any.
fn find_status(status: &Vec<Entity<Status>>, sid: u128) -> (r: Option<usize>)
    ensures
        match r {
            Some(p) => p < status@.len() && status@[p as int].id.id == sid,
            None => forall|i: int| 0 <= i < status@.len() ==> (#[trigger] status@[i]).id.id != sid,
        },
{
    let mut i: usize = 0;
    while i < status.len()
        invariant
            i <= status@.len(),
            forall|j: int| 0 <= j < i ==> (#[trigger] status@[j]).id.id != sid,
        decreases status.len() - i,
    {
        if status[i].id.id == sid {
            return Some(i);
        }
        i += 1;
    }
    None
}

/// Some status of `status` has the id `x`.
spec fn id_taken(status: Seq<Entity<Status>>, x: int) -> bool {
    exists|i: int| 0 <= i < status.len() && (#[trigger] status[i]).id.id as int == x
}

/// A status id that `status` does not hold: a random one or, should that be
/// taken, the least one that is free.
fn fresh_status_id(status: &Vec<Entity<Status>>) -> (r: Id<Status>)
    ensures
        forall|i: int| 0 <= i < status@.len() ==> (#[trigger] status@[i]).id.id != r.id,
{
    let candidate: Id<Status> = Id::new();
    if find_status(status, candidate.id).is_none() {
        return candidate;
    }
    let n = status.len() as u128;
    let mut c: u128 = 0;
    while c <= n
        invariant
            n == status@.len(),
            n <= usize::MAX,
            forall|x: int| 0 <= x < c ==> #[trigger] id_taken(status@, x),
        decreases n + 1 - c,
    {
        if find_status(status, c).is_none() {
            return Id::from_u128(c);
        }
        c += 1;
    }
    proof {
        let ids = status@.map_values(|e: Entity<Status>| e.id.id as int);
        assert forall|x: int| #[trigger] set_int_range(0, n + 1).contains(x) implies ids.to_set().contains(
            x,
        ) by {
            assert(id_taken(status@, x));
            let i = choose|i: int| 0 <= i < status@.len() && (#[trigger] status@[i]).id.id as int == x;
            assert(ids[i] == x);
        }
        lemma_int_range(0, n + 1);
        vstd::seq_lib::seq_to_set_is_finite(ids);
        lemma_len_subset(set_int_range(0, n + 1), ids.to_set());
        ids.lemma_cardinality_of_set();
    }
    Id::from_u128(0)
}

impl Schema {
    /// A schema with a fresh status for each name of `normal`, then the
    /// default and the accepted status, all with distinct ids.
    fn new(default: String, accepted: String, normal: Vec<String>) -> (r: Schema)
        ensures
            r.status@.len() == normal@.len() + 2,
            ids_unique(r.status@),
            forall|i: int| 0 <= i < normal@.len() ==> (#[trigger] r.status@[i]).data.name@ == normal@[i]@,
            r.status@[normal@.len() as int].data.name@ == default@,
            r.status@[normal@.len() + 1int].data.name@ == accepted@,
            r.default == r.status@[normal@.len() as int].id,
            r.accepted == r.status@[normal@.len() + 1int].id,
    {
        let mut status: Vec<Entity<Status>> = Vec::new();
        let mut i: usize = 0;
        while i < normal.len()
            invariant
                i <= normal@.len(),
                status@.len() == i,
                ids_unique(status@),
                forall|j: int| 0 <= j < i ==> (#[trigger] status@[j]).data.name@ == normal@[j]@,
            decreases normal.len() - i,
        {
            let id = fresh_status_id(&status);
            status.push(Entity { id, data: Status { name: normal[i].clone() } });
            i += 1;
        }
        let default_id = fresh_status_id(&status);
        status.push(Entity { id: default_id, data: Status { name: default } });
        let accepted_id = fresh_status_id(&status);
        status.push(Entity { id: accepted_id, data: Status { name: accepted } });
        Schema { status, default: default_id, accepted: accepted_id }
    }
}

/// `t` is not reached from `src`; with `strict`, `src` itself counts as not
/// reached.
pub open spec fn not_reached(
    edges: Map<(u128, u128), RelationType>,
    src: u128,
    strict: bool,
    t: u128,
) -> bool {
    !reachable(edges, src, t) || (strict && t == src)
}

/// `post` is what walking `order` from position `start` makes of `pre`: the
/// tasks before `start` and those outside the graph keep their status, and
/// each task from `start` on holds its settled value.
pub open spec fn walked(
    edges: Map<(u128, u128), RelationType>,
    nodes: Set<u128>,
    order: Seq<u128>,
    start: int,
    default: u128,
    accepted: u128,
    pre: Map<u128, u128>,
    post: Map<u128, u128>,
) -> bool {
    &&& post.dom() == pre.dom()
    &&& forall|j: int|
        0 <= j < start && pre.contains_key(#[trigger] order[j]) ==> post[order[j]]
            == pre[order[j]]
    &&& forall|j: int|
        start <= j < order.len() && pre.contains_key(#[trigger] order[j]) ==> post[order[j]]
            == settle(edges, post, order[j], pre[order[j]], default, accepted)
    &&& forall|t: u128| #[trigger] pre.contains_key(t) && !nodes.contains(t) ==> post[t] == pre[t]
}

/// A walk whose first `start` tasks are at the fixpoint in its result is a
/// propagation.
proof fn lemma_walk_propagated(
    edges: Map<(u128, u128), RelationType>,
    nodes: Set<u128>,
    order: Seq<u128>,
    start: int,
    default: u128,
    accepted: u128,
    pre: Map<u128, u128>,
    post: Map<u128, u128>,
)
    requires
        edges_within(edges, nodes),
        is_topological_order(edges, nodes, order),
        walked(edges, nodes, order, start, default, accepted, pre, post),
        forall|j: int|
            0 <= j < start && pre.contains_key(#[trigger] order[j]) ==> post[order[j]] == settle(
                edges,
                post,
                order[j],
                pre[order[j]],
                default,
                accepted,
            ),
    ensures
        propagated(edges, default, accepted, pre, post),
{
    assert forall|t: u128| #[trigger] pre.contains_key(t) implies post[t] == settle(
        edges,
        post,
        t,
        pre[t],
        default,
        accepted,
    ) by {
        if nodes.contains(t) {
            assert(order.to_set().contains(t));
            let j = choose|j: int| 0 <= j < order.len() && order[j] == t;
            assert(pre.contains_key(order[j]));
        } else {
            assert(!has_incoming(edges, t)) by {
                if has_incoming(edges, t) {
                    let s = choose|s: u128| #[trigger] edges.contains_key((s, t));
                }
            }
        }
    }
}

/// In a walk, a task at one of the first `i` positions that `src` does not
/// reach keeps its status and stays at the fixpoint, when every such task
/// was at the fixpoint.
proof fn lemma_walk_keeps_unreached(
    edges: Map<(u128, u128), RelationType>,
    nodes: Set<u128>,
    order: Seq<u128>,
    start: int,
    default: u128,
    accepted: u128,
    pre: Map<u128, u128>,
    post: Map<u128, u128>,
    src: u128,
    strict: bool,
    i: int,
)
    requires
        edges_within(edges, nodes),
        edges_within(edges, pre.dom()),
        is_topological_order(edges, nodes, order),
        walked(edges, nodes, order, start, default, accepted, pre, post),
        0 <= i <= order.len(),
        strict ==> !has_incoming(edges, src),
        forall|t: u128| #[trigger]
            pre.contains_key(t) && not_reached(edges, src, strict, t) ==> settle(
                edges,
                pre,
                t,
                pre[t],
                default,
                accepted,
            ) == pre[t],
    ensures
        forall|j: int|
            0 <= j < i && pre.contains_key(#[trigger] order[j]) && not_reached(
                edges,
                src,
                strict,
                order[j],
            ) ==> post[order[j]] == pre[order[j]] && settle(
                edges,
                post,
                order[j],
                pre[order[j]],
                default,
                accepted,
            ) == pre[order[j]],
    decreases i,
{
    if i > 0 {
        lemma_walk_keeps_unreached(
            edges,
            nodes,
            order,
            start,
            default,
            accepted,
            pre,
            post,
            src,
            strict,
            i - 1,
        );
        let j = i - 1;
        let t = order[j];
        if pre.contains_key(t) && not_reached(edges, src, strict, t) {
            assert forall|s: u128| #[trigger] edges.contains_key((s, t)) implies post[s] == pre[s] by {
                assert(order.to_set().contains(s));
                let m = choose|m: int| 0 <= m < order.len() && order[m] == s;
                assert(edges.contains_key((order[m], order[j])));
                assert(pre.contains_key(s));
                if !not_reached(edges, src, strict, s) {
                    lemma_reachable_step(edges, src, s, t);
                    assert(has_incoming(edges, t));
                }
                assert(pre.contains_key(order[m]) && not_reached(edges, src, strict, order[m]));
            }
            lemma_settle_frame(edges, edges, post, pre, t, pre[t], default, accepted);
        }
    }
}

/// A walk from a start that every earlier task precedes unreached is a
/// propagation that leaves every task that `src` does not reach as it was.
proof fn lemma_walk_from(
    edges: Map<(u128, u128), RelationType>,
    nodes: Set<u128>,
    order: Seq<u128>,
    start: int,
    default: u128,
    accepted: u128,
    pre: Map<u128, u128>,
    post: Map<u128, u128>,
    src: u128,
    strict: bool,
)
    requires
        edges_within(edges, nodes),
        edges_within(edges, pre.dom()),
        is_topological_order(edges, nodes, order),
        walked(edges, nodes, order, start, default, accepted, pre, post),
        0 <= start <= order.len(),
        strict ==> !has_incoming(edges, src),
        forall|t: u128| #[trigger]
            pre.contains_key(t) && not_reached(edges, src, strict, t) ==> settle(
                edges,
                pre,
                t,
                pre[t],
                default,
                accepted,
            ) == pre[t],
        forall|j: int| 0 <= j < start ==> not_reached(edges, src, strict, #[trigger] order[j]),
    ensures
        propagated(edges, default, accepted, pre, post),
        forall|t: u128| #[trigger]
            pre.contains_key(t) && not_reached(edges, src, strict, t) ==> post[t] == pre[t],
{
    lemma_walk_keeps_unreached(
        edges,
        nodes,
        order,
        start,
        default,
        accepted,
        pre,
        post,
        src,
        strict,
        order.len() as int,
    );
    assert forall|j: int| 0 <= j < start && pre.contains_key(#[trigger] order[j]) implies post[order[j]]
        == settle(edges, post, order[j], pre[order[j]], default, accepted) by {
        assert(not_reached(edges, src, strict, order[j]));
    }
    lemma_walk_propagated(edges, nodes, order, start, default, accepted, pre, post);
    assert forall|t: u128| #[trigger]
        pre.contains_key(t) && not_reached(edges, src, strict, t) implies post[t] == pre[t] by {
        if nodes.contains(t) {
            assert(order.to_set().contains(t));
            let j = choose|j: int| 0 <= j < order.len() && order[j] == t;
            assert(pre.contains_key(order[j]));
        }
    }
}

/// The first position of `task` in `order`, or the length of `order`.
fn position_of(order: &Vec<u128>, task: u128) -> (r: usize)
    ensures
        r <= order@.len(),
        forall|j: int| 0 <= j < r ==> order@[j] != task,
        r < order@.len() ==> order@[r as int] == task,
{
    let mut k: usize = 0;
    while k < order.len() && order[k] != task
        invariant
            k <= order@.len(),
            forall|j: int| 0 <= j < k ==> order@[j] != task,
        decreases order.len() - k,
    {
        k += 1;
    }
    k
}

/// The commands of a network aggregate.
pub trait NetAggregateRoot: Sized {
    /// What the network holds.
    spec fn net_view(&self) -> NetView;

    /// The identifier of the network.
    spec fn net_id(&self) -> Id<Net>;

    /// Creates a network whose schema holds a default and an accepted
    /// status, and which holds no task.
    fn new(default: String, accepted: String) -> (r: Self)
        ensures
            r.net_view().wf(),
            r.net_view().statuses.len() == 2,
            r.net_view().statuses[0] == (r.net_view().default, default@),
            r.net_view().statuses[1] == (r.net_view().accepted, accepted@),
            r.net_view().tasks.dom().is_empty(),
            r.net_view().nodes.is_empty(),
            r.net_view().edges.dom().is_empty(),
    ;

    /// Adds a status with a fresh id and the given name to the schema.
    fn new_status(&mut self, status_name: String)
        requires
            old(self).net_view().wf(),
        ensures
            final(self).net_id() == old(self).net_id(),
            final(self).net_view().wf(),
            old(self).net_view().adds_status(status_name@, final(self).net_view()),
    ;

    /// Renames the status `status_id`.
    fn change_status_name(&mut self, status_id: Id<Status>, new_name: String) -> (r: Result<
        (),
        TaskDomainError,
    >)
        requires
            old(self).net_view().wf(),
        ensures
            final(self).net_id() == old(self).net_id(),
            final(self).net_view().wf(),
            !old(self).net_view().has_status(status_id.id) ==> r == Err::<(), TaskDomainError>(
                (TaskDomainError::StatusNotFoundInNet { net: old(self).net_id(), status: status_id }),
            ) && final(self).net_view() == old(self).net_view(),
            old(self).net_view().has_status(status_id.id) ==> r is Ok && exists|p: int|
                0 <= p < old(self).net_view().statuses.len() && #[trigger] old(self).net_view().statuses[p].0
                    == status_id.id && final(self).net_view() == (NetView {
                    statuses: old(self).net_view().statuses.update(p, (status_id.id, new_name@)),
                    ..old(self).net_view()
                }),
    ;

    /// Adds a task, with the default status and no relation.
    fn add_task(&mut self, task_id: Id<Task>) -> (r: Result<(), TaskDomainError>)
        requires
            old(self).net_view().wf(),
        ensures
            final(self).net_id() == old(self).net_id(),
            final(self).net_view().wf(),
            old(self).net_view().tasks.contains_key(task_id.id) ==> r == Err::<(), TaskDomainError>(
                (TaskDomainError::TaskAlreadyInNet { task: task_id, net: old(self).net_id() }),
            ) && final(self).net_view() == old(self).net_view(),
            !old(self).net_view().tasks.contains_key(task_id.id) ==> r is Ok && old(self).net_view().adds_task(
                task_id.id,
                final(self).net_view(),
            ),
    ;

    /// Removes a task and every relation to or from it, then propagates
    /// through every task. Removing a task that is absent changes nothing.
    fn remove_task(&mut self, task_id: Id<Task>) -> (r: Result<(), TaskDomainError>)
        requires
            old(self).net_view().wf(),
        ensures
            final(self).net_id() == old(self).net_id(),
            final(self).net_view().wf(),
            r is Ok,
            old(self).net_view().removes_task(task_id.id, final(self).net_view()),
    ;

    /// Adds a relation of type `relation_type` from `from` to `to`, or sets
    /// the type of the one there, then propagates from `to` on. A relation
    /// that would close a cycle is refused, and so is one whose ends are not
    /// both tasks of the network.
    fn new_relation(&mut self, from: Id<Task>, to: Id<Task>, relation_type: RelationType) -> (r:
        Result<(), TaskDomainError>)
        requires
            old(self).net_view().wf(),
        ensures
            final(self).net_id() == old(self).net_id(),
            final(self).net_view().wf(),
            reachable(old(self).net_view().edges, to.id, from.id) ==> r == Err::<(), TaskDomainError>(
                TaskDomainError::CycleNotAllowedInNet(old(self).net_id()),
            ) && final(self).net_view() == old(self).net_view(),
            !reachable(old(self).net_view().edges, to.id, from.id) && !old(self).net_view().tasks.contains_key(from.id)
                ==> r == Err::<(), TaskDomainError>(
                (TaskDomainError::TaskNotFoundInNet { net: old(self).net_id(), task: from }),
            ) && final(self).net_view() == old(self).net_view(),
            !reachable(old(self).net_view().edges, to.id, from.id) && old(self).net_view().tasks.contains_key(from.id)
                && !old(self).net_view().tasks.contains_key(to.id) ==> r == Err::<(), TaskDomainError>(
                (TaskDomainError::TaskNotFoundInNet { net: old(self).net_id(), task: to }),
            ) && final(self).net_view() == old(self).net_view(),
            !reachable(old(self).net_view().edges, to.id, from.id) && old(self).net_view().tasks.contains_key(from.id)
                && old(self).net_view().tasks.contains_key(to.id) ==> r is Ok && old(self).net_view().adds_relation(
                from.id,
                to.id,
                relation_type,
                final(self).net_view(),
            ),
    ;

    /// Removes the relation from `from` to `to`, if there is one, then
    /// propagates from `to` on. A task that no relation controls any more
    /// keeps its status.
    fn remove_relation(&mut self, from: Id<Task>, to: Id<Task>) -> (r: Result<(), TaskDomainError>)
        requires
            old(self).net_view().wf(),
        ensures
            final(self).net_id() == old(self).net_id(),
            final(self).net_view().wf(),
            r is Ok,
            old(self).net_view().removes_relation(from.id, to.id, final(self).net_view()),
    ;

    /// Sets the status of a task that no relation controls, then propagates
    /// from the task after it on. A task with an incoming relation is
    /// refused, and so is a status that the schema does not hold.
    fn change_task_status(&mut self, task_id: Id<Task>, status_id: Id<Status>) -> (r: Result<
        (),
        TaskDomainError,
    >)
        requires
            old(self).net_view().wf(),
        ensures
            final(self).net_id() == old(self).net_id(),
            final(self).net_view().wf(),
            has_incoming(old(self).net_view().edges, task_id.id) ==> r == Err::<(), TaskDomainError>(
                (TaskDomainError::RelationConstraintNotSatisfied {
                    net: old(self).net_id(),
                    task: task_id,
                }),
            ) && final(self).net_view() == old(self).net_view(),
            !has_incoming(old(self).net_view().edges, task_id.id) && !old(self).net_view().tasks.contains_key(task_id.id)
                ==> r == Err::<(), TaskDomainError>(
                (TaskDomainError::TaskNotFoundInNet { net: old(self).net_id(), task: task_id }),
            ) && final(self).net_view() == old(self).net_view(),
            !has_incoming(old(self).net_view().edges, task_id.id) && old(self).net_view().tasks.contains_key(task_id.id)
                && !old(self).net_view().has_status(status_id.id) ==> r == Err::<(), TaskDomainError>(
                (TaskDomainError::StatusNotFoundInNet { net: old(self).net_id(), status: status_id }),
            ) && final(self).net_view() == old(self).net_view(),
            !has_incoming(old(self).net_view().edges, task_id.id) && old(self).net_view().tasks.contains_key(task_id.id)
                && old(self).net_view().has_status(status_id.id) ==> r is Ok && old(self).net_view().sets_task_status(
                task_id.id,
                status_id.id,
                final(self).net_view(),
            ),
    ;

    /// Makes `new_default` the default status: every task that held the
    /// former default holds `new_default` instead. This keeps the fixpoint,
    /// so nothing is propagated, unless the accepted status becomes the
    /// default: former default tasks are then accepted, and propagation runs
    /// through every task.
    fn change_default(&mut self, new_default: Id<Status>) -> (r: Result<(), TaskDomainError>)
        requires
            old(self).net_view().wf(),
        ensures
            final(self).net_id() == old(self).net_id(),
            final(self).net_view().wf(),
            !old(self).net_view().has_status(new_default.id) ==> r == Err::<(), TaskDomainError>(
                (TaskDomainError::StatusNotFoundInNet { net: old(self).net_id(), status: new_default }),
            ) && final(self).net_view() == old(self).net_view(),
            old(self).net_view().has_status(new_default.id) && (new_default.id
                != old(self).net_view().accepted || new_default.id == old(self).net_view().default)
                ==> r is Ok && old(self).net_view().changes_default(
                new_default.id,
                final(self).net_view(),
            ),
            old(self).net_view().has_status(new_default.id) && new_default.id == old(
                self,
            ).net_view().accepted && new_default.id != old(self).net_view().default ==> r is Ok
                && old(self).net_view().changes_default_propagated(
                new_default.id,
                final(self).net_view(),
            ),
            new_default.id == old(self).net_view().default ==> r is Ok && final(self).net_view() == old(self).net_view(),
    ;

    /// Removes the status `status_id` from the schema: every task that held
    /// it holds the default status instead, and then propagation runs
    /// through every task. The default and the accepted status cannot be
    /// removed.
    fn remove_status(&mut self, status_id: Id<Status>) -> (r: Result<(), TaskDomainError>)
        requires
            old(self).net_view().wf(),
        ensures
            final(self).net_id() == old(self).net_id(),
            final(self).net_view().wf(),
            !old(self).net_view().has_status(status_id.id) ==> r == Err::<(), TaskDomainError>(
                (TaskDomainError::StatusNotFoundInNet { net: old(self).net_id(), status: status_id }),
            ) && final(self).net_view() == old(self).net_view(),
            old(self).net_view().has_status(status_id.id) && (status_id.id == old(self).net_view().default
                || status_id.id == old(self).net_view().accepted) ==> r == Err::<(), TaskDomainError>(
                (TaskDomainError::StatusNotRemovable { net: old(self).net_id(), status: status_id }),
            ) && final(self).net_view() == old(self).net_view(),
            old(self).net_view().has_status(status_id.id) && status_id.id != old(self).net_view().default
                && status_id.id != old(self).net_view().accepted ==> r is Ok && old(self).net_view().removes_status(
                status_id.id,
                final(self).net_view(),
            ),
    ;
}

impl NetAggregateRoot for Entity<Net> {
    open spec fn net_view(&self) -> NetView {
        self@
    }

    open spec fn net_id(&self) -> Id<Net> {
        self.id
    }

    fn new(default: String, accepted: String) -> (r: Self) {
        let schema = Schema::new(default, accepted, Vec::new());
        let r = Entity {
            id: Id::new(),
            data: Net { relations: graph_new(), schema, tasks: HashMap::new() },
        };
        proof {
            assert(r@.statuses[0].0 == r@.default);
            assert(r@.statuses[1].0 == r@.accepted);
            assert(r@.nodes =~= r@.tasks.dom());
            assert(Seq::<u128>::empty().to_set() =~= r@.nodes);
            assert(is_topological_order(r@.edges, r@.nodes, Seq::<u128>::empty()));
        }
        r
    }

    fn new_status(&mut self, status_name: String) {
        let id = fresh_status_id(&self.data.schema.status);
        let ghost name = status_name@;
        self.data.schema.status.push(Entity { id, data: Status { name: status_name } });
        proof {
            let v0 = old(self)@;
            assert(self@.statuses =~= v0.statuses.push((id.id, name)));
            assert(!v0.has_status(id.id));
            assert forall|x: u128| v0.has_status(x) implies #[trigger] self@.has_status(x) by {
                let i = choose|i: int| 0 <= i < v0.statuses.len() && #[trigger] v0.statuses[i].0 == x;
                assert(self@.statuses[i].0 == x);
            }
            assert(self@.has_status(self@.default));
            assert(self@.has_status(self@.accepted));
        }
    }

    fn change_status_name(&mut self, status_id: Id<Status>, new_name: String) -> (r: Result<
        (),
        TaskDomainError,
    >) {
        match find_status(&self.data.schema.status, status_id.id) {
            None => {
                Err(TaskDomainError::StatusNotFoundInNet { net: self.id, status: status_id })
            },
            Some(p) => {
                let id = self.data.schema.status[p].id;
                let ghost name = new_name@;
                self.data.schema.status.set(p, Entity { id, data: Status { name: new_name } });
                proof {
                    let v0 = old(self)@;
                    assert(self@.statuses =~= v0.statuses.update(p as int, (status_id.id, name)));
                    assert(v0.statuses[p as int].0 == status_id.id);
                    assert forall|x: u128| v0.has_status(x) implies #[trigger] self@.has_status(x) by {
                        let i = choose|i: int| 0 <= i < v0.statuses.len() && #[trigger] v0.statuses[i].0 == x;
                        assert(self@.statuses[i].0 == x);
                    }
                    assert(self@.has_status(self@.default));
                    assert(self@.has_status(self@.accepted));
                }
                Ok(())
            },
        }
    }

    fn add_task(&mut self, task_id: Id<Task>) -> (r: Result<(), TaskDomainError>) {
        if self.data.tasks.contains_key(&task_id.id) {
            return Err(TaskDomainError::TaskAlreadyInNet { task: task_id, net: self.id });
        }
        self.data.tasks.insert(task_id.id, self.data.schema.default.id);
        graph_add_node(&mut self.data.relations, task_id.id);
        proof {
            let v0 = old(self)@;
            let v1 = self@;
            let t = task_id.id;
            assert(v1.nodes =~= v1.tasks.dom());
            let o = choose|o: Seq<u128>| is_topological_order(v0.edges, v0.nodes, o);
            let o2 = o.push(t);
            assert(!o.contains(t)) by {
                if o.contains(t) {
                    assert(o.to_set().contains(t));
                }
            }
            assert(o2.to_set() =~= v1.nodes) by {
                assert forall|x: u128| o2.to_set().contains(x) <==> v1.nodes.contains(x) by {
                    if o.to_set().contains(x) {
                        let i = choose|i: int| 0 <= i < o.len() && o[i] == x;
                        assert(o2[i] == x);
                    }
                    if o2.to_set().contains(x) && x != t {
                        let i = choose|i: int| 0 <= i < o2.len() && o2[i] == x;
                        assert(o.contains(x));
                    }
                    if x == t {
                        assert(o2[o.len() as int] == t);
                    }
                }
            }
            assert forall|i: int, j: int|
                0 <= i < o2.len() && 0 <= j < o2.len() && #[trigger] v1.edges.contains_key(
                    (o2[i], o2[j]),
                ) implies i < j by {
                assert(v0.edges.contains_key((o2[i], o2[j])));
                if i == o.len() || j == o.len() {
                    assert(false);
                }
                assert(v0.edges.contains_key((o[i], o[j])));
            }
            assert(is_topological_order(v1.edges, v1.nodes, o2));
            assert forall|x: u128| #[trigger] v1.tasks.contains_key(x) implies v1.settled_at(x) by {
                if x == t {
                    assert(!has_incoming(v1.edges, t));
                } else {
                    assert(v0.settled_at(x));
                    assert forall|s: u128| #[trigger] v1.edges.contains_key((s, x)) implies v1.tasks[s]
                        == v0.tasks[s] by {
                        assert(v0.nodes.contains(s));
                    }
                    lemma_settle_frame(
                        v1.edges,
                        v0.edges,
                        v1.tasks,
                        v0.tasks,
                        x,
                        v0.tasks[x],
                        v0.default,
                        v0.accepted,
                    );
                }
            }
            assert forall|x: u128| #[trigger] v1.tasks.contains_key(x) implies v1.has_status(
                v1.tasks[x],
            ) by {
                if x != t {
                    assert(v0.tasks.contains_key(x));
                    lemma_has_status_kept(v0, v1, v0.tasks[x]);
                } else {
                    lemma_has_status_kept(v0, v1, v0.default);
                }
            }
        }
        Ok(())
    }

    fn remove_task(&mut self, task_id: Id<Task>) -> (r: Result<(), TaskDomainError>) {
        self.data.tasks.remove(&task_id.id);
        graph_remove_node(&mut self.data.relations, task_id.id);
        let ghost mid = self@;
        proof {
            let v0 = old(self)@;
            lemma_relations_acyclic(v0);
            lemma_fewer_edges_acyclic(mid.edges, v0.edges);
            assert(mid.nodes =~= mid.tasks.dom());
            assert forall|x: u128| #[trigger] mid.tasks.contains_key(x) implies mid.has_status(
                mid.tasks[x],
            ) by {
                assert(v0.tasks.contains_key(x));
                lemma_has_status_kept(v0, mid, v0.tasks[x]);
            }
            lemma_has_status_kept(v0, mid, v0.default);
            lemma_has_status_kept(v0, mid, v0.accepted);
        }
        let r = self.propagate_all();
        proof {
            lemma_propagated_wf(mid, self@);
        }
        r
    }

    fn new_relation(&mut self, from: Id<Task>, to: Id<Task>, relation_type: RelationType) -> (r:
        Result<(), TaskDomainError>) {
        if graph_has_path(&self.data.relations, to.id, from.id) {
            return Err(TaskDomainError::CycleNotAllowedInNet(self.id));
        }
        if !self.data.tasks.contains_key(&from.id) {
            return Err(TaskDomainError::TaskNotFoundInNet { net: self.id, task: from });
        }
        if !self.data.tasks.contains_key(&to.id) {
            return Err(TaskDomainError::TaskNotFoundInNet { net: self.id, task: to });
        }
        graph_add_edge(&mut self.data.relations, from.id, to.id, relation_type);
        let ghost mid = self@;
        proof {
            let v0 = old(self)@;
            assert(mid.nodes =~= v0.nodes);
            lemma_relations_acyclic(v0);
            lemma_add_edge_acyclic(v0.edges, from.id, to.id, relation_type);
            lemma_has_status_kept(v0, mid, v0.default);
            lemma_has_status_kept(v0, mid, v0.accepted);
            assert forall|t: u128| #[trigger] mid.tasks.contains_key(t) implies mid.has_status(
                mid.tasks[t],
            ) by {
                lemma_has_status_kept(v0, mid, v0.tasks[t]);
            }
            lemma_reachable_self(mid.edges, to.id);
            assert forall|t: u128| #[trigger] mid.tasks.contains_key(t) && t != to.id implies mid.settled_at(t) by {
                assert(v0.settled_at(t));
                lemma_settle_frame(mid.edges, v0.edges, mid.tasks, v0.tasks, t, v0.tasks[t], v0.default, v0.accepted);
            }
        }
        let r = self.propagate_at(to.id);
        proof {
            lemma_propagated_wf(mid, self@);
        }
        r
    }

    fn remove_relation(&mut self, from: Id<Task>, to: Id<Task>) -> (r: Result<(), TaskDomainError>) {
        graph_remove_edge(&mut self.data.relations, from.id, to.id);
        let ghost mid = self@;
        proof {
            let v0 = old(self)@;
            lemma_relations_acyclic(v0);
            lemma_fewer_edges_acyclic(mid.edges, v0.edges);
            lemma_has_status_kept(v0, mid, v0.default);
            lemma_has_status_kept(v0, mid, v0.accepted);
            assert forall|t: u128| #[trigger] mid.tasks.contains_key(t) implies mid.has_status(
                mid.tasks[t],
            ) by {
                lemma_has_status_kept(v0, mid, v0.tasks[t]);
            }
            lemma_reachable_self(mid.edges, to.id);
            assert forall|t: u128| #[trigger] mid.tasks.contains_key(t) && t != to.id implies mid.settled_at(t) by {
                assert(v0.settled_at(t));
                lemma_settle_frame(mid.edges, v0.edges, mid.tasks, v0.tasks, t, v0.tasks[t], v0.default, v0.accepted);
            }
        }
        let r = self.propagate_at(to.id);
        proof {
            lemma_propagated_wf(mid, self@);
        }
        r
    }

    fn change_task_status(&mut self, task_id: Id<Task>, status_id: Id<Status>) -> (r: Result<
        (),
        TaskDomainError,
    >) {
        let incoming = graph_incoming(&self.data.relations, task_id.id);
        if incoming.len() > 0 {
            proof {
                assert(self@.edges.contains_key((incoming@[0].0, task_id.id)));
            }
            return Err(
                TaskDomainError::RelationConstraintNotSatisfied { net: self.id, task: task_id },
            );
        }
        if !self.data.tasks.contains_key(&task_id.id) {
            return Err(TaskDomainError::TaskNotFoundInNet { net: self.id, task: task_id });
        }
        match find_status(&self.data.schema.status, status_id.id) {
            None => {
                proof {
                    if old(self)@.has_status(status_id.id) {
                        let i = choose|i: int|
                            0 <= i < old(self)@.statuses.len() && #[trigger] old(self)@.statuses[i].0
                                == status_id.id;
                        assert(self.data.schema.status@[i].id.id == status_id.id);
                    }
                }
                return Err(
                    TaskDomainError::StatusNotFoundInNet { net: self.id, status: status_id },
                );
            },
            Some(p) => {
                assert(old(self)@.statuses[p as int].0 == status_id.id);
            },
        }
        self.data.tasks.insert(task_id.id, status_id.id);
        let ghost mid = self@;
        proof {
            let v0 = old(self)@;
            let t = task_id.id;
            assert(mid.nodes =~= mid.tasks.dom());
            lemma_relations_acyclic(v0);
            lemma_has_status_kept(v0, mid, v0.default);
            lemma_has_status_kept(v0, mid, v0.accepted);
            lemma_has_status_kept(v0, mid, status_id.id);
            assert forall|x: u128| #[trigger] mid.tasks.contains_key(x) implies mid.has_status(
                mid.tasks[x],
            ) by {
                if x != t {
                    lemma_has_status_kept(v0, mid, v0.tasks[x]);
                }
            }
            assert(!has_incoming(v0.edges, t)) by {
                if has_incoming(v0.edges, t) {
                    let s = choose|s: u128| #[trigger] v0.edges.contains_key((s, t));
                    let i = choose|i: int| 0 <= i < incoming@.len() && incoming@[i].0 == s;
                }
            }
            assert forall|x: u128| #[trigger] mid.tasks.contains_key(x) && not_reached(
                mid.edges,
                t,
                true,
                x,
            ) implies mid.settled_at(x) by {
                if x != t {
                    if mid.edges.contains_key((t, x)) {
                        lemma_reachable_self(mid.edges, t);
                        lemma_reachable_step(mid.edges, t, t, x);
                    }
                    assert(v0.settled_at(x));
                    lemma_settle_frame(mid.edges, v0.edges, mid.tasks, v0.tasks, x, v0.tasks[x], v0.default, v0.accepted);
                }
            }
        }
        let r = self.propagate_from(task_id.id);
        proof {
            lemma_propagated_wf(mid, self@);
        }
        r
    }

    fn change_default(&mut self, new_default: Id<Status>) -> (r: Result<(), TaskDomainError>) {
        match find_status(&self.data.schema.status, new_default.id) {
            None => {
                proof {
                    if old(self)@.has_status(new_default.id) {
                        let i = choose|i: int|
                            0 <= i < old(self)@.statuses.len() && #[trigger] old(self)@.statuses[i].0
                                == new_default.id;
                        assert(self.data.schema.status@[i].id.id == new_default.id);
                    }
                }
                return Err(
                    TaskDomainError::StatusNotFoundInNet { net: self.id, status: new_default },
                );
            },
            Some(p) => {
                assert(old(self)@.statuses[p as int].0 == new_default.id);
            },
        }
        let old_default = self.data.schema.default.id;
        self.reassign_tasks(old_default, new_default.id);
        self.data.schema.default = new_default;
        proof {
            let v0 = old(self)@;
            let v1 = self@;
            assert(v1 == (NetView { tasks: reassigned(v0.tasks, v0.default, new_default.id), default: new_default.id, ..v0 }));
            assert(v1.tasks.dom() =~= v0.tasks.dom());
            assert(v0.has_status(new_default.id));
            lemma_has_status_kept(v0, v1, new_default.id);
            lemma_has_status_kept(v0, v1, v0.accepted);
            assert forall|t: u128| #[trigger] v1.tasks.contains_key(t) implies v1.has_status(
                v1.tasks[t],
            ) by {
                lemma_has_status_kept(v0, v1, v0.tasks[t]);
            }
            if new_default.id == v0.default {
                assert(v1.tasks =~= v0.tasks);
            }
            if new_default.id != v0.accepted && v0.default == v0.accepted {
                assert forall|t: u128| #[trigger] v1.tasks.contains_key(t) implies v1.settled_at(t) by {
                    if has_incoming(v1.edges, t) {
                        let s = choose|s: u128| #[trigger] v1.edges.contains_key((s, t));
                        assert(v0.nodes.contains(s));
                        assert(v1.tasks[s] != v1.accepted);
                    }
                }
            }
            if new_default.id != v0.accepted && v0.default != v0.accepted {
                assert forall|t: u128| #[trigger] v1.tasks.contains_key(t) implies v1.settled_at(t) by {
                    assert(v0.settled_at(t));
                    assert(parents_accepted(v1.edges, v1.tasks, t, v1.accepted) == parents_accepted(
                        v0.edges,
                        v0.tasks,
                        t,
                        v0.accepted,
                    )) by {
                        assert forall|s: u128| #[trigger] v0.edges.contains_key((s, t)) implies (v1.tasks[s]
                            == v1.accepted) == (v0.tasks[s] == v0.accepted) by {
                            assert(v0.nodes.contains(s));
                        }
                    }
                }
            }
        }
        if new_default.id == self.data.schema.accepted.id && new_default.id != old_default {
            let ghost mid = self@;
            proof {
                lemma_relations_acyclic(old(self)@);
            }
            let r = self.propagate_all();
            proof {
                lemma_propagated_wf(mid, self@);
            }
            return r;
        }
        Ok(())
    }

    fn remove_status(&mut self, status_id: Id<Status>) -> (r: Result<(), TaskDomainError>) {
        let p = match find_status(&self.data.schema.status, status_id.id) {
            None => {
                return Err(
                    TaskDomainError::StatusNotFoundInNet { net: self.id, status: status_id },
                );
            },
            Some(p) => p,
        };
        if status_id.id == self.data.schema.default.id || status_id.id
            == self.data.schema.accepted.id {
            return Err(TaskDomainError::StatusNotRemovable { net: self.id, status: status_id });
        }
        let default = self.data.schema.default.id;
        self.reassign_tasks(status_id.id, default);
        self.data.schema.status.remove(p);
        let ghost mid = self@;
        proof {
            let v0 = old(self)@;
            assert(mid.tasks.dom() =~= v0.tasks.dom());
            assert(v0.statuses[p as int].0 == status_id.id);
            assert(mid.statuses =~= v0.statuses.remove(p as int));
            assert forall|x: u128| v0.has_status(x) && x != status_id.id implies #[trigger] mid.has_status(x) by {
                let i = choose|i: int| 0 <= i < v0.statuses.len() && #[trigger] v0.statuses[i].0 == x;
                if i < p {
                    assert(mid.statuses[i].0 == x);
                } else {
                    assert(i != p);
                    assert(mid.statuses[i - 1].0 == x);
                }
            }
            assert(mid.has_status(mid.default));
            assert(mid.has_status(mid.accepted));
            assert forall|t: u128| #[trigger] mid.tasks.contains_key(t) implies mid.has_status(
                mid.tasks[t],
            ) by {
                assert(v0.has_status(v0.tasks[t]));
            }
            lemma_relations_acyclic(v0);
        }
        let r = self.propagate_all();
        proof {
            lemma_propagated_wf(mid, self@);
        }
        r
    }
}

impl Entity<Net> {
    /// The schema's statuses, in order.
    pub fn statuses(&self) -> (r: &Vec<Entity<Status>>)
        ensures
            r@.map_values(|e: Entity<Status>| (e.id.id, e.data.name@)) == self@.statuses,
    {
        &self.data.schema.status
    }

    /// The default status.
    pub fn default_status(&self) -> (r: Id<Status>)
        ensures
            r.id == self@.default,
    {
        self.data.schema.default
    }

    /// The accepted status.
    pub fn accepted_status(&self) -> (r: Id<Status>)
        ensures
            r.id == self@.accepted,
    {
        self.data.schema.accepted
    }

    /// The number of tasks.
    pub fn task_count(&self) -> (r: usize)
        ensures
            r == self@.tasks.len(),
    {
        self.data.tasks.len()
    }

    /// The status of a task, if it is in the network.
    pub fn task_status(&self, task_id: Id<Task>) -> (r: Option<Id<Status>>)
        ensures
            r is Some <==> self@.tasks.contains_key(task_id.id),
            r matches Some(s) ==> s.id == self@.tasks[task_id.id],
    {
        match self.data.tasks.get(&task_id.id) {
            Some(s) => Some(Id::from_u128(*s)),
            None => None,
        }
    }

    /// The identifiers of the tasks, each once.
    pub fn task_ids(&self) -> (r: Vec<Id<Task>>)
        requires
            self@.wf(),
        ensures
            forall|i: int| 0 <= i < r@.len() ==> self@.tasks.contains_key(#[trigger] r@[i].id),
            forall|t: u128| #[trigger]
                self@.tasks.contains_key(t) ==> exists|i: int| 0 <= i < r@.len() && r@[i].id == t,
            forall|i: int, j: int| 0 <= i < j < r@.len() ==> #[trigger] r@[i].id != #[trigger] r@[j].id,
    {
        let keys = graph_node_list(&self.data.relations);
        let mut r: Vec<Id<Task>> = Vec::new();
        let mut i: usize = 0;
        while i < keys.len()
            invariant
                i <= keys@.len(),
                r@.len() == i,
                forall|j: int| 0 <= j < i ==> (#[trigger] r@[j]).id == keys@[j],
            decreases keys.len() - i,
        {
            r.push(Id::from_u128(keys[i]));
            i += 1;
        }
        proof {
            assert forall|j: int| 0 <= j < r@.len() implies self@.tasks.contains_key(#[trigger] r@[j].id) by {
                assert(keys@.to_set().contains(keys@[j]));
            }
            assert forall|t: u128| #[trigger] self@.tasks.contains_key(t) implies exists|j: int|
                0 <= j < r@.len() && r@[j].id == t by {
                assert(keys@.to_set().contains(t));
                let j = choose|j: int| 0 <= j < keys@.len() && keys@[j] == t;
                assert(r@[j].id == t);
            }
            assert forall|a: int, b: int| 0 <= a < b < r@.len() implies #[trigger] r@[a].id != #[trigger] r@[b].id by {
                assert(keys@[a] != keys@[b]);
            }
        }
        r
    }

    /// Every relation, once, as (from, to, type).
    pub fn relations(&self) -> (r: Vec<(Id<Task>, Id<Task>, RelationType)>)
        ensures
            forall|i: int| 0 <= i < r@.len() ==> #[trigger] self@.edges.contains_key((r@[i].0.id, r@[i].1.id))
                && self@.edges[(r@[i].0.id, r@[i].1.id)] == r@[i].2,
            forall|k: (u128, u128)| #[trigger] self@.edges.contains_key(k)
                ==> exists|i: int| 0 <= i < r@.len() && r@[i].0.id == k.0 && r@[i].1.id == k.1,
            forall|i: int, j: int| 0 <= i < j < r@.len() ==> (#[trigger] r@[i].0.id, r@[i].1.id) != (#[trigger] r@[j].0.id, r@[j].1.id),
    {
        let all = graph_all_edges(&self.data.relations);
        let mut r: Vec<(Id<Task>, Id<Task>, RelationType)> = Vec::new();
        let mut i: usize = 0;
        while i < all.len()
            invariant
                i <= all@.len(),
                r@.len() == i,
                forall|j: int| 0 <= j < i ==> (#[trigger] r@[j]).0.id == all@[j].0 && r@[j].1.id == all@[j].1
                    && r@[j].2 == all@[j].2,
            decreases all.len() - i,
        {
            let (a, b, w) = all[i];
            r.push((Id::from_u128(a), Id::from_u128(b), w));
            i += 1;
        }
        proof {
            assert forall|j: int| 0 <= j < r@.len() implies #[trigger] self@.edges.contains_key((r@[j].0.id, r@[j].1.id))
                && self@.edges[(r@[j].0.id, r@[j].1.id)] == r@[j].2 by {
                assert(graph_edges(self.data.relations).contains_key((all@[j].0, all@[j].1)));
            }
            assert forall|k: (u128, u128)| #[trigger] self@.edges.contains_key(k) implies exists|j: int|
                0 <= j < r@.len() && r@[j].0.id == k.0 && r@[j].1.id == k.1 by {
                let j = choose|j: int| 0 <= j < all@.len() && all@[j].0 == k.0 && all@[j].1 == k.1;
                assert(r@[j].0.id == k.0);
            }
            assert forall|a: int, b: int| 0 <= a < b < r@.len() implies (#[trigger] r@[a].0.id, r@[a].1.id) != (#[trigger] r@[b].0.id, r@[b].1.id) by {
                assert((all@[a].0, all@[a].1) != (all@[b].0, all@[b].1));
            }
        }
        r
    }

    /// The type of the relation from `from` to `to`, if there is one.
    pub fn relation(&self, from: Id<Task>, to: Id<Task>) -> (r: Option<RelationType>)
        ensures
            r is Some <==> self@.edges.contains_key((from.id, to.id)),
            r matches Some(w) ==> w == self@.edges[(from.id, to.id)],
    {
        graph_edge_weight(&self.data.relations, from.id, to.id)
    }

    /// Gives every task that holds `from` the status `to`.
    fn reassign_tasks(&mut self, from: u128, to: u128)
        requires
            old(self)@.nodes == old(self)@.tasks.dom(),
        ensures
            final(self).id == old(self).id,
            final(self)@ == (NetView { tasks: reassigned(old(self)@.tasks, from, to), ..old(self)@ }),
    {
        let keys = graph_node_list(&self.data.relations);
        let ghost orig = self@.tasks;
        let ghost goal = reassigned(orig, from, to);
        let mut i: usize = 0;
        while i < keys.len()
            invariant
                i <= keys@.len(),
                keys@.no_duplicates(),
                keys@.to_set() == orig.dom(),
                self.id == old(self).id,
                orig == old(self)@.tasks,
                goal == reassigned(orig, from, to),
                self@ == (NetView { tasks: self@.tasks, ..old(self)@ }),
                self@.tasks.dom() == orig.dom(),
                forall|j: int| 0 <= j < i ==> self@.tasks[#[trigger] keys@[j]] == goal[keys@[j]],
                forall|j: int|
                    i <= j < keys@.len() ==> self@.tasks[#[trigger] keys@[j]] == orig[keys@[j]],
            decreases keys.len() - i,
        {
            let k = keys[i];
            let hit = match self.data.tasks.get(&k) {
                Some(c) => *c == from,
                None => false,
            };
            proof {
                assert(keys@.to_set().contains(k));
            }
            if hit {
                self.data.tasks.insert(k, to);
            }
            proof {
                assert forall|j: int| 0 <= j < keys@.len() && j != i implies keys@[j] != k by {}
            }
            i += 1;
        }
        proof {
            assert forall|t: u128| #[trigger] self@.tasks.contains_key(t) implies self@.tasks[t]
                == goal[t] by {
                assert(keys@.to_set().contains(t));
                let j = choose|j: int| 0 <= j < keys@.len() && keys@[j] == t;
            }
            assert(self@.tasks =~= goal);
        }
    }


    /// Whether the relations into `task` decide its acceptance, and how
    /// (see `acceptance`).
    fn is_controlled_task_accepted(&self, task: u128) -> (r: Result<Option<bool>, TaskDomainError>)
        requires
            forall|s: u128| #[trigger]
                self@.edges.contains_key((s, task)) ==> self@.tasks.contains_key(s),
        ensures
            r == Ok::<Option<bool>, TaskDomainError>(
                acceptance(self@.edges, self@.tasks, task, self@.accepted),
            ),
    {
        let incoming = graph_incoming(&self.data.relations, task);
        let accepted = self.data.schema.accepted.id;
        let mut have_subtasks = false;
        let mut i: usize = 0;
        assert forall|j: int| 0 <= j < incoming@.len() implies self@.edges.contains_key(
            (#[trigger] incoming@[j].0, task),
        ) && self@.edges[(incoming@[j].0, task)] == incoming@[j].1 by {
            assert(self@.edges.contains_key((incoming@[j].0, task)));
        }
        while i < incoming.len()
            invariant
                0 <= i <= incoming.len(),
                accepted == self@.accepted,
                forall|s: u128| #[trigger]
                    self@.edges.contains_key((s, task)) ==> self@.tasks.contains_key(s),
                forall|j: int|
                    0 <= j < incoming@.len() ==> self@.edges.contains_key(
                        (#[trigger] incoming@[j].0, task),
                    ) && self@.edges[(incoming@[j].0, task)] == incoming@[j].1,
                forall|j: int| 0 <= j < i ==> self@.tasks[#[trigger] incoming@[j].0] == accepted,
                have_subtasks == exists|j: int|
                    0 <= j < i && (#[trigger] incoming@[j]).1 == RelationType::Compose,
            decreases incoming.len() - i,
        {
            let (source, relation_type) = incoming[i];
            assert(self@.edges.contains_key((incoming@[i as int].0, task)));
            match self.data.tasks.get(&source) {
                None => {
                    return Err(
                        TaskDomainError::TaskNotFoundInNet {
                            net: self.id,
                            task: Id::from_u128(source),
                        },
                    );
                },
                Some(status) => {
                    if *status != accepted {
                        assert(!parents_accepted(self@.edges, self@.tasks, task, accepted));
                        assert(has_incoming(self@.edges, task));
                        return Ok(Some(false));
                    }
                },
            }
            if relation_type == RelationType::Compose {
                have_subtasks = true;
            }
            i += 1;
        }
        assert(parents_accepted(self@.edges, self@.tasks, task, accepted));
        if have_subtasks {
            proof {
                let j = choose|j: int|
                    0 <= j < i && (#[trigger] incoming@[j]).1 == RelationType::Compose;
                assert(self@.edges.contains_key((incoming@[j].0, task)));
                assert(has_compose(self@.edges, task));
            }
            return Ok(Some(true));
        }
        assert(!has_compose(self@.edges, task));
        Ok(None)
    }

    /// Walks `order` from position `start` to its end, giving each task the
    /// status that its parents decide; every other task keeps its status.
    fn propagate_over(&mut self, order: &Vec<u128>, start: usize) -> (r: Result<
        (),
        TaskDomainError,
    >)
        requires
            edges_within(old(self)@.edges, old(self)@.nodes),
            edges_within(old(self)@.edges, old(self)@.tasks.dom()),
            is_topological_order(old(self)@.edges, old(self)@.nodes, order@),
            start <= order@.len(),
        ensures
            r is Ok,
            final(self).id == old(self).id,
            final(self)@ == (NetView { tasks: final(self)@.tasks, ..old(self)@ }),
            walked(
                old(self)@.edges,
                old(self)@.nodes,
                order@,
                start as int,
                old(self)@.default,
                old(self)@.accepted,
                old(self)@.tasks,
                final(self)@.tasks,
            ),
    {
        let ghost v0 = self@;
        let ghost pre = self@.tasks;
        let ghost edges = self@.edges;
        let default = self.data.schema.default.id;
        let accepted = self.data.schema.accepted.id;
        let mut i: usize = start;
        while i < order.len()
            invariant
                start <= i <= order@.len(),
                self.id == old(self).id,
                v0 == old(self)@,
                pre == v0.tasks,
                edges == v0.edges,
                self@ == (NetView { tasks: self@.tasks, ..v0 }),
                self@.tasks.dom() == pre.dom(),
                default == v0.default,
                accepted == v0.accepted,
                edges_within(edges, v0.nodes),
                edges_within(edges, pre.dom()),
                is_topological_order(edges, v0.nodes, order@),
                forall|j: int|
                    0 <= j < start && pre.contains_key(#[trigger] order@[j])
                        ==> self@.tasks[order@[j]] == pre[order@[j]],
                forall|j: int|
                    i <= j < order@.len() && pre.contains_key(#[trigger] order@[j])
                        ==> self@.tasks[order@[j]] == pre[order@[j]],
                forall|j: int|
                    start <= j < i && pre.contains_key(#[trigger] order@[j])
                        ==> self@.tasks[order@[j]] == settle(
                        edges,
                        self@.tasks,
                        order@[j],
                        pre[order@[j]],
                        default,
                        accepted,
                    ),
                forall|t: u128| #[trigger]
                    pre.contains_key(t) && !v0.nodes.contains(t) ==> self@.tasks[t] == pre[t],
            decreases order.len() - i,
        {
            let task = order[i];
            let ghost st = self@.tasks;
            proof {
                assert(order@.to_set().contains(task));
            }
            let decided = match self.is_controlled_task_accepted(task) {
                Ok(d) => d,
                Err(e) => {
                    return Err(e);
                },
            };
            let ghost new_status = settle(edges, st, task, pre[task], default, accepted);
            if let Some(accepted_now) = decided {
                proof {
                    let s = choose|s: u128| #[trigger] edges.contains_key((s, task));
                    assert(pre.contains_key(task));
                }
                let current = match self.data.tasks.get(&task) {
                    None => {
                        return Err(
                            TaskDomainError::TaskNotFoundInNet {
                                net: self.id,
                                task: Id::from_u128(task),
                            },
                        );
                    },
                    Some(c) => *c,
                };
                let stored_accepted = current == accepted;
                if accepted_now != stored_accepted {
                    if accepted_now {
                        self.data.tasks.insert(task, accepted);
                    } else {
                        self.data.tasks.insert(task, default);
                    }
                }
            }
            proof {
                let st2 = self@.tasks;
                if pre.contains_key(task) {
                    assert(st2 == st.insert(task, new_status));
                } else {
                    assert(st2 == st);
                }
                assert forall|j: int| 0 <= j <= i && pre.contains_key(#[trigger] order@[j]) implies settle(
                    edges,
                    st2,
                    order@[j],
                    pre[order@[j]],
                    default,
                    accepted,
                ) == settle(edges, st, order@[j], pre[order@[j]], default, accepted) by {
                    assert forall|s: u128| #[trigger]
                        edges.contains_key((s, order@[j])) implies st[s] == st2[s] by {
                        assert(pre.contains_key(s));
                        if s == task {
                            assert(edges.contains_key((order@[i as int], order@[j])));
                        }
                    }
                    lemma_settle_frame(
                        edges,
                        edges,
                        st2,
                        st,
                        order@[j],
                        pre[order@[j]],
                        default,
                        accepted,
                    );
                }
                assert forall|j: int|
                    0 <= j < order@.len() && j != i && pre.contains_key(
                        #[trigger] order@[j],
                    ) implies st2[order@[j]] == st[order@[j]] by {
                    assert(order@[j] != order@[i as int]);
                }
            }
            i += 1;
        }
        Ok(())
    }

    /// Propagates through every task; a cycle in the graph is an error and
    /// changes nothing.
    fn propagate_all(&mut self) -> (r: Result<(), TaskDomainError>)
        requires
            edges_within(old(self)@.edges, old(self)@.nodes),
            edges_within(old(self)@.edges, old(self)@.tasks.dom()),
        ensures
            final(self).id == old(self).id,
            !acyclic(old(self)@.edges) ==> r == Err::<(), TaskDomainError>(
                TaskDomainError::CycleNotAllowedInNet(old(self).id),
            ) && final(self)@ == old(self)@,
            acyclic(old(self)@.edges) ==> r is Ok && final(self)@ == (NetView {
                tasks: final(self)@.tasks,
                ..old(self)@
            }) && propagated(
                old(self)@.edges,
                old(self)@.default,
                old(self)@.accepted,
                old(self)@.tasks,
                final(self)@.tasks,
            ) && final(self)@.ordered(),
    {
        let order = match graph_toposort(&self.data.relations) {
            None => {
                return Err(TaskDomainError::CycleNotAllowedInNet(self.id));
            },
            Some(o) => o,
        };
        let ghost v0 = self@;
        proof {
            lemma_topological_order_acyclic(v0.edges, v0.nodes, order@);
        }
        let r = self.propagate_over(&order, 0);
        proof {
            lemma_walk_propagated(
                v0.edges,
                v0.nodes,
                order@,
                0,
                v0.default,
                v0.accepted,
                v0.tasks,
                self@.tasks,
            );
            assert(is_topological_order(self@.edges, self@.nodes, order@));
        }
        r
    }

    /// Propagates from `task` on, `task` included. Every task that `task`
    /// does not reach must be at the fixpoint already, and keeps its status.
    /// A cycle in the graph is an error and changes nothing.
    fn propagate_at(&mut self, task: u128) -> (r: Result<(), TaskDomainError>)
        requires
            edges_within(old(self)@.edges, old(self)@.nodes),
            edges_within(old(self)@.edges, old(self)@.tasks.dom()),
            forall|t: u128| #[trigger]
                old(self)@.tasks.contains_key(t) && not_reached(old(self)@.edges, task, false, t)
                    ==> old(self)@.settled_at(t),
        ensures
            final(self).id == old(self).id,
            !acyclic(old(self)@.edges) ==> r == Err::<(), TaskDomainError>(
                TaskDomainError::CycleNotAllowedInNet(old(self).id),
            ) && final(self)@ == old(self)@,
            acyclic(old(self)@.edges) ==> r is Ok && final(self)@ == (NetView {
                tasks: final(self)@.tasks,
                ..old(self)@
            }) && propagated(
                old(self)@.edges,
                old(self)@.default,
                old(self)@.accepted,
                old(self)@.tasks,
                final(self)@.tasks,
            ) && final(self)@.ordered(),
            acyclic(old(self)@.edges) ==> forall|t: u128| #[trigger]
                old(self)@.tasks.contains_key(t) && not_reached(old(self)@.edges, task, false, t)
                    ==> final(self)@.tasks[t] == old(self)@.tasks[t],
            acyclic(old(self)@.edges) && !old(self)@.nodes.contains(task) ==> final(self)@
                == old(self)@,
    {
        let order = match graph_toposort(&self.data.relations) {
            None => {
                return Err(TaskDomainError::CycleNotAllowedInNet(self.id));
            },
            Some(o) => o,
        };
        let ghost v0 = self@;
        let k = position_of(&order, task);
        proof {
            lemma_topological_order_acyclic(v0.edges, v0.nodes, order@);
            assert forall|j: int| 0 <= j < k implies not_reached(
                v0.edges,
                task,
                false,
                #[trigger] order@[j],
            ) by {
                if reachable(v0.edges, task, order@[j]) {
                    lemma_reachable_later(v0.edges, v0.nodes, order@, task, order@[j]);
                    assert(order@.index_of(order@[j]) == j);
                }
            }
        }
        let r = self.propagate_over(&order, k);
        proof {
            lemma_walk_from(
                v0.edges,
                v0.nodes,
                order@,
                k as int,
                v0.default,
                v0.accepted,
                v0.tasks,
                self@.tasks,
                task,
                false,
            );
            assert(is_topological_order(self@.edges, self@.nodes, order@));
            if !v0.nodes.contains(task) {
                assert forall|t: u128| #[trigger] v0.tasks.contains_key(t) implies self@.tasks[t]
                    == v0.tasks[t] by {
                    if reachable(v0.edges, task, t) {
                        lemma_reachable_outside(v0.edges, v0.nodes, task, t);
                    }
                }
                assert(self@.tasks =~= v0.tasks);
            }
        }
        r
    }

    /// Propagates from the task after `task` on. `task` has no incoming
    /// edge, and every task that is not a strict descendant of `task` must be
    /// at the fixpoint already, and keeps its status. A cycle in the graph is
    /// an error and changes nothing.
    fn propagate_from(&mut self, task: u128) -> (r: Result<(), TaskDomainError>)
        requires
            edges_within(old(self)@.edges, old(self)@.nodes),
            edges_within(old(self)@.edges, old(self)@.tasks.dom()),
            !has_incoming(old(self)@.edges, task),
            forall|t: u128| #[trigger]
                old(self)@.tasks.contains_key(t) && not_reached(old(self)@.edges, task, true, t)
                    ==> old(self)@.settled_at(t),
        ensures
            final(self).id == old(self).id,
            !acyclic(old(self)@.edges) ==> r == Err::<(), TaskDomainError>(
                TaskDomainError::CycleNotAllowedInNet(old(self).id),
            ) && final(self)@ == old(self)@,
            acyclic(old(self)@.edges) ==> r is Ok && final(self)@ == (NetView {
                tasks: final(self)@.tasks,
                ..old(self)@
            }) && propagated(
                old(self)@.edges,
                old(self)@.default,
                old(self)@.accepted,
                old(self)@.tasks,
                final(self)@.tasks,
            ) && final(self)@.ordered(),
            acyclic(old(self)@.edges) ==> forall|t: u128| #[trigger]
                old(self)@.tasks.contains_key(t) && not_reached(old(self)@.edges, task, true, t)
                    ==> final(self)@.tasks[t] == old(self)@.tasks[t],
    {
        let order = match graph_toposort(&self.data.relations) {
            None => {
                return Err(TaskDomainError::CycleNotAllowedInNet(self.id));
            },
            Some(o) => o,
        };
        let ghost v0 = self@;
        let k = position_of(&order, task);
        let start = if k < order.len() {
            k + 1
        } else {
            k
        };
        proof {
            lemma_topological_order_acyclic(v0.edges, v0.nodes, order@);
            assert forall|j: int| 0 <= j < start implies not_reached(
                v0.edges,
                task,
                true,
                #[trigger] order@[j],
            ) by {
                if j < k && reachable(v0.edges, task, order@[j]) {
                    lemma_reachable_later(v0.edges, v0.nodes, order@, task, order@[j]);
                    assert(order@.index_of(order@[j]) == j);
                }
            }
        }
        let r = self.propagate_over(&order, start);
        proof {
            lemma_walk_from(
                v0.edges,
                v0.nodes,
                order@,
                start as int,
                v0.default,
                v0.accepted,
                v0.tasks,
                self@.tasks,
                task,
                true,
            );
            assert(is_topological_order(self@.edges, self@.nodes, order@));
        }
        r
    }
}

} // verus!
