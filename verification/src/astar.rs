//! A* search over a node graph embedded in lattice space.
//!
//! The solver snaps its two end points to the nearest graph nodes, searches
//! from the first toward the second and hands back the chain of predecessors
//! from where it arrived to where it began. When the goal cannot be reached it
//! arrives instead at the node that came closest to the goal.

use crate::geometry::{
    dist, dist_sq, dist_up, distance, distance_squared, distance_up, lemma_floor_sqrt_is_root,
    lemma_triangle, Point3,
};
use crate::open_set::{NodeAndScore, OpenSet};
use vstd::multiset::Multiset;
use vstd::prelude::*;

verus! {

/// A vertex of a navigation graph.
pub trait Node {
    /// Where the node lies.
    spec fn spec_pos(&self) -> Point3;

    /// The indices of the nodes this node has an edge to.
    spec fn spec_neighbours(&self) -> Seq<i32>;

    fn get_pos(&self) -> (p: Point3)
        ensures
            p == self.spec_pos(),
    ;

    fn get_neighbours(&self) -> (n: &[i32])
        ensures
            n@ == self.spec_neighbours(),
    ;
}

/// Every neighbour index names a node of the graph, and the node count fits
/// the index type.
pub open spec fn graph_wf<NodeT: Node>(nodes: Seq<NodeT>) -> bool {
    &&& nodes.len() <= i32::MAX
    &&& forall|i: int, k: int|
        0 <= i < nodes.len() && 0 <= k < nodes[i].spec_neighbours().len() ==> 0
            <= #[trigger] nodes[i].spec_neighbours()[k] < nodes.len()
}

/// The graph has an edge from `u` to `v`.
pub open spec fn has_edge<NodeT: Node>(nodes: Seq<NodeT>, u: int, v: int) -> bool {
    &&& 0 <= u < nodes.len()
    &&& 0 <= v < nodes.len()
    &&& exists|k: int|
        0 <= k < nodes[u].spec_neighbours().len() && #[trigger] nodes[u].spec_neighbours()[k] == v
}

/// `w` lists nodes each of which has an edge to the next.
pub open spec fn is_walk<NodeT: Node>(nodes: Seq<NodeT>, w: Seq<int>) -> bool {
    &&& w.len() > 0
    &&& 0 <= w[0] < nodes.len()
    &&& forall|k: int| 0 <= k < w.len() - 1 ==> has_edge(nodes, #[trigger] w[k], w[k + 1])
}

/// Some walk leads from `u` to `v`.
pub open spec fn reachable<NodeT: Node>(nodes: Seq<NodeT>, u: int, v: int) -> bool {
    exists|w: Seq<int>| is_walk(nodes, w) && w.first() == u && w.last() == v
}

/// Node `i` is the first among those that lie nearest to `p`.
pub open spec fn is_nearest<NodeT: Node>(nodes: Seq<NodeT>, p: Point3, i: int) -> bool {
    &&& 0 <= i < nodes.len()
    &&& forall|j: int|
        0 <= j < nodes.len() ==> dist_sq(p, nodes[i].spec_pos()) <= dist_sq(
            p,
            #[trigger] nodes[j].spec_pos(),
        )
    &&& forall|j: int|
        0 <= j < i ==> dist_sq(p, nodes[i].spec_pos()) < dist_sq(p, #[trigger] nodes[j].spec_pos())
}

/// The index of the node that `p` snaps to.
pub open spec fn nearest_idx<NodeT: Node>(nodes: Seq<NodeT>, p: Point3) -> int {
    choose|i: int| is_nearest(nodes, p, i)
}

/// At most one node is the first nearest one.
pub proof fn lemma_nearest_unique<NodeT: Node>(nodes: Seq<NodeT>, p: Point3, i: int, j: int)
    requires
        is_nearest(nodes, p, i),
        is_nearest(nodes, p, j),
    ensures
        i == j,
{
    let di = dist_sq(p, nodes[i].spec_pos());
    let dj = dist_sq(p, nodes[j].spec_pos());
    assert(di <= dj && dj <= di);
}

/// Distance from node `v` to node `g`, rounded down: the search's estimate of
/// what remains from `v` when `g` is the goal.
pub open spec fn heuristic_spec<NodeT: Node>(nodes: Seq<NodeT>, v: int, g: int) -> nat {
    dist(nodes[v].spec_pos(), nodes[g].spec_pos())
}

/// `path` is a chain of predecessors that ends at `start`: each entry is a
/// node, and each entry but the first has an edge to the entry before it.
pub open spec fn is_route<NodeT: Node>(nodes: Seq<NodeT>, path: Seq<i32>, start: int) -> bool {
    &&& forall|k: int| 0 <= k < path.len() ==> 0 <= #[trigger] path[k] < nodes.len()
    &&& path.len() > 0 ==> path.last() == start
    &&& forall|k: int|
        0 <= k < path.len() - 1 ==> has_edge(nodes, #[trigger] path[k + 1] as int, path[k] as int)
}

/// The largest edge cost under which no sum of costs along a simple path of a
/// graph of `n` nodes reaches the largest representable cost.
pub open spec fn edge_limit(n: nat) -> nat {
    (u64::MAX as nat) / n
}

/// No edge costs more than `edge_limit` allows. What `cost_fn` makes of two
/// nodes without an edge between them does not matter.
pub open spec fn costs_fit<NodeT: Node, C: Fn(&NodeT, &NodeT) -> u64>(
    nodes: Seq<NodeT>,
    cost_fn: C,
) -> bool {
    forall|u: int, v: int, c: u64|
        has_edge(nodes, u, v) && #[trigger] call_ensures(
            cost_fn,
            (&nodes[u], &nodes[v]),
            c,
        ) ==> c <= edge_limit(nodes.len())
}

/// `weight` tells what `cost_fn` returns for each edge.
pub open spec fn costs_are<NodeT: Node, C: Fn(&NodeT, &NodeT) -> u64>(
    nodes: Seq<NodeT>,
    cost_fn: C,
    weight: spec_fn(int, int) -> nat,
) -> bool {
    forall|u: int, v: int, c: u64|
        has_edge(nodes, u, v) && #[trigger] call_ensures(
            cost_fn,
            (&nodes[u], &nodes[v]),
            c,
        ) ==> c == weight(u, v)
}

/// The estimate never falls by more than an edge costs: for every edge, the
/// estimate at its start is at most its cost plus the estimate at its end.
pub open spec fn consistent<NodeT: Node>(
    nodes: Seq<NodeT>,
    weight: spec_fn(int, int) -> nat,
    g: int,
) -> bool {
    forall|u: int, v: int| #[trigger]
        has_edge(nodes, u, v) ==> heuristic_spec(nodes, u, g) <= weight(u, v) + heuristic_spec(
            nodes,
            v,
            g,
        )
}

/// The conditions under which the search finds a cheapest path to goal `g`:
/// the costs fit, `weight` tells the cost of each edge, and the estimate is
/// consistent with the costs.
pub open spec fn sound<NodeT: Node, C: Fn(&NodeT, &NodeT) -> u64>(
    nodes: Seq<NodeT>,
    cost_fn: C,
    weight: spec_fn(int, int) -> nat,
    g: int,
) -> bool {
    &&& costs_fit(nodes, cost_fn)
    &&& costs_are(nodes, cost_fn, weight)
    &&& consistent(nodes, weight, g)
}

/// The sum of the costs of the edges of a walk.
pub open spec fn walk_cost(weight: spec_fn(int, int) -> nat, w: Seq<int>) -> nat
    decreases w.len(),
{
    if w.len() <= 1 {
        0
    } else {
        walk_cost(weight, w.drop_last()) + weight(w[w.len() - 2], w[w.len() - 1])
    }
}

/// The sum of the costs of the edges of a route, each taken from the later
/// entry to the earlier one.
pub open spec fn route_cost(weight: spec_fn(int, int) -> nat, path: Seq<i32>) -> nat
    decreases path.len(),
{
    if path.len() <= 1 {
        0
    } else {
        route_cost(weight, path.drop_last()) + weight(
            path[path.len() - 1] as int,
            path[path.len() - 2] as int,
        )
    }
}

/// What a search from the node nearest `from` toward the node nearest `to`
/// hands back: a route without a node twice that ends at the start. It
/// begins at the goal if the goal can be reached, and then no walk to the
/// goal is cheaper. Else it begins at the node of least estimate among those
/// that can be reached from the start and are not the start, and is empty
/// where there is no such node.
pub open spec fn is_solution<NodeT: Node, C: Fn(&NodeT, &NodeT) -> u64>(
    nodes: Seq<NodeT>,
    from: Point3,
    to: Point3,
    cost_fn: C,
    path: Seq<i32>,
) -> bool {
    let s = nearest_idx(nodes, from);
    let g = nearest_idx(nodes, to);
    &&& is_route(nodes, path, s)
    &&& path.no_duplicates()
    &&& s == g ==> path =~= seq![g as i32]
    &&& path.len() > 0 ==> path[0] == g || path[0] != s
    &&& costs_fit(nodes, cost_fn) ==> {
        &&& reachable(nodes, s, g) ==> path.len() > 0 && path[0] == g
        &&& !reachable(nodes, s, g) ==> {
            &&& path.len() == 0 <==> forall|v: int| reachable(nodes, s, v) ==> v == s
            &&& path.len() > 0 ==> forall|v: int|
                reachable(nodes, s, v) && v != s ==> heuristic_spec(nodes, path[0] as int, g)
                    <= heuristic_spec(nodes, v, g)
        }
    }
    &&& path.len() > 0 && path[0] == g ==> forall|weight: spec_fn(int, int) -> nat, w: Seq<int>|
        sound(nodes, cost_fn, weight, g) && is_walk(nodes, w) && w.first() == s && w.last() == g
            ==> route_cost(weight, path) <= #[trigger] walk_cost(weight, w)
}

/// The positions of the nodes that `path` names.
pub open spec fn positions<NodeT: Node>(nodes: Seq<NodeT>, path: Seq<i32>) -> Seq<Point3> {
    Seq::new(path.len(), |k: int| nodes[path[k] as int].spec_pos())
}

/// Search state over a borrowed graph. The scratch buffers are sized to the
/// graph once and reset by every search.
pub struct AStarContext<'n, NodeT> {
    open_set: OpenSet,
    came_from: Vec<i32>,
    cost: Vec<u64>,
    nodes: &'n [NodeT],
}

impl<'n, NodeT: Node> AStarContext<'n, NodeT> {
    /// The graph being searched.
    pub closed spec fn graph(&self) -> Seq<NodeT> {
        self.nodes@
    }

    /// The scratch buffers have one slot per node.
    pub closed spec fn wf(&self) -> bool {
        &&& self.came_from.len() == self.nodes@.len()
        &&& self.cost.len() == self.nodes@.len()
    }

    pub fn new(nodes: &'n [NodeT]) -> (ctx: Self)
        ensures
            ctx.wf(),
            ctx.graph() == nodes@,
    {
        AStarContext {
            open_set: OpenSet::new(),
            came_from: vec![-1i32; nodes.len()],
            cost: vec![0u64; nodes.len()],
            nodes: nodes,
        }
    }

    fn heuristic(&self, from: i32, to: i32) -> (h: u64)
        requires
            0 <= from < self.nodes@.len(),
            0 <= to < self.nodes@.len(),
        ensures
            h == heuristic_spec(self.nodes@, from as int, to as int),
    {
        let a: Point3 = self.nodes[from as usize].get_pos();
        let b: Point3 = self.nodes[to as usize].get_pos();
        distance(&a, &b)
    }

    fn pos_to_idx(&self, pos: Point3) -> (idx: i32)
        requires
            0 < self.nodes@.len() <= i32::MAX,
        ensures
            is_nearest(self.nodes@, pos, idx as int),
            idx == nearest_idx(self.nodes@, pos),
    {
        let mut best_idx: usize = 0;
        let mut best_distance: u128 = distance_squared(&pos, &self.nodes[0].get_pos());
        let mut i: usize = 1;
        while i < self.nodes.len()
            invariant
                0 < self.nodes@.len() <= i32::MAX,
                1 <= i <= self.nodes@.len(),
                0 <= best_idx < i,
                best_distance == dist_sq(pos, self.nodes@[best_idx as int].spec_pos()),
                forall|j: int|
                    0 <= j < i ==> best_distance <= dist_sq(pos, #[trigger] self.nodes@[j].spec_pos()),
                forall|j: int|
                    0 <= j < best_idx ==> best_distance < dist_sq(
                        pos,
                        #[trigger] self.nodes@[j].spec_pos(),
                    ),
            decreases self.nodes@.len() - i,
        {
            let d: u128 = distance_squared(&pos, &self.nodes[i].get_pos());
            if d < best_distance {
                best_idx = i;
                best_distance = d;
            }
            i += 1;
        }
        proof {
            lemma_nearest_unique(
                self.nodes@,
                pos,
                best_idx as int,
                nearest_idx(self.nodes@, pos),
            );
        }
        best_idx as i32
    }
}


/// Sum of all entries of `cost`.
spec fn total(cost: Seq<u64>) -> nat
    decreases cost.len(),
{
    if cost.len() == 0 {
        0
    } else {
        total(cost.drop_last()) + cost.last() as nat
    }
}

proof fn lemma_total_update(cost: Seq<u64>, i: int, x: u64)
    requires
        0 <= i < cost.len(),
    ensures
        total(cost.update(i, x)) == total(cost) - cost[i] + x,
    decreases cost.len(),
{
    let updated = cost.update(i, x);
    if i == cost.len() - 1 {
        assert(updated.drop_last() =~= cost.drop_last());
    } else {
        lemma_total_update(cost.drop_last(), i, x);
        assert(updated.drop_last() =~= cost.drop_last().update(i, x));
    }
}

/// Some queued entry names node `v`.
spec fn bag_holds(open: Multiset<NodeAndScore>, v: int) -> bool {
    exists|e: NodeAndScore| open.count(e) > 0 && e.idx == v
}

/// What the scratch buffers say of node `v`: it is undiscovered, or it is the
/// start, or its predecessor is a discovered node with an edge to it that
/// ranks strictly before it by cost and then by `rank`.
spec fn node_ok<NodeT: Node>(
    nodes: Seq<NodeT>,
    came_from: Seq<i32>,
    cost: Seq<u64>,
    rank: Seq<nat>,
    s: int,
    v: int,
) -> bool {
    &&& -1 <= came_from[v] < nodes.len()
    &&& (came_from[v] >= 0 <==> cost[v] < u64::MAX)
    &&& (v != s && came_from[v] >= 0) ==> {
        let u = came_from[v] as int;
        &&& came_from[u] >= 0
        &&& has_edge(nodes, u, v)
        &&& (cost[u] < cost[v] || (cost[u] == cost[v] && rank[u] < rank[v]))
    }
}

/// The predecessors form a tree rooted at the start `s`.
spec fn tree_inv<NodeT: Node>(
    nodes: Seq<NodeT>,
    came_from: Seq<i32>,
    cost: Seq<u64>,
    rank: Seq<nat>,
    s: int,
) -> bool {
    &&& came_from.len() == nodes.len()
    &&& cost.len() == nodes.len()
    &&& rank.len() == nodes.len()
    &&& 0 <= s < nodes.len()
    &&& came_from[s] == s
    &&& cost[s] == 0
    &&& forall|v: int| 0 <= v < nodes.len() ==> #[trigger] node_ok(nodes, came_from, cost, rank, s, v)
}

/// Every queued entry names a discovered node.
spec fn open_inv(n: int, came_from: Seq<i32>, open: Multiset<NodeAndScore>) -> bool {
    forall|e: NodeAndScore| #[trigger]
        open.count(e) > 0 ==> 0 <= e.idx < n && came_from[e.idx as int] >= 0
}

/// The first `upto` neighbours of `v` are discovered.
spec fn node_closed<NodeT: Node>(nodes: Seq<NodeT>, came_from: Seq<i32>, v: int, upto: int) -> bool {
    forall|k: int|
        0 <= k < upto && k < nodes[v].spec_neighbours().len() ==> came_from[(
        #[trigger] nodes[v].spec_neighbours()[k]) as int] >= 0
}

/// Node `v` is closed, but for `cur`, of which only the first `upto`
/// neighbours have been looked at.
spec fn closed_at<NodeT: Node>(
    nodes: Seq<NodeT>,
    came_from: Seq<i32>,
    v: int,
    cur: int,
    upto: int,
) -> bool {
    node_closed(
        nodes,
        came_from,
        v,
        if v == cur {
            upto
        } else {
            nodes[v].spec_neighbours().len() as int
        },
    )
}

/// Every discovered node that is not queued is closed.
spec fn closed_inv<NodeT: Node>(
    nodes: Seq<NodeT>,
    came_from: Seq<i32>,
    open: Multiset<NodeAndScore>,
    cur: int,
    upto: int,
) -> bool {
    forall|v: int|
        0 <= v < nodes.len() && came_from[v] >= 0 && !bag_holds(open, v) ==> #[trigger] closed_at(
            nodes,
            came_from,
            v,
            cur,
            upto,
        )
}

/// `order` lists the discovered nodes, each once.
spec fn order_inv(n: int, came_from: Seq<i32>, order: Seq<int>) -> bool {
    &&& order.no_duplicates()
    &&& forall|j: int| 0 <= j < order.len() ==> 0 <= #[trigger] order[j] < n
    &&& forall|v: int| 0 <= v < n ==> (#[trigger] came_from[v] >= 0 <==> order.contains(v))
}

/// No discovered node costs more than `count - 1` edges at the limit.
spec fn bound_inv(n: int, came_from: Seq<i32>, cost: Seq<u64>, count: int) -> bool {
    forall|v: int|
        0 <= v < n && #[trigger] came_from[v] >= 0 ==> cost[v] <= (count - 1) * edge_limit(n as nat)
}

/// `best_idx` is a discovered node other than the start whose estimate,
/// `best_score`, is the least among such nodes; it is -1 while the start
/// alone is discovered.
spec fn best_inv<NodeT: Node>(
    nodes: Seq<NodeT>,
    came_from: Seq<i32>,
    s: int,
    g: int,
    best_score: u64,
    best_idx: i32,
) -> bool {
    &&& best_idx == -1 ==> forall|v: int|
        0 <= v < nodes.len() && #[trigger] came_from[v] >= 0 ==> v == s
    &&& best_idx != -1 ==> {
        &&& 0 <= best_idx < nodes.len()
        &&& best_idx != s
        &&& came_from[best_idx as int] >= 0
        &&& heuristic_spec(nodes, best_idx as int, g) == best_score
        &&& forall|v: int|
            0 <= v < nodes.len() && v != s && #[trigger] came_from[v] >= 0 ==> best_score
                <= heuristic_spec(nodes, v, g)
    }
}

/// Node `a` was reached at a lower cost than node `b`, or at the same cost
/// and earlier in rank.
spec fn ranks_before(cost: Seq<u64>, rank: Seq<nat>, a: int, b: int) -> bool {
    cost[a] < cost[b] || (cost[a] == cost[b] && rank[a] < rank[b])
}

/// The recorded cost of `v` covers the recorded cost of its predecessor and
/// the edge between them.
spec fn tree_cost_ok(
    weight: spec_fn(int, int) -> nat,
    came_from: Seq<i32>,
    cost: Seq<u64>,
    s: int,
    v: int,
) -> bool {
    (v != s && came_from[v] >= 0) ==> cost[came_from[v] as int] + weight(came_from[v] as int, v)
        <= cost[v]
}

/// The recorded costs add up along the predecessors.
spec fn tree_costs(
    weight: spec_fn(int, int) -> nat,
    n: int,
    came_from: Seq<i32>,
    cost: Seq<u64>,
    s: int,
) -> bool {
    forall|v: int| 0 <= v < n ==> #[trigger] tree_cost_ok(weight, came_from, cost, s, v)
}

/// Every queued entry names a node and is scored no lower than the node's
/// recorded cost.
spec fn entries_bound(n: int, cost: Seq<u64>, open: Multiset<NodeAndScore>) -> bool {
    forall|e: NodeAndScore| #[trigger]
        open.count(e) > 0 ==> 0 <= e.idx < n && e.f_score >= cost[e.idx as int]
}

/// Some queued entry for `x` is scored no higher than the recorded cost of
/// `x` plus its estimate.
spec fn fresh<NodeT: Node>(
    nodes: Seq<NodeT>,
    cost: Seq<u64>,
    open: Multiset<NodeAndScore>,
    g: int,
    x: int,
) -> bool {
    exists|e: NodeAndScore| #[trigger]
        open.count(e) > 0 && e.idx == x && e.f_score <= cost[x] + heuristic_spec(nodes, x, g)
}

/// Each of the first `upto` neighbours of `x` is discovered, at a cost no
/// higher than that of `x` plus the edge to it.
spec fn relaxed<NodeT: Node>(
    nodes: Seq<NodeT>,
    weight: spec_fn(int, int) -> nat,
    came_from: Seq<i32>,
    cost: Seq<u64>,
    x: int,
    upto: int,
) -> bool {
    forall|k: int|
        0 <= k < upto && k < nodes[x].spec_neighbours().len() ==> came_from[(
        #[trigger] nodes[x].spec_neighbours()[k]) as int] >= 0 && cost[nodes[x].spec_neighbours()[k] as int]
            <= cost[x] + weight(x, nodes[x].spec_neighbours()[k] as int)
}

/// Node `x` is queued at its current cost, or its neighbours have been
/// relaxed from it; of `cur`, only the first `upto`.
spec fn settled_at<NodeT: Node>(
    nodes: Seq<NodeT>,
    weight: spec_fn(int, int) -> nat,
    came_from: Seq<i32>,
    cost: Seq<u64>,
    open: Multiset<NodeAndScore>,
    g: int,
    x: int,
    cur: int,
    upto: int,
) -> bool {
    fresh(nodes, cost, open, g, x) || relaxed(
        nodes,
        weight,
        came_from,
        cost,
        x,
        if x == cur {
            upto
        } else {
            nodes[x].spec_neighbours().len() as int
        },
    )
}

/// What makes the first arrival at the goal a cheapest one.
spec fn opt_inv<NodeT: Node>(
    nodes: Seq<NodeT>,
    weight: spec_fn(int, int) -> nat,
    came_from: Seq<i32>,
    cost: Seq<u64>,
    open: Multiset<NodeAndScore>,
    s: int,
    g: int,
    cur: int,
    upto: int,
) -> bool {
    &&& tree_costs(weight, nodes.len() as int, came_from, cost, s)
    &&& entries_bound(nodes.len() as int, cost, open)
    &&& forall|x: int|
        0 <= x < nodes.len() && came_from[x] >= 0 ==> #[trigger] settled_at(
            nodes,
            weight,
            came_from,
            cost,
            open,
            g,
            x,
            cur,
            upto,
        )
}

/// With the start alone discovered and queued, the first arrival will be a
/// cheapest one.
proof fn lemma_opt_begin<NodeT: Node>(
    nodes: Seq<NodeT>,
    weight: spec_fn(int, int) -> nat,
    came_from: Seq<i32>,
    cost: Seq<u64>,
    open: Multiset<NodeAndScore>,
    s: int,
    g: int,
    entry: NodeAndScore,
)
    requires
        0 <= s < nodes.len(),
        forall|v: int| 0 <= v < nodes.len() && v != s ==> came_from[v] < 0,
        cost[s] == 0,
        entry.idx == s,
        entry.f_score == 0,
        forall|o: NodeAndScore|
            #[trigger] open.count(o) == if o == entry {
                1nat
            } else {
                0nat
            },
    ensures
        opt_inv(nodes, weight, came_from, cost, open, s, g, -1, 0),
{
    assert(open.count(entry) > 0);
    assert(fresh(nodes, cost, open, g, s));
    assert forall|x: int| 0 <= x < nodes.len() && came_from[x] >= 0 implies #[trigger] settled_at(
        nodes,
        weight,
        came_from,
        cost,
        open,
        g,
        x,
        -1,
        0,
    ) by {
        assert(x == s);
    }
}

/// Taking an entry out keeps what makes the first arrival cheapest, with the
/// node taken out as the one whose neighbours are to be looked at.
proof fn lemma_opt_after_pop<NodeT: Node>(
    nodes: Seq<NodeT>,
    weight: spec_fn(int, int) -> nat,
    came_from: Seq<i32>,
    cost: Seq<u64>,
    before: Multiset<NodeAndScore>,
    after: Multiset<NodeAndScore>,
    s: int,
    g: int,
    popped: NodeAndScore,
)
    requires
        opt_inv(nodes, weight, came_from, cost, before, s, g, -1, 0),
        forall|o: NodeAndScore|
            #[trigger] after.count(o) == before.count(o) - if o == popped {
                1nat
            } else {
                0nat
            },
    ensures
        opt_inv(nodes, weight, came_from, cost, after, s, g, popped.idx as int, 0),
{
    assert forall|x: int| 0 <= x < nodes.len() && came_from[x] >= 0 implies #[trigger] settled_at(
        nodes,
        weight,
        came_from,
        cost,
        after,
        g,
        x,
        popped.idx as int,
        0,
    ) by {
        assert(settled_at(nodes, weight, came_from, cost, before, g, x, -1, 0));
        if x != popped.idx && fresh(nodes, cost, before, g, x) {
            let e = choose|e: NodeAndScore| #[trigger]
                before.count(e) > 0 && e.idx == x && e.f_score <= cost[x] + heuristic_spec(
                    nodes,
                    x,
                    g,
                );
            assert(after.count(e) > 0);
        }
    }
    assert forall|e: NodeAndScore| #[trigger] after.count(e) > 0 implies 0 <= e.idx < nodes.len()
        && e.f_score >= cost[e.idx as int] by {
        assert(before.count(e) > 0);
    }
}

/// Recording a cheaper way to `next` through `cur` and queueing `next` keeps
/// what makes the first arrival cheapest.
proof fn lemma_opt_update<NodeT: Node>(
    nodes: Seq<NodeT>,
    weight: spec_fn(int, int) -> nat,
    came0: Seq<i32>,
    cost0: Seq<u64>,
    open0: Multiset<NodeAndScore>,
    came1: Seq<i32>,
    cost1: Seq<u64>,
    open1: Multiset<NodeAndScore>,
    s: int,
    g: int,
    cur: int,
    k: int,
    next: int,
    new_cost: u64,
    entry: NodeAndScore,
)
    requires
        graph_wf(nodes),
        came0.len() == nodes.len(),
        cost0.len() == nodes.len(),
        forall|v: int| 0 <= v < nodes.len() ==> -1 <= #[trigger] came0[v] < nodes.len(),
        0 <= cur < nodes.len(),
        0 <= next < nodes.len(),
        0 <= k < nodes[cur].spec_neighbours().len(),
        nodes[cur].spec_neighbours()[k] == next,
        came0[cur] >= 0,
        next != cur,
        next != s,
        new_cost == cost0[cur] + weight(cur, next),
        new_cost < cost0[next],
        came1 == came0.update(next, cur as i32),
        cost1 == cost0.update(next, new_cost),
        entry.idx == next,
        new_cost <= entry.f_score <= new_cost + heuristic_spec(nodes, next, g),
        forall|o: NodeAndScore|
            #[trigger] open1.count(o) == open0.count(o) + if o == entry {
                1nat
            } else {
                0nat
            },
        opt_inv(nodes, weight, came0, cost0, open0, s, g, cur, k),
    ensures
        opt_inv(nodes, weight, came1, cost1, open1, s, g, cur, k + 1),
{
    assert forall|v: int| 0 <= v < nodes.len() implies #[trigger] tree_cost_ok(
        weight,
        came1,
        cost1,
        s,
        v,
    ) by {
        assert(tree_cost_ok(weight, came0, cost0, s, v));
    }
    assert forall|e: NodeAndScore| #[trigger] open1.count(e) > 0 implies 0 <= e.idx < nodes.len()
        && e.f_score >= cost1[e.idx as int] by {
        if e != entry {
            assert(open0.count(e) > 0);
        }
    }
    assert forall|x: int| 0 <= x < nodes.len() && came1[x] >= 0 implies #[trigger] settled_at(
        nodes,
        weight,
        came1,
        cost1,
        open1,
        g,
        x,
        cur,
        k + 1,
    ) by {
        if x == next {
            assert(open1.count(entry) > 0);
            assert(fresh(nodes, cost1, open1, g, x));
        } else {
            assert(came0[x] >= 0);
            assert(settled_at(nodes, weight, came0, cost0, open0, g, x, cur, k));
            if fresh(nodes, cost0, open0, g, x) {
                let e = choose|e: NodeAndScore| #[trigger]
                    open0.count(e) > 0 && e.idx == x && e.f_score <= cost0[x] + heuristic_spec(
                        nodes,
                        x,
                        g,
                    );
                assert(open1.count(e) > 0);
                assert(fresh(nodes, cost1, open1, g, x));
            } else {
                let upto0 = if x == cur {
                    k
                } else {
                    nodes[x].spec_neighbours().len() as int
                };
                let upto1 = if x == cur {
                    k + 1
                } else {
                    nodes[x].spec_neighbours().len() as int
                };
                assert(relaxed(nodes, weight, came0, cost0, x, upto0));
                assert forall|j: int|
                    0 <= j < upto1 && j < nodes[x].spec_neighbours().len() implies came1[(
                #[trigger] nodes[x].spec_neighbours()[j]) as int] >= 0 && cost1[nodes[x].spec_neighbours()[j] as int]
                    <= cost1[x] + weight(x, nodes[x].spec_neighbours()[j] as int) by {
                    if x == cur && j == k {
                    } else {
                        assert(j < upto0);
                    }
                }
            }
        }
    }
}

/// Leaving `next` as it is, because the way through `cur` is no cheaper,
/// keeps what makes the first arrival cheapest.
proof fn lemma_opt_keep<NodeT: Node>(
    nodes: Seq<NodeT>,
    weight: spec_fn(int, int) -> nat,
    came_from: Seq<i32>,
    cost: Seq<u64>,
    open: Multiset<NodeAndScore>,
    s: int,
    g: int,
    cur: int,
    k: int,
    next: int,
)
    requires
        0 <= cur < nodes.len(),
        0 <= k < nodes[cur].spec_neighbours().len(),
        nodes[cur].spec_neighbours()[k] == next,
        came_from[next] >= 0,
        cost[next] <= cost[cur] + weight(cur, next),
        opt_inv(nodes, weight, came_from, cost, open, s, g, cur, k),
    ensures
        opt_inv(nodes, weight, came_from, cost, open, s, g, cur, k + 1),
{
    assert forall|x: int| 0 <= x < nodes.len() && came_from[x] >= 0 implies #[trigger] settled_at(
        nodes,
        weight,
        came_from,
        cost,
        open,
        g,
        x,
        cur,
        k + 1,
    ) by {
        assert(settled_at(nodes, weight, came_from, cost, open, g, x, cur, k));
    }
}

/// When all neighbours of `cur` have been looked at, no node is left
/// half-way.
proof fn lemma_opt_done<NodeT: Node>(
    nodes: Seq<NodeT>,
    weight: spec_fn(int, int) -> nat,
    came_from: Seq<i32>,
    cost: Seq<u64>,
    open: Multiset<NodeAndScore>,
    s: int,
    g: int,
    cur: int,
)
    requires
        0 <= cur < nodes.len(),
        opt_inv(
            nodes,
            weight,
            came_from,
            cost,
            open,
            s,
            g,
            cur,
            nodes[cur].spec_neighbours().len() as int,
        ),
    ensures
        opt_inv(nodes, weight, came_from, cost, open, s, g, -1, 0),
{
    assert forall|x: int| 0 <= x < nodes.len() && came_from[x] >= 0 implies #[trigger] settled_at(
        nodes,
        weight,
        came_from,
        cost,
        open,
        g,
        x,
        -1,
        0,
    ) by {
        assert(settled_at(
            nodes,
            weight,
            came_from,
            cost,
            open,
            g,
            x,
            cur,
            nodes[cur].spec_neighbours().len() as int,
        ));
    }
}

/// The cost of a walk up to its entry `j`.
spec fn prefix_cost(weight: spec_fn(int, int) -> nat, w: Seq<int>, j: int) -> nat {
    walk_cost(weight, w.take(j + 1))
}

/// One more edge adds its cost to the cost of the walk before it.
proof fn lemma_prefix_step(weight: spec_fn(int, int) -> nat, w: Seq<int>, j: int)
    requires
        0 <= j < w.len() - 1,
    ensures
        prefix_cost(weight, w, j + 1) == prefix_cost(weight, w, j) + weight(w[j], w[j + 1]),
{
    assert(w.take(j + 2).drop_last() =~= w.take(j + 1));
}

/// Along a walk, cost so far plus estimate never falls, where the estimate
/// is consistent.
proof fn lemma_estimate_along<NodeT: Node>(
    nodes: Seq<NodeT>,
    weight: spec_fn(int, int) -> nat,
    g: int,
    w: Seq<int>,
    i: int,
    j: int,
)
    requires
        consistent(nodes, weight, g),
        is_walk(nodes, w),
        0 <= i <= j < w.len(),
    ensures
        prefix_cost(weight, w, i) + heuristic_spec(nodes, w[i], g) <= prefix_cost(weight, w, j)
            + heuristic_spec(nodes, w[j], g),
    decreases j - i,
{
    if i < j {
        lemma_estimate_along(nodes, weight, g, w, i, j - 1);
        lemma_prefix_step(weight, w, j - 1);
        assert(has_edge(nodes, w[j - 1], w[j - 1 + 1]));
    }
}

/// The estimate from a node to itself is nothing.
proof fn lemma_estimate_at_goal<NodeT: Node>(nodes: Seq<NodeT>, g: int)
    ensures
        heuristic_spec(nodes, g, g) == 0,
{
    let p = nodes[g].spec_pos();
    assert(dist_sq(p, p) == 0) by (nonlinear_arith);
}

/// Some queued entry is scored no higher than `bound`.
spec fn has_bound(open: Multiset<NodeAndScore>, bound: nat) -> bool {
    exists|e: NodeAndScore| #[trigger] open.count(e) > 0 && e.f_score <= bound
}

/// For each entry of a walk from the start to the goal: it is discovered at
/// no more than the walk costs up to it, or some queued entry is scored no
/// higher than the whole walk costs.
proof fn lemma_walk_bound<NodeT: Node>(
    nodes: Seq<NodeT>,
    weight: spec_fn(int, int) -> nat,
    came_from: Seq<i32>,
    cost: Seq<u64>,
    open: Multiset<NodeAndScore>,
    s: int,
    g: int,
    w: Seq<int>,
    j: int,
)
    requires
        came_from.len() == nodes.len(),
        cost.len() == nodes.len(),
        0 <= s < nodes.len(),
        came_from[s] >= 0,
        cost[s] == 0,
        consistent(nodes, weight, g),
        opt_inv(nodes, weight, came_from, cost, open, s, g, -1, 0),
        is_walk(nodes, w),
        w.first() == s,
        w.last() == g,
        0 <= j < w.len(),
    ensures
        (0 <= w[j] < nodes.len() && came_from[w[j]] >= 0 && cost[w[j]] <= prefix_cost(weight, w, j))
            || has_bound(open, walk_cost(weight, w)),
    decreases j,
{
    if j == 0 {
        assert(w.take(1).len() == 1);
    } else {
        lemma_walk_bound(nodes, weight, came_from, cost, open, s, g, w, j - 1);
        if !has_bound(open, walk_cost(weight, w)) {
            let x = w[j - 1];
            assert(has_edge(nodes, x, w[j - 1 + 1]));
            assert(settled_at(nodes, weight, came_from, cost, open, g, x, -1, 0));
            if fresh(nodes, cost, open, g, x) {
                let e = choose|e: NodeAndScore| #[trigger]
                    open.count(e) > 0 && e.idx == x && e.f_score <= cost[x] + heuristic_spec(
                        nodes,
                        x,
                        g,
                    );
                lemma_estimate_along(nodes, weight, g, w, j - 1, w.len() - 1);
                lemma_estimate_at_goal(nodes, g);
                assert(w.take(w.len() as int) =~= w);
                assert(e.f_score <= walk_cost(weight, w));
                assert(has_bound(open, walk_cost(weight, w)));
            } else {
                let k = choose|k: int|
                    0 <= k < nodes[x].spec_neighbours().len() && #[trigger] nodes[x].spec_neighbours()[k]
                        == w[j];
                assert(relaxed(
                    nodes,
                    weight,
                    came_from,
                    cost,
                    x,
                    nodes[x].spec_neighbours().len() as int,
                ));
                assert(came_from[nodes[x].spec_neighbours()[k] as int] >= 0);
                lemma_prefix_step(weight, w, j - 1);
            }
        }
    }
}

/// When the goal leaves the queue, its recorded cost is no more than any
/// walk from the start to it costs.
proof fn lemma_goal_cost_minimal<NodeT: Node>(
    nodes: Seq<NodeT>,
    weight: spec_fn(int, int) -> nat,
    came_from: Seq<i32>,
    cost: Seq<u64>,
    open: Multiset<NodeAndScore>,
    s: int,
    g: int,
    popped: NodeAndScore,
    w: Seq<int>,
)
    requires
        came_from.len() == nodes.len(),
        cost.len() == nodes.len(),
        0 <= s < nodes.len(),
        came_from[s] >= 0,
        cost[s] == 0,
        consistent(nodes, weight, g),
        opt_inv(nodes, weight, came_from, cost, open, s, g, -1, 0),
        open.count(popped) > 0,
        popped.idx == g,
        forall|o: NodeAndScore| open.count(o) > 0 ==> popped.f_score <= o.f_score,
        is_walk(nodes, w),
        w.first() == s,
        w.last() == g,
    ensures
        cost[g] <= walk_cost(weight, w),
{
    lemma_walk_bound(nodes, weight, came_from, cost, open, s, g, w, w.len() - 1);
    assert(w.take(w.len() as int) =~= w);
    if has_bound(open, walk_cost(weight, w)) {
        let e = choose|e: NodeAndScore| #[trigger]
            open.count(e) > 0 && e.f_score <= walk_cost(weight, w);
        assert(popped.f_score <= e.f_score);
    }
}

/// A list of distinct numbers below `n` has at most `n` entries.
proof fn lemma_distinct_bounded(order: Seq<int>, n: int)
    requires
        0 <= n,
        order.no_duplicates(),
        forall|j: int| 0 <= j < order.len() ==> 0 <= #[trigger] order[j] < n,
    ensures
        order.len() <= n,
{
    order.unique_seq_to_set();
    vstd::set_lib::lemma_int_range(0, n);
    assert(order.to_set().subset_of(vstd::set_lib::set_int_range(0, n))) by {
        assert forall|x: int| order.to_set().contains(x) implies vstd::set_lib::set_int_range(
            0,
            n,
        ).contains(x) by {
            let j = choose|j: int| 0 <= j < order.len() && order[j] == x;
            assert(0 <= order[j] < n);
        }
    }
    vstd::set_lib::lemma_len_subset(order.to_set(), vstd::set_lib::set_int_range(0, n));
}

/// Where every discovered node is closed, every node on a walk from a
/// discovered node is discovered.
proof fn lemma_closed_covers<NodeT: Node>(
    nodes: Seq<NodeT>,
    came_from: Seq<i32>,
    w: Seq<int>,
    k: int,
)
    requires
        came_from.len() == nodes.len(),
        is_walk(nodes, w),
        came_from[w[0]] >= 0,
        0 <= k < w.len(),
        forall|v: int|
            0 <= v < nodes.len() && came_from[v] >= 0 ==> #[trigger] closed_at(
                nodes,
                came_from,
                v,
                -1,
                0,
            ),
    ensures
        0 <= w[k] < nodes.len(),
        came_from[w[k]] >= 0,
    decreases k,
{
    if k > 0 {
        lemma_closed_covers(nodes, came_from, w, k - 1);
        let u = w[k - 1];
        assert(has_edge(nodes, u, w[k - 1 + 1]));
        assert(closed_at(nodes, came_from, u, -1, 0));
    }
}

/// Every node on a route can be reached from the route's start.
pub proof fn lemma_route_reachable<NodeT: Node>(nodes: Seq<NodeT>, path: Seq<i32>, s: int, k: int)
    requires
        is_route(nodes, path, s),
        0 <= k < path.len(),
    ensures
        reachable(nodes, s, path[k] as int),
{
    let len = path.len() as int;
    let w = Seq::new((len - k) as nat, |j: int| path[len - 1 - j] as int);
    assert(w.first() == s);
    assert(w.last() == path[k] as int);
    assert forall|j: int| 0 <= j < w.len() - 1 implies has_edge(nodes, #[trigger] w[j], w[j + 1]) by {
        let m = len - 2 - j;
        assert(has_edge(nodes, path[m + 1] as int, path[m] as int));
    }
    assert(is_walk(nodes, w));
}


impl<'n, NodeT: Node> AStarContext<'n, NodeT> {
    /// Walks the predecessors from `end` back to `start`.
    fn reconstruct(&self, end: i32, start: i32, Ghost(rank): Ghost<Seq<nat>>) -> (path: Vec<i32>)
        requires
            tree_inv(self.nodes@, self.came_from@, self.cost@, rank, start as int),
            0 <= end < self.nodes@.len(),
            self.came_from@[end as int] >= 0,
        ensures
            is_route(self.nodes@, path@, start as int),
            path.len() > 0,
            path[0] == end,
            path@.no_duplicates(),
            end == start ==> path@ =~= seq![end],
            forall|weight: spec_fn(int, int) -> nat| #[trigger]
                tree_costs(
                    weight,
                    self.nodes@.len() as int,
                    self.came_from@,
                    self.cost@,
                    start as int,
                ) ==> route_cost(weight, path@) <= self.cost@[end as int],
    {
        let mut cur_idx: i32 = end;
        let mut path: Vec<i32> = Vec::new();
        path.push(end);
        while cur_idx != start
            invariant
                tree_inv(self.nodes@, self.came_from@, self.cost@, rank, start as int),
                0 <= cur_idx < self.nodes@.len(),
                self.came_from@[cur_idx as int] >= 0,
                path.len() > 0,
                path[0] == end,
                path@.last() == cur_idx,
                path@.no_duplicates(),
                forall|i: int|
                    0 <= i < path.len() - 1 ==> ranks_before(
                        self.cost@,
                        rank,
                        cur_idx as int,
                        #[trigger] path[i] as int,
                    ),
                end == start ==> path@ =~= seq![end],
                forall|weight: spec_fn(int, int) -> nat| #[trigger]
                    tree_costs(
                        weight,
                        self.nodes@.len() as int,
                        self.came_from@,
                        self.cost@,
                        start as int,
                    ) ==> route_cost(weight, path@) + self.cost@[cur_idx as int]
                        <= self.cost@[end as int],
                forall|k: int| 0 <= k < path.len() ==> 0 <= #[trigger] path[k] < self.nodes@.len(),
                forall|k: int|
                    0 <= k < path.len() - 1 ==> has_edge(
                        self.nodes@,
                        #[trigger] path[k + 1] as int,
                        path[k] as int,
                    ),
            decreases self.cost@[cur_idx as int], rank[cur_idx as int],
        {
            assert(node_ok(
                self.nodes@,
                self.came_from@,
                self.cost@,
                rank,
                start as int,
                cur_idx as int,
            ));
            let prev: i32 = self.came_from[cur_idx as usize];
            assert(node_ok(self.nodes@, self.came_from@, self.cost@, rank, start as int, prev as int));
            let ghost before = path@;
            path.push(prev);
            proof {
                assert(path@.drop_last() =~= before);
                assert(ranks_before(self.cost@, rank, prev as int, cur_idx as int));
                assert forall|i: int| 0 <= i < path.len() - 1 implies ranks_before(
                    self.cost@,
                    rank,
                    prev as int,
                    #[trigger] path[i] as int,
                ) by {
                    if i < before.len() - 1 {
                        assert(ranks_before(self.cost@, rank, cur_idx as int, before[i] as int));
                    }
                }
                assert forall|i: int, j: int|
                    0 <= i < path.len() && 0 <= j < path.len() && i != j implies path[i] != path[j] by {
                    if i == path.len() - 1 {
                        assert(ranks_before(self.cost@, rank, prev as int, path[j] as int));
                    } else if j == path.len() - 1 {
                        assert(ranks_before(self.cost@, rank, prev as int, path[i] as int));
                    } else {
                        assert(before[i] != before[j]);
                    }
                }
                assert forall|weight: spec_fn(int, int) -> nat| #[trigger]
                    tree_costs(
                        weight,
                        self.nodes@.len() as int,
                        self.came_from@,
                        self.cost@,
                        start as int,
                    ) implies route_cost(weight, path@) + self.cost@[prev as int]
                    <= self.cost@[end as int] by {
                    assert(tree_cost_ok(
                        weight,
                        self.came_from@,
                        self.cost@,
                        start as int,
                        cur_idx as int,
                    ));
                }
            }
            cur_idx = prev;
        }
        path
    }
}


impl<'n, NodeT: Node> AStarContext<'n, NodeT> {
    /// Searches from the node nearest `from` toward the node nearest `to` and
    /// returns the node indices from where the search arrived back to where
    /// it began.
    pub fn solve_indices<C: Fn(&NodeT, &NodeT) -> u64>(
        &mut self,
        from: Point3,
        to: Point3,
        cost_fn: C,
    ) -> (path: Vec<i32>)
        requires
            old(self).wf(),
            old(self).graph().len() > 0,
            graph_wf(old(self).graph()),
            forall|u: int, v: int|
                has_edge(old(self).graph(), u, v) ==> #[trigger] call_requires(
                    cost_fn,
                    (&old(self).graph()[u], &old(self).graph()[v]),
                ),
        ensures
            final(self).wf(),
            final(self).graph() == old(self).graph(),
            is_solution(old(self).graph(), from, to, cost_fn, path@),
    {
        let nodes: &'n [NodeT] = self.nodes;
        let n: usize = nodes.len();
        let from_idx: i32 = self.pos_to_idx(from);
        let to_idx: i32 = self.pos_to_idx(to);
        let ghost s = from_idx as int;
        let ghost g = to_idx as int;

        self.open_set.clear();
        let mut i: usize = 0;
        while i < n
            invariant
                n == nodes@.len(),
                self.nodes@ == nodes@,
                self.came_from.len() == n,
                self.cost.len() == n,
                i <= n,
                self.open_set.wf(),
                self.open_set@ == Multiset::<NodeAndScore>::empty(),
                forall|j: int| 0 <= j < i ==> self.came_from[j] == -1 && self.cost[j] == u64::MAX,
            decreases n - i,
        {
            self.came_from.set(i, -1);
            self.cost.set(i, u64::MAX);
            i += 1;
        }

        let start_score: u64 = self.heuristic(from_idx, from_idx);
        assert(start_score == 0) by {
            let p = nodes@[s].spec_pos();
            assert(dist_sq(p, p) == 0) by (nonlinear_arith);
        }
        self.cost.set(from_idx as usize, start_score);
        self.came_from.set(from_idx as usize, from_idx);
        self.open_set.push(NodeAndScore::new(from_idx, start_score));

        let mut best_score_so_far: u64 = self.heuristic(from_idx, to_idx);
        let mut best_idx_so_far: i32 = -1;
        let ghost mut rank: Seq<nat> = Seq::new(n as nat, |v: int| 0nat);
        let ghost mut order: Seq<int> = seq![s];
        proof {
            broadcast use vstd::multiset::group_multiset_axioms;

            assert forall|v: int| 0 <= v < n implies #[trigger] node_ok(
                nodes@,
                self.came_from@,
                self.cost@,
                rank,
                s,
                v,
            ) by {}
            assert(order[0] == s);
            if costs_fit(nodes@, cost_fn) {
                assert forall|v: int|
                    0 <= v < n && #[trigger] self.came_from@[v] >= 0 implies self.cost@[v] <= (
                    order.len() - 1) * edge_limit(n as nat) by {
                    assert(v == s);
                }
            }
            assert(bag_holds(self.open_set@, s)) by {
                let e = NodeAndScore { idx: from_idx, f_score: start_score };
                assert(self.open_set@.count(e) > 0);
            }
            assert forall|weight: spec_fn(int, int) -> nat| #[trigger]
                sound(nodes@, cost_fn, weight, g) implies opt_inv(
                nodes@,
                weight,
                self.came_from@,
                self.cost@,
                self.open_set@,
                s,
                g,
                -1,
                0,
            ) by {
                lemma_opt_begin(
                    nodes@,
                    weight,
                    self.came_from@,
                    self.cost@,
                    self.open_set@,
                    s,
                    g,
                    NodeAndScore { idx: from_idx, f_score: start_score },
                );
            }
        }

        while !self.open_set.is_empty()
            invariant
                n == nodes@.len(),
                self.nodes@ == nodes@,
                0 < n <= i32::MAX,
                graph_wf(nodes@),
                forall|u: int, v: int|
                    has_edge(nodes@, u, v) ==> #[trigger] call_requires(
                        cost_fn,
                        (&nodes@[u], &nodes@[v]),
                    ),
                nodes@ == old(self).graph(),
                s == from_idx,
                g == to_idx,
                s == nearest_idx(nodes@, from),
                g == nearest_idx(nodes@, to),
                0 <= to_idx < n,
                tree_inv(nodes@, self.came_from@, self.cost@, rank, s),
                self.open_set.wf(),
                open_inv(n as int, self.came_from@, self.open_set@),
                order_inv(n as int, self.came_from@, order),
                best_inv(nodes@, self.came_from@, s, g, best_score_so_far, best_idx_so_far),
                self.came_from@[g] >= 0 ==> bag_holds(self.open_set@, g),
                s == g ==> forall|e: NodeAndScore| #[trigger] self.open_set@.count(e) > 0 ==> e.idx == s,
                costs_fit(nodes@, cost_fn) ==> closed_inv(
                    nodes@,
                    self.came_from@,
                    self.open_set@,
                    -1,
                    0,
                ) && bound_inv(n as int, self.came_from@, self.cost@, order.len() as int),
                forall|weight: spec_fn(int, int) -> nat| #[trigger]
                    sound(nodes@, cost_fn, weight, g) ==> opt_inv(
                        nodes@,
                        weight,
                        self.came_from@,
                        self.cost@,
                        self.open_set@,
                        s,
                        g,
                        -1,
                        0,
                    ),
            decreases total(self.cost@) + self.open_set@.len(),
        {
            let ghost measure = total(self.cost@) + self.open_set@.len();
            let ghost open_before = self.open_set@;
            let cur: NodeAndScore = self.open_set.pop().unwrap();
            assert(open_before.count(cur) > 0);
            if cur.idx == to_idx {
                let path: Vec<i32> = self.reconstruct(to_idx, from_idx, Ghost(rank));
                proof {
                    lemma_route_reachable(nodes@, path@, s, 0);
                    assert forall|weight: spec_fn(int, int) -> nat, w: Seq<int>|
                        sound(nodes@, cost_fn, weight, g) && is_walk(nodes@, w) && w.first() == s
                            && w.last() == g implies route_cost(weight, path@) <= #[trigger] walk_cost(
                        weight,
                        w,
                    ) by {
                        lemma_goal_cost_minimal(
                            nodes@,
                            weight,
                            self.came_from@,
                            self.cost@,
                            open_before,
                            s,
                            g,
                            cur,
                            w,
                        );
                    }
                }
                return path;
            }
            proof {
                assert forall|weight: spec_fn(int, int) -> nat| #[trigger]
                    sound(nodes@, cost_fn, weight, g) implies opt_inv(
                    nodes@,
                    weight,
                    self.came_from@,
                    self.cost@,
                    self.open_set@,
                    s,
                    g,
                    cur.idx as int,
                    0,
                ) by {
                    lemma_opt_after_pop(
                        nodes@,
                        weight,
                        self.came_from@,
                        self.cost@,
                        open_before,
                        self.open_set@,
                        s,
                        g,
                        cur,
                    );
                }
                assert forall|v: int| v != cur.idx && bag_holds(open_before, v) implies bag_holds(
                    self.open_set@,
                    v,
                ) by {
                    let e = choose|e: NodeAndScore| open_before.count(e) > 0 && e.idx == v;
                    assert(self.open_set@.count(e) > 0);
                }
                if costs_fit(nodes@, cost_fn) {
                    assert forall|v: int|
                        0 <= v < n && self.came_from@[v] >= 0 && !bag_holds(
                            self.open_set@,
                            v,
                        ) implies #[trigger] closed_at(nodes@, self.came_from@, v, cur.idx as int, 0) by {
                        if v != cur.idx {
                            assert(closed_at(nodes@, self.came_from@, v, -1, 0));
                        }
                    }
                }
            }
            let nbrs: &[i32] = nodes[cur.idx as usize].get_neighbours();
            let mut k: usize = 0;
            while k < nbrs.len()
                invariant
                    n == nodes@.len(),
                    self.nodes@ == nodes@,
                    0 < n <= i32::MAX,
                    graph_wf(nodes@),
                    forall|u: int, v: int|
                        has_edge(nodes@, u, v) ==> #[trigger] call_requires(
                            cost_fn,
                            (&nodes@[u], &nodes@[v]),
                        ),
                    s == from_idx,
                    g == to_idx,
                    s != g,
                    0 <= to_idx < n,
                    0 <= cur.idx < n,
                    cur.idx != to_idx,
                    self.came_from@[cur.idx as int] >= 0,
                    nbrs@ == nodes@[cur.idx as int].spec_neighbours(),
                    k <= nbrs@.len(),
                    tree_inv(nodes@, self.came_from@, self.cost@, rank, s),
                    self.open_set.wf(),
                    open_inv(n as int, self.came_from@, self.open_set@),
                    order_inv(n as int, self.came_from@, order),
                    best_inv(nodes@, self.came_from@, s, g, best_score_so_far, best_idx_so_far),
                    self.came_from@[g] >= 0 ==> bag_holds(self.open_set@, g),
                    costs_fit(nodes@, cost_fn) ==> closed_inv(
                        nodes@,
                        self.came_from@,
                        self.open_set@,
                        cur.idx as int,
                        k as int,
                    ) && bound_inv(n as int, self.came_from@, self.cost@, order.len() as int),
                    forall|weight: spec_fn(int, int) -> nat| #[trigger]
                        sound(nodes@, cost_fn, weight, g) ==> opt_inv(
                            nodes@,
                            weight,
                            self.came_from@,
                            self.cost@,
                            self.open_set@,
                            s,
                            g,
                            cur.idx as int,
                            k as int,
                        ),
                    total(self.cost@) + self.open_set@.len() < measure,
                decreases nbrs@.len() - k,
            {
                let next_idx: i32 = nbrs[k];
                assert(0 <= nodes@[cur.idx as int].spec_neighbours()[k as int] < n);
                assert(has_edge(nodes@, cur.idx as int, next_idx as int));
                let edge: u64 = cost_fn(&nodes[cur.idx as usize], &nodes[next_idx as usize]);
                let new_cost: u64 = self.cost[cur.idx as usize].saturating_add(edge);
                let ghost came_before = self.came_from@;
                let ghost cost_before = self.cost@;
                let ghost open_mid = self.open_set@;
                let ghost order_before = order;
                proof {
                    assert(node_ok(nodes@, came_before, cost_before, rank, s, cur.idx as int));
                    assert(node_ok(nodes@, came_before, cost_before, rank, s, next_idx as int));
                    if costs_fit(nodes@, cost_fn) && came_before[next_idx as int] < 0 {
                        // A node seen for the first time: the sum cannot saturate.
                        let fresh = order_before.push(next_idx as int);
                        assert(fresh.no_duplicates()) by {
                            assert(!order_before.contains(next_idx as int));
                        }
                        lemma_distinct_bounded(fresh, n as int);
                        lemma_limit_sum(
                            n as int,
                            order_before.len() as int,
                            cost_before[cur.idx as int] as int,
                            edge as int,
                        );
                        assert(new_cost < cost_before[next_idx as int]);
                    }
                }
                if new_cost < self.cost[next_idx as usize] {
                    let new_heuristic: u64 = self.heuristic(next_idx, to_idx);
                    if best_idx_so_far < 0 || new_heuristic < best_score_so_far {
                        best_score_so_far = new_heuristic;
                        best_idx_so_far = next_idx;
                    }
                    self.came_from.set(next_idx as usize, cur.idx);
                    self.cost.set(next_idx as usize, new_cost);
                    self.open_set.push(
                        NodeAndScore::new(next_idx, new_cost.saturating_add(new_heuristic)),
                    );
                    proof {
                        let ghost rank_before = rank;
                        rank = rank.update(next_idx as int, rank[cur.idx as int] + 1);
                        if came_before[next_idx as int] < 0 {
                            order = order.push(next_idx as int);
                        }
                        lemma_total_update(cost_before, next_idx as int, new_cost);
                        assert(next_idx != s);
                        assert(next_idx != cur.idx);
                        assert forall|v: int| 0 <= v < n implies #[trigger] node_ok(
                            nodes@,
                            self.came_from@,
                            self.cost@,
                            rank,
                            s,
                            v,
                        ) by {
                            assert(node_ok(nodes@, came_before, cost_before, rank_before, s, v));
                        }
                        assert forall|v: int| bag_holds(open_mid, v) implies bag_holds(
                            self.open_set@,
                            v,
                        ) by {
                            let e = choose|e: NodeAndScore| open_mid.count(e) > 0 && e.idx == v;
                            assert(self.open_set@.count(e) > 0);
                        }
                        assert(bag_holds(self.open_set@, next_idx as int)) by {
                            let e = NodeAndScore {
                                idx: next_idx,
                                f_score: new_cost.saturating_add(new_heuristic),
                            };
                            assert(self.open_set@.count(e) > 0);
                        }
                        assert forall|v: int| 0 <= v < nodes@.len() implies -1
                            <= #[trigger] came_before[v] < nodes@.len() by {
                            assert(node_ok(nodes@, came_before, cost_before, rank_before, s, v));
                        }
                        assert forall|weight: spec_fn(int, int) -> nat| #[trigger]
                            sound(nodes@, cost_fn, weight, g) implies opt_inv(
                            nodes@,
                            weight,
                            self.came_from@,
                            self.cost@,
                            self.open_set@,
                            s,
                            g,
                            cur.idx as int,
                            k + 1,
                        ) by {
                            assert(edge == weight(cur.idx as int, next_idx as int));
                            lemma_opt_update(
                                nodes@,
                                weight,
                                came_before,
                                cost_before,
                                open_mid,
                                self.came_from@,
                                self.cost@,
                                self.open_set@,
                                s,
                                g,
                                cur.idx as int,
                                k as int,
                                next_idx as int,
                                new_cost,
                                NodeAndScore {
                                    idx: next_idx,
                                    f_score: new_cost.saturating_add(new_heuristic),
                                },
                            );
                        }
                        assert(order_inv(n as int, self.came_from@, order)) by {
                            assert forall|v: int| 0 <= v < n implies (
                            #[trigger] self.came_from@[v] >= 0 <==> order.contains(v)) by {
                                if v == next_idx {
                                    if came_before[next_idx as int] < 0 {
                                        assert(order[order.len() - 1] == v);
                                    } else {
                                        assert(order_before.contains(v));
                                    }
                                } else {
                                    assert(came_before[v] >= 0 <==> order_before.contains(v));
                                    if order_before.contains(v) {
                                        let j = choose|j: int|
                                            0 <= j < order_before.len() && order_before[j] == v;
                                        assert(order[j] == v);
                                    }
                                }
                            }
                        }
                        if costs_fit(nodes@, cost_fn) {
                            assert forall|v: int|
                                0 <= v < n && self.came_from@[v] >= 0 && !bag_holds(
                                    self.open_set@,
                                    v,
                                ) implies #[trigger] closed_at(
                                nodes@,
                                self.came_from@,
                                v,
                                cur.idx as int,
                                k + 1,
                            ) by {
                                assert(v != next_idx);
                                assert(closed_at(nodes@, came_before, v, cur.idx as int, k as int));
                            }
                            assert forall|v: int|
                                0 <= v < n && #[trigger] self.came_from@[v] >= 0 implies self.cost@[v]
                                <= (order.len() - 1) * edge_limit(n as nat) by {
                                lemma_limit_grows(
                                    n as int,
                                    order_before.len() as int,
                                    order.len() as int,
                                );
                                if v == next_idx {
                                    if came_before[v] < 0 {
                                        lemma_limit_sum(
                                            n as int,
                                            order_before.len() as int,
                                            cost_before[cur.idx as int] as int,
                                            edge as int,
                                        );
                                    } else {
                                        assert(cost_before[v] <= (order_before.len() - 1)
                                            * edge_limit(n as nat));
                                    }
                                } else {
                                    assert(came_before[v] >= 0);
                                }
                            }
                        }
                    }
                } else {
                    proof {
                        assert forall|weight: spec_fn(int, int) -> nat| #[trigger]
                            sound(nodes@, cost_fn, weight, g) implies opt_inv(
                            nodes@,
                            weight,
                            self.came_from@,
                            self.cost@,
                            self.open_set@,
                            s,
                            g,
                            cur.idx as int,
                            k + 1,
                        ) by {
                            assert(edge == weight(cur.idx as int, next_idx as int));
                            lemma_opt_keep(
                                nodes@,
                                weight,
                                self.came_from@,
                                self.cost@,
                                self.open_set@,
                                s,
                                g,
                                cur.idx as int,
                                k as int,
                                next_idx as int,
                            );
                        }
                        if costs_fit(nodes@, cost_fn) {
                            assert forall|v: int|
                                0 <= v < n && self.came_from@[v] >= 0 && !bag_holds(
                                    self.open_set@,
                                    v,
                                ) implies #[trigger] closed_at(
                                nodes@,
                                self.came_from@,
                                v,
                                cur.idx as int,
                                k + 1,
                            ) by {
                                assert(closed_at(nodes@, came_before, v, cur.idx as int, k as int));
                            }
                        }
                    }
                }
                k += 1;
            }
            proof {
                if costs_fit(nodes@, cost_fn) {
                    assert forall|v: int|
                        0 <= v < n && self.came_from@[v] >= 0 && !bag_holds(
                            self.open_set@,
                            v,
                        ) implies #[trigger] closed_at(nodes@, self.came_from@, v, -1, 0) by {
                        assert(closed_at(nodes@, self.came_from@, v, cur.idx as int, k as int));
                    }
                }
                assert forall|weight: spec_fn(int, int) -> nat| #[trigger]
                    sound(nodes@, cost_fn, weight, g) implies opt_inv(
                    nodes@,
                    weight,
                    self.came_from@,
                    self.cost@,
                    self.open_set@,
                    s,
                    g,
                    -1,
                    0,
                ) by {
                    lemma_opt_done(
                        nodes@,
                        weight,
                        self.came_from@,
                        self.cost@,
                        self.open_set@,
                        s,
                        g,
                        cur.idx as int,
                    );
                }
            }
        }

        let path: Vec<i32> = if best_idx_so_far > -1 {
            self.reconstruct(best_idx_so_far, from_idx, Ghost(rank))
        } else {
            Vec::new()
        };
        proof {
            assert(self.came_from@[g] < 0) by {
                if self.came_from@[g] >= 0 {
                    let e = choose|e: NodeAndScore| self.open_set@.count(e) > 0 && e.idx == g;
                    vstd::multiset::axiom_count_le_len(self.open_set@, e);
                }
            }
            assert(s != g);
            if path@.len() > 0 {
                lemma_route_reachable(nodes@, path@, s, 0);
            }
            if costs_fit(nodes@, cost_fn) {
                assert forall|v: int| 0 <= v < n && self.came_from@[v] >= 0 implies #[trigger] closed_at(
                    nodes@,
                    self.came_from@,
                    v,
                    -1,
                    0,
                ) by {
                    if bag_holds(self.open_set@, v) {
                        let e = choose|e: NodeAndScore| self.open_set@.count(e) > 0 && e.idx == v;
                        vstd::multiset::axiom_count_le_len(self.open_set@, e);
                    }
                }
                assert forall|v: int| reachable(nodes@, s, v) implies 0 <= v < n
                    && self.came_from@[v] >= 0 by {
                    let w = choose|w: Seq<int>| is_walk(nodes@, w) && w.first() == s && w.last() == v;
                    lemma_closed_covers(nodes@, self.came_from@, w, w.len() - 1);
                }
                assert(!reachable(nodes@, s, g));
            }
        }
        path
    }
}

/// Adding one edge at the limit to a cost that `count - 1` such edges bound
/// stays below the largest cost, where fewer than `n` nodes are counted.
proof fn lemma_limit_sum(n: int, count: int, cost: int, edge: int)
    requires
        0 < n <= i32::MAX,
        1 <= count < n,
        0 <= cost <= (count - 1) * edge_limit(n as nat),
        0 <= edge <= edge_limit(n as nat),
    ensures
        cost + edge < u64::MAX,
        cost + edge <= count * edge_limit(n as nat),
{
    let limit = edge_limit(n as nat) as int;
    assert(limit * n <= u64::MAX) by {
        vstd::arithmetic::div_mod::lemma_fundamental_div_mod(u64::MAX as int, n);
        vstd::arithmetic::div_mod::lemma_mod_pos_bound(u64::MAX as int, n);
        assert(n * limit == limit * n) by (nonlinear_arith);
    }
    assert(limit >= 1) by {
        vstd::arithmetic::div_mod::lemma_div_is_ordered(n, u64::MAX as int, n);
        vstd::arithmetic::div_mod::lemma_div_multiples_vanish(1, n);
        assert(n * 1 == n);
    }
    assert((count - 1) * limit + limit == count * limit) by (nonlinear_arith);
    assert(count * limit <= (n - 1) * limit) by (nonlinear_arith)
        requires
            count <= n - 1,
            limit >= 0,
    ;
    assert((n - 1) * limit == limit * n - limit) by (nonlinear_arith);
}

/// The bound on costs grows with the count of discovered nodes.
proof fn lemma_limit_grows(n: int, count: int, more: int)
    requires
        0 < n,
        count <= more,
    ensures
        (count - 1) * edge_limit(n as nat) <= (more - 1) * edge_limit(n as nat),
{
    let limit = edge_limit(n as nat) as int;
    assert((count - 1) * limit <= (more - 1) * limit) by (nonlinear_arith)
        requires
            count <= more,
            limit >= 0,
    ;
}


impl<'n, NodeT: Node> AStarContext<'n, NodeT> {
    /// Searches from the node nearest `from` toward the node nearest `to` and
    /// returns the positions of the nodes from where the search arrived back
    /// to where it began: the path in reverse.
    pub fn solve<C: Fn(&NodeT, &NodeT) -> u64>(
        &mut self,
        from: Point3,
        to: Point3,
        cost_fn: C,
    ) -> (path: Vec<Point3>)
        requires
            old(self).wf(),
            old(self).graph().len() > 0,
            graph_wf(old(self).graph()),
            forall|u: int, v: int|
                has_edge(old(self).graph(), u, v) ==> #[trigger] call_requires(
                    cost_fn,
                    (&old(self).graph()[u], &old(self).graph()[v]),
                ),
        ensures
            final(self).wf(),
            final(self).graph() == old(self).graph(),
            exists|route: Seq<i32>|
                is_solution(old(self).graph(), from, to, cost_fn, route) && path@ == positions(
                    old(self).graph(),
                    route,
                ),
    {
        let route: Vec<i32> = self.solve_indices(from, to, cost_fn);
        let mut path: Vec<Point3> = Vec::new();
        let mut k: usize = 0;
        while k < route.len()
            invariant
                k <= route.len(),
                path.len() == k,
                forall|j: int| 0 <= j < route.len() ==> 0 <= #[trigger] route[j] < self.nodes@.len(),
                forall|j: int| 0 <= j < k ==> path[j] == self.nodes@[route[j] as int].spec_pos(),
            decreases route.len() - k,
        {
            path.push(self.idx_to_pos(route[k]));
            k += 1;
        }
        assert(path@ =~= positions(self.nodes@, route@));
        path
    }

    fn idx_to_pos(&self, idx: i32) -> (p: Point3)
        requires
            0 <= idx < self.nodes@.len(),
        ensures
            p == self.nodes@[idx as int].spec_pos(),
    {
        self.nodes[idx as usize].get_pos()
    }
}

/// Among the first `k` nodes one is the first nearest to `p`.
proof fn lemma_nearest_among<NodeT: Node>(nodes: Seq<NodeT>, p: Point3, k: int) -> (i: int)
    requires
        0 < k <= nodes.len(),
    ensures
        0 <= i < k,
        forall|j: int|
            0 <= j < k ==> dist_sq(p, nodes[i].spec_pos()) <= dist_sq(p, #[trigger] nodes[j].spec_pos()),
        forall|j: int|
            0 <= j < i ==> dist_sq(p, nodes[i].spec_pos()) < dist_sq(p, #[trigger] nodes[j].spec_pos()),
    decreases k,
{
    if k == 1 {
        0
    } else {
        let i = lemma_nearest_among(nodes, p, k - 1);
        if dist_sq(p, nodes[k - 1].spec_pos()) < dist_sq(p, nodes[i].spec_pos()) {
            k - 1
        } else {
            i
        }
    }
}

/// Every point snaps to some node of a graph that has nodes.
pub proof fn lemma_nearest_exists<NodeT: Node>(nodes: Seq<NodeT>, p: Point3)
    requires
        nodes.len() > 0,
    ensures
        is_nearest(nodes, p, nearest_idx(nodes, p)),
{
    let i = lemma_nearest_among(nodes, p, nodes.len() as int);
    assert(is_nearest(nodes, p, i));
}

/// Where every node can be reached from the node nearest `from` and the edge
/// costs stay within the limit, the solution read backwards starts at the
/// node nearest `from`, ends at the node nearest `to`, and moves along an
/// edge of the graph at every step.
pub proof fn law_round_trip<NodeT: Node, C: Fn(&NodeT, &NodeT) -> u64>(
    nodes: Seq<NodeT>,
    from: Point3,
    to: Point3,
    cost_fn: C,
    path: Seq<i32>,
)
    requires
        nodes.len() > 0,
        graph_wf(nodes),
        costs_fit(nodes, cost_fn),
        forall|v: int| 0 <= v < nodes.len() ==> reachable(nodes, nearest_idx(nodes, from), v),
        is_solution(nodes, from, to, cost_fn, path),
    ensures
        path.len() > 0,
        path.reverse().first() == nearest_idx(nodes, from),
        path.reverse().last() == nearest_idx(nodes, to),
        forall|k: int|
            0 <= k < path.len() - 1 ==> has_edge(
                nodes,
                #[trigger] path.reverse()[k] as int,
                path.reverse()[k + 1] as int,
            ),
{
    lemma_nearest_exists(nodes, to);
    let len = path.len() as int;
    assert forall|k: int| 0 <= k < len - 1 implies has_edge(
        nodes,
        #[trigger] path.reverse()[k] as int,
        path.reverse()[k + 1] as int,
    ) by {
        let m = len - 2 - k;
        assert(has_edge(nodes, path[m + 1] as int, path[m] as int));
    }
}

/// Where the node nearest `to` cannot be reached from the node nearest
/// `from`, the start has a neighbour other than itself, and the edge costs
/// stay within the limit, the solution is not empty: it holds the start and
/// at least one node more, only nodes that can be reached from the start,
/// none of them twice, and moves along an edge of the graph at every step.
pub proof fn law_degradation<NodeT: Node, C: Fn(&NodeT, &NodeT) -> u64>(
    nodes: Seq<NodeT>,
    from: Point3,
    to: Point3,
    cost_fn: C,
    path: Seq<i32>,
)
    requires
        nodes.len() > 0,
        graph_wf(nodes),
        costs_fit(nodes, cost_fn),
        !reachable(nodes, nearest_idx(nodes, from), nearest_idx(nodes, to)),
        exists|v: int| v != nearest_idx(nodes, from) && has_edge(nodes, nearest_idx(nodes, from), v),
        is_solution(nodes, from, to, cost_fn, path),
    ensures
        path.len() >= 2,
        path.last() == nearest_idx(nodes, from),
        path.no_duplicates(),
        forall|k: int|
            0 <= k < path.len() ==> reachable(nodes, nearest_idx(nodes, from), #[trigger] path[k] as int),
        forall|k: int|
            0 <= k < path.len() - 1 ==> has_edge(nodes, #[trigger] path[k + 1] as int, path[k] as int),
{
    let s = nearest_idx(nodes, from);
    let v = choose|v: int| v != s && has_edge(nodes, s, v);
    let step = seq![s, v];
    assert(has_edge(nodes, step[0int], step[0int + 1]));
    assert(is_walk(nodes, step) && step.first() == s && step.last() == v);
    assert(reachable(nodes, s, v));
    assert forall|k: int| 0 <= k < path.len() implies reachable(
        nodes,
        nearest_idx(nodes, from),
        #[trigger] path[k] as int,
    ) by {
        lemma_route_reachable(nodes, path, nearest_idx(nodes, from), k);
    }
}

/// The walk that a route stands for: its entries from the last to the first.
pub open spec fn route_walk(path: Seq<i32>) -> Seq<int> {
    Seq::new(path.len(), |j: int| path[path.len() - 1 - j] as int)
}

/// Walk `w` leads from `s` to `g` and no walk from `s` to `g` is cheaper.
pub open spec fn is_cheapest_walk<NodeT: Node>(
    nodes: Seq<NodeT>,
    weight: spec_fn(int, int) -> nat,
    s: int,
    g: int,
    w: Seq<int>,
) -> bool {
    &&& is_walk(nodes, w)
    &&& w.first() == s
    &&& w.last() == g
    &&& forall|other: Seq<int>|
        is_walk(nodes, other) && other.first() == s && other.last() == g ==> walk_cost(weight, w)
            <= #[trigger] walk_cost(weight, other)
}

/// The cost of a walk is the cost of its first edge and of the walk after
/// it.
proof fn lemma_walk_cost_front(weight: spec_fn(int, int) -> nat, w: Seq<int>)
    requires
        w.len() >= 2,
    ensures
        walk_cost(weight, w) == weight(w[0], w[1]) + walk_cost(weight, w.drop_first()),
    decreases w.len(),
{
    let front = w.drop_last();
    let back = w.drop_first();
    let n = w.len() as int;
    assert(walk_cost(weight, w) == walk_cost(weight, front) + weight(w[n - 2], w[n - 1]));
    if w.len() == 2 {
        assert(walk_cost(weight, front) == 0);
        assert(walk_cost(weight, back) == 0);
    } else {
        lemma_walk_cost_front(weight, front);
        assert(front.drop_first() =~= back.drop_last());
        assert(front[0] == w[0] && front[1] == w[1]);
        assert(back[back.len() - 2] == w[n - 2] && back[back.len() - 1] == w[n - 1]);
        assert(walk_cost(weight, back) == walk_cost(weight, back.drop_last()) + weight(
            back[back.len() - 2],
            back[back.len() - 1],
        ));
    }
}

/// A route costs what the walk it stands for costs.
pub proof fn lemma_route_walk_cost(weight: spec_fn(int, int) -> nat, path: Seq<i32>)
    ensures
        walk_cost(weight, route_walk(path)) == route_cost(weight, path),
    decreases path.len(),
{
    if path.len() >= 2 {
        lemma_route_walk_cost(weight, path.drop_last());
        lemma_walk_cost_front(weight, route_walk(path));
        assert(route_walk(path).drop_first() =~= route_walk(path.drop_last()));
    }
}

/// A route that begins at `g` stands for a walk from the start to `g`.
pub proof fn lemma_route_is_walk<NodeT: Node>(nodes: Seq<NodeT>, path: Seq<i32>, s: int)
    requires
        is_route(nodes, path, s),
        path.len() > 0,
    ensures
        is_walk(nodes, route_walk(path)),
        route_walk(path).first() == s,
        route_walk(path).last() == path[0],
{
    let w = route_walk(path);
    let len = path.len() as int;
    assert forall|j: int| 0 <= j < w.len() - 1 implies has_edge(nodes, #[trigger] w[j], w[j + 1]) by {
        let m = len - 2 - j;
        assert(has_edge(nodes, path[m + 1] as int, path[m] as int));
    }
}

/// Where the goal can be reached, the costs are sound and only one walk from
/// the start to the goal is a cheapest one, every search over the graph, on
/// a context that was used before or on a new one, finds the same route.
pub proof fn law_solution_is_unique<NodeT: Node, C: Fn(&NodeT, &NodeT) -> u64>(
    nodes: Seq<NodeT>,
    from: Point3,
    to: Point3,
    cost_fn: C,
    weight: spec_fn(int, int) -> nat,
    first: Seq<i32>,
    second: Seq<i32>,
)
    requires
        sound(nodes, cost_fn, weight, nearest_idx(nodes, to)),
        reachable(nodes, nearest_idx(nodes, from), nearest_idx(nodes, to)),
        forall|w1: Seq<int>, w2: Seq<int>|
            #![trigger walk_cost(weight, w1), walk_cost(weight, w2)]
            is_cheapest_walk(nodes, weight, nearest_idx(nodes, from), nearest_idx(nodes, to), w1)
                && is_cheapest_walk(
                nodes,
                weight,
                nearest_idx(nodes, from),
                nearest_idx(nodes, to),
                w2,
            ) ==> w1 == w2,
        is_solution(nodes, from, to, cost_fn, first),
        is_solution(nodes, from, to, cost_fn, second),
    ensures
        first == second,
        is_cheapest_walk(
            nodes,
            weight,
            nearest_idx(nodes, from),
            nearest_idx(nodes, to),
            route_walk(first),
        ),
{
    let s = nearest_idx(nodes, from);
    let g = nearest_idx(nodes, to);
    lemma_route_is_walk(nodes, first, s);
    lemma_route_is_walk(nodes, second, s);
    lemma_route_walk_cost(weight, first);
    lemma_route_walk_cost(weight, second);
    let w1 = route_walk(first);
    let w2 = route_walk(second);
    assert(is_cheapest_walk(nodes, weight, s, g, w1));
    assert(is_cheapest_walk(nodes, weight, s, g, w2));
    assert(w1 == w2);
    assert(first.len() == second.len());
    assert forall|k: int| 0 <= k < first.len() implies first[k] == second[k] by {
        let j = first.len() - 1 - k;
        assert(w1[j] == first[k] as int);
        assert(w2[j] == second[k] as int);
    }
    assert(first =~= second);
}




/// The cost of an edge that is its length: the distance between the two
/// nodes, rounded up.
pub fn length_cost<NodeT: Node>(a: &NodeT, b: &NodeT) -> (c: u64)
    ensures
        c == dist_up(a.spec_pos(), b.spec_pos()),
{
    let from: Point3 = a.get_pos();
    let to: Point3 = b.get_pos();
    distance_up(&from, &to)
}

/// The lengths of the edges of a graph, as their costs.
pub open spec fn lengths<NodeT: Node>(nodes: Seq<NodeT>) -> spec_fn(int, int) -> nat {
    |u: int, v: int| dist_up(nodes[u].spec_pos(), nodes[v].spec_pos())
}

/// Where no edge costs less than it is long, rounded up, the estimate is
/// consistent with the costs, whatever the goal.
pub proof fn law_lengths_make_consistent<NodeT: Node>(
    nodes: Seq<NodeT>,
    weight: spec_fn(int, int) -> nat,
    g: int,
)
    requires
        forall|u: int, v: int| #[trigger]
            has_edge(nodes, u, v) ==> weight(u, v) >= dist_up(nodes[u].spec_pos(), nodes[v].spec_pos()),
    ensures
        consistent(nodes, weight, g),
{
    assert forall|u: int, v: int| #[trigger] has_edge(nodes, u, v) implies heuristic_spec(nodes, u, g)
        <= weight(u, v) + heuristic_spec(nodes, v, g) by {
        lemma_triangle(nodes[u].spec_pos(), nodes[v].spec_pos(), nodes[g].spec_pos());
    }
}

/// No two lattice points lie farther apart than twice the span of a
/// coordinate.
proof fn lemma_length_bound(a: Point3, b: Point3)
    ensures
        dist_up(a, b) <= 2 * 0xffff_ffffint,
{
    let n = dist_sq(a, b) as int;
    let m = 0xffff_ffffint;
    let dx = a.x - b.x;
    let dy = a.y - b.y;
    let dz = a.z - b.z;
    assert(dx * dx <= m * m) by (nonlinear_arith)
        requires
            -m <= dx <= m,
    ;
    assert(dy * dy <= m * m) by (nonlinear_arith)
        requires
            -m <= dy <= m,
    ;
    assert(dz * dz <= m * m) by (nonlinear_arith)
        requires
            -m <= dz <= m,
    ;
    assert(dx * dx >= 0 && dy * dy >= 0 && dz * dz >= 0) by (nonlinear_arith);
    assert(n == dx * dx + dy * dy + dz * dz);
    assert(n <= 3 * (m * m));
    assert(m * m > 0) by (nonlinear_arith)
        requires
            m > 0,
    ;
    lemma_floor_sqrt_is_root(n as nat);
    let r = crate::geometry::floor_sqrt(n as nat) as int;
    if r >= 2 * m {
        assert(r * r >= (2 * m) * (2 * m)) by (nonlinear_arith)
            requires
                r >= 2 * m,
                m >= 0,
        ;
        assert((2 * m) * (2 * m) == 4 * (m * m)) by (nonlinear_arith);
    }
}

/// With the lengths of the edges as their costs the search finds a cheapest
/// path in every graph and for every goal.
pub proof fn law_length_cost_is_sound<NodeT: Node>(nodes: Seq<NodeT>, g: int)
    requires
        0 < nodes.len() <= i32::MAX,
    ensures
        sound(nodes, length_cost::<NodeT>, lengths(nodes), g),
{
    let cost_fn = length_cost::<NodeT>;
    let weight = lengths(nodes);
    assert(edge_limit(nodes.len()) >= 2 * 0xffff_ffffint) by {
        vstd::arithmetic::div_mod::lemma_div_is_ordered_by_denominator(
            u64::MAX as int,
            nodes.len() as int,
            i32::MAX as int,
        );
        vstd::arithmetic::div_mod::lemma_fundamental_div_mod_converse(
            u64::MAX as int,
            i32::MAX as int,
            8589934596,
            3,
        );
    }
    assert forall|u: int, v: int, c: u64|
        0 <= u < nodes.len() && 0 <= v < nodes.len() && #[trigger] call_ensures(
            cost_fn,
            (&nodes[u], &nodes[v]),
            c,
        ) implies c <= edge_limit(nodes.len()) && c == weight(u, v) by {
        lemma_length_bound(nodes[u].spec_pos(), nodes[v].spec_pos());
    }
    law_lengths_make_consistent(nodes, weight, g);
}


/// Whether a graph can be searched: whether every neighbour index names one
/// of its nodes and the node count fits the index type.
pub fn graph_is_wf<NodeT: Node>(nodes: &[NodeT]) -> (ok: bool)
    ensures
        ok == graph_wf(nodes@),
{
    if nodes.len() > 0x7fff_ffff {
        return false;
    }
    let mut i: usize = 0;
    while i < nodes.len()
        invariant
            nodes@.len() <= i32::MAX,
            i <= nodes@.len(),
            forall|u: int, k: int|
                0 <= u < i && 0 <= k < nodes@[u].spec_neighbours().len() ==> 0
                    <= #[trigger] nodes@[u].spec_neighbours()[k] < nodes@.len(),
        decreases nodes@.len() - i,
    {
        let neighbours: &[i32] = nodes[i].get_neighbours();
        let mut k: usize = 0;
        while k < neighbours.len()
            invariant
                nodes@.len() <= i32::MAX,
                i < nodes@.len(),
                neighbours@ == nodes@[i as int].spec_neighbours(),
                k <= neighbours@.len(),
                forall|j: int| 0 <= j < k ==> 0 <= #[trigger] neighbours@[j] < nodes@.len(),
            decreases neighbours@.len() - k,
        {
            let next: i32 = neighbours[k];
            if next < 0 || next as usize >= nodes.len() {
                assert(!(0 <= nodes@[i as int].spec_neighbours()[k as int] < nodes@.len()));
                return false;
            }
            k += 1;
        }
        i += 1;
    }
    true
}

} // verus!
