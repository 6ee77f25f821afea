//! Navigation graphs built from triangle meshes: vertices that share a
//! lattice point are welded into one node, and two nodes are neighbours when
//! some triangle has both as corners.

use crate::astar::{graph_wf, Node};
use crate::error::Error;
use crate::geometry::Point3;
use crate::scene::{Material, MeshVertex};
use std::collections::HashMap;
use vstd::prelude::*;

verus! {

/// A node of a navigation graph: where it lies and which nodes it borders.
#[derive(Debug)]
pub struct NavNode {
    pub pos: Point3,
    pub neighbours: Vec<i32>,
}

impl Node for NavNode {
    open spec fn spec_pos(&self) -> Point3 {
        self.pos
    }

    open spec fn spec_neighbours(&self) -> Seq<i32> {
        self.neighbours@
    }

    fn get_pos(&self) -> (p: Point3) {
        self.pos
    }

    fn get_neighbours(&self) -> (n: &[i32]) {
        self.neighbours.as_slice()
    }
}

/// What a node holds, as plain values.
pub struct NavNodeView {
    pub pos: Point3,
    pub neighbours: Seq<i32>,
}

impl View for NavNode {
    type V = NavNodeView;

    open spec fn view(&self) -> NavNodeView {
        NavNodeView { pos: self.pos, neighbours: self.neighbours@ }
    }
}

impl NavNode {
    /// A copy of the node.
    pub fn duplicate(&self) -> (n: Self)
        ensures
            n@ == self@,
    {
        let mut neighbours: Vec<i32> = Vec::new();
        let mut i: usize = 0;
        while i < self.neighbours.len()
            invariant
                i <= self.neighbours.len(),
                neighbours@ == self.neighbours@.take(i as int),
            decreases self.neighbours.len() - i,
        {
            neighbours.push(self.neighbours[i]);
            assert(self.neighbours@.take(i + 1) =~= self.neighbours@.take(i as int).push(
                self.neighbours[i as int],
            ));
            i += 1;
        }
        assert(self.neighbours@.take(self.neighbours.len() as int) =~= self.neighbours@);
        NavNode { pos: self.pos, neighbours: neighbours }
    }
}

/// Each entry is smaller than the next: sorted, and nothing twice.
pub open spec fn strictly_increasing(s: Seq<i32>) -> bool {
    forall|i: int, j: int| 0 <= i < j < s.len() ==> s[i] < s[j]
}

/// Puts `x` at its place in a sorted list, unless it is there already.
fn insert_sorted(v: &mut Vec<i32>, x: i32)
    requires
        strictly_increasing(old(v)@),
    ensures
        strictly_increasing(final(v)@),
        forall|y: i32| final(v)@.contains(y) <==> (old(v)@.contains(y) || y == x),
{
    let mut i: usize = 0;
    while i < v.len() && v[i] < x
        invariant
            i <= v.len(),
            v@ == old(v)@,
            forall|j: int| 0 <= j < i ==> v[j] < x,
        decreases v.len() - i,
    {
        i += 1;
    }
    if i < v.len() && v[i] == x {
        assert(v@.contains(x));
        return ;
    }
    let ghost before = v@;
    v.insert(i, x);
    proof {
        assert(v@.len() == before.len() + 1);
        assert(forall|j: int| 0 <= j < i ==> v@[j] == before[j]);
        assert(v@[i as int] == x);
        assert(forall|j: int| i < j < v@.len() ==> v@[j] == before[j - 1]);
        assert forall|y: i32| v@.contains(y) <==> (before.contains(y) || y == x) by {
            if before.contains(y) {
                let j = choose|j: int| 0 <= j < before.len() && before[j] == y;
                if j < i {
                    assert(v@[j] == y);
                } else {
                    assert(v@[j + 1] == y);
                }
            }
            if v@.contains(y) && y != x {
                let j = choose|j: int| 0 <= j < v@.len() && v@[j] == y;
                if j < i {
                    assert(before[j] == y);
                } else {
                    assert(before[j - 1] == y);
                }
            }
        }
    }
}

/// Makes `b` a neighbour of node `a`, unless they are one node.
fn link(nodes: &mut Vec<NavNode>, a: i32, b: i32)
    requires
        0 <= a < old(nodes).len(),
        strictly_increasing(old(nodes)[a as int].neighbours@),
    ensures
        final(nodes).len() == old(nodes).len(),
        forall|k: int| 0 <= k < old(nodes).len() ==> final(nodes)[k].pos == old(nodes)[k].pos,
        forall|k: int|
            0 <= k < old(nodes).len() && k != a ==> final(nodes)[k].neighbours == old(
                nodes,
            )[k].neighbours,
        strictly_increasing(final(nodes)[a as int].neighbours@),
        forall|y: i32|
            final(nodes)[a as int].neighbours@.contains(y) <==> (old(nodes)[a as int].neighbours@.contains(
                y,
            ) || (y == b && a != b)),
{
    if a != b {
        insert_sorted(&mut nodes[a as usize].neighbours, b);
    }
}


/// What an imported mesh primitive offers: its positions and the corner
/// indices of its triangles, as far as it has them, the vertices it is drawn
/// with, and its material.
#[derive(Debug)]
pub struct PrimitiveSource {
    pub positions: Option<Vec<Point3>>,
    pub indices: Option<Vec<u32>>,
    pub vertices: Vec<MeshVertex>,
    pub material: Option<Material>,
}

/// The primitives of a mesh.
#[derive(Debug)]
pub struct MeshSource {
    pub primitives: Vec<PrimitiveSource>,
}

/// The distinct points of `vtxs`, each where it first occurs.
pub open spec fn weld(vtxs: Seq<Point3>) -> Seq<Point3>
    decreases vtxs.len(),
{
    if vtxs.len() == 0 {
        Seq::empty()
    } else {
        let before = weld(vtxs.drop_last());
        if before.contains(vtxs.last()) {
            before
        } else {
            before.push(vtxs.last())
        }
    }
}

/// The node that vertex `i` is welded into.
pub open spec fn node_of(vtxs: Seq<Point3>, i: int) -> int {
    weld(vtxs).index_of(vtxs[i])
}

/// The node at corner `c` of triangle `t`.
pub open spec fn corner(vtxs: Seq<Point3>, idxs: Seq<u32>, t: int, c: int) -> int {
    node_of(vtxs, idxs[3 * t + c] as int)
}

/// One of the first `count` triangles has both node `a` and node `b` as
/// corners.
pub open spec fn share_triangle(
    vtxs: Seq<Point3>,
    idxs: Seq<u32>,
    count: int,
    a: int,
    b: int,
) -> bool {
    exists|t: int, p: int, q: int|
        0 <= t < count && 0 <= p < 3 && 0 <= q < 3 && #[trigger] corner(vtxs, idxs, t, p) == a
            && #[trigger] corner(vtxs, idxs, t, q) == b
}

/// The indices come in threes, each names a vertex, and the vertex count
/// fits the index type of the graph.
pub open spec fn geometry_ok(vtxs: Seq<Point3>, idxs: Seq<u32>) -> bool {
    &&& vtxs.len() <= i32::MAX
    &&& idxs.len() % 3 == 0
    &&& forall|i: int| 0 <= i < idxs.len() ==> #[trigger] idxs[i] < vtxs.len()
}

/// `nodes` is the navigation graph of the triangles `idxs` over `vtxs`: one
/// node for each distinct point, in the order of first occurrence, whose
/// neighbours are, in rising order and each once, the other nodes it shares
/// a triangle with.
pub open spec fn is_navmesh(vtxs: Seq<Point3>, idxs: Seq<u32>, nodes: Seq<NavNode>) -> bool {
    &&& nodes.len() == weld(vtxs).len()
    &&& forall|k: int| 0 <= k < nodes.len() ==> (#[trigger] nodes[k]).pos == weld(vtxs)[k]
    &&& forall|k: int| 0 <= k < nodes.len() ==> strictly_increasing((#[trigger] nodes[k]).neighbours@)
    &&& forall|k: int, j: i32|
        0 <= k < nodes.len() ==> (#[trigger] nodes[k].neighbours@.contains(j) <==> (j != k
            && share_triangle(vtxs, idxs, idxs.len() as int / 3, k, j as int)))
}

/// The key a lattice point is found by: its three coordinates side by side.
pub open spec fn vertex_key(p: Point3) -> u128 {
    ((p.x + 0x8000_0000) * 0x1_0000_0000_0000_0000 + (p.y + 0x8000_0000) * 0x1_0000_0000 + (p.z
        + 0x8000_0000)) as u128
}

/// Distinct points have distinct keys.
pub proof fn lemma_vertex_key_injective(p: Point3, q: Point3)
    requires
        vertex_key(p) == vertex_key(q),
    ensures
        p == q,
{
}

fn key_of(p: &Point3) -> (k: u128)
    ensures
        k == vertex_key(*p),
{
    let x: u128 = (p.x as i64 + 0x8000_0000) as u128;
    let y: u128 = (p.y as i64 + 0x8000_0000) as u128;
    let z: u128 = (p.z as i64 + 0x8000_0000) as u128;
    x * 0x1_0000_0000_0000_0000 + y * 0x1_0000_0000 + z
}

/// Welding keeps every point, and keeps it once.
pub proof fn lemma_weld_distinct(vtxs: Seq<Point3>)
    ensures
        weld(vtxs).no_duplicates(),
        weld(vtxs).len() <= vtxs.len(),
        forall|p: Point3| weld(vtxs).contains(p) <==> vtxs.contains(p),
    decreases vtxs.len(),
{
    if vtxs.len() > 0 {
        let init = vtxs.drop_last();
        lemma_weld_distinct(init);
        let before = weld(init);
        assert forall|p: Point3| weld(vtxs).contains(p) <==> vtxs.contains(p) by {
            if vtxs.contains(p) {
                let i = choose|i: int| 0 <= i < vtxs.len() && vtxs[i] == p;
                if i < vtxs.len() - 1 {
                    assert(init[i] == p);
                    assert(init.contains(p));
                    assert(before.contains(p));
                    let k = choose|k: int| 0 <= k < before.len() && before[k] == p;
                    assert(weld(vtxs)[k] == p);
                } else {
                    if before.contains(p) {
                    } else {
                        assert(weld(vtxs)[before.len() as int] == p);
                    }
                }
            }
            if weld(vtxs).contains(p) {
                let k = choose|k: int| 0 <= k < weld(vtxs).len() && weld(vtxs)[k] == p;
                if k < before.len() {
                    assert(before[k] == p);
                    assert(before.contains(p));
                    assert(init.contains(p));
                    let i = choose|i: int| 0 <= i < init.len() && init[i] == p;
                    assert(vtxs[i] == p);
                } else {
                    assert(vtxs[vtxs.len() - 1] == p);
                }
            }
        }
    }
}

/// In a welded list a point is found where it stands.
pub proof fn lemma_node_of(vtxs: Seq<Point3>, i: int, k: int)
    requires
        0 <= i < vtxs.len(),
        0 <= k < weld(vtxs).len(),
        weld(vtxs)[k] == vtxs[i],
    ensures
        node_of(vtxs, i) == k,
{
    lemma_weld_distinct(vtxs);
    let found = weld(vtxs).index_of(vtxs[i]);
    assert(weld(vtxs).contains(vtxs[i]));
}

/// Welds the vertices: the nodes, without neighbours yet, and for each
/// vertex the node it went into.
fn weld_vertices(vtxs: &Vec<Point3>) -> (r: (Vec<NavNode>, Vec<i32>))
    requires
        vtxs.len() <= i32::MAX,
    ensures
        r.0.len() == weld(vtxs@).len(),
        forall|k: int|
            0 <= k < r.0.len() ==> (#[trigger] r.0[k]).pos == weld(vtxs@)[k] && r.0[k].neighbours@.len()
                == 0,
        r.1.len() == vtxs.len(),
        forall|i: int| 0 <= i < vtxs.len() ==> #[trigger] r.1[i] == node_of(vtxs@, i),
        forall|i: int| 0 <= i < vtxs.len() ==> 0 <= #[trigger] r.1[i] < r.0.len(),
{
    broadcast use vstd::std_specs::hash::group_hash_axioms;

    let mut vtx_id_to_new_idx: HashMap<u128, i32> = HashMap::new();
    let mut nodes: Vec<NavNode> = Vec::new();
    let mut new_idxs: Vec<i32> = Vec::new();
    let mut i: usize = 0;
    while i < vtxs.len()
        invariant
            vtxs.len() <= i32::MAX,
            i <= vtxs.len(),
            nodes.len() == weld(vtxs@.take(i as int)).len(),
            nodes.len() <= i,
            forall|k: int|
                0 <= k < nodes.len() ==> (#[trigger] nodes[k]).pos == weld(vtxs@.take(i as int))[k]
                    && nodes[k].neighbours@.len() == 0,
            new_idxs.len() == i,
            forall|j: int|
                0 <= j < i ==> 0 <= #[trigger] new_idxs[j] < nodes.len() && nodes[new_idxs[j] as int].pos
                    == vtxs[j],
            forall|k: int|
                0 <= k < nodes.len() ==> vtx_id_to_new_idx@.contains_key(
                    #[trigger] vertex_key(nodes[k].pos),
                ) && vtx_id_to_new_idx@[vertex_key(nodes[k].pos)] == k,
            forall|key: u128| #[trigger]
                vtx_id_to_new_idx@.contains_key(key) ==> 0 <= vtx_id_to_new_idx@[key] < nodes.len()
                    && vertex_key(nodes[vtx_id_to_new_idx@[key] as int].pos) == key,
        decreases vtxs.len() - i,
    {
        let vtx: Point3 = vtxs[i];
        let vtx_id: u128 = key_of(&vtx);
        let ghost welded = weld(vtxs@.take(i as int));
        proof {
            assert(vtxs@.take(i + 1).drop_last() =~= vtxs@.take(i as int));
            assert(vtxs@.take(i + 1).last() == vtx);
            lemma_weld_distinct(vtxs@.take(i as int));
        }
        let found: Option<&i32> = vtx_id_to_new_idx.get(&vtx_id);
        let new_idx: i32 = match found {
            Some(idx) => {
                proof {
                    lemma_vertex_key_injective(nodes[*idx as int].pos, vtx);
                    assert(welded[*idx as int] == vtx);
                }
                *idx
            },
            None => {
                proof {
                    if welded.contains(vtx) {
                        let k = choose|k: int| 0 <= k < welded.len() && welded[k] == vtx;
                        assert(vtx_id_to_new_idx@.contains_key(vertex_key(nodes[k].pos)));
                    }
                }
                let fresh: i32 = nodes.len() as i32;
                let ghost nodes_before = nodes@;
                let ghost map_before = vtx_id_to_new_idx@;
                vtx_id_to_new_idx.insert(vtx_id, fresh);
                nodes.push(NavNode { pos: vtx, neighbours: Vec::new() });
                proof {
                    assert forall|k: int| 0 <= k < nodes.len() implies vtx_id_to_new_idx@.contains_key(
                        #[trigger] vertex_key(nodes[k].pos),
                    ) && vtx_id_to_new_idx@[vertex_key(nodes[k].pos)] == k by {
                        if k < nodes_before.len() {
                            assert(map_before.contains_key(vertex_key(nodes_before[k].pos)));
                        }
                    }
                    assert forall|key: u128| #[trigger]
                        vtx_id_to_new_idx@.contains_key(key) implies 0 <= vtx_id_to_new_idx@[key]
                        < nodes.len() && vertex_key(nodes[vtx_id_to_new_idx@[key] as int].pos) == key by {
                        if key != vtx_id {
                            assert(map_before.contains_key(key));
                        }
                    }
                }
                fresh
            },
        };
        new_idxs.push(new_idx);
        i += 1;
    }
    proof {
        assert(vtxs@.take(vtxs.len() as int) =~= vtxs@);
        assert forall|i: int| 0 <= i < vtxs.len() implies #[trigger] new_idxs[i] == node_of(vtxs@, i) by {
            lemma_node_of(vtxs@, i, new_idxs[i] as int);
        }
    }
    (nodes, new_idxs)
}


/// Some corner of triangle `t` is node `a` and some corner is node `b`.
pub open spec fn corners_of(vtxs: Seq<Point3>, idxs: Seq<u32>, t: int, a: int, b: int) -> bool {
    &&& corner(vtxs, idxs, t, 0) == a || corner(vtxs, idxs, t, 1) == a || corner(vtxs, idxs, t, 2)
        == a
    &&& corner(vtxs, idxs, t, 0) == b || corner(vtxs, idxs, t, 1) == b || corner(vtxs, idxs, t, 2)
        == b
}

/// What one more triangle adds to the pairs of nodes that share a triangle.
proof fn lemma_share_step(vtxs: Seq<Point3>, idxs: Seq<u32>, t: int, a: int, b: int)
    requires
        0 <= t,
    ensures
        share_triangle(vtxs, idxs, t + 1, a, b) <==> (share_triangle(vtxs, idxs, t, a, b)
            || corners_of(vtxs, idxs, t, a, b)),
{
    if share_triangle(vtxs, idxs, t + 1, a, b) {
        let (u, p, q) = choose|u: int, p: int, q: int|
            0 <= u < t + 1 && 0 <= p < 3 && 0 <= q < 3 && #[trigger] corner(vtxs, idxs, u, p) == a
                && #[trigger] corner(vtxs, idxs, u, q) == b;
        if u < t {
            assert(share_triangle(vtxs, idxs, t, a, b));
        } else {
            assert(corners_of(vtxs, idxs, t, a, b));
        }
    }
    if share_triangle(vtxs, idxs, t, a, b) {
        let (u, p, q) = choose|u: int, p: int, q: int|
            0 <= u < t && 0 <= p < 3 && 0 <= q < 3 && #[trigger] corner(vtxs, idxs, u, p) == a
                && #[trigger] corner(vtxs, idxs, u, q) == b;
        assert(0 <= u < t + 1 && corner(vtxs, idxs, u, p) == a && corner(vtxs, idxs, u, q) == b);
    }
    if corners_of(vtxs, idxs, t, a, b) {
        let p = if corner(vtxs, idxs, t, 0) == a {
            0int
        } else if corner(vtxs, idxs, t, 1) == a {
            1int
        } else {
            2int
        };
        let q = if corner(vtxs, idxs, t, 0) == b {
            0int
        } else if corner(vtxs, idxs, t, 1) == b {
            1int
        } else {
            2int
        };
        assert(0 <= t < t + 1 && corner(vtxs, idxs, t, p) == a && corner(vtxs, idxs, t, q) == b);
    }
}

/// The navigation graph of a triangle mesh.
pub fn build_navmesh(vtxs: &Vec<Point3>, idxs: &Vec<u32>) -> (nodes: Vec<NavNode>)
    requires
        geometry_ok(vtxs@, idxs@),
    ensures
        is_navmesh(vtxs@, idxs@, nodes@),
        graph_wf(nodes@),
{
    let (mut nodes, new_idxs) = weld_vertices(vtxs);
    let count: usize = idxs.len() / 3;
    let mut t: usize = 0;
    assert forall|k: int, j: i32| 0 <= k < nodes.len() implies (
    #[trigger] nodes[k].neighbours@.contains(j) <==> (j != k && share_triangle(
        vtxs@,
        idxs@,
        0,
        k,
        j as int,
    ))) by {}
    while t < count
        invariant
            geometry_ok(vtxs@, idxs@),
            count == idxs.len() / 3,
            t <= count,
            new_idxs.len() == vtxs.len(),
            forall|i: int| 0 <= i < vtxs.len() ==> #[trigger] new_idxs[i] == node_of(vtxs@, i),
            forall|i: int| 0 <= i < vtxs.len() ==> 0 <= #[trigger] new_idxs[i] < nodes.len(),
            nodes.len() == weld(vtxs@).len(),
            forall|k: int| 0 <= k < nodes.len() ==> (#[trigger] nodes[k]).pos == weld(vtxs@)[k],
            forall|k: int|
                0 <= k < nodes.len() ==> strictly_increasing((#[trigger] nodes[k]).neighbours@),
            forall|k: int, j: i32|
                0 <= k < nodes.len() ==> (#[trigger] nodes[k].neighbours@.contains(j) <==> (j != k
                    && share_triangle(vtxs@, idxs@, t as int, k, j as int))),
        decreases count - t,
    {
        let a: i32 = new_idxs[idxs[3 * t] as usize];
        let b: i32 = new_idxs[idxs[3 * t + 1] as usize];
        let c: i32 = new_idxs[idxs[3 * t + 2] as usize];
        assert(a == corner(vtxs@, idxs@, t as int, 0));
        assert(b == corner(vtxs@, idxs@, t as int, 1));
        assert(c == corner(vtxs@, idxs@, t as int, 2));
        let ghost before = nodes@;
        link(&mut nodes, a, b);
        link(&mut nodes, a, c);
        link(&mut nodes, b, a);
        link(&mut nodes, b, c);
        link(&mut nodes, c, a);
        link(&mut nodes, c, b);
        proof {
            assert forall|k: int, j: i32| 0 <= k < nodes.len() implies (
            #[trigger] nodes[k].neighbours@.contains(j) <==> (j != k && share_triangle(
                vtxs@,
                idxs@,
                t + 1,
                k,
                j as int,
            ))) by {
                lemma_share_step(vtxs@, idxs@, t as int, k, j as int);
                assert(before[k].neighbours@.contains(j) <==> (j != k && share_triangle(
                    vtxs@,
                    idxs@,
                    t as int,
                    k,
                    j as int,
                )));
            }
        }
        t += 1;
    }
    proof {
        lemma_navmesh_searchable(vtxs@, idxs@, nodes@);
    }
    nodes
}

/// The vertices a primitive offers: its positions, or none.
pub open spec fn source_vertices(prim: PrimitiveSource) -> Seq<Point3> {
    match prim.positions {
        Some(v) => v@,
        None => Seq::empty(),
    }
}

/// The corner indices a primitive offers: its indices, or none.
pub open spec fn source_indices(prim: PrimitiveSource) -> Seq<u32> {
    match prim.indices {
        Some(v) => v@,
        None => Seq::empty(),
    }
}

/// The first primitive of `mesh` is there and its geometry can be welded.
pub open spec fn navmesh_source_ok(mesh: Option<&MeshSource>) -> bool {
    match mesh {
        Some(m) => m.primitives.len() > 0 && geometry_ok(
            source_vertices(m.primitives[0]),
            source_indices(m.primitives[0]),
        ),
        None => false,
    }
}

/// What is wrong with a mesh that no navigation graph can be built from.
pub open spec fn navmesh_error(mesh: Option<&MeshSource>) -> Seq<char> {
    match mesh {
        None => "No mesh in navmesh"@,
        Some(m) => if m.primitives.len() == 0 {
            "No prim in navmesh"@
        } else {
            "Bad geometry in navmesh"@
        },
    }
}

fn check_geometry(vtxs: &Vec<Point3>, idxs: &Vec<u32>) -> (ok: bool)
    ensures
        ok == geometry_ok(vtxs@, idxs@),
{
    if vtxs.len() > 0x7fff_ffff || idxs.len() % 3 != 0 {
        return false;
    }
    let mut i: usize = 0;
    while i < idxs.len()
        invariant
            i <= idxs.len(),
            forall|j: int| 0 <= j < i ==> #[trigger] idxs[j] < vtxs.len(),
        decreases idxs.len() - i,
    {
        if idxs[i] as usize >= vtxs.len() {
            return false;
        }
        i += 1;
    }
    true
}

/// The navigation graph of the first primitive of a mesh. A mesh that is
/// missing, has no primitive, or whose indices do not describe triangles over
/// its vertices gives an error.
pub fn get_navmesh(mesh: Option<&MeshSource>) -> (r: Result<Vec<NavNode>, Error>)
    ensures
        r is Ok <==> navmesh_source_ok(mesh),
        r matches Ok(nodes) ==> is_navmesh(
            source_vertices(mesh.unwrap().primitives[0]),
            source_indices(mesh.unwrap().primitives[0]),
            nodes@,
        ),
        r matches Ok(nodes) ==> graph_wf(nodes@),
        r matches Err(e) ==> e.message@ == navmesh_error(mesh) && e.inner is None,
{
    let mesh: &MeshSource = match mesh {
        Some(m) => m,
        None => {
            return Err(Error::new("No mesh in navmesh".to_string(), None));
        },
    };
    if mesh.primitives.len() == 0 {
        return Err(Error::new("No prim in navmesh".to_string(), None));
    }
    let prim: &PrimitiveSource = &mesh.primitives[0];
    let no_vtxs: Vec<Point3> = Vec::new();
    let no_idxs: Vec<u32> = Vec::new();
    let vtxs: &Vec<Point3> = match &prim.positions {
        Some(v) => v,
        None => &no_vtxs,
    };
    let idxs: &Vec<u32> = match &prim.indices {
        Some(v) => v,
        None => &no_idxs,
    };
    assert(vtxs@ =~= source_vertices(*prim));
    assert(idxs@ =~= source_indices(*prim));
    if !check_geometry(vtxs, idxs) {
        return Err(Error::new("Bad geometry in navmesh".to_string(), None));
    }
    Ok(build_navmesh(vtxs, idxs))
}

/// A navigation graph built from sound geometry names only its own nodes as
/// neighbours, so it can be searched.
pub proof fn lemma_navmesh_searchable(vtxs: Seq<Point3>, idxs: Seq<u32>, nodes: Seq<NavNode>)
    requires
        geometry_ok(vtxs, idxs),
        is_navmesh(vtxs, idxs, nodes),
    ensures
        graph_wf(nodes),
{
    lemma_weld_distinct(vtxs);
    let count = idxs.len() as int / 3;
    assert forall|i: int, k: int|
        0 <= i < nodes.len() && 0 <= k < nodes[i].spec_neighbours().len() implies 0
        <= #[trigger] nodes[i].spec_neighbours()[k] < nodes.len() by {
        let j = nodes[i].neighbours@[k];
        assert(nodes[i].neighbours@.contains(j));
        assert(share_triangle(vtxs, idxs, count, i, j as int));
        let (t, p, q) = choose|t: int, p: int, q: int|
            0 <= t < count && 0 <= p < 3 && 0 <= q < 3 && #[trigger] corner(vtxs, idxs, t, p) == i
                && #[trigger] corner(vtxs, idxs, t, q) == j;
        let raw = idxs[3 * t + q] as int;
        assert(0 <= raw < vtxs.len());
        assert(vtxs.contains(vtxs[raw]));
        assert(weld(vtxs).contains(vtxs[raw]));
    }
}

/// Neighbourhood in a navigation graph is mutual: a node is a neighbour of
/// each of its neighbours.
pub proof fn law_neighbours_symmetric(
    vtxs: Seq<Point3>,
    idxs: Seq<u32>,
    nodes: Seq<NavNode>,
    i: i32,
    j: i32,
)
    requires
        is_navmesh(vtxs, idxs, nodes),
        0 <= i < nodes.len(),
        0 <= j < nodes.len(),
        nodes[i as int].neighbours@.contains(j),
    ensures
        nodes[j as int].neighbours@.contains(i),
{
    let count = idxs.len() as int / 3;
    assert(share_triangle(vtxs, idxs, count, i as int, j as int));
    let (t, p, q) = choose|t: int, p: int, q: int|
        0 <= t < count && 0 <= p < 3 && 0 <= q < 3 && #[trigger] corner(vtxs, idxs, t, p) == i
            && #[trigger] corner(vtxs, idxs, t, q) == j;
    assert(0 <= t < count && corner(vtxs, idxs, t, q) == j && corner(vtxs, idxs, t, p) == i);
    assert(share_triangle(vtxs, idxs, count, j as int, i as int));
}

} // verus!
