use slhack::astar::AStarContext;
use slhack::geometry::Point3;
use slhack::navmesh::{build_navmesh, get_navmesh, MeshSource, NavNode, PrimitiveSource};

fn p(x: i32, y: i32) -> Point3 {
    Point3::new(x, y, 0)
}

fn source(positions: Option<Vec<Point3>>, indices: Option<Vec<u32>>) -> MeshSource {
    MeshSource {
        primitives: vec![PrimitiveSource { positions, indices, vertices: vec![], material: None }],
    }
}

/// Two triangles that share the edge from (1000, 0) to (0, 1000). The shared
/// corners are given twice, as a mesh with split vertices has them.
fn split_quad() -> (Vec<Point3>, Vec<u32>) {
    (
        vec![p(0, 0), p(1000, 0), p(0, 1000), p(1000, 0), p(1000, 1000), p(0, 1000)],
        vec![0, 1, 2, 3, 4, 5],
    )
}

#[test]
fn shared_corners_are_welded_in_order_of_first_occurrence() {
    let (vtxs, idxs) = split_quad();
    let nodes = build_navmesh(&vtxs, &idxs);
    let positions: Vec<Point3> = nodes.iter().map(|n| n.pos).collect();
    assert_eq!(positions, vec![p(0, 0), p(1000, 0), p(0, 1000), p(1000, 1000)]);
}

#[test]
fn neighbours_are_the_other_corners_of_shared_triangles() {
    let (vtxs, idxs) = split_quad();
    let nodes = build_navmesh(&vtxs, &idxs);
    assert_eq!(nodes[0].neighbours, vec![1, 2]);
    assert_eq!(nodes[1].neighbours, vec![0, 2, 3]);
    assert_eq!(nodes[2].neighbours, vec![0, 1, 3]);
    assert_eq!(nodes[3].neighbours, vec![1, 2]);
}

#[test]
fn neighbourhood_is_mutual_and_sorted() {
    let vtxs = vec![p(0, 0), p(5, 0), p(5, 5), p(0, 5), p(9, 9), p(5, 0), p(2, 2), p(0, 0)];
    let idxs = vec![0, 1, 2, 2, 3, 0, 4, 5, 6, 7, 7, 7, 6, 2, 4];
    let nodes = build_navmesh(&vtxs, &idxs);
    assert_eq!(nodes.len(), 6);
    for (i, node) in nodes.iter().enumerate() {
        for pair in node.neighbours.windows(2) {
            assert!(pair[0] < pair[1]);
        }
        for &j in &node.neighbours {
            assert_ne!(j as usize, i);
            assert!(nodes[j as usize].neighbours.contains(&(i as i32)));
        }
    }
}

#[test]
fn a_vertex_in_no_triangle_has_no_neighbours() {
    let vtxs = vec![p(0, 0), p(1, 0), p(0, 1), p(7, 7)];
    let nodes = build_navmesh(&vtxs, &vec![0, 1, 2]);
    assert_eq!(nodes.len(), 4);
    assert!(nodes[3].neighbours.is_empty());
}

#[test]
fn a_degenerate_triangle_links_nothing_to_itself() {
    let vtxs = vec![p(0, 0), p(0, 0), p(3, 3)];
    let nodes = build_navmesh(&vtxs, &vec![0, 1, 2]);
    assert_eq!(nodes.len(), 2);
    assert_eq!(nodes[0].neighbours, vec![1]);
    assert_eq!(nodes[1].neighbours, vec![0]);
}

#[test]
fn points_far_apart_on_each_axis_stay_apart() {
    let vtxs = vec![
        Point3::new(i32::MIN, 0, 0),
        Point3::new(0, i32::MIN, 0),
        Point3::new(0, 0, i32::MIN),
        Point3::new(i32::MAX, i32::MAX, i32::MAX),
        Point3::new(i32::MIN, i32::MIN, i32::MIN),
        Point3::new(-1, 0, 0),
        Point3::new(0, -1, 0),
        Point3::new(0, 0, -1),
    ];
    let nodes = build_navmesh(&vtxs, &vec![]);
    assert_eq!(nodes.len(), 8);
}

#[test]
fn missing_mesh_is_an_error() {
    let e = get_navmesh(None).expect_err("no mesh");
    assert_eq!(e.message, "No mesh in navmesh");
    assert!(e.inner.is_none());
}

#[test]
fn mesh_without_primitives_is_an_error() {
    let mesh = MeshSource { primitives: vec![] };
    let e = get_navmesh(Some(&mesh)).expect_err("no primitive");
    assert_eq!(e.message, "No prim in navmesh");
}

#[test]
fn indices_that_describe_no_triangles_are_an_error() {
    let beyond = source(Some(vec![p(0, 0), p(1, 0), p(0, 1)]), Some(vec![0, 1, 3]));
    assert_eq!(get_navmesh(Some(&beyond)).expect_err("index").message, "Bad geometry in navmesh");
    let partial = source(Some(vec![p(0, 0), p(1, 0), p(0, 1)]), Some(vec![0, 1, 2, 0]));
    assert_eq!(get_navmesh(Some(&partial)).expect_err("count").message, "Bad geometry in navmesh");
    let no_vertices = source(None, Some(vec![0, 1, 2]));
    assert_eq!(get_navmesh(Some(&no_vertices)).expect_err("none").message, "Bad geometry in navmesh");
}

#[test]
fn only_the_first_primitive_counts() {
    let (vtxs, idxs) = split_quad();
    let mut mesh = source(Some(vtxs), Some(idxs));
    mesh.primitives.push(PrimitiveSource {
        positions: Some(vec![p(9, 9)]),
        indices: Some(vec![5, 5, 5]),
        vertices: vec![],
        material: None,
    });
    let nodes = get_navmesh(Some(&mesh)).expect("graph");
    assert_eq!(nodes.len(), 4);
}

#[test]
fn primitive_without_indices_gives_nodes_without_neighbours() {
    let mesh = source(Some(vec![p(0, 0), p(1, 1), p(0, 0)]), None);
    let nodes = get_navmesh(Some(&mesh)).expect("graph");
    assert_eq!(nodes.len(), 2);
    assert!(nodes.iter().all(|n| n.neighbours.is_empty()));
}

#[test]
fn a_built_graph_can_be_searched() {
    let (vtxs, idxs) = split_quad();
    let nodes: Vec<NavNode> = build_navmesh(&vtxs, &idxs);
    let mut ctx = AStarContext::new(&nodes);
    let path = ctx.solve(p(0, 0), p(1000, 1000), |_a: &NavNode, _b: &NavNode| 1);
    assert_eq!(path.len(), 3);
    assert_eq!(path[0], p(1000, 1000));
    assert_eq!(path[2], p(0, 0));
}

#[test]
fn duplicate_equals_the_node() {
    let n = NavNode { pos: p(3, 4), neighbours: vec![1, 5, 9] };
    let d = n.duplicate();
    assert_eq!(d.pos, n.pos);
    assert_eq!(d.neighbours, n.neighbours);
}
