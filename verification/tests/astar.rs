use slhack::astar::{graph_is_wf, length_cost, AStarContext};
use slhack::geometry::Point3;
use slhack::navmesh::NavNode;

fn unit(_a: &NavNode, _b: &NavNode) -> u64 {
    1
}

fn node(x: i32, y: i32, z: i32, neighbours: &[i32]) -> NavNode {
    NavNode { pos: Point3::new(x, y, z), neighbours: neighbours.to_vec() }
}

fn square() -> Vec<NavNode> {
    vec![
        node(0, 0, 0, &[1, 3]),
        node(1000, 0, 0, &[0, 2]),
        node(1000, 1000, 0, &[1, 3]),
        node(0, 1000, 0, &[0, 2]),
    ]
}

fn is_neighbour(nodes: &[NavNode], from: i32, to: i32) -> bool {
    nodes[from as usize].neighbours.contains(&to)
}

#[test]
fn square_diagonal_takes_three_nodes() {
    let nodes = square();
    let mut ctx = AStarContext::new(&nodes);
    let path = ctx.solve(nodes[0].pos, nodes[2].pos, unit);
    assert_eq!(path.len(), 3);
    assert_eq!(path[0], nodes[2].pos);
    assert!(path[1] == nodes[1].pos || path[1] == nodes[3].pos);
    assert_eq!(path[2], nodes[0].pos);
}

#[test]
fn square_diagonal_indices() {
    let nodes = square();
    let mut ctx = AStarContext::new(&nodes);
    let path = ctx.solve_indices(nodes[0].pos, nodes[2].pos, unit);
    assert_eq!(path.len(), 3);
    assert_eq!(path[0], 2);
    assert!(path[1] == 1 || path[1] == 3);
    assert_eq!(path[2], 0);
}

#[test]
fn end_points_snap_to_the_nearest_node() {
    let nodes = square();
    let mut ctx = AStarContext::new(&nodes);
    let path = ctx.solve_indices(Point3::new(-40, 30, 7), Point3::new(900, 20, -3), unit);
    assert_eq!(path, vec![1, 0]);
}

#[test]
fn equally_near_nodes_snap_to_the_first() {
    let nodes = square();
    let mut ctx = AStarContext::new(&nodes);
    let path = ctx.solve_indices(Point3::new(500, 500, 0), Point3::new(500, 500, 0), unit);
    assert_eq!(path, vec![0]);
}

#[test]
fn start_equal_to_goal_is_a_single_node() {
    let nodes = square();
    let mut ctx = AStarContext::new(&nodes);
    let path = ctx.solve(nodes[3].pos, nodes[3].pos, unit);
    assert_eq!(path, vec![nodes[3].pos]);
}

#[test]
fn reversed_path_walks_from_start_to_goal_along_edges() {
    let nodes = vec![
        node(0, 0, 0, &[1]),
        node(10, 0, 0, &[0, 2, 4]),
        node(20, 0, 0, &[1, 3]),
        node(30, 0, 0, &[2, 5]),
        node(10, 10, 0, &[1, 5]),
        node(30, 10, 0, &[3, 4]),
    ];
    let mut ctx = AStarContext::new(&nodes);
    for from in 0..nodes.len() {
        for to in 0..nodes.len() {
            let mut path = ctx.solve_indices(nodes[from].pos, nodes[to].pos, unit);
            path.reverse();
            assert_eq!(path[0], from as i32);
            assert_eq!(*path.last().unwrap(), to as i32);
            for pair in path.windows(2) {
                assert!(is_neighbour(&nodes, pair[0], pair[1]));
            }
            let mut seen = path.clone();
            seen.sort();
            seen.dedup();
            assert_eq!(seen.len(), path.len());
        }
    }
}

#[test]
fn cheaper_detour_is_taken() {
    let nodes = vec![
        node(0, 0, 0, &[1, 2]),
        node(1, 1, 0, &[0, 3]),
        node(1, -1, 0, &[0, 3]),
        node(2, 0, 0, &[1, 2]),
    ];
    let through_two = |a: &NavNode, b: &NavNode| -> u64 {
        if a.pos.y > 0 || b.pos.y > 0 {
            50
        } else {
            2
        }
    };
    let mut ctx = AStarContext::new(&nodes);
    let path = ctx.solve_indices(nodes[0].pos, nodes[3].pos, through_two);
    assert_eq!(path, vec![3, 2, 0]);
}

#[test]
fn unreachable_goal_gives_the_closest_approach() {
    // Two components: 0 - 1 - 2 and 3 - 4.
    let nodes = vec![
        node(0, 0, 0, &[1]),
        node(10, 0, 0, &[0, 2]),
        node(20, 0, 0, &[1]),
        node(40, 0, 0, &[4]),
        node(50, 0, 0, &[3]),
    ];
    let mut ctx = AStarContext::new(&nodes);
    let path = ctx.solve_indices(nodes[0].pos, nodes[4].pos, unit);
    assert_eq!(path, vec![2, 1, 0]);
    for pair in path.windows(2) {
        assert!(is_neighbour(&nodes, pair[1], pair[0]));
    }
}

#[test]
fn a_start_with_a_neighbour_never_gives_an_empty_path() {
    // The start's only neighbour lies farther from the goal than the start.
    let nodes = vec![node(10, 0, 0, &[1]), node(0, 0, 0, &[0]), node(50, 0, 0, &[])];
    let mut ctx = AStarContext::new(&nodes);
    assert_eq!(ctx.solve_indices(nodes[0].pos, nodes[2].pos, unit), vec![1, 0]);
    let nodes = vec![node(0, 0, 0, &[1]), node(-1, 0, 0, &[0]), node(5, 0, 0, &[])];
    let mut ctx = AStarContext::new(&nodes);
    let path = ctx.solve(nodes[0].pos, nodes[2].pos, unit);
    assert_eq!(path, vec![nodes[1].pos, nodes[0].pos]);
}

#[test]
fn an_isolated_goal_is_approached_along_the_line() {
    let nodes = vec![
        node(0, 0, 0, &[1]),
        node(1, 0, 0, &[0, 2]),
        node(2, 0, 0, &[1]),
        node(9, 0, 0, &[]),
    ];
    let mut ctx = AStarContext::new(&nodes);
    let path = ctx.solve(Point3::new(0, 0, 0), Point3::new(9, 0, 0), unit);
    assert_eq!(path, vec![Point3::new(2, 0, 0), Point3::new(1, 0, 0), Point3::new(0, 0, 0)]);
}

#[test]
fn a_start_whose_only_edge_leads_to_itself_gives_an_empty_path() {
    let nodes = vec![node(0, 0, 0, &[0]), node(10, 0, 0, &[])];
    let mut ctx = AStarContext::new(&nodes);
    assert!(ctx.solve(nodes[0].pos, nodes[1].pos, unit).is_empty());
}

#[test]
fn a_used_context_finds_what_a_new_one_finds() {
    let nodes = vec![
        node(0, 0, 0, &[1, 5]),
        node(100, 0, 0, &[0, 2]),
        node(200, 0, 0, &[1, 3]),
        node(200, 300, 0, &[2, 4]),
        node(100, 300, 0, &[3, 5]),
        node(0, 300, 0, &[4, 0]),
        node(900, 900, 0, &[]),
    ];
    let mut used = AStarContext::new(&nodes);
    used.solve_indices(nodes[3].pos, nodes[0].pos, length_cost);
    used.solve_indices(nodes[1].pos, nodes[6].pos, length_cost);
    used.solve_indices(nodes[6].pos, nodes[2].pos, length_cost);
    for (from, to) in [(0usize, 4usize), (1, 3), (5, 1), (2, 2)] {
        let mut fresh = AStarContext::new(&nodes);
        assert_eq!(
            used.solve_indices(nodes[from].pos, nodes[to].pos, length_cost),
            fresh.solve_indices(nodes[from].pos, nodes[to].pos, length_cost)
        );
    }
}

#[test]
fn isolated_start_gives_an_empty_path() {
    let nodes = vec![node(0, 0, 0, &[]), node(10, 0, 0, &[])];
    let mut ctx = AStarContext::new(&nodes);
    let path = ctx.solve(nodes[0].pos, nodes[1].pos, unit);
    assert!(path.is_empty());
}

#[test]
fn context_can_be_used_again() {
    let nodes = square();
    let mut ctx = AStarContext::new(&nodes);
    let first = ctx.solve_indices(nodes[0].pos, nodes[1].pos, unit);
    let second = ctx.solve_indices(nodes[2].pos, nodes[3].pos, unit);
    let third = ctx.solve_indices(nodes[0].pos, nodes[1].pos, unit);
    assert_eq!(first, vec![1, 0]);
    assert_eq!(second, vec![3, 2]);
    assert_eq!(third, first);
}

#[test]
fn costs_near_the_largest_do_not_wrap() {
    let nodes = vec![node(0, 0, 0, &[1]), node(10, 0, 0, &[0, 2]), node(20, 0, 0, &[1])];
    let huge = |_a: &NavNode, _b: &NavNode| -> u64 { u64::MAX - 1 };
    let mut ctx = AStarContext::new(&nodes);
    let path = ctx.solve_indices(nodes[0].pos, nodes[2].pos, huge);
    // The second edge would take the cost to the largest value, which counts
    // as unreached: the search stops at the closest node it could reach.
    assert_eq!(path, vec![1, 0]);
}

#[test]
fn with_costs_no_lower_than_lengths_the_path_is_a_cheapest_one() {
    // A grid of five by five nodes, ten units apart, with a wall of costly
    // edges across the middle column except at the top row.
    let side: i32 = 5;
    let mut nodes = vec![];
    for y in 0..side {
        for x in 0..side {
            let mut neighbours = vec![];
            for (dx, dy) in [(-1, 0), (1, 0), (0, -1), (0, 1)] {
                let (nx, ny) = (x + dx, y + dy);
                if nx >= 0 && nx < side && ny >= 0 && ny < side {
                    neighbours.push(ny * side + nx);
                }
            }
            nodes.push(node(x * 10, y * 10, 0, &neighbours));
        }
    }
    let cost = |a: &NavNode, b: &NavNode| -> u64 {
        let crossing = (a.pos.x == 20 || b.pos.x == 20) && a.pos.y != 0 && b.pos.y != 0;
        if crossing {
            1000
        } else {
            10
        }
    };
    let mut ctx = AStarContext::new(&nodes);
    let from = nodes[(4 * side) as usize].pos;
    let to = nodes[(4 * side + 4) as usize].pos;
    let path = ctx.solve_indices(from, to, cost);
    let mut total: u64 = 0;
    for pair in path.windows(2) {
        total += cost(&nodes[pair[1] as usize], &nodes[pair[0] as usize]);
    }
    // Up the first column, along the top row and down the last column.
    assert_eq!(total, 120);
    assert_eq!(path.len(), 13);
    assert_eq!(path[0], 4 * side + 4);
    assert_eq!(*path.last().unwrap(), 4 * side);
}

#[test]
fn graphs_are_checked_for_neighbours_that_are_not_there() {
    assert!(graph_is_wf(&square()));
    assert!(graph_is_wf::<NavNode>(&[]));
    assert!(graph_is_wf(&[node(0, 0, 0, &[0])]));
    assert!(!graph_is_wf(&[node(0, 0, 0, &[1])]));
    assert!(!graph_is_wf(&[node(0, 0, 0, &[]), node(1, 0, 0, &[0, -1])]));
    assert!(!graph_is_wf(&[node(0, 0, 0, &[]), node(1, 0, 0, &[0, 2])]));
}

#[test]
fn length_cost_is_the_distance_rounded_up() {
    let a = node(0, 0, 0, &[]);
    assert_eq!(length_cost(&a, &a), 0);
    assert_eq!(length_cost(&a, &node(3, 4, 0, &[])), 5);
    assert_eq!(length_cost(&a, &node(1, 1, 0, &[])), 2);
    assert_eq!(length_cost(&a, &node(1, 1, 1, &[])), 2);
    assert_eq!(length_cost(&node(i32::MIN, i32::MIN, i32::MIN, &[]), &node(i32::MAX, i32::MAX, i32::MAX, &[])), 7439101572);
}

#[test]
fn with_lengths_as_costs_the_shorter_way_round_is_taken() {
    // A ring in which the way round one side is shorter than the other.
    let nodes = vec![
        node(0, 0, 0, &[1, 5]),
        node(100, 0, 0, &[0, 2]),
        node(200, 0, 0, &[1, 3]),
        node(200, 300, 0, &[2, 4]),
        node(100, 300, 0, &[3, 5]),
        node(0, 300, 0, &[4, 0]),
    ];
    let mut ctx = AStarContext::new(&nodes);
    assert_eq!(ctx.solve_indices(nodes[0].pos, nodes[4].pos, length_cost), vec![4, 5, 0]);
    assert_eq!(ctx.solve_indices(nodes[1].pos, nodes[4].pos, length_cost).len(), 4);
    assert_eq!(ctx.solve_indices(nodes[2].pos, nodes[5].pos, length_cost).len(), 4);
    assert_eq!(ctx.solve_indices(nodes[1].pos, nodes[3].pos, length_cost), vec![3, 2, 1]);
}
