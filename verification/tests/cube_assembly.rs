use cubefold::assemble::{get_connections, get_cube_configurations};
use cubefold::builder::convert_to_graph;
use cubefold::cube::{Direction, Side, Signature};
use cubefold::graph::Graph;
use cubefold::grid::{Grid, Node};
use cubefold::reduce::compress_graph;
use cubefold::solve::{solve, solve_part1, SolveError};

fn grid_of(rows: &[&str]) -> Grid<u8> {
    let width = rows[0].len();
    let height = rows.len();
    let mut cells: Vec<u8> = Vec::new();
    for r in rows {
        assert_eq!(r.len(), width);
        cells.extend_from_slice(r.as_bytes());
    }
    Grid { grid: cells, width, height }
}

fn n(x: usize, y: usize, g: usize) -> Node {
    Node { x, y, grid: g }
}

/// The hub face: a cross of corridors with outlets at the center, and a
/// border exit in the middle of every edge.
fn hub_face() -> Vec<&'static str> {
    vec![
        "##.##",
        "##O##",
        "..O..",
        "##.##",
        "##.##",
    ]
}

/// The trunk face: a corridor from the top edge to the bottom edge.
fn trunk_face() -> Vec<&'static str> {
    vec![
        "##.##",
        "##O##",
        "##O##",
        "##.##",
        "##.##",
    ]
}

/// A stub face: one exit in the middle of the left edge, two outlets.
fn stub_face() -> Vec<&'static str> {
    vec![
        "#####",
        "#####",
        ".OO##",
        "#####",
        "#####",
    ]
}

fn cube_grids() -> Vec<Grid<u8>> {
    vec![
        grid_of(&hub_face()),
        grid_of(&trunk_face()),
        grid_of(&stub_face()),
        grid_of(&stub_face()),
        grid_of(&stub_face()),
        grid_of(&stub_face()),
    ]
}

#[test]
fn signature_sorts_by_edge_position() {
    // three nodes on the top edge, given out of order
    let nodes = vec![n(3, 0, 0), n(0, 0, 0), n(2, 0, 0)];
    let sig = Signature::new(nodes, 5, 5, Direction::Top);
    assert_eq!(sig.signature, vec![0, 2, 3]);
    assert_eq!(sig.nodes, vec![n(0, 0, 0), n(2, 0, 0), n(3, 0, 0)]);
    assert_eq!(sig.width, 5);
}

#[test]
fn signature_left_edge_reverses_direction() {
    // positions along the left edge run from the bottom up
    let nodes = vec![n(0, 1, 0), n(0, 3, 0)];
    let sig = Signature::new(nodes, 5, 5, Direction::Left);
    assert_eq!(sig.signature, vec![1, 3]);
    assert_eq!(sig.nodes, vec![n(0, 3, 0), n(0, 1, 0)]);
}

#[test]
fn matching_pairs_mirrored_positions() {
    let a = Signature::new(vec![n(0, 0, 0), n(2, 0, 0)], 5, 5, Direction::Top);
    let b = Signature::new(vec![n(2, 0, 1), n(4, 0, 1)], 5, 5, Direction::Top);
    // positions 0 and 2 of `a` against mirrored positions 0 and 2 of `b`:
    // 2 + 2 == 4 and 0 + 4 == 4 coincide
    let pairs = a.get_matches(&b).unwrap();
    assert_eq!(pairs, vec![(n(0, 0, 0), n(4, 0, 1)), (n(2, 0, 0), n(2, 0, 1))]);
}

#[test]
fn matching_is_symmetric() {
    let a = Signature::new(vec![n(0, 0, 0), n(2, 0, 0)], 5, 5, Direction::Top);
    let b = Signature::new(vec![n(2, 0, 1), n(4, 0, 1)], 5, 5, Direction::Top);
    let ab = a.get_matches(&b).unwrap();
    let ba = b.get_matches(&a).unwrap();
    for (x, y) in &ab {
        assert!(ba.contains(&(*y, *x)));
    }
    for (x, y) in &ba {
        assert!(ab.contains(&(*y, *x)));
    }
}

#[test]
fn matching_rejects_disjoint_positions() {
    let a = Signature::new(vec![n(0, 0, 0)], 5, 5, Direction::Top);
    let b = Signature::new(vec![n(2, 0, 1)], 5, 5, Direction::Top);
    // 0 + 2 != 4: no position coincides
    assert!(a.get_matches(&b).is_none());
}

#[test]
fn matching_rejects_empty_signatures() {
    let a = Signature::new(vec![], 5, 5, Direction::Top);
    let b = Signature::new(vec![n(2, 0, 1)], 5, 5, Direction::Top);
    assert!(a.get_matches(&b).is_none());
    assert!(b.get_matches(&a).is_none());
}

fn side_of_face(rows: &[&str], gi: usize) -> Side {
    let grid = grid_of(rows);
    let mut g = Graph::new();
    convert_to_graph(&grid, gi, &mut g);
    Side::new(&g, grid.width, grid.height)
}

#[test]
fn rotation_round_trip_returns_original() {
    let side = side_of_face(&hub_face(), 0);
    let turned = side.to_rotated(Direction::Top, Direction::Right);
    let back = turned.to_rotated(Direction::Right, Direction::Top);
    assert_eq!(back, side);
    let turned2 = side.to_rotated(Direction::Left, Direction::Bottom);
    let back2 = turned2.to_rotated(Direction::Bottom, Direction::Left);
    assert_eq!(back2, side);
}

#[test]
fn rotation_moves_signatures() {
    let side = side_of_face(&trunk_face(), 0);
    // the trunk's top-edge signature lands on the right edge
    let turned = side.to_rotated(Direction::Top, Direction::Right);
    assert_eq!(turned.get_signature(Direction::Right), side.get_signature(Direction::Top));
}

#[test]
fn neighbor_table_is_reciprocal() {
    for s in 0..6usize {
        for (d, q, dq) in Side::get_neighbors(s) {
            let back = Side::get_neighbors(q);
            assert!(back.contains(&(dq, s, d)));
        }
    }
}

#[test]
fn assembler_finds_a_folding() {
    let grids = cube_grids();
    let mut sides: Vec<Side> = Vec::new();
    let mut graphs: Vec<Graph> = Vec::new();
    for (gi, grid) in grids.iter().enumerate() {
        let mut g = Graph::new();
        convert_to_graph(grid, gi, &mut g);
        compress_graph(&mut g, &grids);
        sides.push(Side::new(&g, grid.width, grid.height));
        graphs.push(g);
    }
    let configs = get_cube_configurations(&sides);
    // the four identical stub faces are all tried and placed: without all
    // six faces assigned no configuration is returned at all
    assert!(configs.len() >= 1);
    for config in &configs {
        assert_eq!(config.len(), 6);
        let conns = get_connections(config);
        // the designed folding aligns five pairs of edges, and every
        // pairing is reported in both directions
        assert_eq!(conns.len(), 10);
    }
}

#[test]
fn part_one_multiplies_outlet_distances() {
    let grids = cube_grids();
    // every face's two outlets lie one step apart
    assert_eq!(solve_part1(&grids), Ok(1));
}

#[test]
fn part_one_uses_each_face_distance() {
    // a face whose graph reduces to a single edge of weight two between
    // its two outlets contributes exactly two
    let mut grids = cube_grids();
    grids[2] = grid_of(&[
        "#####",
        "#####",
        ".O.O#",
        "#####",
        "#####",
    ]);
    assert_eq!(solve_part1(&grids), Ok(2));
}

#[test]
fn solve_rejects_wrong_face_count() {
    let grids = vec![grid_of(&hub_face())];
    assert_eq!(solve(&grids), Err(SolveError::MalformedInput));
}

#[test]
fn solve_rejects_unknown_symbols() {
    let mut grids = cube_grids();
    grids[0] = grid_of(&[
        "##x##",
        "##O##",
        "..O..",
        "##.##",
        "##.##",
    ]);
    assert_eq!(solve(&grids), Err(SolveError::MalformedInput));
}

#[test]
fn solve_rejects_missing_outlets() {
    let mut grids = cube_grids();
    grids[1] = grid_of(&[
        "##.##",
        "##.##",
        "##.##",
        "##.##",
        "##.##",
    ]);
    assert_eq!(solve(&grids), Err(SolveError::NoOutletFound));
}

#[test]
fn solve_reports_impossible_foldings() {
    // no face has a boundary node on any edge beside the stubs' exits, so
    // nothing can ever match the hub at the start position
    let grids = vec![
        grid_of(&stub_face()),
        grid_of(&stub_face()),
        grid_of(&stub_face()),
        grid_of(&stub_face()),
        grid_of(&stub_face()),
        grid_of(&stub_face()),
    ];
    assert_eq!(solve(&grids), Err(SolveError::NoValidAssembly));
}

#[test]
fn solve_full_cube() {
    let grids = cube_grids();
    let (part1, part2) = solve(&grids).unwrap();
    assert_eq!(part1, 1);
    // the merged graph is a tree of total weight 25: the hub's corridors
    // (8), the trunk (4), four stubs (2 each) and five fold edges; the
    // final answer is (25 + 1) - 12
    assert_eq!(part2, 14);
}

#[test]
fn solve_reports_ambiguous_spanning_forest() {
    // one stub carries an extra outlet pair that nothing connects to: every
    // assembly's merged graph keeps two components, so no assembly yields a
    // single spanning tree
    let mut grids = cube_grids();
    grids[5] = grid_of(&[
        "###OO",
        "#####",
        ".OO##",
        "#####",
        "#####",
    ]);
    assert_eq!(solve(&grids), Err(SolveError::AmbiguousSpanningForest));
}
