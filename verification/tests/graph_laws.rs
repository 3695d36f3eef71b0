use cubefold::builder::convert_to_graph;
use cubefold::forest::single_mst;
use cubefold::graph::Graph;
use cubefold::grid::{Grid, Node};
use cubefold::reduce::{clean_graph, compress_graph, reduce_graph};

fn grid_of(rows: &[&str]) -> Grid<u8> {
    let width = rows[0].len();
    let height = rows.len();
    let mut cells: Vec<u8> = Vec::new();
    for r in rows {
        assert_eq!(r.len(), width);
        cells.extend_from_slice(r.as_bytes());
    }
    Grid { grid: cells, width, height }
}

fn n(x: usize, y: usize, g: usize) -> Node {
    Node { x, y, grid: g }
}

/// A face whose corridor runs from one outlet through a junction.
fn sample_grid() -> Grid<u8> {
    grid_of(&[
        "##.##",
        "##O##",
        "..O..",
        "##.##",
        "##.##",
    ])
}

fn degree_of(g: &Graph, node: Node) -> Option<usize> {
    for (k, es) in &g.entries {
        if *k == node {
            return Some(es.len());
        }
    }
    None
}

#[test]
fn builder_emits_outlets_and_exits() {
    let grid = sample_grid();
    let mut g = Graph::new();
    convert_to_graph(&grid, 0, &mut g);
    // both outlets and all four border exits are nodes
    assert!(degree_of(&g, n(2, 1, 0)).is_some());
    assert!(degree_of(&g, n(2, 2, 0)).is_some());
    assert!(degree_of(&g, n(2, 0, 0)).is_some());
    assert!(degree_of(&g, n(0, 2, 0)).is_some());
    assert!(degree_of(&g, n(4, 2, 0)).is_some());
    assert!(degree_of(&g, n(2, 4, 0)).is_some());
    // a wall cell never becomes a node
    assert!(degree_of(&g, n(0, 0, 0)).is_none());
}

#[test]
fn reduction_is_idempotent() {
    let grid = sample_grid();
    let grids = vec![sample_grid()];
    let mut once = Graph::new();
    convert_to_graph(&grid, 0, &mut once);
    let mut twice = Graph::new();
    convert_to_graph(&grid, 0, &mut twice);
    reduce_graph(&mut once, &grids);
    reduce_graph(&mut twice, &grids);
    reduce_graph(&mut twice, &grids);
    assert_eq!(once.entries, twice.entries);
}

#[test]
fn reduction_keeps_outlets() {
    let grid = sample_grid();
    let grids = vec![sample_grid()];
    let mut g = Graph::new();
    convert_to_graph(&grid, 0, &mut g);
    assert!(degree_of(&g, n(2, 1, 0)).is_some());
    assert!(degree_of(&g, n(2, 2, 0)).is_some());
    reduce_graph(&mut g, &grids);
    // the outlets survive every reduction pass
    assert!(degree_of(&g, n(2, 1, 0)).is_some());
    assert!(degree_of(&g, n(2, 2, 0)).is_some());
}

#[test]
fn compression_removes_degree_two_corridor_nodes() {
    // one long corridor between two outlets: the border exits at its ends
    // survive, the inner corridor cells were never nodes, and compression
    // is a no-op on the already contracted graph
    let grid = grid_of(&[
        "#####",
        "O...O",
        "#####",
    ]);
    let grids = vec![grid_of(&[
        "#####",
        "O...O",
        "#####",
    ])];
    let mut g = Graph::new();
    convert_to_graph(&grid, 0, &mut g);
    let before = g.entries.clone();
    compress_graph(&mut g, &grids);
    assert_eq!(g.entries, before);
}

#[test]
fn cleaning_prunes_dead_ends() {
    // a dead-end corridor hangs off the path between the two outlets
    let grid = grid_of(&[
        "#.###",
        "#.###",
        "O..#O",
        "####.",
        "####.",
    ]);
    let grids = vec![grid_of(&[
        "#.###",
        "#.###",
        "O..#O",
        "####.",
        "####.",
    ])];
    let mut g = Graph::new();
    convert_to_graph(&grid, 0, &mut g);
    // the dead end's border exit is a node before cleaning
    assert!(degree_of(&g, n(1, 0, 0)).is_some());
    clean_graph(&mut g, &grids);
    compress_graph(&mut g, &grids);
    assert!(degree_of(&g, n(1, 0, 0)).is_none());
    assert!(degree_of(&g, n(0, 2, 0)).is_some());
}

#[test]
fn spanning_forest_of_disconnected_graph_is_refused() {
    let mut g = Graph::new();
    g.add_edge(n(0, 0, 0), n(1, 0, 0), 3);
    g.add_edge(n(5, 5, 1), n(6, 5, 1), 4);
    assert_eq!(single_mst(&g), None);
}

#[test]
fn spanning_weight_of_path_is_edge_sum() {
    // a simple path of edges with weights 2, 3, 4, 7 spans with weight 16,
    // and the final answer formula for a six-face cube subtracts twelve
    let mut g = Graph::new();
    g.add_edge(n(0, 0, 0), n(1, 0, 0), 2);
    g.add_edge(n(1, 0, 0), n(2, 0, 0), 3);
    g.add_edge(n(2, 0, 0), n(3, 0, 0), 4);
    g.add_edge(n(3, 0, 0), n(4, 0, 0), 7);
    let weight = single_mst(&g).unwrap();
    assert_eq!(weight, 16);
    assert_eq!((weight + 1) - 12, 5);
}

#[test]
fn spanning_tree_ignores_heavier_parallel_edges() {
    let mut g = Graph::new();
    g.add_edge(n(0, 0, 0), n(1, 0, 0), 9);
    g.add_edge(n(0, 0, 0), n(1, 0, 0), 2);
    g.add_edge(n(1, 0, 0), n(2, 0, 0), 5);
    assert_eq!(single_mst(&g), Some(7));
}

#[test]
fn spanning_tree_of_empty_graph_is_trivial() {
    let g = Graph::new();
    assert_eq!(single_mst(&g), Some(0));
}
