use lfw_solver::graph::Graph;
use lfw_solver::graph::GraphData;
use lfw_solver::graph::LocationEntry;
use lfw_solver::graph::LocationRecord;
use lfw_solver::graph::MAX_INDEX;
use lfw_solver::night::Night;
use lfw_solver::night::NightData;
use lfw_solver::night::NightFields;
use lfw_solver::solver::Solver;
use lfw_solver::solver::UNREACHABLE;

/// A full set of entries where the given undirected edges are listed on
/// both endpoints, per class.
fn graph_with_edges(regular: &[(u32, u32)], alleyway: &[(u32, u32)]) -> Graph {
    let mut reg: Vec<Vec<u32>> = (0..MAX_INDEX).map(|_| Vec::new()).collect();
    let mut alley: Vec<Vec<u32>> = (0..MAX_INDEX).map(|_| Vec::new()).collect();
    for &(a, b) in regular {
        reg[(a - 1) as usize].push(b);
        reg[(b - 1) as usize].push(a);
    }
    for &(a, b) in alleyway {
        alley[(a - 1) as usize].push(b);
        alley[(b - 1) as usize].push(a);
    }
    let entries: Vec<LocationEntry> = (0..MAX_INDEX)
        .map(|i| {
            LocationEntry::Record(LocationRecord {
                regular_moves: Some(reg[i].clone()),
                alleyway_moves: Some(alley[i].clone()),
            })
        })
        .collect();
    Graph::from_json(GraphData::Object(entries)).unwrap()
}

fn night(
    murder: u32,
    moves: u32,
    known: Vec<u32>,
    alleys: Vec<u32>,
    failed: Vec<Vec<usize>>,
) -> Night {
    Night::from_json(NightData::Valid(NightFields {
        murder_location: murder,
        jack_nb_moves: moves,
        jack_known_locations: known,
        jack_alleyways: alleys,
        failed_clues_per_turn: failed,
    }))
    .unwrap()
}

fn sorted(paths: Vec<Vec<u32>>) -> Vec<Vec<u32>> {
    let mut out = paths;
    out.sort();
    out.dedup();
    out
}

#[test]
fn distance_table_diagonal_symmetry_and_triangle() {
    let graph = graph_with_edges(&[(1, 2), (2, 3), (3, 4)], &[]);
    let dist = Solver::precompute_shortest_distances(&graph);
    for n in 0..MAX_INDEX {
        assert_eq!(dist[n][n], 0);
    }
    for i in 0..MAX_INDEX {
        for j in 0..MAX_INDEX {
            assert_eq!(dist[i][j], dist[j][i]);
        }
    }
    for &i in &[0usize, 1, 2, 3, 10] {
        for &j in &[0usize, 1, 2, 3, 10] {
            for &k in &[0usize, 1, 2, 3, 10] {
                assert!(dist[i][j] <= dist[i][k] + dist[k][j]);
            }
        }
    }
}

#[test]
fn distance_table_measures_chain_and_sentinel() {
    let graph = graph_with_edges(&[(1, 2), (2, 3), (3, 4)], &[(4, 6)]);
    let dist = Solver::precompute_shortest_distances(&graph);
    assert_eq!(dist[0][1], 1);
    assert_eq!(dist[0][2], 2);
    assert_eq!(dist[0][3], 3);
    // Alleyway edges count for distances too.
    assert_eq!(dist[0][5], 4);
    // Unreachable pairs hold the sentinel.
    assert_eq!(dist[0][9], UNREACHABLE);
}

#[test]
fn chain_night_has_exactly_one_path() {
    // Four locations in a row, three moves, location 4 known visited.
    let graph = graph_with_edges(&[(1, 2), (2, 3), (3, 4)], &[]);
    let solver = Solver::from_graph(graph);
    let n = night(1, 3, vec![4], vec![], vec![vec![], vec![], vec![]]);
    let paths = solver.solve_night(n).unwrap();
    assert_eq!(sorted(paths), vec![vec![1, 2, 3, 4]]);
}

#[test]
fn unreachable_known_location_means_no_solution() {
    // Same row, one move: location 4 cannot be reached in time.
    let graph = graph_with_edges(&[(1, 2), (2, 3), (3, 4)], &[]);
    let solver = Solver::from_graph(graph);
    let n = night(1, 1, vec![4], vec![], vec![vec![], vec![]]);
    assert!(solver.solve_night(n).is_none());
}

#[test]
fn negative_clue_delays_the_visit() {
    // Location 2 confirmed absent through turn 1 but known visited: the
    // agent may stand there only after turn 1.
    let graph = graph_with_edges(&[(1, 2), (1, 3), (3, 2)], &[]);
    let solver = Solver::from_graph(graph);
    let n = night(1, 2, vec![2], vec![], vec![vec![2], vec![]]);
    let paths = solver.solve_night(n).unwrap();
    assert_eq!(sorted(paths), vec![vec![1, 3, 2]]);
}

#[test]
fn alleyway_turns_use_the_other_edge_class() {
    let graph = graph_with_edges(&[(1, 2)], &[(1, 3)]);
    let solver = Solver::from_graph(graph);
    let regular_night = night(1, 1, vec![], vec![], vec![vec![]]);
    let paths = solver.solve_night(regular_night).unwrap();
    assert_eq!(sorted(paths), vec![vec![1, 2]]);
    let alley_night = night(1, 1, vec![], vec![0], vec![vec![]]);
    let alley_paths = solver.solve_night(alley_night).unwrap();
    assert_eq!(sorted(alley_paths), vec![vec![1, 3]]);
}

#[test]
fn all_branches_enumerated_without_known_locations() {
    let graph = graph_with_edges(&[(1, 2), (1, 3), (2, 4), (3, 4)], &[]);
    let solver = Solver::from_graph(graph);
    let n = night(1, 2, vec![], vec![], vec![vec![], vec![]]);
    let paths = solver.solve_night(n).unwrap();
    assert_eq!(sorted(paths), vec![vec![1, 2, 1], vec![1, 2, 4], vec![1, 3, 1], vec![1, 3, 4]]);
}

#[test]
fn start_location_counts_as_visited() {
    // The known list naming the start is already satisfied by standing
    // there on turn zero.
    let graph = graph_with_edges(&[(1, 2)], &[]);
    let solver = Solver::from_graph(graph);
    let n = night(1, 1, vec![1], vec![], vec![vec![]]);
    let paths = solver.solve_night(n).unwrap();
    assert_eq!(sorted(paths), vec![vec![1, 2]]);
}

#[test]
fn never_visited_clue_blocks_early_turns_only() {
    // Location 2 confirmed absent through turn 1: the agent cannot be
    // there on turn 1, but may pass later.
    let graph = graph_with_edges(&[(1, 2), (1, 3), (3, 2)], &[]);
    let solver = Solver::from_graph(graph);
    let n = night(1, 2, vec![], vec![], vec![vec![2], vec![]]);
    let paths = solver.solve_night(n).unwrap();
    assert_eq!(sorted(paths), vec![vec![1, 3, 1], vec![1, 3, 2]]);
}

#[test]
fn both_strategies_return_the_same_solution_sets() {
    let cases: Vec<(u32, u32, Vec<u32>, Vec<u32>, Vec<Vec<usize>>)> = vec![
        (1, 3, vec![4], vec![], vec![vec![], vec![], vec![]]),
        (1, 3, vec![4], vec![1], vec![vec![], vec![], vec![]]),
        (1, 2, vec![], vec![], vec![vec![3], vec![]]),
        (1, 1, vec![4], vec![], vec![vec![], vec![]]),
        (2, 3, vec![1, 4], vec![], vec![vec![], vec![], vec![]]),
        (2, 2, vec![3], vec![], vec![vec![4], vec![3]]),
    ];
    let solver = Solver::from_graph(graph_with_edges(&[(1, 2), (2, 3), (3, 4), (1, 3)], &[(2, 4)]));
    for (murder, moves, known, alleys, failed) in cases {
        let fast_night = night(murder, moves, known.clone(), alleys.clone(), failed.clone());
        let slow_night = night(murder, moves, known, alleys, failed);
        let fast = solver.solve_night(fast_night);
        let slow = solver.solve_night_non_recurs_slow(slow_night);
        match (fast, slow) {
            (None, None) => {}
            (Some(a), Some(b)) => assert_eq!(sorted(a), sorted(b)),
            (a, b) => panic!("strategies disagree: {:?} vs {:?}", a, b),
        }
    }
}

#[test]
fn slow_strategy_finds_the_chain_path() {
    let graph = graph_with_edges(&[(1, 2), (2, 3), (3, 4)], &[]);
    let solver = Solver::from_graph(graph);
    let n = night(1, 3, vec![4], vec![], vec![vec![], vec![], vec![]]);
    let paths = solver.solve_night_non_recurs_slow(n).unwrap();
    assert_eq!(sorted(paths), vec![vec![1, 2, 3, 4]]);
    let short = night(1, 1, vec![4], vec![], vec![vec![], vec![]]);
    assert!(solver.solve_night_non_recurs_slow(short).is_none());
}

#[test]
fn dead_end_start_has_no_paths() {
    let graph = graph_with_edges(&[(2, 3)], &[]);
    let solver = Solver::from_graph(graph);
    let n = night(1, 1, vec![], vec![], vec![vec![]]);
    assert!(solver.solve_night(n).is_none());
}

#[test]
fn duplicate_and_start_known_locations_are_handled() {
    let graph = graph_with_edges(&[(1, 2), (2, 3), (3, 4)], &[]);
    let solver = Solver::from_graph(graph);
    let n = night(1, 3, vec![4, 4, 1], vec![], vec![vec![], vec![], vec![]]);
    let paths = solver.solve_night(n).unwrap();
    assert_eq!(sorted(paths), vec![vec![1, 2, 3, 4]]);
}

#[test]
fn clue_on_the_final_turn_blocks_that_position() {
    // Location 4 confirmed absent through turn 3: no three-move path may
    // end there.
    let graph = graph_with_edges(&[(1, 2), (2, 3), (3, 4)], &[]);
    let solver = Solver::from_graph(graph);
    let n = night(1, 3, vec![], vec![], vec![vec![], vec![], vec![4]]);
    let paths = solver.solve_night(n).unwrap();
    assert_eq!(sorted(paths), vec![vec![1, 2, 1, 2], vec![1, 2, 3, 2]]);
}
