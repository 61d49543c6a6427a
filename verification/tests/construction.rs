use lfw_solver::game::Game;
use lfw_solver::game::GameData;
use lfw_solver::game::GameField;
use lfw_solver::game::Error as GameError;
use lfw_solver::game::GameFields;
use lfw_solver::graph::Error as GraphError;
use lfw_solver::graph::Graph;
use lfw_solver::graph::GraphData;
use lfw_solver::graph::LocationEntry;
use lfw_solver::graph::LocationRecord;
use lfw_solver::graph::MAX_INDEX;
use lfw_solver::night::Error as NightError;
use lfw_solver::night::Location;
use lfw_solver::night::MoveType;
use lfw_solver::night::Night;
use lfw_solver::night::NightData;
use lfw_solver::night::NightFields;

/// A full set of entries where the given undirected regular edges (and
/// alleyway edges) are listed on both endpoints.
fn entries_with_edges(regular: &[(u32, u32)], alleyway: &[(u32, u32)]) -> Vec<LocationEntry> {
    let mut reg: Vec<Vec<u32>> = (0..MAX_INDEX).map(|_| Vec::new()).collect();
    let mut alley: Vec<Vec<u32>> = (0..MAX_INDEX).map(|_| Vec::new()).collect();
    for &(a, b) in regular {
        reg[(a - 1) as usize].push(b);
        reg[(b - 1) as usize].push(a);
    }
    for &(a, b) in alleyway {
        alley[(a - 1) as usize].push(b);
        alley[(b - 1) as usize].push(a);
    }
    (0..MAX_INDEX)
        .map(|i| {
            LocationEntry::Record(LocationRecord {
                regular_moves: Some(reg[i].clone()),
                alleyway_moves: Some(alley[i].clone()),
            })
        })
        .collect()
}

fn night_data(
    murder: u32,
    moves: u32,
    known: Vec<u32>,
    alleys: Vec<u32>,
    failed: Vec<Vec<usize>>,
) -> NightData {
    NightData::Valid(NightFields {
        murder_location: murder,
        jack_nb_moves: moves,
        jack_known_locations: known,
        jack_alleyways: alleys,
        failed_clues_per_turn: failed,
    })
}

#[test]
fn graph_builds_from_full_document() {
    let entries = entries_with_edges(&[(1, 2), (2, 3)], &[(1, 3)]);
    let graph = Graph::from_json(GraphData::Object(entries)).unwrap();
    assert_eq!(graph.connections_for_location(&1).unwrap(), &vec![2u32]);
    assert_eq!(graph.connections_for_location(&2).unwrap(), &vec![1u32, 3u32]);
    assert_eq!(graph.alleyway_connections_for_location(&1).unwrap(), &vec![3u32]);
    assert_eq!(graph.connections_for_location(&100).unwrap(), &Vec::<u32>::new());
}

#[test]
fn graph_rejects_non_object() {
    let r = Graph::from_json(GraphData::NotAnObject);
    assert_eq!(r.unwrap_err(), GraphError::GraphNotAnObject);
}

#[test]
fn graph_missing_entry_names_the_index() {
    let mut entries = entries_with_edges(&[], &[]);
    entries[4] = LocationEntry::Missing;
    let r = Graph::from_json(GraphData::Object(entries));
    assert_eq!(r.unwrap_err(), GraphError::LocationNotFound(5));
}

#[test]
fn graph_truncated_document_is_missing_entries() {
    let mut entries = entries_with_edges(&[], &[]);
    entries.truncate(10);
    let r = Graph::from_json(GraphData::Object(entries));
    assert_eq!(r.unwrap_err(), GraphError::LocationNotFound(11));
}

#[test]
fn graph_unparsable_entry_names_the_index() {
    let mut entries = entries_with_edges(&[], &[]);
    entries[6] = LocationEntry::Unparsable;
    let r = Graph::from_json(GraphData::Object(entries));
    assert_eq!(r.unwrap_err(), GraphError::LocationNotParsable(7));
}

#[test]
fn graph_missing_move_key_is_reported() {
    let mut entries = entries_with_edges(&[], &[]);
    entries[0] = LocationEntry::Record(LocationRecord {
        regular_moves: Some(Vec::new()),
        alleyway_moves: None,
    });
    let r = Graph::from_json(GraphData::Object(entries));
    assert_eq!(r.unwrap_err(), GraphError::MissingKey("alleyway_moves".to_string()));
}

#[test]
fn graph_out_of_range_neighbour_is_reported() {
    let mut entries = entries_with_edges(&[], &[]);
    entries[2] = LocationEntry::Record(LocationRecord {
        regular_moves: Some(vec![196]),
        alleyway_moves: Some(Vec::new()),
    });
    let r = Graph::from_json(GraphData::Object(entries));
    assert_eq!(r.unwrap_err(), GraphError::InvalidLocationValue(196));
}

#[test]
fn graph_zero_neighbour_is_reported() {
    let mut entries = entries_with_edges(&[], &[]);
    entries[2] = LocationEntry::Record(LocationRecord {
        regular_moves: Some(Vec::new()),
        alleyway_moves: Some(vec![0]),
    });
    let r = Graph::from_json(GraphData::Object(entries));
    assert_eq!(r.unwrap_err(), GraphError::InvalidLocationValue(0));
}

#[test]
fn graph_invalid_location_lookups_return_none() {
    let entries = entries_with_edges(&[], &[]);
    let graph = Graph::from_json(GraphData::Object(entries)).unwrap();
    assert!(graph.connections_for_location(&0).is_none());
    assert!(graph.connections_for_location(&196).is_none());
    assert!(graph.alleyway_connections_for_location(&0).is_none());
    assert!(graph.all_connections_for_location(&196).is_none());
}

#[test]
fn all_connections_deduplicates_both_classes() {
    let mut entries = entries_with_edges(&[], &[]);
    entries[0] = LocationEntry::Record(LocationRecord {
        regular_moves: Some(vec![2, 3, 3]),
        alleyway_moves: Some(vec![3, 4]),
    });
    let graph = Graph::from_json(GraphData::Object(entries)).unwrap();
    let mut all = graph.all_connections_for_location(&1).unwrap();
    all.sort();
    assert_eq!(all, vec![2, 3, 4]);
}

#[test]
fn night_builds_and_keeps_fields() {
    let data = night_data(10, 4, vec![7, 9], vec![1, 3], vec![vec![5], vec![], vec![5, 6]]);
    let night = Night::from_json(data).unwrap();
    assert_eq!(*night.murder_location(), 10);
    assert_eq!(*night.jack_nb_moves(), 4);
    assert_eq!(night.jack_known_locations(), &vec![7, 9]);
    assert_eq!(night.jack_alleyways(), &vec![1, 3]);
}

#[test]
fn night_invalid_document_is_rejected() {
    let r = Night::from_json(NightData::Invalid);
    assert_eq!(r.unwrap_err(), NightError::InvalidJSONValue);
}

#[test]
fn night_out_of_range_start_is_rejected() {
    let r = Night::from_json(night_data(0, 2, vec![], vec![], vec![]));
    assert_eq!(r.unwrap_err(), NightError::InvalidLocationValue(0));
    let r2 = Night::from_json(night_data(196, 2, vec![], vec![], vec![]));
    assert_eq!(r2.unwrap_err(), NightError::InvalidLocationValue(196));
}

#[test]
fn night_out_of_range_clue_is_rejected() {
    let r = Night::from_json(night_data(1, 2, vec![], vec![], vec![vec![196]]));
    assert_eq!(r.unwrap_err(), NightError::InvalidLocationValue(196));
}

#[test]
fn night_out_of_range_known_location_is_rejected() {
    let r = Night::from_json(night_data(1, 2, vec![200], vec![], vec![]));
    assert_eq!(r.unwrap_err(), NightError::InvalidLocationValue(200));
}

#[test]
fn clue_then_known_becomes_visited_after() {
    // Negative-clue precedence: a location confirmed absent through turn 1
    // and later marked known-visited carries the temporal bound.
    let data = night_data(1, 2, vec![2], vec![], vec![vec![2], vec![]]);
    let night = Night::from_json(data).unwrap();
    assert_eq!(*night.jack_visit_status_for_location(&2), Location::VisitedAfter(1));
}

#[test]
fn later_clue_overwrites_earlier_one() {
    let data = night_data(1, 3, vec![], vec![], vec![vec![5], vec![], vec![5]]);
    let night = Night::from_json(data).unwrap();
    assert_eq!(*night.jack_visit_status_for_location(&5), Location::NeverVisitedAsOf(3));
}

#[test]
fn known_without_clue_is_visited_and_rest_unknown() {
    let data = night_data(1, 2, vec![9], vec![], vec![vec![], vec![]]);
    let night = Night::from_json(data).unwrap();
    assert_eq!(*night.jack_visit_status_for_location(&9), Location::Visited);
    assert_eq!(*night.jack_visit_status_for_location(&8), Location::Unknown);
}

#[test]
fn clue_without_known_is_never_visited_as_of() {
    let data = night_data(1, 2, vec![], vec![], vec![vec![], vec![4]]);
    let night = Night::from_json(data).unwrap();
    assert_eq!(*night.jack_visit_status_for_location(&4), Location::NeverVisitedAsOf(2));
}

#[test]
fn move_type_uses_zero_based_alleyway_offsets() {
    let data = night_data(1, 3, vec![], vec![1], vec![]);
    let night = Night::from_json(data).unwrap();
    assert_eq!(night.jack_move_type_for_turn(&1), MoveType::Regular);
    assert_eq!(night.jack_move_type_for_turn(&2), MoveType::Alleyway);
    assert_eq!(night.jack_move_type_for_turn(&3), MoveType::Regular);
}

fn full_game_fields() -> GameFields {
    GameFields {
        murder_location: GameField::Value(3),
        jack_known_locations: GameField::Value(vec![2]),
        jack_nb_moves: GameField::Value(5),
        jack_alleyways: GameField::Value(vec![0]),
        failed_clues_per_turn: GameField::Value(vec![vec![2]]),
    }
}

#[test]
fn game_builds_and_keeps_fields() {
    let game = Game::from_json(GameData::Object(full_game_fields())).unwrap();
    assert_eq!(*game.murder_location(), 3);
    assert_eq!(*game.jack_nb_moves(), 5);
    assert_eq!(game.jack_known_locations(), &vec![2]);
    assert_eq!(game.jack_alleyways(), &vec![0]);
    assert_eq!(*game.jack_visit_status_for_location(&2), Location::VisitedAfter(1));
    assert_eq!(*game.jack_visit_status_for_location(&1), Location::Unknown);
}

#[test]
fn game_rejects_non_object() {
    let r = Game::from_json(GameData::NotAnObject);
    assert_eq!(r.unwrap_err(), GameError::GameDataNotAnObject);
}

#[test]
fn game_missing_field_is_named() {
    let mut fields = full_game_fields();
    fields.jack_nb_moves = GameField::Missing;
    let r = Game::from_json(GameData::Object(fields));
    assert_eq!(r.unwrap_err(), GameError::MissingKey("jack_nb_moves".to_string()));
}

#[test]
fn game_invalid_field_is_named() {
    let mut fields = full_game_fields();
    fields.jack_known_locations = GameField::Invalid;
    let r = Game::from_json(GameData::Object(fields));
    assert_eq!(r.unwrap_err(), GameError::InvalidValueForKey("jack_known_locations".to_string()));
}

#[test]
fn game_fields_checked_in_order() {
    let mut fields = full_game_fields();
    fields.murder_location = GameField::Missing;
    fields.jack_alleyways = GameField::Invalid;
    let r = Game::from_json(GameData::Object(fields));
    assert_eq!(r.unwrap_err(), GameError::MissingKey("murder_location".to_string()));
}

#[test]
fn game_out_of_range_location_is_rejected() {
    let mut fields = full_game_fields();
    fields.failed_clues_per_turn = GameField::Value(vec![vec![500]]);
    let r = Game::from_json(GameData::Object(fields));
    assert_eq!(r.unwrap_err(), GameError::InvalidLocationValue(500));
}
