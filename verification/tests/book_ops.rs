use opening_book::index::OpeningBook;
use opening_book::types::{AddEntryRequest, BookError, MoveData, OpeningBookEntry};

fn request(
    fen: &str,
    uci_move: &str,
    priority: i64,
    wins: u64,
    draws: u64,
    losses: u64,
    allowed: bool,
    comment: &str,
) -> AddEntryRequest {
    AddEntryRequest {
        fen: fen.to_string(),
        uci_move: uci_move.to_string(),
        priority,
        wins,
        draws,
        losses,
        allowed,
        comment: comment.to_string(),
    }
}

fn record(
    uci_move: &str,
    priority: i64,
    wins: u64,
    draws: u64,
    losses: u64,
    allowed: bool,
    comment: &str,
) -> MoveData {
    MoveData {
        uci_move: uci_move.to_string(),
        priority,
        wins,
        draws,
        losses,
        allowed,
        comment: comment.to_string(),
    }
}

#[test]
fn add_then_query_returns_the_record() {
    let mut book = OpeningBook::new();
    let added = book
        .add_entry(&request("startpos", "e2e4", 10, 5, 2, 1, true, "main line"))
        .unwrap();
    assert!(added);
    let moves = book.query_moves("startpos");
    assert_eq!(moves, vec![record("e2e4", 10, 5, 2, 1, true, "main line")]);
}

#[test]
fn re_adding_overwrites_all_fields() {
    let mut book = OpeningBook::new();
    assert!(book
        .add_entry(&request("startpos", "e2e4", 10, 5, 2, 1, true, "main line"))
        .unwrap());
    let second = book
        .add_entry(&request("startpos", "e2e4", 20, 9, 8, 7, false, "revised"))
        .unwrap();
    assert!(!second);
    let moves = book.query_moves("startpos");
    assert_eq!(moves, vec![record("e2e4", 20, 9, 8, 7, false, "revised")]);
}

#[test]
fn adding_twice_with_identical_fields_changes_nothing() {
    let mut book = OpeningBook::new();
    let req = request("startpos", "e2e4", 10, 5, 2, 1, true, "main line");
    assert!(book.add_entry(&req).unwrap());
    let before = book.export_all();
    assert!(!book.add_entry(&req).unwrap());
    assert_eq!(book.export_all(), before);
}

#[test]
fn delete_then_query_and_stats() {
    let mut book = OpeningBook::new();
    book.add_entry(&request("startpos", "e2e4", 10, 5, 2, 1, true, ""))
        .unwrap();
    let positions_before = book.get_stats().total_positions;
    assert!(book.delete_entry("startpos", "e2e4"));
    assert!(book.query_moves("startpos").is_empty());
    assert_eq!(book.get_stats().total_positions, positions_before - 1);
}

#[test]
fn deleting_an_absent_pair_returns_false_and_changes_nothing() {
    let mut book = OpeningBook::new();
    book.add_entry(&request("startpos", "e2e4", 10, 0, 0, 0, true, ""))
        .unwrap();
    let before = book.export_all();
    assert!(!book.delete_entry("startpos", "g1f3"));
    assert!(!book.delete_entry("otherpos", "e2e4"));
    assert_eq!(book.export_all(), before);
}

#[test]
fn validation_rejects_empty_identity_fields() {
    let mut book = OpeningBook::new();
    assert_eq!(
        book.add_entry(&request("", "e2e4", 1, 0, 0, 0, true, "")),
        Err(BookError::ValidationError)
    );
    assert_eq!(
        book.add_entry(&request("startpos", "", 1, 0, 0, 0, true, "")),
        Err(BookError::ValidationError)
    );
    assert!(book.query_moves("startpos").is_empty());
}

#[test]
fn moves_are_ordered_by_priority_then_insertion() {
    let mut book = OpeningBook::new();
    book.add_entry(&request("p", "a", 5, 0, 0, 0, true, "")).unwrap();
    book.add_entry(&request("p", "b", 9, 0, 0, 0, true, "")).unwrap();
    book.add_entry(&request("p", "c", 5, 0, 0, 0, true, "")).unwrap();
    book.add_entry(&request("p", "d", 7, 0, 0, 0, true, "")).unwrap();
    let order: Vec<String> = book
        .query_moves("p")
        .into_iter()
        .map(|m| m.uci_move)
        .collect();
    assert_eq!(order, vec!["b", "d", "a", "c"]);
}

#[test]
fn export_is_sorted_by_key() {
    let mut book = OpeningBook::new();
    book.add_entry(&request("zebra", "a", 1, 0, 0, 0, true, "")).unwrap();
    book.add_entry(&request("alpha", "b", 1, 0, 0, 0, true, "")).unwrap();
    book.add_entry(&request("motif", "c", 1, 0, 0, 0, true, "")).unwrap();
    let keys: Vec<String> = book.export_all().into_iter().map(|e| e.fen).collect();
    assert_eq!(keys, vec!["alpha", "motif", "zebra"]);
}

#[test]
fn stats_match_export() {
    let mut book = OpeningBook::new();
    book.add_entry(&request("p1", "a", 1, 0, 0, 0, true, "")).unwrap();
    book.add_entry(&request("p1", "b", 2, 0, 0, 0, true, "")).unwrap();
    book.add_entry(&request("p2", "a", 3, 0, 0, 0, true, "")).unwrap();
    let stats = book.get_stats();
    let export = book.export_all();
    assert_eq!(stats.total_positions as usize, export.len());
    let moves: usize = export.iter().map(|e| e.moves.len()).sum();
    assert_eq!(stats.total_moves as usize, moves);
    assert_eq!(stats.total_positions, 2);
    assert_eq!(stats.total_moves, 3);
}

#[test]
fn clear_all_empties_the_book() {
    let mut book = OpeningBook::new();
    book.add_entry(&request("p1", "a", 1, 0, 0, 0, true, "")).unwrap();
    book.clear_all();
    assert!(book.export_all().is_empty());
    assert_eq!(book.get_stats().total_positions, 0);
    assert_eq!(book.get_stats().total_moves, 0);
}

#[test]
fn import_continues_past_malformed_records() {
    let mut book = OpeningBook::new();
    let entries = vec![OpeningBookEntry {
        fen: "startpos".to_string(),
        moves: vec![
            record("e2e4", 10, 5, 2, 1, true, "good"),
            record("", 3, 0, 0, 0, true, "malformed: empty notation"),
        ],
    }];
    let (count, errors) = book.import_entries(&entries);
    assert_eq!(count, 1);
    assert_eq!(errors.len(), 1);
    let export = book.export_all();
    assert_eq!(export.len(), 1);
    assert_eq!(export[0].fen, "startpos");
    assert_eq!(export[0].moves, vec![record("e2e4", 10, 5, 2, 1, true, "good")]);
}

#[test]
fn deleting_one_of_two_moves_keeps_the_key() {
    let mut book = OpeningBook::new();
    book.add_entry(&request("p", "a", 2, 0, 0, 0, true, "")).unwrap();
    book.add_entry(&request("p", "b", 1, 0, 0, 0, true, "")).unwrap();
    assert!(book.delete_entry("p", "a"));
    assert_eq!(book.get_stats().total_positions, 1);
    assert_eq!(book.query_moves("p"), vec![record("b", 1, 0, 0, 0, true, "")]);
}

#[test]
fn changing_a_priority_re_ranks_the_move() {
    let mut book = OpeningBook::new();
    book.add_entry(&request("p", "a", 5, 0, 0, 0, true, "")).unwrap();
    book.add_entry(&request("p", "b", 5, 0, 0, 0, true, "")).unwrap();
    // an unchanged priority keeps the move in place
    book.add_entry(&request("p", "a", 5, 1, 0, 0, true, "")).unwrap();
    let order: Vec<String> = book.query_moves("p").into_iter().map(|m| m.uci_move).collect();
    assert_eq!(order, vec!["a", "b"]);
    // a new priority ranks the move after its new peers
    book.add_entry(&request("p", "b", 9, 0, 0, 0, true, "")).unwrap();
    book.add_entry(&request("p", "c", 5, 0, 0, 0, true, "")).unwrap();
    book.add_entry(&request("p", "a", 4, 3, 0, 0, true, "")).unwrap();
    let order2: Vec<String> = book.query_moves("p").into_iter().map(|m| m.uci_move).collect();
    assert_eq!(order2, vec!["b", "c", "a"]);
}

#[test]
fn disabled_moves_keep_their_history() {
    let mut book = OpeningBook::new();
    book.add_entry(&request("p", "a", 1, 4, 5, 6, true, "seen")).unwrap();
    book.add_entry(&request("p", "a", 1, 4, 5, 6, false, "seen")).unwrap();
    let moves = book.query_moves("p");
    assert_eq!(moves, vec![record("a", 1, 4, 5, 6, false, "seen")]);
}
