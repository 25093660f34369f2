use opening_book::storage::{
    engine_add_entry, engine_clear_all, engine_delete_entry, engine_export_all, engine_get_stats,
    engine_import_entries, engine_query_moves, open_book,
};
use opening_book::types::{AddEntryRequest, BookError, MoveData, OpeningBookEntry};

fn request(fen: &str, uci_move: &str, priority: i64) -> AddEntryRequest {
    AddEntryRequest {
        fen: fen.to_string(),
        uci_move: uci_move.to_string(),
        priority,
        wins: 5,
        draws: 2,
        losses: 1,
        allowed: true,
        comment: "main line".to_string(),
    }
}

#[test]
fn missing_file_is_an_empty_book() {
    let book = open_book(None).unwrap();
    assert!(book.export_all().is_empty());
    assert_eq!(engine_get_stats(None).unwrap().total_positions, 0);
    assert!(engine_query_moves(None, "startpos").unwrap().is_empty());
    assert!(engine_export_all(None).unwrap().is_empty());
}

#[test]
fn add_entry_transaction_produces_the_new_file() {
    let (bytes, is_new) = engine_add_entry(None, &request("startpos", "e2e4", 10)).unwrap();
    assert!(is_new);
    let moves = engine_query_moves(Some(&bytes), "startpos").unwrap();
    assert_eq!(moves.len(), 1);
    assert_eq!(moves[0].uci_move, "e2e4");
    assert_eq!(moves[0].priority, 10);
    let (bytes2, is_new2) = engine_add_entry(Some(&bytes), &request("startpos", "e2e4", 20)).unwrap();
    assert!(!is_new2);
    let moves2 = engine_query_moves(Some(&bytes2), "startpos").unwrap();
    assert_eq!(moves2[0].priority, 20);
}

#[test]
fn validation_error_before_any_write() {
    let err = engine_add_entry(None, &request("", "e2e4", 1)).err();
    assert_eq!(err, Some(BookError::ValidationError));
}

#[test]
fn delete_transaction_reports_whether_a_flush_is_needed() {
    let (bytes, _) = engine_add_entry(None, &request("startpos", "e2e4", 10)).unwrap();
    // deleting an absent pair asks for no flush
    let (none_bytes, existed) = engine_delete_entry(Some(&bytes), "startpos", "g1f3").unwrap();
    assert!(!existed);
    assert!(none_bytes.is_none());
    // deleting the stored pair yields the new contents
    let (new_bytes, existed2) = engine_delete_entry(Some(&bytes), "startpos", "e2e4").unwrap();
    assert!(existed2);
    let new_bytes = new_bytes.unwrap();
    assert!(engine_query_moves(Some(&new_bytes), "startpos").unwrap().is_empty());
    assert_eq!(engine_get_stats(Some(&new_bytes)).unwrap().total_positions, 0);
}

#[test]
fn an_interrupted_flush_leaves_the_old_file_intact() {
    // the engine computes the replacement contents without touching the
    // original bytes: a flush that stops before the rename keeps the prior
    // state byte for byte
    let (original, _) = engine_add_entry(None, &request("startpos", "e2e4", 10)).unwrap();
    let snapshot = original.clone();
    let (replacement, _) = engine_add_entry(Some(&original), &request("startpos", "d2d4", 4)).unwrap();
    assert_ne!(replacement, original);
    assert_eq!(original, snapshot);
    // the abandoned transaction is invisible to readers of the old file
    assert_eq!(engine_query_moves(Some(&original), "startpos").unwrap().len(), 1);
}

#[test]
fn every_operation_rejects_a_corrupt_file() {
    let corrupt: Vec<u8> = vec![9, 9, 9];
    assert_eq!(open_book(Some(&corrupt)).err(), Some(BookError::CorruptDatabase));
    assert_eq!(
        engine_add_entry(Some(&corrupt), &request("p", "m", 1)).err(),
        Some(BookError::CorruptDatabase)
    );
    assert_eq!(
        engine_delete_entry(Some(&corrupt), "p", "m").err(),
        Some(BookError::CorruptDatabase)
    );
    assert_eq!(engine_query_moves(Some(&corrupt), "p").err(), Some(BookError::CorruptDatabase));
    assert_eq!(engine_get_stats(Some(&corrupt)).err(), Some(BookError::CorruptDatabase));
    assert_eq!(engine_export_all(Some(&corrupt)).err(), Some(BookError::CorruptDatabase));
    assert_eq!(
        engine_import_entries(Some(&corrupt), &Vec::new()).err(),
        Some(BookError::CorruptDatabase)
    );
}

#[test]
fn clear_all_resets_even_a_corrupt_file() {
    let cleared = engine_clear_all();
    assert!(cleared.is_empty());
    let book = open_book(Some(&cleared)).unwrap();
    assert!(book.export_all().is_empty());
}

#[test]
fn import_transaction_reports_count_and_errors() {
    let entries = vec![
        OpeningBookEntry {
            fen: "startpos".to_string(),
            moves: vec![MoveData {
                uci_move: "e2e4".to_string(),
                priority: 10,
                wins: 5,
                draws: 2,
                losses: 1,
                allowed: true,
                comment: "good".to_string(),
            }],
        },
        OpeningBookEntry {
            fen: String::new(),
            moves: vec![MoveData {
                uci_move: "d2d4".to_string(),
                priority: 1,
                wins: 0,
                draws: 0,
                losses: 0,
                allowed: true,
                comment: "malformed: empty key".to_string(),
            }],
        },
    ];
    let (bytes, count, errors) = engine_import_entries(None, &entries).unwrap();
    assert_eq!(count, 1);
    assert_eq!(
        errors,
        vec!["failed to import move d2d4: position key and move notation must be non-empty"]
    );
    let export = engine_export_all(Some(&bytes)).unwrap();
    assert_eq!(export.len(), 1);
    assert_eq!(export[0].fen, "startpos");
    assert_eq!(export[0].moves[0].uci_move, "e2e4");
}

#[test]
fn export_import_round_trips_a_whole_collection() {
    let (b1, _) = engine_add_entry(None, &request("zeta", "a1a2", 3)).unwrap();
    let (b2, _) = engine_add_entry(Some(&b1), &request("alpha", "b1b2", -7)).unwrap();
    let (b3, _) = engine_add_entry(Some(&b2), &request("alpha", "c1c2", 9)).unwrap();
    let exported = engine_export_all(Some(&b3)).unwrap();
    let (imported_bytes, count, errors) = engine_import_entries(None, &exported).unwrap();
    assert_eq!(count, 3);
    assert!(errors.is_empty());
    assert_eq!(engine_export_all(Some(&imported_bytes)).unwrap(), exported);
}
