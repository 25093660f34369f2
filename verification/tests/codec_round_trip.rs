use opening_book::codec::{decode_book_bytes, encode_book_bytes};
use opening_book::index::OpeningBook;
use opening_book::types::{AddEntryRequest, BookError};

fn request(fen: &str, uci_move: &str, priority: i64, comment: &str) -> AddEntryRequest {
    AddEntryRequest {
        fen: fen.to_string(),
        uci_move: uci_move.to_string(),
        priority,
        wins: 1,
        draws: 2,
        losses: 3,
        allowed: true,
        comment: comment.to_string(),
    }
}

#[test]
fn empty_book_round_trips_through_an_empty_file() {
    let book = OpeningBook::new();
    let bytes = encode_book_bytes(&book);
    assert!(bytes.is_empty());
    let back = decode_book_bytes(&bytes).unwrap();
    assert!(back.export_all().is_empty());
}

#[test]
fn populated_book_round_trips() {
    let mut book = OpeningBook::new();
    book.add_entry(&request("startpos", "e2e4", 10, "main line")).unwrap();
    book.add_entry(&request("startpos", "d2d4", 8, "queen's pawn")).unwrap();
    book.add_entry(&request("after e4", "c7c5", -1, "sicilian")).unwrap();
    let bytes = encode_book_bytes(&book);
    let back = decode_book_bytes(&bytes).unwrap();
    assert_eq!(back.export_all(), book.export_all());
}

#[test]
fn non_ascii_text_round_trips() {
    let mut book = OpeningBook::new();
    book.add_entry(&request("pòsition könig", "e2e4", 3, "Läufer nach c4 — gut")).unwrap();
    let bytes = encode_book_bytes(&book);
    let back = decode_book_bytes(&bytes).unwrap();
    assert_eq!(back.export_all(), book.export_all());
    let moves = back.query_moves("pòsition könig");
    assert_eq!(moves[0].comment, "Läufer nach c4 — gut");
}

#[test]
fn extreme_field_values_round_trip() {
    let mut book = OpeningBook::new();
    book.add_entry(&AddEntryRequest {
        fen: "p".to_string(),
        uci_move: "m".to_string(),
        priority: i64::MIN,
        wins: u64::MAX,
        draws: 0,
        losses: u64::MAX,
        allowed: false,
        comment: String::new(),
    })
    .unwrap();
    book.add_entry(&AddEntryRequest {
        fen: "p".to_string(),
        uci_move: "n".to_string(),
        priority: i64::MAX,
        wins: 0,
        draws: u64::MAX,
        losses: 0,
        allowed: true,
        comment: String::new(),
    })
    .unwrap();
    let bytes = encode_book_bytes(&book);
    let back = decode_book_bytes(&bytes).unwrap();
    assert_eq!(back.export_all(), book.export_all());
}

#[test]
fn truncated_file_is_corrupt() {
    let mut book = OpeningBook::new();
    book.add_entry(&request("startpos", "e2e4", 10, "x")).unwrap();
    let bytes = encode_book_bytes(&book);
    for cut in 1..bytes.len() {
        let truncated = &bytes[..cut];
        assert_eq!(
            decode_book_bytes(truncated).err(),
            Some(BookError::CorruptDatabase),
            "a file cut to {cut} bytes must be rejected"
        );
    }
}

#[test]
fn garbage_is_corrupt() {
    let garbage: Vec<u8> = vec![0xff; 40];
    assert_eq!(decode_book_bytes(&garbage).err(), Some(BookError::CorruptDatabase));
}

#[test]
fn invalid_utf8_in_a_string_is_corrupt() {
    let mut book = OpeningBook::new();
    book.add_entry(&request("key", "e2e4", 1, "")).unwrap();
    let mut bytes = encode_book_bytes(&book);
    // the first string's bytes start after its 8-byte length prefix
    bytes[8] = 0xff;
    assert_eq!(decode_book_bytes(&bytes).err(), Some(BookError::CorruptDatabase));
}

#[test]
fn bad_flag_word_is_corrupt() {
    let mut book = OpeningBook::new();
    book.add_entry(&request("k", "m", 0, "")).unwrap();
    let mut bytes = encode_book_bytes(&book);
    // layout: str("k") = 9, str("m") = 9, four u64 words = 32; the flag
    // word starts at 50 and must be 0 or 1
    assert_eq!(bytes[50], 1);
    bytes[50] = 2;
    assert_eq!(decode_book_bytes(&bytes).err(), Some(BookError::CorruptDatabase));
}

#[test]
fn record_with_empty_notation_is_corrupt() {
    let mut book = OpeningBook::new();
    book.add_entry(&request("k", "m", 0, "")).unwrap();
    let mut bytes = encode_book_bytes(&book);
    // zero out the move notation's length prefix (8 bytes at offset 9) and
    // drop its single byte
    for b in bytes.iter_mut().skip(9).take(8) {
        *b = 0;
    }
    bytes.remove(17);
    assert_eq!(decode_book_bytes(&bytes).err(), Some(BookError::CorruptDatabase));
}

#[test]
fn decoding_merges_duplicate_keys_like_upserts() {
    // two books encoded one after the other decode to their merge, because
    // decoding replays records as upserts
    let mut first = OpeningBook::new();
    first.add_entry(&request("p", "a", 5, "old")).unwrap();
    let mut second = OpeningBook::new();
    second.add_entry(&request("p", "a", 7, "new")).unwrap();
    second.add_entry(&request("q", "b", 1, "")).unwrap();
    let mut bytes = encode_book_bytes(&first);
    bytes.extend_from_slice(&encode_book_bytes(&second));
    let back = decode_book_bytes(&bytes).unwrap();
    let moves = back.query_moves("p");
    assert_eq!(moves.len(), 1);
    assert_eq!(moves[0].priority, 7);
    assert_eq!(moves[0].comment, "new");
    assert_eq!(back.get_stats().total_positions, 2);
}
