//! The storage engine: one logical operation per call, phrased over the
//! database file's contents.
//!
//! Every function takes the current file contents (`None` for a missing
//! file, which denotes the empty book), applies one operation, and returns
//! the new contents to be written, beside the operation's result.  The
//! functions never touch a file themselves: the unverified layer around the
//! library reads the file before the call, and afterwards writes the
//! returned bytes to a temporary file and renames it over the original, so
//! that an interrupted flush leaves the previous state intact.

use vstd::prelude::*;

use crate::codec::{decode_book, decode_book_bytes, encode_book, encode_book_bytes};
use crate::index::{book_contains, delete_book, import_book, import_count, import_errors,
    query_spec, spec_sat64, stats_of, strings_view, upsert_book, upsert_is_new, OpeningBook};
use crate::types::{entries_view, moves_view, AddEntryRequest, BookError, EntryView, MoveData,
    OpeningBookEntry, OpeningBookStats};

verus! {

/// The contents the engine sees: `None` stands for a missing file.
pub open spec fn file_view(file: Option<&Vec<u8>>) -> Option<Seq<u8>> {
    match file {
        None => None,
        Some(v) => Some(v@),
    }
}

/// The book a file state denotes: a missing file is an empty book, other
/// contents decode or are corrupt.
pub open spec fn spec_open(file: Option<Seq<u8>>) -> Option<Seq<EntryView>> {
    match file {
        None => Some(Seq::empty()),
        Some(s) => decode_book(s),
    }
}

/// Loads the database.  A missing file yields the empty book; contents that
/// do not decode are a corrupt database.
pub fn open_book(file: Option<&Vec<u8>>) -> (r: Result<OpeningBook, BookError>)
    ensures
        match r {
            Ok(book) => spec_open(file_view(file)) == Some(book@) && book.inv(),
            Err(e) => spec_open(file_view(file)) is None && e == BookError::CorruptDatabase,
        },
{
    match file {
        None => Ok(OpeningBook::new()),
        Some(v) => decode_book_bytes(v.as_slice()),
    }
}

/// One upsert transaction: load, validate, store, and serialize the new
/// state for the flush.
pub fn engine_add_entry(file: Option<&Vec<u8>>, request: &AddEntryRequest) -> (r: Result<
    (Vec<u8>, bool),
    BookError,
>)
    ensures
        match r {
            Ok(out) => spec_open(file_view(file)) matches Some(b) && request.valid() && out.0@
                == encode_book(upsert_book(b, request.fen@, request.record_view())) && out.1
                == upsert_is_new(b, request.fen@, request.uci_move@),
            Err(e) => (spec_open(file_view(file)) is None && e == BookError::CorruptDatabase) || (
            spec_open(file_view(file)) is Some && !request.valid() && e
                == BookError::ValidationError),
        },
{
    match open_book(file) {
        Err(e) => Err(e),
        Ok(mut book) => match book.add_entry(request) {
            Err(e) => Err(e),
            Ok(is_new) => {
                let bytes = encode_book_bytes(&book);
                Ok((bytes, is_new))
            },
        },
    }
}

/// One delete transaction: load and delete.  New contents are returned only
/// when something was removed; nothing changed otherwise, so nothing need be
/// flushed.
pub fn engine_delete_entry(file: Option<&Vec<u8>>, fen: &str, uci_move: &str) -> (r: Result<
    (Option<Vec<u8>>, bool),
    BookError,
>)
    ensures
        match r {
            Ok(out) => spec_open(file_view(file)) matches Some(b) && out.1 == book_contains(
                b,
                fen@,
                uci_move@,
            ) && (out.1 ==> (out.0 matches Some(bytes) && bytes@ == encode_book(
                delete_book(b, fen@, uci_move@),
            ))) && (!out.1 ==> out.0 is None),
            Err(e) => spec_open(file_view(file)) is None && e == BookError::CorruptDatabase,
        },
{
    match open_book(file) {
        Err(e) => Err(e),
        Ok(mut book) => {
            let existed = book.delete_entry(fen, uci_move);
            if existed {
                let bytes = encode_book_bytes(&book);
                Ok((Some(bytes), true))
            } else {
                Ok((None, false))
            }
        },
    }
}

/// One read-only query: the records stored under a key, in priority order.
pub fn engine_query_moves(file: Option<&Vec<u8>>, fen: &str) -> (r: Result<
    Vec<MoveData>,
    BookError,
>)
    ensures
        match r {
            Ok(out) => spec_open(file_view(file)) matches Some(b) && moves_view(out@)
                == query_spec(b, fen@),
            Err(e) => spec_open(file_view(file)) is None && e == BookError::CorruptDatabase,
        },
{
    match open_book(file) {
        Err(e) => Err(e),
        Ok(book) => Ok(book.query_moves(fen)),
    }
}

/// One read-only scan: the aggregate statistics.
pub fn engine_get_stats(file: Option<&Vec<u8>>) -> (r: Result<OpeningBookStats, BookError>)
    ensures
        match r {
            Ok(st) => spec_open(file_view(file)) matches Some(b) && st == stats_of(b),
            Err(e) => spec_open(file_view(file)) is None && e == BookError::CorruptDatabase,
        },
{
    match open_book(file) {
        Err(e) => Err(e),
        Ok(book) => Ok(book.get_stats()),
    }
}

/// The contents that clear-all flushes: the empty book.  The previous
/// contents need not decode; clearing is how a corrupt file is reset.
pub fn engine_clear_all() -> (r: Vec<u8>)
    ensures
        r@ == encode_book(Seq::<EntryView>::empty()),
{
    let r: Vec<u8> = Vec::new();
    proof {
        assert(encode_book(Seq::<EntryView>::empty()) =~= Seq::<u8>::empty());
    }
    r
}

/// One read-only export: the whole collection, keys in lexicographic order,
/// moves in priority order.
pub fn engine_export_all(file: Option<&Vec<u8>>) -> (r: Result<Vec<OpeningBookEntry>, BookError>)
    ensures
        match r {
            Ok(out) => spec_open(file_view(file)) matches Some(b) && entries_view(out@) == b,
            Err(e) => spec_open(file_view(file)) is None && e == BookError::CorruptDatabase,
        },
{
    match open_book(file) {
        Err(e) => Err(e),
        Ok(book) => Ok(book.export_all()),
    }
}

/// One bulk-import transaction: load, replay every supplied record,
/// serialize the new state, and report the stored count and the rejected
/// records.
pub fn engine_import_entries(file: Option<&Vec<u8>>, entries: &Vec<OpeningBookEntry>) -> (r:
    Result<(Vec<u8>, u64, Vec<String>), BookError>)
    ensures
        match r {
            Ok(out) => spec_open(file_view(file)) matches Some(b) && out.0@ == encode_book(
                import_book(b, entries_view(entries@)),
            ) && out.1 == spec_sat64(import_count(entries_view(entries@))) && strings_view(out.2@)
                == import_errors(entries_view(entries@)),
            Err(e) => spec_open(file_view(file)) is None && e == BookError::CorruptDatabase,
        },
{
    match open_book(file) {
        Err(e) => Err(e),
        Ok(mut book) => {
            let (count, errors) = book.import_entries(entries);
            let bytes = encode_book_bytes(&book);
            Ok((bytes, count, errors))
        },
    }
}

} // verus!
