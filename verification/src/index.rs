//! The in-memory index: a mapping from position key to an ordered list of
//! move records, together with the mathematical model of every operation.
//!
//! Entries are kept sorted by key in strict lexicographic order, and the
//! moves of one entry are kept sorted by priority, highest first; a move
//! stored with the priority it already has keeps its place, and a move whose
//! priority changes is re-ranked after the moves that already share its new
//! priority.  Within one entry no two records share a move notation, every
//! entry owns at least one record, and identity strings are never empty.

use vstd::prelude::*;

use crate::order::{lemma_str_lt_transitive, lemma_str_lt_trichotomy, str_eq_exec, str_lt,
    str_lt_exec};
use crate::types::{clone_moves, entries_view, lemma_entries_view_insert,
    lemma_entries_view_remove, lemma_moves_view_insert, lemma_moves_view_remove, moves_view,
    AddEntryRequest, BookError, EntryView, MoveData, MoveDataView, OpeningBookEntry,
    OpeningBookStats};

verus! {

// ---------------------------------------------------------------------------
// Searches
// ---------------------------------------------------------------------------
/// The index of the first record with the given move notation, or -1.
pub open spec fn move_index(ms: Seq<MoveDataView>, mv: Seq<char>) -> int
    decreases ms.len(),
{
    if ms.len() == 0 {
        -1
    } else if ms[0].uci_move == mv {
        0
    } else {
        let r = move_index(ms.drop_first(), mv);
        if r < 0 {
            -1
        } else {
            r + 1
        }
    }
}

/// Whether some record carries the given move notation.
pub open spec fn has_move(ms: Seq<MoveDataView>, mv: Seq<char>) -> bool {
    move_index(ms, mv) >= 0
}

pub proof fn lemma_move_index(ms: Seq<MoveDataView>, mv: Seq<char>)
    ensures
        -1 <= move_index(ms, mv) < ms.len(),
        move_index(ms, mv) >= 0 ==> ms[move_index(ms, mv)].uci_move == mv,
        forall|j: int| 0 <= j < move_index(ms, mv) ==> ms[j].uci_move != mv,
        move_index(ms, mv) < 0 ==> forall|j: int| 0 <= j < ms.len() ==> ms[j].uci_move != mv,
    decreases ms.len(),
{
    if ms.len() > 0 && ms[0].uci_move != mv {
        lemma_move_index(ms.drop_first(), mv);
        assert forall|j: int| 1 <= j < ms.len() implies ms[j] == ms.drop_first()[j - 1] by {}
    }
}

/// The rank a record of the given priority is inserted at: after every
/// record whose priority is at least as high.
pub open spec fn move_insert_pos(ms: Seq<MoveDataView>, p: i64) -> int
    decreases ms.len(),
{
    if ms.len() == 0 {
        0
    } else if ms[0].priority < p {
        0
    } else {
        1 + move_insert_pos(ms.drop_first(), p)
    }
}

pub proof fn lemma_move_insert_pos(ms: Seq<MoveDataView>, p: i64)
    ensures
        0 <= move_insert_pos(ms, p) <= ms.len(),
        forall|j: int| 0 <= j < move_insert_pos(ms, p) ==> ms[j].priority >= p,
        move_insert_pos(ms, p) < ms.len() ==> ms[move_insert_pos(ms, p)].priority < p,
    decreases ms.len(),
{
    if ms.len() > 0 && ms[0].priority >= p {
        lemma_move_insert_pos(ms.drop_first(), p);
        assert forall|j: int| 1 <= j < ms.len() implies ms[j] == ms.drop_first()[j - 1] by {}
    }
}

/// The index of the entry with the given key, or -1.
pub open spec fn entry_index(b: Seq<EntryView>, fen: Seq<char>) -> int
    decreases b.len(),
{
    if b.len() == 0 {
        -1
    } else if b[0].fen == fen {
        0
    } else {
        let r = entry_index(b.drop_first(), fen);
        if r < 0 {
            -1
        } else {
            r + 1
        }
    }
}

/// Whether the book has an entry under the given key.
pub open spec fn has_key(b: Seq<EntryView>, fen: Seq<char>) -> bool {
    entry_index(b, fen) >= 0
}

pub proof fn lemma_entry_index(b: Seq<EntryView>, fen: Seq<char>)
    ensures
        -1 <= entry_index(b, fen) < b.len(),
        entry_index(b, fen) >= 0 ==> b[entry_index(b, fen)].fen == fen,
        forall|j: int| 0 <= j < entry_index(b, fen) ==> b[j].fen != fen,
        entry_index(b, fen) < 0 ==> forall|j: int| 0 <= j < b.len() ==> b[j].fen != fen,
    decreases b.len(),
{
    if b.len() > 0 && b[0].fen != fen {
        lemma_entry_index(b.drop_first(), fen);
        assert forall|j: int| 1 <= j < b.len() implies b[j] == b.drop_first()[j - 1] by {}
    }
}

/// The rank a new key is inserted at: before the first larger key.
pub open spec fn key_insert_pos(b: Seq<EntryView>, fen: Seq<char>) -> int
    decreases b.len(),
{
    if b.len() == 0 {
        0
    } else if str_lt(fen, b[0].fen) {
        0
    } else {
        1 + key_insert_pos(b.drop_first(), fen)
    }
}

pub proof fn lemma_key_insert_pos(b: Seq<EntryView>, fen: Seq<char>)
    ensures
        0 <= key_insert_pos(b, fen) <= b.len(),
        forall|j: int| 0 <= j < key_insert_pos(b, fen) ==> !str_lt(fen, b[j].fen),
        key_insert_pos(b, fen) < b.len() ==> str_lt(fen, b[key_insert_pos(b, fen)].fen),
    decreases b.len(),
{
    if b.len() > 0 && !str_lt(fen, b[0].fen) {
        lemma_key_insert_pos(b.drop_first(), fen);
        assert forall|j: int| 1 <= j < b.len() implies b[j] == b.drop_first()[j - 1] by {}
    }
}

// ---------------------------------------------------------------------------
// Well-formedness
// ---------------------------------------------------------------------------
/// The invariant of one entry's move list: notations unique and non-empty,
/// priorities descending.
pub open spec fn moves_wf(ms: Seq<MoveDataView>) -> bool {
    &&& forall|i: int, j: int|
        0 <= i < j < ms.len() ==> ms[i].uci_move != ms[j].uci_move
    &&& forall|i: int, j: int| 0 <= i < j < ms.len() ==> ms[i].priority >= ms[j].priority
    &&& forall|i: int| 0 <= i < ms.len() ==> ms[i].uci_move.len() > 0
}

/// The invariant of one entry: a non-empty key owning a non-empty,
/// well-formed move list.
pub open spec fn entry_wf(e: EntryView) -> bool {
    e.fen.len() > 0 && e.moves.len() > 0 && moves_wf(e.moves)
}

/// The invariant of the whole book: keys strictly sorted (hence unique),
/// every entry well formed.
pub open spec fn book_wf(b: Seq<EntryView>) -> bool {
    &&& forall|i: int, j: int| 0 <= i < j < b.len() ==> str_lt(b[i].fen, b[j].fen)
    &&& forall|i: int| 0 <= i < b.len() ==> entry_wf(#[trigger] b[i])
}

/// In a well-formed move list the first match is the only match.
pub proof fn lemma_move_index_unique(ms: Seq<MoveDataView>, k: int)
    requires
        moves_wf(ms),
        0 <= k < ms.len(),
    ensures
        move_index(ms, ms[k].uci_move) == k,
{
    lemma_move_index(ms, ms[k].uci_move);
}

/// In a well-formed book the first key match is the only match.
pub proof fn lemma_entry_index_unique(b: Seq<EntryView>, k: int)
    requires
        book_wf(b),
        0 <= k < b.len(),
    ensures
        entry_index(b, b[k].fen) == k,
{
    lemma_entry_index(b, b[k].fen);
    let e = entry_index(b, b[k].fen);
    if e != k {
        assert(e >= 0);
        if e < k {
            assert(str_lt(b[e].fen, b[k].fen));
            lemma_str_lt_trichotomy(b[e].fen, b[k].fen);
        } else {
            assert(str_lt(b[k].fen, b[e].fen));
            lemma_str_lt_trichotomy(b[k].fen, b[e].fen);
        }
    }
}

// ---------------------------------------------------------------------------
// Upsert
// ---------------------------------------------------------------------------
/// Inserts a record into one move list, or replaces the record that shares
/// its notation.  A replacement with an unchanged priority stays in place;
/// one with a new priority is re-ranked below its new peers.
pub open spec fn upsert_moves(ms: Seq<MoveDataView>, m: MoveDataView) -> Seq<MoveDataView> {
    let i = move_index(ms, m.uci_move);
    if i >= 0 {
        if ms[i].priority == m.priority {
            ms.update(i, m)
        } else {
            let rest = ms.remove(i);
            rest.insert(move_insert_pos(rest, m.priority), m)
        }
    } else {
        ms.insert(move_insert_pos(ms, m.priority), m)
    }
}

/// Inserts or replaces one record in the book.
pub open spec fn upsert_book(b: Seq<EntryView>, fen: Seq<char>, m: MoveDataView) -> Seq<
    EntryView,
> {
    let e = entry_index(b, fen);
    if e >= 0 {
        b.update(e, EntryView { fen: b[e].fen, moves: upsert_moves(b[e].moves, m) })
    } else {
        b.insert(key_insert_pos(b, fen), EntryView { fen: fen, moves: seq![m] })
    }
}

/// Whether an upsert of the given identity creates a new record.
pub open spec fn upsert_is_new(b: Seq<EntryView>, fen: Seq<char>, mv: Seq<char>) -> bool {
    let e = entry_index(b, fen);
    e < 0 || !has_move(b[e].moves, mv)
}

/// An upsert preserves the move-list invariant.
#[verifier::rlimit(100)]
pub proof fn lemma_upsert_moves_wf(ms: Seq<MoveDataView>, m: MoveDataView)
    requires
        moves_wf(ms),
        m.uci_move.len() > 0,
    ensures
        moves_wf(upsert_moves(ms, m)),
        upsert_moves(ms, m).len() == if has_move(ms, m.uci_move) {
            ms.len() as int
        } else {
            ms.len() + 1int
        },
        has_move(upsert_moves(ms, m), m.uci_move),
{
    let i = move_index(ms, m.uci_move);
    lemma_move_index(ms, m.uci_move);
    if i >= 0 {
        if ms[i].priority == m.priority {
            let r = ms.update(i, m);
            assert(moves_wf(r)) by {
                assert forall|p: int, q: int| 0 <= p < q < r.len() implies r[p].uci_move
                    != r[q].uci_move && r[p].priority >= r[q].priority by {
                    assert(ms[p].uci_move != ms[q].uci_move);
                    assert(ms[p].priority >= ms[q].priority);
                }
            }
            lemma_move_index(r, m.uci_move);
            assert(r[i].uci_move == m.uci_move);
        } else {
            let rest = ms.remove(i);
            let pos = move_insert_pos(rest, m.priority);
            lemma_move_insert_pos(rest, m.priority);
            assert forall|j: int| 0 <= j < rest.len() implies (rest[j] == if j < i {
                ms[j]
            } else {
                ms[j + 1]
            }) by {}
            assert(moves_wf(rest));
            assert forall|j: int| 0 <= j < rest.len() implies rest[j].uci_move != m.uci_move by {
                if j < i {
                    assert(ms[j].uci_move != ms[i].uci_move);
                } else {
                    assert(ms[i].uci_move != ms[j + 1].uci_move);
                }
            }
            let r = rest.insert(pos, m);
            assert forall|j: int|
                pos < j < r.len() implies r[j].priority < m.priority by {
                assert(r[j] == rest[j - 1]);
                if j - 1 > pos {
                    assert(rest[pos].priority >= rest[j - 1].priority);
                }
            }
            assert(moves_wf(r)) by {
                assert forall|p: int, q: int| 0 <= p < q < r.len() implies r[p].uci_move
                    != r[q].uci_move && r[p].priority >= r[q].priority by {
                    if p == pos {
                        assert(r[q] == rest[q - 1]);
                    } else if q == pos {
                        assert(r[p] == rest[p]);
                    } else {
                        let p0: int = if p < pos { p } else { p - 1 };
                        let q0: int = if q < pos { q } else { q - 1 };
                        assert(r[p] == rest[p0]);
                        assert(r[q] == rest[q0]);
                    }
                }
            }
            lemma_move_index(r, m.uci_move);
            assert(r[pos].uci_move == m.uci_move);
        }
    } else {
        let pos = move_insert_pos(ms, m.priority);
        lemma_move_insert_pos(ms, m.priority);
        let r = ms.insert(pos, m);
        assert forall|j: int| pos < j < r.len() implies r[j].priority < m.priority by {
            assert(r[j] == ms[j - 1]);
            if j - 1 > pos {
                assert(ms[pos].priority >= ms[j - 1].priority);
            }
        }
        assert(moves_wf(r)) by {
            assert forall|p: int, q: int| 0 <= p < q < r.len() implies r[p].uci_move
                != r[q].uci_move && r[p].priority >= r[q].priority by {
                if p == pos {
                    assert(r[q] == ms[q - 1]);
                } else if q == pos {
                    assert(r[p] == ms[p]);
                } else {
                    let p0: int = if p < pos { p } else { p - 1 };
                    let q0: int = if q < pos { q } else { q - 1 };
                    assert(r[p] == ms[p0]);
                    assert(r[q] == ms[q0]);
                }
            }
        }
        lemma_move_index(r, m.uci_move);
        assert(r[pos].uci_move == m.uci_move);
    }
}

/// An upsert preserves the book invariant.
pub proof fn lemma_upsert_book_wf(b: Seq<EntryView>, fen: Seq<char>, m: MoveDataView)
    requires
        book_wf(b),
        fen.len() > 0,
        m.uci_move.len() > 0,
    ensures
        book_wf(upsert_book(b, fen, m)),
        has_key(upsert_book(b, fen, m), fen),
{
    let e = entry_index(b, fen);
    lemma_entry_index(b, fen);
    if e >= 0 {
        lemma_upsert_moves_wf(b[e].moves, m);
        let r = upsert_book(b, fen, m);
        assert forall|p: int, q: int| 0 <= p < q < r.len() implies str_lt(
            r[p].fen,
            r[q].fen,
        ) by {
            assert(str_lt(b[p].fen, b[q].fen));
        }
        assert forall|i: int| 0 <= i < r.len() implies entry_wf(#[trigger] r[i]) by {
            if i != e {
                assert(r[i] == b[i]);
                assert(entry_wf(b[i]));
            } else {
                assert(r[e] == EntryView {
                    fen: b[e].fen,
                    moves: upsert_moves(b[e].moves, m),
                });
                assert(entry_wf(b[e]));
            }
        }
        lemma_entry_index(r, fen);
        assert(r[e].fen == fen);
        if entry_index(r, fen) < 0 {
            assert(r[e].fen != fen);
        }
    } else {
        let pos = key_insert_pos(b, fen);
        lemma_key_insert_pos(b, fen);
        let r = b.insert(pos, EntryView { fen: fen, moves: seq![m] });
        assert forall|j: int| 0 <= j < pos implies str_lt(b[j].fen, fen) by {
            lemma_str_lt_trichotomy(fen, b[j].fen);
        }
        assert forall|j: int| pos < j < r.len() implies str_lt(fen, r[j].fen) by {
            assert(r[j] == b[j - 1]);
            if j - 1 > pos {
                lemma_str_lt_transitive(fen, b[pos].fen, b[j - 1].fen);
            }
        }
        assert(moves_wf(seq![m]));
        assert(book_wf(r)) by {
            assert forall|p: int, q: int| 0 <= p < q < r.len() implies str_lt(
                r[p].fen,
                r[q].fen,
            ) by {
                if p == pos {
                    assert(r[p] == EntryView { fen: fen, moves: seq![m] });
                    assert(r[q] == b[q - 1]);
                    assert(str_lt(fen, r[q].fen));
                } else if q == pos {
                    assert(r[q] == EntryView { fen: fen, moves: seq![m] });
                    assert(r[p] == b[p]);
                    assert(str_lt(b[p].fen, fen));
                } else {
                    let p0: int = if p < pos { p } else { p - 1 };
                    let q0: int = if q < pos { q } else { q - 1 };
                    assert(r[p] == b[p0]);
                    assert(r[q] == b[q0]);
                    assert(str_lt(b[p0].fen, b[q0].fen));
                }
            }
            assert forall|i: int| 0 <= i < r.len() implies entry_wf(#[trigger] r[i]) by {
                if i != pos {
                    let i0: int = if i < pos { i } else { i - 1 };
                    assert(r[i] == b[i0]);
                    assert(entry_wf(b[i0]));
                } else {
                    assert(r[i] == EntryView { fen: fen, moves: seq![m] });
                    assert(r[i].moves[0] == m);
                }
            }
        }
        lemma_entry_index(r, fen);
        assert(r[pos].fen == fen);
        if entry_index(r, fen) < 0 {
            assert(r[pos].fen != fen);
        }
    }
}

// ---------------------------------------------------------------------------
// Delete, query, stats
// ---------------------------------------------------------------------------
/// Removes the record with the given notation, if any.
pub open spec fn delete_moves(ms: Seq<MoveDataView>, mv: Seq<char>) -> Seq<MoveDataView> {
    let i = move_index(ms, mv);
    if i >= 0 {
        ms.remove(i)
    } else {
        ms
    }
}

/// Whether the book stores a record for the given (key, notation) pair.
pub open spec fn book_contains(b: Seq<EntryView>, fen: Seq<char>, mv: Seq<char>) -> bool {
    let e = entry_index(b, fen);
    e >= 0 && has_move(b[e].moves, mv)
}

/// Removes one record; an entry whose last record is removed disappears.
/// Deleting a pair that is not present leaves the book unchanged.
pub open spec fn delete_book(b: Seq<EntryView>, fen: Seq<char>, mv: Seq<char>) -> Seq<EntryView> {
    let e = entry_index(b, fen);
    if e >= 0 && has_move(b[e].moves, mv) {
        let ms = delete_moves(b[e].moves, mv);
        if ms.len() == 0 {
            b.remove(e)
        } else {
            b.update(e, EntryView { fen: b[e].fen, moves: ms })
        }
    } else {
        b
    }
}

/// A delete preserves the book invariant.
pub proof fn lemma_delete_book_wf(b: Seq<EntryView>, fen: Seq<char>, mv: Seq<char>)
    requires
        book_wf(b),
    ensures
        book_wf(delete_book(b, fen, mv)),
{
    let e = entry_index(b, fen);
    lemma_entry_index(b, fen);
    if e >= 0 && has_move(b[e].moves, mv) {
        let i = move_index(b[e].moves, mv);
        lemma_move_index(b[e].moves, mv);
        let ms = b[e].moves.remove(i);
        assert forall|j: int| 0 <= j < ms.len() implies (ms[j] == if j < i {
            b[e].moves[j]
        } else {
            b[e].moves[j + 1]
        }) by {}
        assert(moves_wf(ms));
        let r = delete_book(b, fen, mv);
        if ms.len() == 0 {
            assert forall|p: int, q: int| 0 <= p < q < r.len() implies str_lt(
                r[p].fen,
                r[q].fen,
            ) by {
                let p0: int = if p < e {
                    p
                } else {
                    p + 1
                };
                let q0: int = if q < e {
                    q
                } else {
                    q + 1
                };
                assert(r[p] == b[p0]);
                assert(r[q] == b[q0]);
                assert(str_lt(b[p0].fen, b[q0].fen));
            }
            assert forall|i2: int| 0 <= i2 < r.len() implies entry_wf(#[trigger] r[i2]) by {
                let i0: int = if i2 < e {
                    i2
                } else {
                    i2 + 1
                };
                assert(r[i2] == b[i0]);
                assert(entry_wf(b[i0]));
            }
        } else {
            assert forall|p: int, q: int| 0 <= p < q < r.len() implies str_lt(
                r[p].fen,
                r[q].fen,
            ) by {
                assert(str_lt(b[p].fen, b[q].fen));
            }
            assert forall|i2: int| 0 <= i2 < r.len() implies entry_wf(#[trigger] r[i2]) by {
                if i2 != e {
                    assert(r[i2] == b[i2]);
                    assert(entry_wf(b[i2]));
                } else {
                    assert(r[i2] == EntryView { fen: b[e].fen, moves: ms });
                    assert(entry_wf(b[e]));
                }
            }
        }
    }
}

/// The moves stored under one key, in order; empty if the key is unknown.
pub open spec fn query_spec(b: Seq<EntryView>, fen: Seq<char>) -> Seq<MoveDataView> {
    let e = entry_index(b, fen);
    if e >= 0 {
        b[e].moves
    } else {
        Seq::empty()
    }
}

/// The total number of move records in the book.
pub open spec fn count_moves(b: Seq<EntryView>) -> int
    decreases b.len(),
{
    if b.len() == 0 {
        0int
    } else {
        b[0].moves.len() + count_moves(b.drop_first())
    }
}

/// Extending a book by one entry adds that entry's records to the count.
pub proof fn lemma_count_moves_push(b: Seq<EntryView>, e: EntryView)
    ensures
        count_moves(b.push(e)) == count_moves(b) + e.moves.len(),
    decreases b.len(),
{
    if b.len() == 0 {
        assert(b.push(e).drop_first() =~= b);
    } else {
        assert(b.push(e).drop_first() =~= b.drop_first().push(e));
        lemma_count_moves_push(b.drop_first(), e);
    }
}

/// A move count is never negative.
pub proof fn lemma_count_moves_nonneg(b: Seq<EntryView>)
    ensures
        count_moves(b) >= 0,
    decreases b.len(),
{
    if b.len() > 0 {
        lemma_count_moves_nonneg(b.drop_first());
    }
}

/// Saturation of a mathematical count at the largest `u64`.
pub open spec fn spec_sat64(x: int) -> u64 {
    if x > u64::MAX {
        u64::MAX
    } else if x < 0 {
        0u64
    } else {
        x as u64
    }
}

/// The aggregate statistics of a book.
pub open spec fn stats_of(b: Seq<EntryView>) -> OpeningBookStats {
    OpeningBookStats {
        total_positions: spec_sat64(b.len() as int),
        total_moves: spec_sat64(count_moves(b)),
    }
}

// ---------------------------------------------------------------------------
// The index as an executable structure
// ---------------------------------------------------------------------------
/// The in-memory index: the working set that every storage operation loads,
/// reads or mutates, and that the codec persists.
pub struct OpeningBook {
    entries: Vec<OpeningBookEntry>,
}

impl View for OpeningBook {
    type V = Seq<EntryView>;

    closed spec fn view(&self) -> Seq<EntryView> {
        entries_view(self.entries@)
    }
}

impl OpeningBook {
    /// The structural invariant; constructors establish it and every
    /// operation preserves it.
    pub open spec fn inv(&self) -> bool {
        book_wf(self@)
    }

    /// An empty book.
    pub fn new() -> (r: Self)
        ensures
            r.inv(),
            r@ == Seq::<EntryView>::empty(),
    {
        let r = OpeningBook { entries: Vec::new() };
        proof {
            assert(r@ =~= Seq::<EntryView>::empty());
        }
        r
    }

    /// Finds the entry that stores the given key.
    fn find_entry(&self, fen: &str) -> (r: Option<usize>)
        ensures
            match r {
                Some(e) => entry_index(self@, fen@) == e as int && e < self.entries@.len(),
                None => entry_index(self@, fen@) < 0,
            },
    {
        let mut i: usize = 0;
        while i < self.entries.len()
            invariant
                i <= self.entries.len(),
                self@.len() == self.entries@.len(),
                forall|j: int| 0 <= j < i ==> self@[j].fen != fen@,
            decreases self.entries.len() - i,
        {
            proof {
                assert(self@[i as int] == self.entries@[i as int]@);
            }
            if str_eq_exec(self.entries[i].fen.as_str(), fen) {
                proof {
                    lemma_entry_index(self@, fen@);
                    assert(self@[i as int].fen == fen@);
                }
                return Some(i);
            }
            i = i + 1;
        }
        proof {
            lemma_entry_index(self@, fen@);
        }
        None
    }

    /// Finds the rank a new key is inserted at.
    fn find_key_pos(&self, fen: &str) -> (r: usize)
        ensures
            r as int == key_insert_pos(self@, fen@),
            r <= self.entries@.len(),
    {
        let mut i: usize = 0;
        loop
            invariant
                i <= self.entries.len(),
                self@.len() == self.entries@.len(),
                forall|j: int| 0 <= j < i ==> !str_lt(fen@, self@[j].fen),
            decreases self.entries.len() - i,
        {
            if i == self.entries.len() {
                proof {
                    lemma_key_insert_pos(self@, fen@);
                }
                return i;
            }
            proof {
                assert(self@[i as int] == self.entries@[i as int]@);
            }
            if str_lt_exec(fen, self.entries[i].fen.as_str()) {
                proof {
                    lemma_key_insert_pos(self@, fen@);
                }
                return i;
            }
            i = i + 1;
        }
    }
}

impl OpeningBook {
    /// Inserts a record, or replaces the record that shares its identity.
    /// Returns whether a new identity was created.
    fn upsert_record(&mut self, fen: &str, m: MoveData) -> (is_new: bool)
        requires
            old(self).inv(),
            fen@.len() > 0,
            m.uci_move@.len() > 0,
        ensures
            final(self).inv(),
            final(self)@ == upsert_book(old(self)@, fen@, m@),
            is_new == upsert_is_new(old(self)@, fen@, m@.uci_move),
    {
        let ghost b0 = self@;
        proof {
            lemma_upsert_book_wf(b0, fen@, m@);
            lemma_entry_index(b0, fen@);
        }
        let found = self.find_entry(fen);
        match found {
            Some(e) => {
                let ghost ms0 = b0[e as int].moves;
                let ghost entries0 = self.entries@;
                let mut entry = self.entries.remove(e);
                proof {
                    assert(entry@ == b0[e as int]);
                    assert(moves_view(entry.moves@) == ms0);
                    lemma_entries_view_remove(entries0, e as int);
                }
                let mi = find_move(&entry.moves, m.uci_move.as_str());
                let is_new = mi.is_none();
                proof {
                    lemma_move_index(ms0, m@.uci_move);
                }
                match mi {
                    Some(i) => {
                        let ghost before_remove = entry.moves@;
                        let ghost rest = ms0.remove(i as int);
                        let old_m = entry.moves.remove(i);
                        proof {
                            lemma_moves_view_remove(before_remove, i as int);
                            assert(moves_view(entry.moves@) == rest);
                            assert(old_m@ == ms0[i as int]);
                        }
                        if old_m.priority == m.priority {
                            let ghost before_insert = entry.moves@;
                            entry.moves.insert(i, m);
                            proof {
                                lemma_moves_view_insert(before_insert, i as int, m);
                                assert(rest.insert(i as int, m@) =~= ms0.update(i as int, m@));
                                assert(moves_view(entry.moves@) == upsert_moves(ms0, m@));
                            }
                        } else {
                            let pos = find_move_pos(&entry.moves, m.priority);
                            let ghost before_insert = entry.moves@;
                            entry.moves.insert(pos, m);
                            proof {
                                lemma_moves_view_insert(before_insert, pos as int, m);
                                assert(moves_view(entry.moves@) == upsert_moves(ms0, m@));
                            }
                        }
                    }
                    None => {
                        let pos = find_move_pos(&entry.moves, m.priority);
                        let ghost before_insert = entry.moves@;
                        entry.moves.insert(pos, m);
                        proof {
                            lemma_moves_view_insert(before_insert, pos as int, m);
                            assert(moves_view(entry.moves@) == upsert_moves(ms0, m@));
                        }
                    }
                }
                let ghost ev = entry@;
                let ghost after_remove = self.entries@;
                proof {
                    lemma_entries_view_insert(after_remove, e as int, entry);
                }
                self.entries.insert(e, entry);
                proof {
                    assert(ev == EntryView { fen: b0[e as int].fen, moves: upsert_moves(ms0, m@) });
                    assert(self@ == b0.remove(e as int).insert(e as int, ev));
                    assert(self@ =~= b0.update(
                        e as int,
                        EntryView { fen: b0[e as int].fen, moves: upsert_moves(ms0, m@) },
                    ));
                    assert(self@ == upsert_book(b0, fen@, m@));
                }
                is_new
            }
            None => {
                let pos = self.find_key_pos(fen);
                let mut moves: Vec<MoveData> = Vec::new();
                moves.push(m);
                let entry = OpeningBookEntry { fen: fen.to_owned(), moves };
                proof {
                    assert(moves_view(entry.moves@) =~= seq![m@]);
                    assert(entry@ == EntryView { fen: fen@, moves: seq![m@] });
                }
                let ghost entries0 = self.entries@;
                proof {
                    lemma_entries_view_insert(entries0, pos as int, entry);
                }
                self.entries.insert(pos, entry);
                proof {
                    assert(self@ == upsert_book(b0, fen@, m@));
                }
                true
            }
        }
    }
}

impl OpeningBook {
    /// Validates the request, then inserts or replaces the record it
    /// describes.  `Ok(true)` reports a new identity, `Ok(false)` an
    /// overwrite; a request with an empty key or notation is rejected and
    /// leaves the book unchanged.
    pub fn add_entry(&mut self, request: &AddEntryRequest) -> (r: Result<bool, BookError>)
        requires
            old(self).inv(),
        ensures
            final(self).inv(),
            request.valid() ==> final(self)@ == upsert_book(
                old(self)@,
                request.fen@,
                request.record_view(),
            ) && r == Ok::<bool, BookError>(
                upsert_is_new(old(self)@, request.fen@, request.uci_move@),
            ),
            !request.valid() ==> final(self)@ == old(self)@ && r == Err::<bool, BookError>(
                BookError::ValidationError,
            ),
    {
        if request.fen.as_str().is_empty() || request.uci_move.as_str().is_empty() {
            return Err(BookError::ValidationError);
        }
        let m = MoveData {
            uci_move: request.uci_move.clone(),
            priority: request.priority,
            wins: request.wins,
            draws: request.draws,
            losses: request.losses,
            allowed: request.allowed,
            comment: request.comment.clone(),
        };
        proof {
            assert(m@ == request.record_view());
        }
        let is_new = self.upsert_record(request.fen.as_str(), m);
        Ok(is_new)
    }

    /// Removes the record with the given identity.  Returns whether it
    /// existed; deleting an absent pair changes nothing.
    pub fn delete_entry(&mut self, fen: &str, uci_move: &str) -> (r: bool)
        requires
            old(self).inv(),
        ensures
            final(self).inv(),
            final(self)@ == delete_book(old(self)@, fen@, uci_move@),
            r == book_contains(old(self)@, fen@, uci_move@),
    {
        let ghost b0 = self@;
        proof {
            lemma_delete_book_wf(b0, fen@, uci_move@);
            lemma_entry_index(b0, fen@);
        }
        let found = self.find_entry(fen);
        match found {
            None => false,
            Some(e) => {
                let ghost ms0 = b0[e as int].moves;
                let ghost entries0 = self.entries@;
                let mut entry = self.entries.remove(e);
                proof {
                    assert(entry@ == b0[e as int]);
                    assert(moves_view(entry.moves@) == ms0);
                    lemma_entries_view_remove(entries0, e as int);
                    lemma_move_index(ms0, uci_move@);
                }
                let mi = find_move(&entry.moves, uci_move);
                match mi {
                    None => {
                        let ghost after_remove = self.entries@;
                        proof {
                            lemma_entries_view_insert(after_remove, e as int, entry);
                        }
                        self.entries.insert(e, entry);
                        proof {
                            assert(self@ =~= b0);
                        }
                        false
                    }
                    Some(i) => {
                        let ghost before_remove = entry.moves@;
                        entry.moves.remove(i);
                        proof {
                            lemma_moves_view_remove(before_remove, i as int);
                            assert(moves_view(entry.moves@) == delete_moves(ms0, uci_move@));
                        }
                        if entry.moves.len() > 0 {
                            let ghost after_remove = self.entries@;
                            proof {
                                lemma_entries_view_insert(after_remove, e as int, entry);
                            }
                            self.entries.insert(e, entry);
                            proof {
                                assert(self@ =~= b0.update(
                                    e as int,
                                    EntryView {
                                        fen: b0[e as int].fen,
                                        moves: delete_moves(ms0, uci_move@),
                                    },
                                ));
                                assert(self@ == delete_book(b0, fen@, uci_move@));
                            }
                        } else {
                            proof {
                                assert(self@ == b0.remove(e as int));
                                assert(self@ == delete_book(b0, fen@, uci_move@));
                            }
                        }
                        true
                    }
                }
            }
        }
    }

    /// The records stored under one key, in priority order; an unknown key
    /// yields an empty list.
    pub fn query_moves(&self, fen: &str) -> (r: Vec<MoveData>)
        ensures
            moves_view(r@) == query_spec(self@, fen@),
    {
        let found = self.find_entry(fen);
        match found {
            None => {
                let r: Vec<MoveData> = Vec::new();
                proof {
                    assert(moves_view(r@) =~= Seq::<MoveDataView>::empty());
                }
                r
            },
            Some(e) => {
                let r = clone_moves(&self.entries[e].moves);
                proof {
                    assert(self@[e as int] == self.entries@[e as int]@);
                }
                r
            },
        }
    }

    /// Counts position keys and move records by a full scan.
    pub fn get_stats(&self) -> (r: OpeningBookStats)
        ensures
            r == stats_of(self@),
    {
        proof {
            assert(self@.len() == self.entries@.len());
        }
        let positions = self.entries.len() as u64;
        let mut total: u64 = 0;
        let mut i: usize = 0;
        while i < self.entries.len()
            invariant
                i <= self.entries.len(),
                self@.len() == self.entries@.len(),
                total == spec_sat64(count_moves(self@.take(i as int))),
            decreases self.entries.len() - i,
        {
            let ghost prefix = self@.take(i as int);
            let ghost cm = count_moves(prefix);
            let n = self.entries[i].moves.len() as u64;
            proof {
                lemma_count_moves_nonneg(prefix);
                assert(self@.take(i as int + 1) =~= prefix.push(self@[i as int]));
                lemma_count_moves_push(prefix, self@[i as int]);
                assert(self@[i as int] == self.entries@[i as int]@);
                assert(n == self@[i as int].moves.len());
            }
            if total <= u64::MAX - n {
                total = total + n;
            } else {
                total = u64::MAX;
            }
            proof {
                assert(total == spec_sat64(cm + self@[i as int].moves.len()));
            }
            i = i + 1;
        }
        proof {
            assert(self@.take(self@.len() as int) =~= self@);
        }
        OpeningBookStats { total_positions: positions, total_moves: total }
    }

    /// Empties the book.
    pub fn clear_all(&mut self)
        ensures
            final(self).inv(),
            final(self)@ == Seq::<EntryView>::empty(),
    {
        self.entries.clear();
        proof {
            assert(self@ =~= Seq::<EntryView>::empty());
        }
    }

    /// The whole collection, keys in lexicographic order, moves in priority
    /// order: the deterministic export.
    pub fn export_all(&self) -> (r: Vec<OpeningBookEntry>)
        ensures
            entries_view(r@) == self@,
    {
        let mut r: Vec<OpeningBookEntry> = Vec::new();
        let mut i: usize = 0;
        while i < self.entries.len()
            invariant
                i <= self.entries.len(),
                self@.len() == self.entries@.len(),
                r@.len() == i,
                entries_view(r@) =~= self@.take(i as int),
            decreases self.entries.len() - i,
        {
            r.push(self.entries[i].clone());
            proof {
                assert(self@[i as int] == self.entries@[i as int]@);
                assert(entries_view(r@) =~= self@.take(i as int + 1));
            }
            i = i + 1;
        }
        proof {
            assert(entries_view(r@) =~= self@);
        }
        r
    }
}

// ---------------------------------------------------------------------------
// Bulk import
// ---------------------------------------------------------------------------
/// Whether a record may be stored: both identity strings non-empty.
pub open spec fn valid_record(fen: Seq<char>, m: MoveDataView) -> bool {
    fen.len() > 0 && m.uci_move.len() > 0
}

/// Replays the records of one entry into the book, skipping invalid ones.
pub open spec fn import_moves(b: Seq<EntryView>, fen: Seq<char>, ms: Seq<MoveDataView>) -> Seq<
    EntryView,
>
    decreases ms.len(),
{
    if ms.len() == 0 {
        b
    } else {
        let b2 = if valid_record(fen, ms[0]) {
            upsert_book(b, fen, ms[0])
        } else {
            b
        };
        import_moves(b2, fen, ms.drop_first())
    }
}

/// Replays a whole supplied collection into the book, entry by entry.
pub open spec fn import_book(b: Seq<EntryView>, es: Seq<EntryView>) -> Seq<EntryView>
    decreases es.len(),
{
    if es.len() == 0 {
        b
    } else {
        import_book(import_moves(b, es[0].fen, es[0].moves), es.drop_first())
    }
}

/// How many records of one entry are stored.
pub open spec fn import_moves_count(fen: Seq<char>, ms: Seq<MoveDataView>) -> int
    decreases ms.len(),
{
    if ms.len() == 0 {
        0int
    } else {
        (if valid_record(fen, ms[0]) {
            1int
        } else {
            0int
        }) + import_moves_count(fen, ms.drop_first())
    }
}

/// How many records of the supplied collection are stored.
pub open spec fn import_count(es: Seq<EntryView>) -> int
    decreases es.len(),
{
    if es.len() == 0 {
        0int
    } else {
        import_moves_count(es[0].fen, es[0].moves) + import_count(es.drop_first())
    }
}

/// The description reported for one rejected record.
pub open spec fn import_error_message(mv: Seq<char>) -> Seq<char> {
    "failed to import move "@ + mv + ": position key and move notation must be non-empty"@
}

/// The descriptions of the rejected records of one entry, in order.
pub open spec fn import_moves_errors(fen: Seq<char>, ms: Seq<MoveDataView>) -> Seq<Seq<char>>
    decreases ms.len(),
{
    if ms.len() == 0 {
        Seq::empty()
    } else {
        (if valid_record(fen, ms[0]) {
            Seq::<Seq<char>>::empty()
        } else {
            seq![import_error_message(ms[0].uci_move)]
        }) + import_moves_errors(fen, ms.drop_first())
    }
}

/// The descriptions of all rejected records, in order.
pub open spec fn import_errors(es: Seq<EntryView>) -> Seq<Seq<char>>
    decreases es.len(),
{
    if es.len() == 0 {
        Seq::empty()
    } else {
        import_moves_errors(es[0].fen, es[0].moves) + import_errors(es.drop_first())
    }
}

/// The models of a list of strings.
pub open spec fn strings_view(v: Seq<String>) -> Seq<Seq<char>> {
    v.map_values(|s: String| s@)
}

impl OpeningBook {
    /// Stores every record of the supplied collection, one upsert each,
    /// continuing past invalid records.  Returns how many records were
    /// stored (saturating) and one description per rejected record.
    pub fn import_entries(&mut self, entries: &Vec<OpeningBookEntry>) -> (r: (u64, Vec<String>))
        requires
            old(self).inv(),
        ensures
            final(self).inv(),
            final(self)@ == import_book(old(self)@, entries_view(entries@)),
            r.0 == spec_sat64(import_count(entries_view(entries@))),
            strings_view(r.1@) == import_errors(entries_view(entries@)),
    {
        let ghost b0 = self@;
        let ghost es = entries_view(entries@);
        let mut count: u64 = 0;
        let ghost mut count_exact: int = 0int;
        let mut errors: Vec<String> = Vec::new();
        let mut k: usize = 0;
        proof {
            assert(es.skip(0) =~= es);
            assert(strings_view(errors@) =~= Seq::<Seq<char>>::empty());
            assert(strings_view(errors@) + import_errors(es) =~= import_errors(es));
        }
        while k < entries.len()
            invariant
                k <= entries.len(),
                entries@.len() == es.len(),
                es == entries_view(entries@),
                self.inv(),
                import_book(self@, es.skip(k as int)) == import_book(b0, es),
                count_exact >= 0,
                count == spec_sat64(count_exact),
                count_exact + import_count(es.skip(k as int)) == import_count(es),
                strings_view(errors@) + import_errors(es.skip(k as int)) == import_errors(es),
            decreases entries.len() - k,
        {
            let ghost ek = es[k as int];
            let ghost fen = ek.fen;
            let ghost ms = ek.moves;
            proof {
                assert(ek == entries@[k as int]@);
                assert(es.skip(k as int)[0] == ek);
                assert(es.skip(k as int).drop_first() =~= es.skip(k as int + 1));
                assert(ms.skip(0) =~= ms);
            }
            let mut j: usize = 0;
            while j < entries[k].moves.len()
                invariant
                    k < entries.len(),
                    entries@.len() == es.len(),
                    es == entries_view(entries@),
                    ek == es[k as int],
                    fen == ek.fen,
                    ms == ek.moves,
                    ms.len() == entries@[k as int].moves@.len(),
                    j <= ms.len(),
                    self.inv(),
                    import_book(
                        import_moves(self@, fen, ms.skip(j as int)),
                        es.skip(k as int + 1),
                    ) == import_book(b0, es),
                    count_exact >= 0,
                    count == spec_sat64(count_exact),
                    count_exact + import_moves_count(fen, ms.skip(j as int)) + import_count(
                        es.skip(k as int + 1),
                    ) == import_count(es),
                    strings_view(errors@) + import_moves_errors(fen, ms.skip(j as int))
                        + import_errors(es.skip(k as int + 1)) == import_errors(es),
                decreases ms.len() - j,
            {
                let ghost m = ms[j as int];
                proof {
                    assert(ek == entries@[k as int]@);
                    assert(fen == entries@[k as int].fen@);
                    assert(m == moves_view(entries@[k as int].moves@)[j as int]);
                    assert(m == entries@[k as int].moves@[j as int]@);
                    assert(ms.skip(j as int)[0] == m);
                    assert(ms.skip(j as int).drop_first() =~= ms.skip(j as int + 1));
                }
                let fen_ok = !entries[k].fen.as_str().is_empty();
                let mv_ok = !entries[k].moves[j].uci_move.as_str().is_empty();
                if fen_ok && mv_ok {
                    let ghost b_prev = self@;
                    let record = entries[k].moves[j].clone();
                    self.upsert_record(entries[k].fen.as_str(), record);
                    if count < u64::MAX {
                        count = count + 1;
                    }
                    proof {
                        count_exact = count_exact + 1;
                        assert(valid_record(fen, m));
                        assert(self@ == upsert_book(b_prev, fen, m));
                        assert(import_moves(b_prev, fen, ms.skip(j as int)) == import_moves(
                            self@,
                            fen,
                            ms.skip(j as int + 1),
                        ));
                        assert(import_moves_count(fen, ms.skip(j as int)) == 1
                            + import_moves_count(fen, ms.skip(j as int + 1)));
                        assert(import_moves_errors(fen, ms.skip(j as int)) =~= import_moves_errors(
                            fen,
                            ms.skip(j as int + 1),
                        ));
                    }
                } else {
                    let mut msg = "failed to import move ".to_owned();
                    msg.append(entries[k].moves[j].uci_move.as_str());
                    msg.append(": position key and move notation must be non-empty");
                    let ghost errs0 = errors@;
                    errors.push(msg);
                    proof {
                        assert(!valid_record(fen, m));
                        assert(import_moves(self@, fen, ms.skip(j as int)) == import_moves(
                            self@,
                            fen,
                            ms.skip(j as int + 1),
                        ));
                        assert(import_moves_count(fen, ms.skip(j as int)) == import_moves_count(
                            fen,
                            ms.skip(j as int + 1),
                        ));
                        assert(import_moves_errors(fen, ms.skip(j as int))
                            =~= seq![import_error_message(m.uci_move)] + import_moves_errors(
                            fen,
                            ms.skip(j as int + 1),
                        ));
                        assert(strings_view(errors@) =~= strings_view(errs0).push(
                            import_error_message(m.uci_move),
                        ));
                        assert(strings_view(errors@) + import_moves_errors(
                            fen,
                            ms.skip(j as int + 1),
                        ) + import_errors(es.skip(k as int + 1)) =~= strings_view(errs0)
                            + import_moves_errors(fen, ms.skip(j as int)) + import_errors(
                            es.skip(k as int + 1),
                        ));
                    }
                }
                j = j + 1;
            }
            proof {
                assert(ms.skip(ms.len() as int).len() == 0);
                assert(import_moves(self@, fen, ms.skip(ms.len() as int)) == self@);
            }
            k = k + 1;
        }
        proof {
            assert(es.skip(es.len() as int).len() == 0);
            assert(import_book(self@, es.skip(es.len() as int)) == self@);
            assert(strings_view(errors@) + import_errors(es.skip(es.len() as int))
                =~= strings_view(errors@));
            assert(strings_view(errors@) =~= import_errors(es));
        }
        (count, errors)
    }
}

// ---------------------------------------------------------------------------
// Laws
// ---------------------------------------------------------------------------
/// Upsert idempotence: storing the same record twice leaves the book as it
/// was after the first call, and the second call reports an overwrite.
pub proof fn lemma_upsert_idempotent(b: Seq<EntryView>, fen: Seq<char>, m: MoveDataView)
    requires
        book_wf(b),
        fen.len() > 0,
        m.uci_move.len() > 0,
    ensures
        upsert_book(upsert_book(b, fen, m), fen, m) == upsert_book(b, fen, m),
        !upsert_is_new(upsert_book(b, fen, m), fen, m.uci_move),
{
    let b1 = upsert_book(b, fen, m);
    lemma_upsert_book_wf(b, fen, m);
    let e0 = entry_index(b, fen);
    lemma_entry_index(b, fen);
    if e0 >= 0 {
        let ms0 = b[e0].moves;
        let ms1 = upsert_moves(ms0, m);
        lemma_upsert_moves_wf(ms0, m);
        assert(b1[e0] == EntryView { fen: b[e0].fen, moves: ms1 });
        lemma_entry_index_unique(b1, e0);
        let i0 = move_index(ms0, m.uci_move);
        lemma_move_index(ms0, m.uci_move);
        let k: int = if i0 >= 0 {
            if ms0[i0].priority == m.priority {
                i0
            } else {
                move_insert_pos(ms0.remove(i0), m.priority)
            }
        } else {
            move_insert_pos(ms0, m.priority)
        };
        if i0 >= 0 {
            if ms0[i0].priority != m.priority {
                lemma_move_insert_pos(ms0.remove(i0), m.priority);
            }
        } else {
            lemma_move_insert_pos(ms0, m.priority);
        }
        assert(ms1[k] == m);
        lemma_move_index_unique(ms1, k);
        assert(move_index(ms1, m.uci_move) == k);
        assert(ms1.update(k, m) =~= ms1);
        assert(upsert_book(b1, fen, m) == b1.update(
            e0,
            EntryView { fen: b1[e0].fen, moves: ms1 },
        ));
        assert(upsert_book(b1, fen, m) =~= b1);
    } else {
        let pos = key_insert_pos(b, fen);
        lemma_key_insert_pos(b, fen);
        assert(b1[pos] == EntryView { fen: fen, moves: seq![m] });
        lemma_entry_index_unique(b1, pos);
        assert(seq![m][0] == m);
        lemma_move_index_unique(seq![m], 0);
        assert(seq![m].update(0, m) =~= seq![m]);
        assert(upsert_book(b1, fen, m) =~= b1);
    }
}

/// Upserting under a key greater than every stored key appends a fresh
/// entry at the end.
pub proof fn lemma_upsert_fresh_max_key(b: Seq<EntryView>, fen: Seq<char>, m: MoveDataView)
    requires
        book_wf(b),
        forall|j: int| 0 <= j < b.len() ==> str_lt((#[trigger] b[j]).fen, fen),
    ensures
        upsert_book(b, fen, m) == b.push(EntryView { fen: fen, moves: seq![m] }),
{
    lemma_entry_index(b, fen);
    let e = entry_index(b, fen);
    if e >= 0 {
        lemma_str_lt_trichotomy(b[e].fen, fen);
    }
    lemma_key_insert_pos(b, fen);
    let pos = key_insert_pos(b, fen);
    if pos < b.len() {
        lemma_str_lt_trichotomy(fen, b[pos].fen);
        assert(false);
    }
    assert(b.insert(b.len() as int, EntryView { fen: fen, moves: seq![m] }) =~= b.push(
        EntryView { fen: fen, moves: seq![m] },
    ));
}

/// Upserting a record of the last entry's key, with a notation the entry
/// does not hold and a priority no higher than any it holds, appends the
/// record at the end of that entry.
pub proof fn lemma_upsert_last_entry_append(b: Seq<EntryView>, m: MoveDataView)
    requires
        book_wf(b),
        b.len() > 0,
        forall|j: int|
            0 <= j < b.last().moves.len() ==> (#[trigger] b.last().moves[j]).uci_move
                != m.uci_move,
        forall|j: int|
            0 <= j < b.last().moves.len() ==> (#[trigger] b.last().moves[j]).priority
                >= m.priority,
    ensures
        upsert_book(b, b.last().fen, m) == b.update(
            b.len() - 1,
            EntryView { fen: b.last().fen, moves: b.last().moves.push(m) },
        ),
{
    let k = b.len() - 1;
    lemma_entry_index_unique(b, k);
    let ms = b[k].moves;
    assert(b.last() == b[k]);
    lemma_move_index(ms, m.uci_move);
    let mi = move_index(ms, m.uci_move);
    if mi >= 0 {
        assert(b.last().moves[mi].uci_move != m.uci_move);
        assert(false);
    }
    lemma_move_insert_pos(ms, m.priority);
    let pos = move_insert_pos(ms, m.priority);
    if pos < ms.len() {
        assert(b.last().moves[pos].priority >= m.priority);
        assert(false);
    }
    assert(ms.insert(ms.len() as int, m) =~= ms.push(m));
}

/// Uniqueness: under every key of a well-formed book, no two records share
/// a move notation.
pub proof fn lemma_move_notations_unique(b: Seq<EntryView>, k: int, p: int, q: int)
    requires
        book_wf(b),
        0 <= k < b.len(),
        0 <= p < q < b[k].moves.len(),
    ensures
        b[k].moves[p].uci_move != b[k].moves[q].uci_move,
{
    assert(entry_wf(b[k]));
}

/// Deletion correctness: deleting a pair that is not stored changes nothing.
pub proof fn lemma_delete_absent(b: Seq<EntryView>, fen: Seq<char>, mv: Seq<char>)
    requires
        !book_contains(b, fen, mv),
    ensures
        delete_book(b, fen, mv) == b,
{
}

/// Aggregate correctness: the position count equals the number of distinct
/// keys of the export, and the move count the number of records under them.
pub proof fn lemma_stats_aggregate(b: Seq<EntryView>)
    requires
        book_wf(b),
    ensures
        stats_of(b).total_positions == spec_sat64(b.len() as int),
        stats_of(b).total_moves == spec_sat64(count_moves(b)),
        forall|i: int, j: int|
            0 <= i < b.len() && 0 <= j < b.len() && i != j ==> b[i].fen != b[j].fen,
{
    assert forall|i: int, j: int|
        0 <= i < b.len() && 0 <= j < b.len() && i != j implies b[i].fen != b[j].fen by {
        if i < j {
            assert(str_lt(b[i].fen, b[j].fen));
            lemma_str_lt_trichotomy(b[i].fen, b[j].fen);
        } else {
            assert(str_lt(b[j].fen, b[i].fen));
            lemma_str_lt_trichotomy(b[j].fen, b[i].fen);
        }
    }
}

/// Finds the record with the given notation in one move list.
fn find_move(ms: &Vec<MoveData>, mv: &str) -> (r: Option<usize>)
    ensures
        match r {
            Some(i) => move_index(moves_view(ms@), mv@) == i as int && i < ms@.len(),
            None => move_index(moves_view(ms@), mv@) < 0,
        },
{
    let mut i: usize = 0;
    while i < ms.len()
        invariant
            i <= ms.len(),
            forall|j: int| 0 <= j < i ==> moves_view(ms@)[j].uci_move != mv@,
        decreases ms.len() - i,
    {
        proof {
            assert(moves_view(ms@)[i as int] == ms@[i as int]@);
        }
        if str_eq_exec(ms[i].uci_move.as_str(), mv) {
            proof {
                lemma_move_index(moves_view(ms@), mv@);
            }
            return Some(i);
        }
        i = i + 1;
    }
    proof {
        lemma_move_index(moves_view(ms@), mv@);
    }
    None
}

/// Finds the rank a record of the given priority is inserted at.
fn find_move_pos(ms: &Vec<MoveData>, p: i64) -> (r: usize)
    ensures
        r as int == move_insert_pos(moves_view(ms@), p),
        r <= ms@.len(),
{
    let mut i: usize = 0;
    loop
        invariant
            i <= ms.len(),
            forall|j: int| 0 <= j < i ==> moves_view(ms@)[j].priority >= p,
        decreases ms.len() - i,
    {
        if i == ms.len() {
            proof {
                lemma_move_insert_pos(moves_view(ms@), p);
            }
            return i;
        }
        proof {
            assert(moves_view(ms@)[i as int] == ms@[i as int]@);
        }
        if ms[i].priority < p {
            proof {
                lemma_move_insert_pos(moves_view(ms@), p);
            }
            return i;
        }
        i = i + 1;
    }
}

} // verus!
