//! Data model of the opening book: move records, requests, grouped entries,
//! aggregate statistics and the error kinds of the store.

use vstd::prelude::*;

verus! {

/// One candidate move stored under a position key.  The move notation is the
/// identity component; the remaining fields are annotations that an upsert
/// replaces wholesale.
#[derive(Debug, PartialEq, Eq)]
pub struct MoveData {
    pub uci_move: String,
    pub priority: i64,
    pub wins: u64,
    pub draws: u64,
    pub losses: u64,
    pub allowed: bool,
    pub comment: String,
}

/// Mathematical model of a [`MoveData`] value.
#[verifier::ext_equal]
pub struct MoveDataView {
    pub uci_move: Seq<char>,
    pub priority: i64,
    pub wins: u64,
    pub draws: u64,
    pub losses: u64,
    pub allowed: bool,
    pub comment: Seq<char>,
}

impl View for MoveData {
    type V = MoveDataView;

    open spec fn view(&self) -> MoveDataView {
        MoveDataView {
            uci_move: self.uci_move@,
            priority: self.priority,
            wins: self.wins,
            draws: self.draws,
            losses: self.losses,
            allowed: self.allowed,
            comment: self.comment@,
        }
    }
}

impl Clone for MoveData {
    fn clone(&self) -> (r: Self)
        ensures
            r@ == self@,
    {
        MoveData {
            uci_move: self.uci_move.clone(),
            priority: self.priority,
            wins: self.wins,
            draws: self.draws,
            losses: self.losses,
            allowed: self.allowed,
            comment: self.comment.clone(),
        }
    }
}

/// The input of one upsert: the position key, the move identity and the new
/// values of every annotation field.
pub struct AddEntryRequest {
    pub fen: String,
    pub uci_move: String,
    pub priority: i64,
    pub wins: u64,
    pub draws: u64,
    pub losses: u64,
    pub allowed: bool,
    pub comment: String,
}

impl AddEntryRequest {
    /// The move record that this request stores.
    pub open spec fn record_view(&self) -> MoveDataView {
        MoveDataView {
            uci_move: self.uci_move@,
            priority: self.priority,
            wins: self.wins,
            draws: self.draws,
            losses: self.losses,
            allowed: self.allowed,
            comment: self.comment@,
        }
    }

    /// A request is well formed when both identity strings are non-empty.
    pub open spec fn valid(&self) -> bool {
        self.fen@.len() > 0 && self.uci_move@.len() > 0
    }
}

/// All moves stored under one position key, in priority order.
#[derive(Debug, PartialEq, Eq)]
pub struct OpeningBookEntry {
    pub fen: String,
    pub moves: Vec<MoveData>,
}

/// Mathematical model of an [`OpeningBookEntry`] value.
#[verifier::ext_equal]
pub struct EntryView {
    pub fen: Seq<char>,
    pub moves: Seq<MoveDataView>,
}

/// The models of a sequence of move records.
pub open spec fn moves_view(ms: Seq<MoveData>) -> Seq<MoveDataView> {
    ms.map_values(|m: MoveData| m@)
}

/// The models of a sequence of entries.
pub open spec fn entries_view(es: Seq<OpeningBookEntry>) -> Seq<EntryView> {
    es.map_values(|e: OpeningBookEntry| e@)
}

impl View for OpeningBookEntry {
    type V = EntryView;

    open spec fn view(&self) -> EntryView {
        EntryView { fen: self.fen@, moves: moves_view(self.moves@) }
    }
}

/// Clones a move list, record by record.
pub fn clone_moves(ms: &Vec<MoveData>) -> (r: Vec<MoveData>)
    ensures
        moves_view(r@) == moves_view(ms@),
{
    let mut r: Vec<MoveData> = Vec::new();
    let mut i: usize = 0;
    while i < ms.len()
        invariant
            i <= ms.len(),
            r@.len() == i,
            moves_view(r@) =~= moves_view(ms@).take(i as int),
        decreases ms.len() - i,
    {
        r.push(ms[i].clone());
        proof {
            assert(moves_view(r@) =~= moves_view(ms@).take(i as int + 1));
        }
        i = i + 1;
    }
    proof {
        assert(moves_view(r@) =~= moves_view(ms@));
    }
    r
}

impl Clone for OpeningBookEntry {
    fn clone(&self) -> (r: Self)
        ensures
            r@ == self@,
    {
        let r = OpeningBookEntry { fen: self.fen.clone(), moves: clone_moves(&self.moves) };
        proof {
            assert(r@ =~= self@);
        }
        r
    }
}

/// Inserting a record commutes with taking views.
pub proof fn lemma_moves_view_insert(s: Seq<MoveData>, i: int, m: MoveData)
    requires
        0 <= i <= s.len(),
    ensures
        moves_view(s.insert(i, m)) == moves_view(s).insert(i, m@),
{
    assert(moves_view(s.insert(i, m)) =~= moves_view(s).insert(i, m@));
}

/// Removing a record commutes with taking views.
pub proof fn lemma_moves_view_remove(s: Seq<MoveData>, i: int)
    requires
        0 <= i < s.len(),
    ensures
        moves_view(s.remove(i)) == moves_view(s).remove(i),
{
    assert(moves_view(s.remove(i)) =~= moves_view(s).remove(i));
}

/// Inserting an entry commutes with taking views.
pub proof fn lemma_entries_view_insert(s: Seq<OpeningBookEntry>, i: int, e: OpeningBookEntry)
    requires
        0 <= i <= s.len(),
    ensures
        entries_view(s.insert(i, e)) == entries_view(s).insert(i, e@),
{
    assert(entries_view(s.insert(i, e)) =~= entries_view(s).insert(i, e@));
}

/// Removing an entry commutes with taking views.
pub proof fn lemma_entries_view_remove(s: Seq<OpeningBookEntry>, i: int)
    requires
        0 <= i < s.len(),
    ensures
        entries_view(s.remove(i)) == entries_view(s).remove(i),
{
    assert(entries_view(s.remove(i)) =~= entries_view(s).remove(i));
}

/// Aggregate counts derived from the whole collection by a full scan: the
/// number of position keys and the number of move records.  Each count
/// saturates at `u64::MAX`.
#[derive(Clone, Copy, PartialEq, Eq, Structural, Debug)]
pub struct OpeningBookStats {
    pub total_positions: u64,
    pub total_moves: u64,
}

/// The error kinds of the store.  `ValidationError` reports a malformed
/// request, `CorruptDatabase` a database file that does not decode, and
/// `IoError` a failed read, write or rename in the unverified layer.
#[derive(Clone, Copy, PartialEq, Eq, Structural, Debug)]
pub enum BookError {
    ValidationError,
    CorruptDatabase,
    IoError,
}

impl BookError {
    /// A human-readable description of the error.
    pub fn message(&self) -> (r: String)
        ensures
            *self is ValidationError ==> r@ == "position key and move notation must be non-empty"@,
            *self is CorruptDatabase ==> r@ == "database file is corrupt"@,
            *self is IoError ==> r@ == "failed to read or write the database file"@,
    {
        match self {
            BookError::ValidationError => "position key and move notation must be non-empty".to_owned(),
            BookError::CorruptDatabase => "database file is corrupt".to_owned(),
            BookError::IoError => "failed to read or write the database file".to_owned(),
        }
    }
}

} // verus!
