//! The record codec: the byte-level contract of the database file.
//!
//! A file is a sequence of records; each record carries its position key and
//! one move.  Strings are stored as a little-endian `u64` byte count followed
//! by their UTF-8 bytes; the numeric fields are little-endian `u64` words
//! (the priority in two's complement, the flag as 0 or 1).  An empty file is
//! an empty book.  Decoding replays each record as an upsert, so decoding
//! what [`encode_book`] produced rebuilds the identical book (the round-trip
//! law, [`lemma_encode_decode_round_trip`]); any truncated or malformed file
//! is rejected as a whole.

use vstd::bytes::{lemma_auto_spec_u64_to_from_le_bytes, spec_u64_from_le_bytes,
    spec_u64_to_le_bytes, u64_from_le_bytes, u64_to_le_bytes};
use vstd::prelude::*;
use vstd::slice::{slice_subrange, slice_to_vec};
use vstd::string::StrSliceExecFns;
use vstd::utf8::{decode_utf8, encode_utf8, encode_utf8_decode_utf8, encode_utf8_valid_utf8,
    valid_utf8};

use crate::index::{book_wf, entry_wf, lemma_upsert_fresh_max_key, lemma_upsert_last_entry_append,
    moves_wf, upsert_book, OpeningBook};
use crate::order::str_lt;
use crate::types::{entries_view, moves_view, AddEntryRequest, BookError, EntryView, MoveData,
    MoveDataView};

verus! {

// ---------------------------------------------------------------------------
// Encoding
// ---------------------------------------------------------------------------
/// A string whose UTF-8 form fits the length prefix.  Every string a machine
/// can hold does.
pub open spec fn str_fits(s: Seq<char>) -> bool {
    encode_utf8(s).len() <= u64::MAX
}

/// The encoding of one string: length prefix, then UTF-8 bytes.
pub open spec fn encode_str(s: Seq<char>) -> Seq<u8> {
    spec_u64_to_le_bytes(encode_utf8(s).len() as u64) + encode_utf8(s)
}

/// The word that stores the enabled flag.
pub open spec fn flag_word(allowed: bool) -> u64 {
    if allowed {
        1u64
    } else {
        0u64
    }
}

/// The encoding of one record: position key, move notation, priority, the
/// three counters, the enabled flag, and the comment.
pub open spec fn encode_record(fen: Seq<char>, m: MoveDataView) -> Seq<u8> {
    encode_str(fen) + encode_str(m.uci_move) + spec_u64_to_le_bytes(m.priority as u64)
        + spec_u64_to_le_bytes(m.wins) + spec_u64_to_le_bytes(m.draws) + spec_u64_to_le_bytes(
        m.losses,
    ) + spec_u64_to_le_bytes(flag_word(m.allowed)) + encode_str(m.comment)
}

/// The encoding of the records of one entry, in move order.
pub open spec fn encode_moves(fen: Seq<char>, ms: Seq<MoveDataView>) -> Seq<u8>
    decreases ms.len(),
{
    if ms.len() == 0 {
        Seq::empty()
    } else {
        encode_record(fen, ms[0]) + encode_moves(fen, ms.drop_first())
    }
}

/// The encoding of the whole book, entries in key order.
pub open spec fn encode_book(b: Seq<EntryView>) -> Seq<u8>
    decreases b.len(),
{
    if b.len() == 0 {
        Seq::empty()
    } else {
        encode_moves(b[0].fen, b[0].moves) + encode_book(b.drop_first())
    }
}

/// Whether every string of a record fits its length prefix.
pub open spec fn record_fits(fen: Seq<char>, m: MoveDataView) -> bool {
    str_fits(fen) && str_fits(m.uci_move) && str_fits(m.comment)
}

/// Whether every string of an entry fits its length prefix.
pub open spec fn entry_fits(e: EntryView) -> bool {
    &&& str_fits(e.fen)
    &&& forall|j: int| 0 <= j < e.moves.len() ==> record_fits(e.fen, #[trigger] e.moves[j])
}

/// Whether every string of a book fits its length prefix.
pub open spec fn book_fits(b: Seq<EntryView>) -> bool {
    forall|k: int| 0 <= k < b.len() ==> entry_fits(#[trigger] b[k])
}

// ---------------------------------------------------------------------------
// Decoding
// ---------------------------------------------------------------------------
/// Reads one little-endian word at `i`; yields the word and the position
/// after it.
pub open spec fn parse_u64(s: Seq<u8>, i: int) -> Option<(u64, int)> {
    if 0 <= i && i + 8 <= s.len() {
        Some((spec_u64_from_le_bytes(s.subrange(i, i + 8)), i + 8))
    } else {
        None
    }
}

/// Reads one length-prefixed string at `i`.
pub open spec fn parse_str(s: Seq<u8>, i: int) -> Option<(Seq<char>, int)> {
    match parse_u64(s, i) {
        None => None,
        Some((n, j)) => {
            if j + n <= s.len() {
                let bs = s.subrange(j, j + n);
                if valid_utf8(bs) {
                    Some((decode_utf8(bs), j + n))
                } else {
                    None
                }
            } else {
                None
            }
        },
    }
}

/// Reads one record at `i`: both identity strings must be non-empty and the
/// flag word 0 or 1, else the record is malformed.
pub open spec fn parse_record(s: Seq<u8>, i: int) -> Option<(Seq<char>, MoveDataView, int)> {
    match parse_str(s, i) {
        None => None,
        Some((fen, i1)) => match parse_str(s, i1) {
            None => None,
            Some((mv, i2)) => match parse_u64(s, i2) {
                None => None,
                Some((pr, i3)) => match parse_u64(s, i3) {
                    None => None,
                    Some((wins, i4)) => match parse_u64(s, i4) {
                        None => None,
                        Some((draws, i5)) => match parse_u64(s, i5) {
                            None => None,
                            Some((losses, i6)) => match parse_u64(s, i6) {
                                None => None,
                                Some((flag, i7)) => match parse_str(s, i7) {
                                    None => None,
                                    Some((comment, i8)) => {
                                        if fen.len() > 0 && mv.len() > 0 && (flag == 0 || flag
                                            == 1) {
                                            Some(
                                                (
                                                    fen,
                                                    MoveDataView {
                                                        uci_move: mv,
                                                        priority: pr as i64,
                                                        wins: wins,
                                                        draws: draws,
                                                        losses: losses,
                                                        allowed: flag == 1,
                                                        comment: comment,
                                                    },
                                                    i8,
                                                ),
                                            )
                                        } else {
                                            None
                                        }
                                    },
                                },
                            },
                        },
                    },
                },
            },
        },
    }
}

/// Replays the records from `i` on into `acc`, one upsert each; the whole
/// file is rejected on the first malformed record.
pub open spec fn parse_book_from(s: Seq<u8>, i: int, acc: Seq<EntryView>) -> Option<
    Seq<EntryView>,
>
    decreases s.len() - i,
{
    if i == s.len() {
        Some(acc)
    } else if i < 0 || i > s.len() {
        None
    } else {
        match parse_record(s, i) {
            None => None,
            Some((fen, m, j)) => {
                if i < j <= s.len() {
                    parse_book_from(s, j, upsert_book(acc, fen, m))
                } else {
                    None
                }
            },
        }
    }
}

/// The book a file decodes to, if it is well formed.
pub open spec fn decode_book(s: Seq<u8>) -> Option<Seq<EntryView>> {
    parse_book_from(s, 0, Seq::empty())
}

// ---------------------------------------------------------------------------
// Parsing back what was encoded
// ---------------------------------------------------------------------------
/// Casting a priority through its storage word is lossless.
pub proof fn lemma_priority_word_roundtrip(p: i64)
    ensures
        ((p as u64) as i64) == p,
{
    assert(((p as u64) as i64) == p) by (bit_vector);
}

/// A word planted at `i` parses back.
pub proof fn lemma_parse_u64_exact(s: Seq<u8>, i: int, x: u64)
    requires
        0 <= i,
        i + 8 <= s.len(),
        s.subrange(i, i + 8) == spec_u64_to_le_bytes(x),
    ensures
        parse_u64(s, i) == Some((x, i + 8)),
{
    lemma_auto_spec_u64_to_from_le_bytes();
}

/// A length-prefixed string planted at `i` parses back.
pub proof fn lemma_parse_str_exact(s: Seq<u8>, i: int, cs: Seq<char>)
    requires
        str_fits(cs),
        0 <= i,
        i + encode_str(cs).len() <= s.len(),
        s.subrange(i, i + encode_str(cs).len()) == encode_str(cs),
    ensures
        encode_str(cs).len() >= 8,
        parse_str(s, i) == Some((cs, i + encode_str(cs).len())),
{
    let bs = encode_utf8(cs);
    let n = bs.len() as u64;
    let l = encode_str(cs).len() as int;
    lemma_auto_spec_u64_to_from_le_bytes();
    assert(encode_str(cs) == spec_u64_to_le_bytes(n) + bs);
    assert(spec_u64_to_le_bytes(n).len() == 8);
    assert(s.subrange(i, i + 8) =~= encode_str(cs).subrange(0, 8));
    assert(encode_str(cs).subrange(0, 8) =~= spec_u64_to_le_bytes(n));
    lemma_parse_u64_exact(s, i, n);
    assert(n as int == bs.len());
    assert(s.subrange(i + 8, i + 8 + n) =~= encode_str(cs).subrange(8, l));
    assert(encode_str(cs).subrange(8, l) =~= bs);
    encode_utf8_valid_utf8(cs);
    broadcast use encode_utf8_decode_utf8;

    assert(decode_utf8(bs) == cs);
}

/// The length of an encoded record: three strings and five words.
pub proof fn lemma_encode_record_len(fen: Seq<char>, m: MoveDataView)
    ensures
        encode_record(fen, m).len() == encode_str(fen).len() + encode_str(m.uci_move).len() + 40
            + encode_str(m.comment).len(),
        encode_record(fen, m).len() >= 64,
{
    lemma_auto_spec_u64_to_from_le_bytes();
}

/// A record planted at `i` parses back.
#[verifier::rlimit(100)]
pub proof fn lemma_parse_record_exact(s: Seq<u8>, i: int, fen: Seq<char>, m: MoveDataView)
    requires
        record_fits(fen, m),
        fen.len() > 0,
        m.uci_move.len() > 0,
        0 <= i,
        i + encode_record(fen, m).len() <= s.len(),
        s.subrange(i, i + encode_record(fen, m).len()) == encode_record(fen, m),
    ensures
        parse_record(s, i) == Some((fen, m, i + encode_record(fen, m).len())),
{
    let rec = encode_record(fen, m);
    let l = rec.len() as int;
    lemma_auto_spec_u64_to_from_le_bytes();
    lemma_encode_record_len(fen, m);
    let a1 = encode_str(fen).len() as int;
    let a2 = encode_str(m.uci_move).len() as int;
    let a3 = encode_str(m.comment).len() as int;
    let i1 = i + a1;
    let i2 = i1 + a2;
    let i7 = i2 + 40;
    assert forall|x: int, y: int| i <= x <= y <= i + l implies s.subrange(x, y) =~= rec.subrange(
        x - i,
        y - i,
    ) by {
        assert forall|t: int| 0 <= t < y - x implies s.subrange(x, y)[t] == rec.subrange(
            x - i,
            y - i,
        )[t] by {
            assert(s.subrange(x, y)[t] == s.subrange(i, i + l)[x - i + t]);
        }
    }
    assert(s.subrange(i, i1) =~= encode_str(fen)) by {
        assert(rec.subrange(0, a1) =~= encode_str(fen));
    }
    lemma_parse_str_exact(s, i, fen);
    assert(s.subrange(i1, i2) =~= encode_str(m.uci_move)) by {
        assert(rec.subrange(a1, a1 + a2) =~= encode_str(m.uci_move));
    }
    lemma_parse_str_exact(s, i1, m.uci_move);
    assert(s.subrange(i2, i2 + 8) =~= spec_u64_to_le_bytes(m.priority as u64)) by {
        assert(rec.subrange(a1 + a2, a1 + a2 + 8) =~= spec_u64_to_le_bytes(m.priority as u64));
    }
    lemma_parse_u64_exact(s, i2, m.priority as u64);
    assert(s.subrange(i2 + 8, i2 + 16) =~= spec_u64_to_le_bytes(m.wins)) by {
        assert(rec.subrange(a1 + a2 + 8, a1 + a2 + 16) =~= spec_u64_to_le_bytes(m.wins));
    }
    lemma_parse_u64_exact(s, i2 + 8, m.wins);
    assert(s.subrange(i2 + 16, i2 + 24) =~= spec_u64_to_le_bytes(m.draws)) by {
        assert(rec.subrange(a1 + a2 + 16, a1 + a2 + 24) =~= spec_u64_to_le_bytes(m.draws));
    }
    lemma_parse_u64_exact(s, i2 + 16, m.draws);
    assert(s.subrange(i2 + 24, i2 + 32) =~= spec_u64_to_le_bytes(m.losses)) by {
        assert(rec.subrange(a1 + a2 + 24, a1 + a2 + 32) =~= spec_u64_to_le_bytes(m.losses));
    }
    lemma_parse_u64_exact(s, i2 + 24, m.losses);
    assert(s.subrange(i2 + 32, i2 + 40) =~= spec_u64_to_le_bytes(flag_word(m.allowed))) by {
        assert(rec.subrange(a1 + a2 + 32, a1 + a2 + 40) =~= spec_u64_to_le_bytes(
            flag_word(m.allowed),
        ));
    }
    lemma_parse_u64_exact(s, i2 + 32, flag_word(m.allowed));
    assert(s.subrange(i7, i7 + a3) =~= encode_str(m.comment)) by {
        assert(rec.subrange(a1 + a2 + 40, l) =~= encode_str(m.comment));
    }
    lemma_parse_str_exact(s, i7, m.comment);
    lemma_priority_word_roundtrip(m.priority);
    assert(parse_record(s, i) == Some(
        (
            fen,
            MoveDataView {
                uci_move: m.uci_move,
                priority: (m.priority as u64) as i64,
                wins: m.wins,
                draws: m.draws,
                losses: m.losses,
                allowed: flag_word(m.allowed) == 1,
                comment: m.comment,
            },
            i7 + a3,
        ),
    ));
    assert(MoveDataView {
        uci_move: m.uci_move,
        priority: (m.priority as u64) as i64,
        wins: m.wins,
        draws: m.draws,
        losses: m.losses,
        allowed: flag_word(m.allowed) == 1,
        comment: m.comment,
    } =~= m);
}

// ---------------------------------------------------------------------------
// Round trip
// ---------------------------------------------------------------------------
/// A book prefix, closed by the already-replayed part of entry `k`, is a
/// well-formed book whose last entry holds the key of entry `k`.
proof fn lemma_partial_acc_wf(b: Seq<EntryView>, k: int, j0: int)
    requires
        book_wf(b),
        0 <= k < b.len(),
        0 < j0 <= b[k].moves.len(),
    ensures
        book_wf(b.take(k).push(EntryView { fen: b[k].fen, moves: b[k].moves.take(j0) })),
{
    let fen = b[k].fen;
    let ms = b[k].moves;
    let acc = b.take(k).push(EntryView { fen: fen, moves: ms.take(j0) });
    assert(entry_wf(b[k]));
    assert forall|p: int, q: int| 0 <= p < q < acc.len() implies str_lt(
        acc[p].fen,
        acc[q].fen,
    ) by {
        assert(acc[p] == b[p]);
        if q < k {
            assert(acc[q] == b[q]);
            assert(str_lt(b[p].fen, b[q].fen));
        } else {
            assert(str_lt(b[p].fen, b[k].fen));
        }
    }
    assert forall|p: int| 0 <= p < acc.len() implies entry_wf(#[trigger] acc[p]) by {
        if p < k {
            assert(acc[p] == b[p]);
            assert(entry_wf(b[p]));
        } else {
            assert(moves_wf(ms));
            assert(moves_wf(ms.take(j0))) by {
                assert forall|x: int, y: int| 0 <= x < y < j0 implies ms.take(j0)[x].uci_move
                    != ms.take(j0)[y].uci_move && ms.take(j0)[x].priority >= ms.take(
                    j0,
                )[y].priority by {
                    assert(ms[x].uci_move != ms[y].uci_move);
                    assert(ms[x].priority >= ms[y].priority);
                }
                assert forall|x: int| 0 <= x < j0 implies ms.take(j0)[x].uci_move.len() > 0 by {
                    assert(ms[x].uci_move.len() > 0);
                }
            }
        }
    }
}

/// Replaying the records of entry `k` after its first `j0` moves, then the
/// remaining entries, rebuilds the book.
#[verifier::rlimit(100)]
proof fn lemma_replay_moves(s: Seq<u8>, i: int, b: Seq<EntryView>, k: int, j0: int)
    requires
        book_wf(b),
        book_fits(b),
        0 <= k < b.len(),
        0 < j0 <= b[k].moves.len(),
        0 <= i <= s.len(),
        s.subrange(i, s.len() as int) == encode_moves(b[k].fen, b[k].moves.skip(j0))
            + encode_book(b.skip(k + 1)),
    ensures
        parse_book_from(
            s,
            i,
            b.take(k).push(EntryView { fen: b[k].fen, moves: b[k].moves.take(j0) }),
        ) == Some(b),
    decreases b.len() - k, b[k].moves.len() - j0 + 1,
{
    let fen = b[k].fen;
    let ms = b[k].moves;
    let acc = b.take(k).push(EntryView { fen: fen, moves: ms.take(j0) });
    assert(entry_wf(b[k]));
    assert(entry_fits(b[k]));
    if j0 == ms.len() {
        assert(ms.take(j0) =~= ms);
        assert(acc =~= b.take(k + 1));
        assert(ms.skip(j0).len() == 0);
        assert(s.subrange(i, s.len() as int) =~= encode_book(b.skip(k + 1)));
        lemma_replay_book(s, i, b, k + 1);
    } else {
        let m = ms[j0];
        assert(record_fits(fen, m));
        assert(m.uci_move.len() > 0);
        assert(ms.skip(j0)[0] == m);
        assert(ms.skip(j0).drop_first() =~= ms.skip(j0 + 1));
        assert(encode_moves(fen, ms.skip(j0)) == encode_record(fen, m) + encode_moves(
            fen,
            ms.skip(j0 + 1),
        ));
        lemma_encode_record_len(fen, m);
        let rl = encode_record(fen, m).len() as int;
        let tail = encode_moves(fen, ms.skip(j0 + 1)) + encode_book(b.skip(k + 1));
        assert(encode_moves(fen, ms.skip(j0)).len() == rl + encode_moves(
            fen,
            ms.skip(j0 + 1),
        ).len());
        assert(s.subrange(i, s.len() as int).len() == s.len() - i);
        assert(s.len() - i == rl + tail.len());
        assert(s.subrange(i, i + rl) =~= encode_record(fen, m)) by {
            assert forall|t: int| 0 <= t < rl implies s.subrange(i, i + rl)[t] == encode_record(
                fen,
                m,
            )[t] by {
                assert(s.subrange(i, i + rl)[t] == s.subrange(i, s.len() as int)[t]);
            }
        }
        lemma_parse_record_exact(s, i, fen, m);
        assert(s.subrange(i + rl, s.len() as int) =~= tail) by {
            assert forall|t: int| 0 <= t < tail.len() implies s.subrange(
                i + rl,
                s.len() as int,
            )[t] == tail[t] by {
                assert(s.subrange(i + rl, s.len() as int)[t] == s.subrange(
                    i,
                    s.len() as int,
                )[rl + t]);
            }
        }
        // the accumulator is well formed and its last entry is entry k so far
        lemma_partial_acc_wf(b, k, j0);
        assert(acc.last() == EntryView { fen: fen, moves: ms.take(j0) });
        assert forall|j: int| 0 <= j < acc.last().moves.len() implies (#[trigger] acc.last().moves[j]).uci_move
            != m.uci_move by {
            assert(ms[j].uci_move != ms[j0].uci_move);
        }
        assert forall|j: int| 0 <= j < acc.last().moves.len() implies (#[trigger] acc.last().moves[j]).priority
            >= m.priority by {
            assert(ms[j].priority >= ms[j0].priority);
        }
        lemma_upsert_last_entry_append(acc, m);
        let acc2 = upsert_book(acc, fen, m);
        assert(ms.take(j0).push(m) =~= ms.take(j0 + 1));
        assert(acc2 =~= b.take(k).push(EntryView { fen: fen, moves: ms.take(j0 + 1) }));
        lemma_replay_moves(s, i + rl, b, k, j0 + 1);
        assert(i < s.len());
        assert(parse_book_from(s, i, acc) == parse_book_from(s, i + rl, acc2));
    }
}

/// Replaying the records of the entries from `k` on rebuilds the book.
proof fn lemma_replay_book(s: Seq<u8>, i: int, b: Seq<EntryView>, k: int)
    requires
        book_wf(b),
        book_fits(b),
        0 <= k <= b.len(),
        0 <= i <= s.len(),
        s.subrange(i, s.len() as int) == encode_book(b.skip(k)),
    ensures
        parse_book_from(s, i, b.take(k)) == Some(b),
    decreases b.len() - k + 1, 0int,
{
    if k == b.len() {
        assert(b.skip(k).len() == 0);
        assert(encode_book(b.skip(k)).len() == 0);
        assert(i == s.len());
        assert(b.take(k) =~= b);
    } else {
        let fen = b[k].fen;
        let ms = b[k].moves;
        assert(entry_wf(b[k]));
        assert(entry_fits(b[k]));
        let m = ms[0];
        assert(record_fits(fen, m));
        assert(m.uci_move.len() > 0);
        assert(b.skip(k)[0] == b[k]);
        assert(b.skip(k).drop_first() =~= b.skip(k + 1));
        assert(encode_book(b.skip(k)) == encode_moves(fen, ms) + encode_book(b.skip(k + 1)));
        assert(ms.skip(0) =~= ms);
        assert(ms.drop_first() =~= ms.skip(1));
        assert(encode_moves(fen, ms) == encode_record(fen, m) + encode_moves(fen, ms.skip(1)));
        lemma_encode_record_len(fen, m);
        let rl = encode_record(fen, m).len() as int;
        let tail = encode_moves(fen, ms.skip(1)) + encode_book(b.skip(k + 1));
        assert(s.subrange(i, s.len() as int) == encode_record(fen, m) + tail);
        assert(s.len() - i == rl + tail.len());
        assert(s.subrange(i, i + rl) =~= encode_record(fen, m)) by {
            assert forall|t: int| 0 <= t < rl implies s.subrange(i, i + rl)[t] == encode_record(
                fen,
                m,
            )[t] by {
                assert(s.subrange(i, i + rl)[t] == s.subrange(i, s.len() as int)[t]);
            }
        }
        lemma_parse_record_exact(s, i, fen, m);
        assert(s.subrange(i + rl, s.len() as int) =~= tail) by {
            assert forall|t: int| 0 <= t < tail.len() implies s.subrange(
                i + rl,
                s.len() as int,
            )[t] == tail[t] by {
                assert(s.subrange(i + rl, s.len() as int)[t] == s.subrange(
                    i,
                    s.len() as int,
                )[rl + t]);
            }
        }
        assert(book_wf(b.take(k))) by {
            assert forall|p: int, q: int| 0 <= p < q < k implies str_lt(
                b.take(k)[p].fen,
                b.take(k)[q].fen,
            ) by {
                assert(str_lt(b[p].fen, b[q].fen));
            }
            assert forall|p: int| 0 <= p < k implies entry_wf(#[trigger] b.take(k)[p]) by {
                assert(b.take(k)[p] == b[p]);
                assert(entry_wf(b[p]));
            }
        }
        assert forall|j: int| 0 <= j < k implies str_lt((#[trigger] b.take(k)[j]).fen, fen) by {
            assert(b.take(k)[j] == b[j]);
            assert(str_lt(b[j].fen, b[k].fen));
        }
        lemma_upsert_fresh_max_key(b.take(k), fen, m);
        let acc2 = upsert_book(b.take(k), fen, m);
        assert(seq![m] =~= ms.take(1));
        assert(acc2 =~= b.take(k).push(EntryView { fen: fen, moves: ms.take(1) }));
        lemma_replay_moves(s, i + rl, b, k, 1);
        assert(i < s.len());
        assert(parse_book_from(s, i, b.take(k)) == parse_book_from(s, i + rl, acc2));
    }
}

/// Round trip: decoding what was encoded yields the identical collection,
/// for any well-formed collection including the empty one.
pub proof fn lemma_encode_decode_round_trip(b: Seq<EntryView>)
    requires
        book_wf(b),
        book_fits(b),
    ensures
        decode_book(encode_book(b)) == Some(b),
{
    let s = encode_book(b);
    assert(s.subrange(0, s.len() as int) =~= s);
    assert(b.skip(0) =~= b);
    lemma_replay_book(s, 0, b, 0);
    assert(b.take(0) =~= Seq::<EntryView>::empty());
}

/// An empty file decodes to the empty book.
pub proof fn lemma_decode_empty_file()
    ensures
        decode_book(Seq::<u8>::empty()) == Some(Seq::<EntryView>::empty()),
{
}

/// The codec is injective: two well-formed books with the same encoding are
/// the same book.
pub proof fn lemma_encode_injective(b1: Seq<EntryView>, b2: Seq<EntryView>)
    requires
        book_wf(b1),
        book_fits(b1),
        book_wf(b2),
        book_fits(b2),
        encode_book(b1) == encode_book(b2),
    ensures
        b1 == b2,
{
    lemma_encode_decode_round_trip(b1);
    lemma_encode_decode_round_trip(b2);
}

// ---------------------------------------------------------------------------
// The executable codec
// ---------------------------------------------------------------------------
/// Relies on String::from_utf8: it accepts exactly the valid UTF-8 byte
/// sequences and yields the string those bytes encode.
#[verifier::external_body]
fn string_from_utf8(v: Vec<u8>) -> (r: Option<String>)
    ensures
        r is Some <==> valid_utf8(v@),
        r matches Some(s) ==> s@ == decode_utf8(v@),
{
    String::from_utf8(v).ok()
}

/// Appends one little-endian word.
fn push_u64(out: &mut Vec<u8>, x: u64)
    ensures
        final(out)@ == old(out)@ + spec_u64_to_le_bytes(x),
{
    let mut bs = u64_to_le_bytes(x);
    out.append(&mut bs);
}

/// Appends one length-prefixed string.
fn push_str_bytes(out: &mut Vec<u8>, s: &str)
    ensures
        final(out)@ == old(out)@ + encode_str(s@),
{
    let mut bs = s.as_bytes_vec();
    push_u64(out, bs.len() as u64);
    out.append(&mut bs);
    proof {
        assert(out@ =~= old(out)@ + encode_str(s@));
    }
}

/// Appends the encoding of one record.
fn push_record(out: &mut Vec<u8>, fen: &str, m: &MoveData)
    ensures
        final(out)@ == old(out)@ + encode_record(fen@, m@),
{
    push_str_bytes(out, fen);
    push_str_bytes(out, m.uci_move.as_str());
    push_u64(out, m.priority as u64);
    push_u64(out, m.wins);
    push_u64(out, m.draws);
    push_u64(out, m.losses);
    push_u64(out, if m.allowed {
        1u64
    } else {
        0u64
    });
    push_str_bytes(out, m.comment.as_str());
    proof {
        assert(out@ =~= old(out)@ + encode_record(fen@, m@));
    }
}

/// Serializes the whole book, entries in key order, moves in priority order.
pub fn encode_book_bytes(book: &OpeningBook) -> (r: Vec<u8>)
    ensures
        r@ == encode_book(book@),
{
    let entries = book.export_all();
    let ghost bv = book@;
    let mut out: Vec<u8> = Vec::new();
    let mut k: usize = 0;
    proof {
        assert(bv.skip(0) =~= bv);
        assert(entries@.len() == bv.len());
    }
    while k < entries.len()
        invariant
            k <= entries.len(),
            entries_view(entries@) == bv,
            entries@.len() == bv.len(),
            encode_book(bv) =~= out@ + encode_book(bv.skip(k as int)),
        decreases entries.len() - k,
    {
        let ghost ek = bv[k as int];
        proof {
            assert(ek == entries@[k as int]@);
            assert(bv.skip(k as int)[0] == ek);
            assert(bv.skip(k as int).drop_first() =~= bv.skip(k as int + 1));
            assert(encode_book(bv.skip(k as int)) == encode_moves(ek.fen, ek.moves)
                + encode_book(bv.skip(k as int + 1)));
            assert(ek.moves.skip(0) =~= ek.moves);
        }
        let mut j: usize = 0;
        while j < entries[k].moves.len()
            invariant
                k < entries.len(),
                j <= entries@[k as int].moves@.len(),
                entries_view(entries@) == bv,
                entries@.len() == bv.len(),
                ek == bv[k as int],
                ek.moves.len() == entries@[k as int].moves@.len(),
                encode_book(bv) =~= out@ + encode_moves(ek.fen, ek.moves.skip(j as int))
                    + encode_book(bv.skip(k as int + 1)),
            decreases entries@[k as int].moves@.len() - j,
        {
            let ghost o0 = out@;
            proof {
                assert(ek == entries@[k as int]@);
                assert(ek.fen == entries@[k as int].fen@);
                assert(ek.moves[j as int] == moves_view(entries@[k as int].moves@)[j as int]);
                assert(ek.moves[j as int] == entries@[k as int].moves@[j as int]@);
            }
            push_record(&mut out, entries[k].fen.as_str(), &entries[k].moves[j]);
            proof {
                let rec = encode_record(ek.fen, ek.moves[j as int]);
                assert(out@ == o0 + rec);
                assert(ek.moves.skip(j as int)[0] == ek.moves[j as int]);
                assert(ek.moves.skip(j as int).drop_first() =~= ek.moves.skip(j as int + 1));
                assert(encode_moves(ek.fen, ek.moves.skip(j as int)) == rec + encode_moves(
                    ek.fen,
                    ek.moves.skip(j as int + 1),
                ));
                assert(encode_book(bv) =~= out@ + encode_moves(ek.fen, ek.moves.skip(j as int + 1))
                    + encode_book(bv.skip(k as int + 1)));
            }
            j = j + 1;
        }
        proof {
            assert(ek.moves.skip(ek.moves.len() as int).len() == 0);
            assert(encode_book(bv) =~= out@ + encode_book(bv.skip(k as int + 1)));
        }
        k = k + 1;
    }
    proof {
        assert(bv.skip(bv.len() as int).len() == 0);
        assert(out@ =~= encode_book(bv));
    }
    out
}

/// Reads one little-endian word.
fn read_u64(s: &[u8], i: usize) -> (r: Option<(u64, usize)>)
    requires
        i <= s@.len(),
    ensures
        match r {
            Some(t) => parse_u64(s@, i as int) == Some((t.0, t.1 as int)) && i < t.1 <= s@.len(),
            None => parse_u64(s@, i as int) is None,
        },
{
    if s.len() - i < 8 {
        return None;
    }
    let sub = slice_subrange(s, i, i + 8);
    let x = u64_from_le_bytes(sub);
    Some((x, i + 8))
}

/// Reads one length-prefixed string.
fn read_string(s: &[u8], i: usize) -> (r: Option<(String, usize)>)
    requires
        i <= s@.len(),
    ensures
        match r {
            Some(t) => parse_str(s@, i as int) == Some((t.0@, t.1 as int)) && i < t.1 <= s@.len(),
            None => parse_str(s@, i as int) is None,
        },
{
    match read_u64(s, i) {
        None => None,
        Some((n, j)) => {
            if n > (s.len() - j) as u64 {
                return None;
            }
            let n_us = n as usize;
            let bytes = slice_to_vec(slice_subrange(s, j, j + n_us));
            match string_from_utf8(bytes) {
                None => None,
                Some(st) => Some((st, j + n_us)),
            }
        },
    }
}

/// Reads one record as the upsert request it stands for.
fn read_record(s: &[u8], i: usize) -> (r: Option<(AddEntryRequest, usize)>)
    requires
        i <= s@.len(),
    ensures
        match r {
            Some(t) => parse_record(s@, i as int) == Some(
                (t.0.fen@, t.0.record_view(), t.1 as int),
            ) && i < t.1 <= s@.len() && t.0.valid(),
            None => parse_record(s@, i as int) is None,
        },
{
    let fen_r = read_string(s, i);
    match fen_r {
        None => None,
        Some((fen, i1)) => match read_string(s, i1) {
            None => None,
            Some((mv, i2)) => match read_u64(s, i2) {
                None => None,
                Some((pr, i3)) => match read_u64(s, i3) {
                    None => None,
                    Some((wins, i4)) => match read_u64(s, i4) {
                        None => None,
                        Some((draws, i5)) => match read_u64(s, i5) {
                            None => None,
                            Some((losses, i6)) => match read_u64(s, i6) {
                                None => None,
                                Some((flag, i7)) => match read_string(s, i7) {
                                    None => None,
                                    Some((comment, i8)) => {
                                        if !fen.as_str().is_empty() && !mv.as_str().is_empty() && (
                                        flag == 0 || flag == 1) {
                                            let req = AddEntryRequest {
                                                fen,
                                                uci_move: mv,
                                                priority: pr as i64,
                                                wins,
                                                draws,
                                                losses,
                                                allowed: flag == 1,
                                                comment,
                                            };
                                            Some((req, i8))
                                        } else {
                                            None
                                        }
                                    },
                                },
                            },
                        },
                    },
                },
            },
        },
    }
}

/// Parses a whole database file.  A missing byte, a malformed string, an
/// empty identity field or a bad flag word rejects the file.
pub fn decode_book_bytes(s: &[u8]) -> (r: Result<OpeningBook, BookError>)
    ensures
        match r {
            Ok(book) => decode_book(s@) == Some(book@) && book.inv(),
            Err(e) => decode_book(s@) is None && e == BookError::CorruptDatabase,
        },
{
    let mut book = OpeningBook::new();
    let mut i: usize = 0;
    loop
        invariant
            i <= s@.len(),
            book.inv(),
            parse_book_from(s@, i as int, book@) == decode_book(s@),
        decreases s@.len() - i,
    {
        if i == s.len() {
            return Ok(book);
        }
        match read_record(s, i) {
            None => {
                return Err(BookError::CorruptDatabase);
            },
            Some((req, j)) => {
                let ghost b_before = book@;
                let added = book.add_entry(&req);
                proof {
                    assert(added is Ok);
                    assert(book@ == upsert_book(b_before, req.fen@, req.record_view()));
                    assert(parse_book_from(s@, i as int, b_before) == parse_book_from(
                        s@,
                        j as int,
                        book@,
                    ));
                }
                i = j;
            },
        }
    }
}

} // verus!
