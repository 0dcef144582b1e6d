//! The persistent collection: write-ahead log, record log and in-memory
//! index composed under one invariant.
//!
//! A mutation is logged first, then applied to the record log and the index.
//! The collection's well-formedness carries the recovery equivalence: the
//! identifier-to-record map read back from the record log, with the logged
//! entries replayed over it, is exactly the in-memory map. Opening from byte
//! images re-establishes it, so a crash without a flush loses nothing that
//! was applied.

use vstd::prelude::*;
use vstd::string::StringExecFns;
use crate::dist::DistanceMetric;
use crate::brute::{BruteForceIndex, BfEntry, SearchResult, bf_lookup};
use crate::wal::{Wal, WalEntry, WalEntryKind, EntryView, SyncMode, entry_wf};
use crate::record::{DataFile, RecView, active_of, payload_bytes_len, rec_len};
use crate::payload::Payload;
use crate::value::{Value, SpecValue};
use crate::filter::Filter;
use crate::error::Error;

verus! {

// --- the identifier-to-record map and the replay over it ---

/// The map a list of entries names: later entries override earlier ones.
pub open spec fn as_map(s: Seq<BfEntry>) -> Map<u64, BfEntry>
    decreases s.len(),
{
    if s.len() == 0 {
        Map::empty()
    } else {
        as_map(s.drop_last()).insert(s.last().id, s.last())
    }
}

/// One logged entry applied to the map: insert and update bind the
/// identifier, delete removes it, a checkpoint changes nothing.
pub open spec fn step_m(m: Map<u64, BfEntry>, e: EntryView) -> Map<u64, BfEntry> {
    match e.kind {
        WalEntryKind::Insert => m.insert(
            e.id,
            BfEntry { id: e.id, vector: e.vector, payload: e.payload },
        ),
        WalEntryKind::Update => m.insert(
            e.id,
            BfEntry { id: e.id, vector: e.vector, payload: e.payload },
        ),
        WalEntryKind::Delete => m.remove(e.id),
        WalEntryKind::Checkpoint => m,
    }
}

/// The whole log replayed over a map, in order.
pub open spec fn replay_m(m: Map<u64, BfEntry>, w: Seq<EntryView>) -> Map<u64, BfEntry>
    decreases w.len(),
{
    if w.len() == 0 {
        m
    } else {
        replay_m(step_m(m, w[0]), w.drop_first())
    }
}

/// Replaying one more entry steps the result.
pub proof fn lemma_replay_snoc(m: Map<u64, BfEntry>, w: Seq<EntryView>, e: EntryView)
    ensures
        replay_m(m, w.push(e)) == step_m(replay_m(m, w), e),
    decreases w.len(),
{
    if w.len() == 0 {
        assert(w.push(e).drop_first() =~= Seq::<EntryView>::empty());
        assert(w.push(e)[0] == e);
        assert(replay_m(m, w.push(e)) == replay_m(step_m(m, e), w.push(e).drop_first()));
        assert(replay_m(step_m(m, e), Seq::<EntryView>::empty()) == step_m(m, e));
        assert(replay_m(m, w) == m);
    } else {
        lemma_replay_snoc(step_m(m, w[0]), w.drop_first(), e);
        assert(w.push(e).drop_first() =~= w.drop_first().push(e));
        assert(w.push(e)[0] == w[0]);
        assert(replay_m(m, w.push(e)) == replay_m(step_m(m, w[0]), w.drop_first().push(e)));
        assert(replay_m(m, w) == replay_m(step_m(m, w[0]), w.drop_first()));
    }
}

/// Replay cannot tell apart two starting maps that agree away from one
/// identifier: the results also agree away from it.
pub proof fn lemma_replay_same_mod(
    m1: Map<u64, BfEntry>,
    m2: Map<u64, BfEntry>,
    id: u64,
    w: Seq<EntryView>,
)
    requires
        m1.remove(id) == m2.remove(id),
    ensures
        replay_m(m1, w).remove(id) == replay_m(m2, w).remove(id),
    decreases w.len(),
{
    if w.len() > 0 {
        let e = w[0];
        let s1 = step_m(m1, e);
        let s2 = step_m(m2, e);
        assert(s1.remove(id) == s2.remove(id)) by {
            match e.kind {
                WalEntryKind::Insert | WalEntryKind::Update => {
                    let x = BfEntry { id: e.id, vector: e.vector, payload: e.payload };
                    if e.id == id {
                        assert(m1.insert(id, x).remove(id) =~= m1.remove(id));
                        assert(m2.insert(id, x).remove(id) =~= m2.remove(id));
                    } else {
                        assert(m1.insert(e.id, x).remove(id) =~= m1.remove(id).insert(e.id, x));
                        assert(m2.insert(e.id, x).remove(id) =~= m2.remove(id).insert(e.id, x));
                    }
                },
                WalEntryKind::Delete => {
                    if e.id == id {
                        assert(m1.remove(id).remove(id) =~= m1.remove(id));
                        assert(m2.remove(id).remove(id) =~= m2.remove(id));
                    } else {
                        assert(m1.remove(e.id).remove(id) =~= m1.remove(id).remove(e.id));
                        assert(m2.remove(e.id).remove(id) =~= m2.remove(id).remove(e.id));
                    }
                },
                WalEntryKind::Checkpoint => {},
            }
        }
        lemma_replay_same_mod(s1, s2, id, w.drop_first());
    }
}

/// Replaying over a map stepped by the entry now appended gives the same
/// result as stepping the replayed map: the entry's own final application
/// settles its identifier, and nothing else differs.
pub proof fn lemma_replay_absorb(m: Map<u64, BfEntry>, w: Seq<EntryView>, e: EntryView)
    requires
        e.kind != WalEntryKind::Checkpoint,
    ensures
        replay_m(step_m(m, e), w.push(e)) == step_m(replay_m(m, w), e),
    decreases w.len(),
{
    lemma_replay_snoc(step_m(m, e), w, e);
    let id = e.id;
    assert(step_m(m, e).remove(id) == m.remove(id)) by {
        match e.kind {
            WalEntryKind::Insert | WalEntryKind::Update => {
                let x = BfEntry { id: e.id, vector: e.vector, payload: e.payload };
                assert(m.insert(id, x).remove(id) =~= m.remove(id));
            },
            WalEntryKind::Delete => {
                assert(m.remove(id).remove(id) =~= m.remove(id));
            },
            WalEntryKind::Checkpoint => {},
        }
    }
    lemma_replay_same_mod(step_m(m, e), m, id, w);
    let r1 = replay_m(step_m(m, e), w);
    let r2 = replay_m(m, w);
    assert(r1.remove(id) == r2.remove(id));
    assert(step_m(r1, e) == step_m(r2, e)) by {
        match e.kind {
            WalEntryKind::Insert | WalEntryKind::Update => {
                let x = BfEntry { id: e.id, vector: e.vector, payload: e.payload };
                assert(r1.insert(id, x) =~= r1.remove(id).insert(id, x));
                assert(r2.insert(id, x) =~= r2.remove(id).insert(id, x));
            },
            WalEntryKind::Delete => {
                assert(r1.remove(id) == r2.remove(id));
            },
            WalEntryKind::Checkpoint => {},
        }
    }
}

// --- the live map of the record log ---

/// The entries the live records of the log name.
pub open spec fn active_entries(rs: Seq<RecView>) -> Seq<BfEntry> {
    active_of(rs).map_values(
        |r: RecView| BfEntry { id: r.id, vector: r.vector, payload: r.payload },
    )
}

/// The live map of the record log.
pub open spec fn data_map(rs: Seq<RecView>) -> Map<u64, BfEntry> {
    as_map(active_entries(rs))
}

/// Appending a live record binds its identifier in the live map.
pub proof fn lemma_data_map_append(rs: Seq<RecView>, r: RecView)
    requires
        !r.deleted,
    ensures
        data_map(rs.push(r)) == data_map(rs).insert(
            r.id,
            BfEntry { id: r.id, vector: r.vector, payload: r.payload },
        ),
{
    assert(rs.push(r).drop_last() =~= rs);
    assert(rs.push(r).last() == r);
    assert(active_of(rs.push(r)) =~= active_of(rs).push(r));
    let ae = active_entries(rs.push(r));
    assert(ae =~= active_entries(rs).push(
        BfEntry { id: r.id, vector: r.vector, payload: r.payload },
    ));
    assert(ae.drop_last() =~= active_entries(rs));
}

/// No live record of the log holds `id`, so the live map lacks it.
pub proof fn lemma_data_map_absent(rs: Seq<RecView>, id: u64)
    requires
        forall|i: int| 0 <= i < rs.len() ==> ((#[trigger] rs[i]).deleted || rs[i].id != id),
    ensures
        !data_map(rs).dom().contains(id),
        data_map(rs).remove(id) == data_map(rs),
    decreases rs.len(),
{
    if rs.len() == 0 {
        assert(active_of(rs).len() == 0);
        assert(active_entries(rs) =~= Seq::<BfEntry>::empty());
    } else {
        assert(forall|i: int|
            0 <= i < rs.drop_last().len() ==> ((#[trigger] rs.drop_last()[i]).deleted
                || rs.drop_last()[i].id != id));
        lemma_data_map_absent(rs.drop_last(), id);
        let ae = active_entries(rs);
        if rs.last().deleted {
            assert(active_of(rs) =~= active_of(rs.drop_last()));
            assert(ae =~= active_entries(rs.drop_last()));
        } else {
            assert(rs.last().id != id);
            assert(active_of(rs) =~= active_of(rs.drop_last()).push(rs.last()));
            assert(ae.drop_last() =~= active_entries(rs.drop_last()));
            assert(ae.last().id == rs.last().id);
        }
    }
    assert(data_map(rs).remove(id) =~= data_map(rs));
}

/// Tombstoning the only live record holding `id` removes it from the live
/// map.
pub proof fn lemma_data_map_tombstone(rs: Seq<RecView>, i: int)
    requires
        0 <= i < rs.len(),
        !rs[i].deleted,
        forall|j: int|
            0 <= j < rs.len() && j != i ==> ((#[trigger] rs[j]).deleted || rs[j].id != rs[i].id),
    ensures
        data_map(rs.update(i, RecView { deleted: true, ..rs[i] })) == data_map(rs).remove(
            rs[i].id,
        ),
    decreases rs.len(),
{
    let id = rs[i].id;
    let rs2 = rs.update(i, RecView { deleted: true, ..rs[i] });
    if i == rs.len() - 1 {
        assert(rs2.drop_last() =~= rs.drop_last());
        assert(active_of(rs2) =~= active_of(rs.drop_last()));
        assert(active_of(rs) =~= active_of(rs.drop_last()).push(rs.last()));
        let ae = active_entries(rs);
        assert(ae.drop_last() =~= active_entries(rs.drop_last()));
        assert(ae.last().id == id);
        assert(forall|j: int|
            0 <= j < rs.drop_last().len() ==> ((#[trigger] rs.drop_last()[j]).deleted
                || rs.drop_last()[j].id != id));
        lemma_data_map_absent(rs.drop_last(), id);
        assert(data_map(rs2) == data_map(rs.drop_last()));
        assert(data_map(rs) == data_map(rs.drop_last()).insert(id, ae.last()));
        assert(data_map(rs).remove(id) =~= data_map(rs.drop_last()).remove(id));
        assert(data_map(rs.drop_last()).remove(id) == data_map(rs.drop_last()));
    } else {
        assert(rs2.drop_last() =~= rs.drop_last().update(i, RecView { deleted: true, ..rs[i] }));
        assert(rs2.last() == rs.last());
        assert(rs.drop_last()[i] == rs[i]);
        assert(forall|j: int|
            0 <= j < rs.drop_last().len() && j != i ==> ((#[trigger] rs.drop_last()[j]).deleted
                || rs.drop_last()[j].id != id));
        lemma_data_map_tombstone(rs.drop_last(), i);
        if rs.last().deleted {
            assert(active_of(rs2) =~= active_of(rs2.drop_last()));
            assert(active_of(rs) =~= active_of(rs.drop_last()));
            assert(active_entries(rs2) =~= active_entries(rs2.drop_last()));
            assert(active_entries(rs) =~= active_entries(rs.drop_last()));
        } else {
            assert(active_of(rs2) =~= active_of(rs2.drop_last()).push(rs.last()));
            assert(active_of(rs) =~= active_of(rs.drop_last()).push(rs.last()));
            let x = BfEntry {
                id: rs.last().id,
                vector: rs.last().vector,
                payload: rs.last().payload,
            };
            assert(active_entries(rs2) =~= active_entries(rs2.drop_last()).push(x));
            assert(active_entries(rs) =~= active_entries(rs.drop_last()).push(x));
            assert(active_entries(rs2).drop_last() =~= active_entries(rs2.drop_last()));
            assert(active_entries(rs).drop_last() =~= active_entries(rs.drop_last()));
            assert(active_entries(rs2).last() == x);
            assert(active_entries(rs).last() == x);
            assert(data_map(rs2) == data_map(rs2.drop_last()).insert(x.id, x));
            assert(data_map(rs) == data_map(rs.drop_last()).insert(x.id, x));
            assert(rs.last().id != id);
            assert(data_map(rs.drop_last()).insert(x.id, x).remove(id)
                =~= data_map(rs.drop_last()).remove(id).insert(x.id, x));
        }
    }
}

// --- identifier lists and maps ---

/// Appending an entry binds its identifier.
pub proof fn lemma_as_map_push(s: Seq<BfEntry>, x: BfEntry)
    ensures
        as_map(s.push(x)) == as_map(s).insert(x.id, x),
{
    assert(s.push(x).drop_last() =~= s);
    assert(s.push(x).last() == x);
}

/// No entry holds `id`, so the map lacks it.
pub proof fn lemma_as_map_absent(s: Seq<BfEntry>, id: u64)
    requires
        forall|i: int| 0 <= i < s.len() ==> (#[trigger] s[i]).id != id,
    ensures
        !as_map(s).dom().contains(id),
        as_map(s).remove(id) == as_map(s),
    decreases s.len(),
{
    if s.len() > 0 {
        assert(forall|i: int|
            0 <= i < s.drop_last().len() ==> (#[trigger] s.drop_last()[i]).id != id);
        lemma_as_map_absent(s.drop_last(), id);
        assert(s.last().id != id);
    }
    assert(as_map(s).remove(id) =~= as_map(s));
}

/// With distinct identifiers, removing the entry at `i` removes its
/// identifier from the map.
pub proof fn lemma_as_map_remove_at(s: Seq<BfEntry>, i: int)
    requires
        0 <= i < s.len(),
        forall|a: int, b: int|
            0 <= a < b < s.len() ==> (#[trigger] s[a]).id != (#[trigger] s[b]).id,
    ensures
        as_map(s.remove(i)) == as_map(s).remove(s[i].id),
    decreases s.len(),
{
    let id = s[i].id;
    if i == s.len() - 1 {
        assert(s.remove(i) =~= s.drop_last());
        assert(forall|a: int|
            0 <= a < s.drop_last().len() ==> (#[trigger] s.drop_last()[a]).id != id);
        lemma_as_map_absent(s.drop_last(), id);
        assert(as_map(s).remove(id) =~= as_map(s.drop_last()).insert(id, s.last()).remove(id));
        assert(as_map(s.drop_last()).insert(id, s.last()).remove(id) =~= as_map(
            s.drop_last(),
        ).remove(id));
    } else {
        assert(s.remove(i).drop_last() =~= s.drop_last().remove(i));
        assert(s.remove(i).last() == s.last());
        assert(s.drop_last()[i] == s[i]);
        assert(forall|a: int, b: int|
            0 <= a < b < s.drop_last().len() ==> (#[trigger] s.drop_last()[a]).id != (
            #[trigger] s.drop_last()[b]).id);
        lemma_as_map_remove_at(s.drop_last(), i);
        assert(s.last().id != id);
        assert(as_map(s.remove(i)) == as_map(s.drop_last()).remove(id).insert(
            s.last().id,
            s.last(),
        ));
        assert(as_map(s.drop_last()).remove(id).insert(s.last().id, s.last()) =~= as_map(
            s.drop_last(),
        ).insert(s.last().id, s.last()).remove(id));
    }
}

/// Looking up in the front-first list agrees with the map when identifiers
/// are distinct.
pub proof fn lemma_bf_lookup_push(s: Seq<BfEntry>, x: BfEntry, id: u64)
    ensures
        bf_lookup(s.push(x), id) == (if bf_lookup(s, id) is Some {
            bf_lookup(s, id)
        } else if x.id == id {
            Some(x)
        } else {
            None
        }),
    decreases s.len(),
{
    if s.len() == 0 {
        assert(s.push(x)[0] == x);
        assert(s.push(x).drop_first() =~= Seq::<BfEntry>::empty());
        assert(bf_lookup(Seq::<BfEntry>::empty(), id) is None);
        if x.id == id {
            assert(bf_lookup(s.push(x), id) == Some(x));
        } else {
            assert(bf_lookup(s.push(x), id) == bf_lookup(s.push(x).drop_first(), id));
        }
        assert(bf_lookup(s, id) is None);
    } else {
        lemma_bf_lookup_push(s.drop_first(), x, id);
        assert(s.push(x)[0] == s[0]);
        assert(s.push(x).drop_first() =~= s.drop_first().push(x));
    }
}

/// The map and the list agree on lookups when identifiers are distinct.
pub proof fn lemma_lookup_as_map(s: Seq<BfEntry>, id: u64)
    requires
        forall|a: int, b: int|
            0 <= a < b < s.len() ==> (#[trigger] s[a]).id != (#[trigger] s[b]).id,
    ensures
        as_map(s).dom().contains(id) == (bf_lookup(s, id) is Some),
        bf_lookup(s, id) matches Some(e) ==> as_map(s)[id] == e && e.id == id,
    decreases s.len(),
{
    if s.len() > 0 {
        let dl = s.drop_last();
        assert(forall|a: int, b: int|
            0 <= a < b < dl.len() ==> (#[trigger] dl[a]).id != (#[trigger] dl[b]).id);
        lemma_lookup_as_map(dl, id);
        assert(s =~= dl.push(s.last()));
        lemma_bf_lookup_push(dl, s.last(), id);
        if bf_lookup(dl, id) is Some {
            assert(s.last().id != id) by {
                let e = bf_lookup(dl, id).unwrap();
                lemma_bf_lookup_member(dl, id);
            }
        }
    }
}

/// A successful lookup names a member of the list.
pub proof fn lemma_bf_lookup_member(s: Seq<BfEntry>, id: u64)
    ensures
        bf_lookup(s, id) matches Some(e) ==> e.id == id && exists|i: int|
            0 <= i < s.len() && s[i] == e,
    decreases s.len(),
{
    if s.len() > 0 {
        if s[0].id == id {
        } else {
            lemma_bf_lookup_member(s.drop_first(), id);
            if bf_lookup(s.drop_first(), id) is Some {
                let e = bf_lookup(s.drop_first(), id).unwrap();
                let i = choose|i: int| 0 <= i < s.drop_first().len() && s.drop_first()[i] == e;
                assert(s[i + 1] == e);
            }
        }
    }
}

/// A failed lookup means no entry holds the identifier.
pub proof fn lemma_bf_lookup_none(s: Seq<BfEntry>, id: u64)
    requires
        bf_lookup(s, id) is None,
    ensures
        forall|i: int| 0 <= i < s.len() ==> (#[trigger] s[i]).id != id,
    decreases s.len(),
{
    if s.len() > 0 {
        lemma_bf_lookup_none(s.drop_first(), id);
        assert(forall|i: int|
            1 <= i < s.len() ==> #[trigger] s[i] == s.drop_first()[i - 1]);
    }
}

/// After removing the only entry holding the identifier, lookups miss.
pub proof fn lemma_remove_id_none(s: Seq<BfEntry>, i: int, id: u64)
    requires
        0 <= i < s.len(),
        s[i].id == id,
        forall|a: int, b: int|
            0 <= a < b < s.len() ==> (#[trigger] s[a]).id != (#[trigger] s[b]).id,
    ensures
        bf_lookup(s.remove(i), id) is None,
{
    let t = s.remove(i);
    lemma_bf_lookup_member(t, id);
    if bf_lookup(t, id) is Some {
        let e = bf_lookup(t, id).unwrap();
        let j = choose|j: int| 0 <= j < t.len() && t[j] == e;
        if j < i {
            assert(t[j] == s[j]);
            assert(s[j].id == id && s[i].id == id);
            assert(false);
        } else {
            assert(t[j] == s[j + 1]);
            assert(s[j + 1].id == id && s[i].id == id);
            assert(false);
        }
    }
}

/// Tombstoning keeps live identifiers unique.
pub proof fn lemma_live_unique_update_dead(rs: Seq<RecView>, i: int)
    requires
        0 <= i < rs.len(),
        live_unique(rs),
    ensures
        live_unique(rs.update(i, RecView { deleted: true, ..rs[i] })),
{
    let rs2 = rs.update(i, RecView { deleted: true, ..rs[i] });
    assert(forall|a: int|
        0 <= a < rs2.len() && !(#[trigger] rs2[a]).deleted ==> !rs[a].deleted && rs2[a] == rs[a]);
}

/// Appending a live record of a fresh identifier keeps live identifiers
/// unique.
pub proof fn lemma_live_unique_push(rs: Seq<RecView>, r: RecView)
    requires
        live_unique(rs),
        !r.deleted,
        forall|a: int|
            0 <= a < rs.len() && !(#[trigger] rs[a]).deleted ==> rs[a].id != r.id,
    ensures
        live_unique(rs.push(r)),
{
    let rs2 = rs.push(r);
    assert(forall|a: int| 0 <= a < rs.len() ==> #[trigger] rs2[a] == rs[a]);
    assert(rs2[rs.len() as int] == r);
}

/// Replaying a log twice changes nothing beyond the first replay.
pub proof fn lemma_replay_idem(m: Map<u64, BfEntry>, w: Seq<EntryView>)
    ensures
        replay_m(replay_m(m, w), w) == replay_m(m, w),
    decreases w.len(),
{
    if w.len() > 0 {
        let dl = w.drop_last();
        let e = w.last();
        assert(w =~= dl.push(e));
        lemma_replay_snoc(m, dl, e);
        lemma_replay_idem(m, dl);
        let rr = replay_m(m, dl);
        if e.kind == WalEntryKind::Checkpoint {
            assert(replay_m(m, w) == rr);
            lemma_replay_snoc(rr, dl, e);
            assert(replay_m(rr, w) == step_m(replay_m(rr, dl), e));
            assert(replay_m(rr, dl) == rr);
        } else {
            assert(replay_m(m, w) == step_m(rr, e));
            lemma_replay_absorb(rr, dl, e);
            assert(replay_m(step_m(rr, e), dl.push(e)) == step_m(replay_m(rr, dl), e));
            assert(replay_m(rr, dl) == rr);
        }
    }
}

/// With distinct identifiers, the lookup finds each entry at its index.
pub proof fn lemma_bf_lookup_at(s: Seq<BfEntry>, i: int)
    requires
        0 <= i < s.len(),
        forall|a: int, b: int|
            0 <= a < b < s.len() ==> (#[trigger] s[a]).id != (#[trigger] s[b]).id,
    ensures
        bf_lookup(s, s[i].id) == Some(s[i]),
    decreases i,
{
    if i > 0 {
        assert(forall|a: int|
            0 <= a < s.drop_first().len() ==> #[trigger] s.drop_first()[a] == s[a + 1]);
        lemma_bf_lookup_at(s.drop_first(), i - 1);
        assert(s.drop_first()[i - 1] == s[i]);
    }
}

/// With distinct identifiers, the map's domain is as large as the list.
pub proof fn lemma_as_map_len(s: Seq<BfEntry>)
    requires
        forall|a: int, b: int|
            0 <= a < b < s.len() ==> (#[trigger] s[a]).id != (#[trigger] s[b]).id,
    ensures
        as_map(s).dom().finite(),
        as_map(s).dom().len() == s.len(),
    decreases s.len(),
{
    if s.len() == 0 {
        assert(as_map(s).dom() =~= Set::<u64>::empty());
    } else {
        let dl = s.drop_last();
        assert(forall|a: int, b: int|
            0 <= a < b < dl.len() ==> (#[trigger] dl[a]).id != (#[trigger] dl[b]).id);
        lemma_as_map_len(dl);
        assert(forall|a: int| 0 <= a < dl.len() ==> (#[trigger] dl[a]).id != s.last().id);
        lemma_as_map_absent(dl, s.last().id);
        assert(as_map(s).dom() =~= as_map(dl).dom().insert(s.last().id));
    }
}

/// Whether an insert or update of this vector and payload is accepted:
/// the vector has the configured dimension, the record fits the 32-bit
/// length fields, the record log has room, and the sync counter has not
/// reached its cap.
pub open spec fn upsert_accepts(
    dimension: usize,
    write_pos: u64,
    pending: u64,
    vector: Seq<u32>,
    payload: Seq<(Seq<char>, SpecValue)>,
) -> bool {
    &&& vector.len() == dimension
    &&& 17 + 4 * vector.len() + payload_bytes_len(payload) < 0x1_0000_0000
    &&& write_pos + 17 + 4 * vector.len() + payload_bytes_len(payload) <= u64::MAX
    &&& pending < u64::MAX - 1
}

/// Every live identifier occurs on at most one live record.
pub open spec fn live_unique(rs: Seq<RecView>) -> bool {
    forall|i: int, j: int|
        0 <= i < j < rs.len() && !(#[trigger] rs[i]).deleted && !(#[trigger] rs[j]).deleted
            ==> rs[i].id != rs[j].id
}

// --- the collection ---

/// How a collection is opened: its dimension, metric and sync policy.
#[derive(Debug, Clone, Copy, PartialEq, Eq, Structural)]
pub struct CollectionConfig {
    /// Dimension every stored vector must have.
    pub dimension: usize,
    /// The distance metric searches order by.
    pub metric: DistanceMetric,
    /// When the write-ahead log forces bytes out.
    pub sync_mode: SyncMode,
}

impl CollectionConfig {
    /// A configuration with the batched sync policy.
    pub fn new(dimension: usize, metric: DistanceMetric) -> (r: CollectionConfig)
        ensures
            r.dimension == dimension,
            r.metric == metric,
            r.sync_mode == SyncMode::Batched,
    {
        CollectionConfig { dimension, metric, sync_mode: SyncMode::Batched }
    }

    /// The same configuration under another sync policy.
    pub fn with_sync_mode(self, mode: SyncMode) -> (r: CollectionConfig)
        ensures
            r.dimension == self.dimension,
            r.metric == self.metric,
            r.sync_mode == mode,
    {
        CollectionConfig { sync_mode: mode, ..self }
    }
}

/// A persistent vector collection: the in-memory index, the record log and
/// the write-ahead log under one invariant.
#[derive(Debug)]
pub struct Collection {
    config: CollectionConfig,
    index: BruteForceIndex,
    wal: Wal,
    data: DataFile,
    next_id: u64,
}

impl Collection {
    /// View: the stored entries, in index order.
    pub closed spec fn view_index(&self) -> Seq<BfEntry> {
        self.index.view_entries()
    }

    /// The identifier-to-record map the collection holds.
    pub open spec fn model(&self) -> Map<u64, BfEntry> {
        as_map(self.view_index())
    }

    /// View: the records of the record log.
    pub closed spec fn view_data(&self) -> Seq<RecView> {
        self.data.view_recs()
    }

    /// View: the logged entries since the last checkpoint.
    pub closed spec fn view_wal(&self) -> Seq<EntryView> {
        self.wal.view_entries()
    }

    /// The configuration.
    pub closed spec fn spec_config(&self) -> CollectionConfig {
        self.config
    }

    /// The next automatic identifier.
    pub closed spec fn spec_next_id(&self) -> u64 {
        self.next_id
    }

    /// Entries logged since the last forced sync.
    pub closed spec fn spec_pending(&self) -> u64 {
        self.wal.spec_pending()
    }

    /// The record log's write position: where the next record lands.
    pub closed spec fn spec_write_pos(&self) -> u64 {
        self.data.spec_write_pos()
    }

    /// The structural invariant, short of the replay property: components
    /// well formed, the index matching the configuration, live records
    /// unique per identifier, and the record log's live map equal to the
    /// index map.
    pub closed spec fn wf0(&self) -> bool {
        &&& self.index.wf()
        &&& self.data.wf()
        &&& self.wal.wf()
        &&& self.index.spec_dimension() == self.config.dimension
        &&& self.index.spec_metric_of() == self.config.metric
        &&& self.config.dimension < 0x4000_0000
        &&& live_unique(self.view_data())
        &&& data_map(self.view_data()) == self.model()
        &&& (forall|i: int, j: int|
            0 <= i < j < self.view_index().len() ==> (#[trigger] self.view_index()[i]).id != (
            #[trigger] self.view_index()[j]).id)
        &&& (forall|i: int|
            0 <= i < self.view_index().len() ==> ((#[trigger] self.view_index()[i]).id
                < self.next_id || self.view_index()[i].id == u64::MAX))
        &&& self.next_id >= 1
    }

    /// The collection invariant: the structural invariant, and replaying
    /// the logged entries over the live map is a no-op — recovery cannot
    /// tell the recovered collection from this one.
    pub closed spec fn wf(&self) -> bool {
        &&& self.wf0()
        &&& replay_m(self.model(), self.view_wal()) == self.model()
        &&& wal_dims_ok(self.view_wal(), self.config.dimension as nat)
        &&& wal_size(self.view_wal(), self.view_wal().len() as int) <= self.spec_write_pos()
    }

    /// The configured dimension.
    pub fn dimension(&self) -> (r: usize)
        ensures
            r == self.spec_config().dimension,
    {
        self.config.dimension
    }

    /// The configured metric.
    pub fn metric(&self) -> (r: DistanceMetric)
        ensures
            r == self.spec_config().metric,
    {
        self.config.metric
    }

    /// Number of stored vectors: the entries and the map model agree.
    pub fn len(&self) -> (r: usize)
        requires
            self.wf(),
        ensures
            r == self.view_index().len(),
            r == self.model().dom().len(),
            self.model().dom().finite(),
    {
        proof {
            lemma_as_map_len(self.view_index());
        }
        self.index.len()
    }

    /// Whether nothing is stored.
    pub fn is_empty(&self) -> (r: bool)
        requires
            self.wf(),
        ensures
            r == (self.view_index().len() == 0),
            r == (self.model().dom().len() == 0),
    {
        proof {
            lemma_as_map_len(self.view_index());
        }
        self.index.is_empty()
    }

    /// Applies an insert or update to the record log and the index, leaving
    /// the write-ahead log alone.
    #[verifier::rlimit(100)]
    #[verifier::spinoff_prover]
    fn apply_core_insert(&mut self, id: u64, vector: Vec<u32>, payload: Payload)
        requires
            old(self).wf0(),
            payload.wf(),
            vector@.len() == old(self).spec_config().dimension,
            payload_bytes_len(payload.view_fields()) < 0x1_0000_0000,
            old(self).view_data().len() == 0 || (rec_len(vector@.len(), payload.view_fields())
                <= u64::MAX - (old(self).view_data()[old(self).view_data().len() - 1].offset
                + rec_len(
                old(self).view_data()[old(self).view_data().len() - 1].vector.len(),
                old(self).view_data()[old(self).view_data().len() - 1].payload,
            ))),
            old(self).view_data().len() > 0 || rec_len(vector@.len(), payload.view_fields())
                <= u64::MAX,
        ensures
            final(self).wf0(),
            final(self).spec_config() == old(self).spec_config(),
            final(self).view_wal() == old(self).view_wal(),
            final(self).spec_pending() == old(self).spec_pending(),
            final(self).spec_write_pos() == old(self).spec_write_pos() + rec_len(
                vector@.len(),
                payload.view_fields(),
            ),
            final(self).model() == old(self).model().insert(
                id,
                (BfEntry { id: id, vector: vector@, payload: payload.view_fields() }),
            ),
            final(self).spec_next_id() == (if id == u64::MAX {
                old(self).spec_next_id()
            } else if id + 1 > old(self).spec_next_id() {
                (id + 1) as u64
            } else {
                old(self).spec_next_id()
            }),
    {
        let ghost x = BfEntry { id: id, vector: vector@, payload: payload.view_fields() };
        let ghost m0 = self.model();
        let ghost rs0 = self.view_data();
        // retire the previous live record of this identifier, if any
        match self.data.tombstone_by_id(id) {
            Some(_) => {
                proof {
                    let i = choose|i: int|
                        {
                            &&& 0 <= i < rs0.len()
                            &&& !(#[trigger] rs0[i]).deleted
                            &&& rs0[i].id == id
                            &&& self.view_data() == rs0.update(
                                i,
                                RecView { deleted: true, ..rs0[i] },
                            )
                            &&& (forall|j: int|
                                0 <= j < i ==> ((#[trigger] rs0[j]).deleted || rs0[j].id != id))
                        };
                    assert(forall|j: int|
                        0 <= j < rs0.len() && j != i ==> ((#[trigger] rs0[j]).deleted
                            || rs0[j].id != id));
                    lemma_data_map_tombstone(rs0, i);
                    assert(data_map(self.view_data()) == data_map(rs0).remove(id));
                }
            },
            None => {
                proof {
                    lemma_data_map_absent(rs0, id);
                    assert(data_map(self.view_data()) == data_map(rs0).remove(id));
                }
            },
        }
        let ghost rs1 = self.view_data();
        proof {
            if rs1 != rs0 {
                let i = choose|i: int|
                    0 <= i < rs0.len() && !(#[trigger] rs0[i]).deleted && rs0[i].id == id && rs1
                        == rs0.update(i, RecView { deleted: true, ..rs0[i] });
                lemma_live_unique_update_dead(rs0, i);
            }
            assert(live_unique(rs1));
            assert(forall|a: int|
                0 <= a < rs1.len() && !(#[trigger] rs1[a]).deleted ==> rs1[a].id != id) by {
                if rs1 == rs0 {
                } else {
                    assert(forall|a: int|
                        0 <= a < rs1.len() && !(#[trigger] rs1[a]).deleted ==> !rs0[a].deleted
                            && rs1[a] == rs0[a]);
                }
            }
        }
        // append the new record
        let off = match self.data.append(id, &vector, &payload) {
            Ok(off) => off,
            Err(_) => {
                proof {
                    assert(false);
                }
                0
            },
        };
        proof {
            let r = RecView {
                offset: off,
                deleted: false,
                id: id,
                vector: vector@,
                payload: payload.view_fields(),
            };
            assert(self.view_data() == rs1.push(r));
            lemma_data_map_append(rs1, r);
            assert(data_map(self.view_data()) == data_map(rs0).remove(id).insert(id, x));
            assert(data_map(rs0).remove(id).insert(id, x) =~= data_map(rs0).insert(id, x));
            lemma_live_unique_push(rs1, r);
        }
        // replace the index entry
        let ghost iv0 = self.index.view_entries();
        let was = self.index.delete(id);
        proof {
            if was {
                let i = choose|i: int|
                    0 <= i < iv0.len() && (#[trigger] iv0[i]).id == id
                        && self.index.view_entries() == iv0.remove(i);
                lemma_as_map_remove_at(iv0, i);
                assert(as_map(self.index.view_entries()) == as_map(iv0).remove(id));
            } else {
                lemma_bf_lookup_none(iv0, id);
                lemma_as_map_absent(iv0, id);
                assert(as_map(self.index.view_entries()) == as_map(iv0).remove(id));
            }
        }
        let ghost iv1 = self.index.view_entries();
        proof {
            if was {
                let i = choose|i: int|
                    0 <= i < iv0.len() && (#[trigger] iv0[i]).id == id && iv1 == iv0.remove(i);
                lemma_remove_id_none(iv0, i, id);
            }
            assert(bf_lookup(iv1, id) is None);
        }
        match self.index.insert(id, vector, payload) {
            Ok(()) => {},
            Err(_) => {
                proof {
                    assert(false);
                }
            },
        }
        proof {
            lemma_as_map_push(iv1, x);
            assert(as_map(self.index.view_entries()) == as_map(iv0).remove(id).insert(id, x));
            assert(as_map(iv0).remove(id).insert(id, x) =~= as_map(iv0).insert(id, x));
        }
        // keep the identifier counter above every stored identifier
        if id != u64::MAX && id + 1 > self.next_id {
            self.next_id = id + 1;
        }
    }

    /// Applies a delete to the record log and the index, leaving the
    /// write-ahead log alone. Says whether the identifier was present.
    #[verifier::rlimit(100)]
    #[verifier::spinoff_prover]
    fn apply_core_delete(&mut self, id: u64) -> (r: bool)
        requires
            old(self).wf0(),
        ensures
            final(self).wf0(),
            final(self).spec_config() == old(self).spec_config(),
            final(self).view_wal() == old(self).view_wal(),
            final(self).spec_pending() == old(self).spec_pending(),
            final(self).spec_write_pos() == old(self).spec_write_pos(),
            final(self).spec_next_id() == old(self).spec_next_id(),
            final(self).model() == old(self).model().remove(id),
            r == old(self).model().dom().contains(id),
    {
        let ghost m0 = self.model();
        let ghost rs0 = self.view_data();
        match self.data.tombstone_by_id(id) {
            Some(_) => {
                proof {
                    let i = choose|i: int|
                        {
                            &&& 0 <= i < rs0.len()
                            &&& !(#[trigger] rs0[i]).deleted
                            &&& rs0[i].id == id
                            &&& self.view_data() == rs0.update(
                                i,
                                RecView { deleted: true, ..rs0[i] },
                            )
                            &&& (forall|j: int|
                                0 <= j < i ==> ((#[trigger] rs0[j]).deleted || rs0[j].id != id))
                        };
                    assert(forall|j: int|
                        0 <= j < rs0.len() && j != i ==> ((#[trigger] rs0[j]).deleted
                            || rs0[j].id != id));
                    lemma_data_map_tombstone(rs0, i);
                    lemma_live_unique_update_dead(rs0, i);
                }
            },
            None => {
                proof {
                    lemma_data_map_absent(rs0, id);
                }
            },
        }
        let ghost iv0 = self.index.view_entries();
        let was = self.index.delete(id);
        proof {
            if was {
                let i = choose|i: int|
                    0 <= i < iv0.len() && (#[trigger] iv0[i]).id == id
                        && self.index.view_entries() == iv0.remove(i);
                lemma_as_map_remove_at(iv0, i);
            } else {
                lemma_bf_lookup_none(iv0, id);
                lemma_as_map_absent(iv0, id);
            }
            lemma_lookup_as_map(iv0, id);
        }
        was
    }
}

impl Collection {
    /// Logs and applies an insert or update; the two differ only in the
    /// entry kind recorded.
    #[verifier::rlimit(100)]
    #[verifier::spinoff_prover]
    fn mutate_upsert(&mut self, update: bool, id: u64, vector: Vec<u32>, payload: Payload) -> (r:
        Result<(), Error>)
        requires
            old(self).wf(),
            payload.wf(),
        ensures
            final(self).wf(),
            final(self).spec_config() == old(self).spec_config(),
            (r is Ok <==> upsert_accepts(
                old(self).spec_config().dimension,
                old(self).spec_write_pos(),
                old(self).spec_pending(),
                vector@,
                payload.view_fields(),
            )),
            ((r matches Err(e) && e is DimensionMismatch) <==> vector@.len() != old(
                self,
            ).spec_config().dimension),
            ((r matches Err(e) && e is PayloadError) <==> (vector@.len() == old(
                self,
            ).spec_config().dimension && 17 + 4 * vector@.len() + payload_bytes_len(
                payload.view_fields(),
            ) >= 0x1_0000_0000)),
            ((r matches Err(e) && e is IoError) <==> (vector@.len() == old(
                self,
            ).spec_config().dimension && 17 + 4 * vector@.len() + payload_bytes_len(
                payload.view_fields(),
            ) < 0x1_0000_0000 && (old(self).spec_write_pos() + 17 + 4 * vector@.len()
                + payload_bytes_len(payload.view_fields()) > u64::MAX || old(
                self,
            ).spec_pending() >= u64::MAX - 1))),
            match r {
                Ok(()) => {
                    &&& vector@.len() == old(self).spec_config().dimension
                    &&& final(self).model() == old(self).model().insert(
                        id,
                        (BfEntry { id: id, vector: vector@, payload: payload.view_fields() }),
                    )
                    &&& final(self).view_wal() == old(self).view_wal().push(
                        (EntryView {
                            kind: if update {
                                WalEntryKind::Update
                            } else {
                                WalEntryKind::Insert
                            },
                            id: id,
                            vector: vector@,
                            payload: payload.view_fields(),
                        }),
                    )
                    &&& final(self).spec_write_pos() == old(self).spec_write_pos() + rec_len(
                        vector@.len(),
                        payload.view_fields(),
                    )
                    &&& final(self).spec_pending() <= old(self).spec_pending() + 1
                    &&& final(self).spec_next_id() == (if id == u64::MAX {
                        old(self).spec_next_id()
                    } else if id + 1 > old(self).spec_next_id() {
                        (id + 1) as u64
                    } else {
                        old(self).spec_next_id()
                    })
                },
                Err(e) => {
                    &&& *final(self) == *old(self)
                    &&& (e is DimensionMismatch || e is PayloadError || e is IoError)
                },
            },
    {
        proof {
            reveal(payload_bytes_len);
            reveal(rec_len);
        }
        if vector.len() != self.config.dimension {
            return Err(
                Error::DimensionMismatch { expected: self.config.dimension, got: vector.len() },
            );
        }
        let pj = payload.to_json();
        proof {
            reveal(payload_bytes_len);
            assert(pj@.len() == payload_bytes_len(payload.view_fields()));
        }
        if (pj.len() as u64) >= 0x1_0000_0000u64 {
            return Err(Error::PayloadError(String::from_str("payload too large")));
        }
        let total: u64 = 17 + 4 * (vector.len() as u64) + (pj.len() as u64);
        if total >= 0x1_0000_0000u64 {
            return Err(Error::PayloadError(String::from_str("record too large")));
        }
        if self.data.write_position() > u64::MAX - total {
            return Err(Error::IoError(String::from_str("record log is full")));
        }
        if self.wal.pending() >= u64::MAX - 1 {
            return Err(Error::IoError(String::from_str("sync counter overflow")));
        }
        let wv = crate::vector::Vector::new(vector.as_slice()).into_inner();
        let wp = payload.duplicate();
        proof {
            assert(wp.wf());
        }
        let entry = if update {
            WalEntry::update(id, wv, wp)
        } else {
            WalEntry::insert(id, wv, wp)
        };
        let ghost ev = crate::wal::entry_view(entry);
        proof {
            reveal(payload_bytes_len);
            assert(entry_wf(ev));
        }
        match self.wal.append(entry) {
            Ok(_) => {},
            Err(_) => {
                proof {
                    assert(false);
                }
            },
        }
        let ghost m0 = self.model();
        let ghost w0 = old(self).view_wal();
        proof {
            reveal(rec_len);
            reveal(payload_bytes_len);
        }
        self.apply_core_insert(id, vector, payload);
        proof {
            let x = BfEntry { id: id, vector: ev.vector, payload: ev.payload };
            assert(step_m(m0, ev) == m0.insert(id, x));
            lemma_replay_absorb(m0, w0, ev);
            assert(replay_m(m0, w0) == m0);
            assert(replay_m(self.model(), self.view_wal()) == self.model());
            assert(self.view_wal() =~= w0.push(ev));
            lemma_wal_size_snoc(w0, ev);
            assert(wal_size(self.view_wal(), self.view_wal().len() as int)
                <= self.spec_write_pos());
            assert forall|k: int|
                0 <= k < self.view_wal().len() implies (((#[trigger] self.view_wal()[k]).kind
                == WalEntryKind::Insert || self.view_wal()[k].kind == WalEntryKind::Update)
                ==> self.view_wal()[k].vector.len() == self.config.dimension) by {
                if k < w0.len() {
                    assert(self.view_wal()[k] == w0[k]);
                } else {
                    assert(self.view_wal()[k] == ev);
                }
            }
        }
        Ok(())
    }

    /// Stores a vector under `id`, replacing any previous record of it. The
    /// mutation is logged before it is applied.
    pub fn insert(&mut self, id: u64, vector: Vec<u32>, payload: Payload) -> (r: Result<
        (),
        Error,
    >)
        requires
            old(self).wf(),
            payload.wf(),
        ensures
            final(self).wf(),
            final(self).spec_config() == old(self).spec_config(),
            (r is Ok <==> upsert_accepts(
                old(self).spec_config().dimension,
                old(self).spec_write_pos(),
                old(self).spec_pending(),
                vector@,
                payload.view_fields(),
            )),
            ((r matches Err(e) && e is DimensionMismatch) <==> vector@.len() != old(
                self,
            ).spec_config().dimension),
            ((r matches Err(e) && e is PayloadError) <==> (vector@.len() == old(
                self,
            ).spec_config().dimension && 17 + 4 * vector@.len() + payload_bytes_len(
                payload.view_fields(),
            ) >= 0x1_0000_0000)),
            ((r matches Err(e) && e is IoError) <==> (vector@.len() == old(
                self,
            ).spec_config().dimension && 17 + 4 * vector@.len() + payload_bytes_len(
                payload.view_fields(),
            ) < 0x1_0000_0000 && (old(self).spec_write_pos() + 17 + 4 * vector@.len()
                + payload_bytes_len(payload.view_fields()) > u64::MAX || old(
                self,
            ).spec_pending() >= u64::MAX - 1))),
            match r {
                Ok(()) => {
                    &&& vector@.len() == old(self).spec_config().dimension
                    &&& final(self).model() == old(self).model().insert(
                        id,
                        (BfEntry { id: id, vector: vector@, payload: payload.view_fields() }),
                    )
                    &&& final(self).view_wal() == old(self).view_wal().push(
                        (EntryView {
                            kind: WalEntryKind::Insert,
                            id: id,
                            vector: vector@,
                            payload: payload.view_fields(),
                        }),
                    )
                    &&& final(self).spec_write_pos() == old(self).spec_write_pos() + rec_len(
                        vector@.len(),
                        payload.view_fields(),
                    )
                    &&& final(self).spec_pending() <= old(self).spec_pending() + 1
                    &&& final(self).spec_next_id() == (if id == u64::MAX {
                        old(self).spec_next_id()
                    } else if id + 1 > old(self).spec_next_id() {
                        (id + 1) as u64
                    } else {
                        old(self).spec_next_id()
                    })
                },
                Err(e) => {
                    &&& *final(self) == *old(self)
                    &&& (e is DimensionMismatch || e is PayloadError || e is IoError)
                },
            },
    {
        self.mutate_upsert(false, id, vector, payload)
    }

    /// Replaces the vector and payload under `id`; an absent identifier is
    /// simply bound. The mutation is logged before it is applied.
    pub fn update(&mut self, id: u64, vector: Vec<u32>, payload: Payload) -> (r: Result<
        (),
        Error,
    >)
        requires
            old(self).wf(),
            payload.wf(),
        ensures
            final(self).wf(),
            final(self).spec_config() == old(self).spec_config(),
            (r is Ok <==> upsert_accepts(
                old(self).spec_config().dimension,
                old(self).spec_write_pos(),
                old(self).spec_pending(),
                vector@,
                payload.view_fields(),
            )),
            ((r matches Err(e) && e is DimensionMismatch) <==> vector@.len() != old(
                self,
            ).spec_config().dimension),
            ((r matches Err(e) && e is PayloadError) <==> (vector@.len() == old(
                self,
            ).spec_config().dimension && 17 + 4 * vector@.len() + payload_bytes_len(
                payload.view_fields(),
            ) >= 0x1_0000_0000)),
            ((r matches Err(e) && e is IoError) <==> (vector@.len() == old(
                self,
            ).spec_config().dimension && 17 + 4 * vector@.len() + payload_bytes_len(
                payload.view_fields(),
            ) < 0x1_0000_0000 && (old(self).spec_write_pos() + 17 + 4 * vector@.len()
                + payload_bytes_len(payload.view_fields()) > u64::MAX || old(
                self,
            ).spec_pending() >= u64::MAX - 1))),
            match r {
                Ok(()) => {
                    &&& vector@.len() == old(self).spec_config().dimension
                    &&& final(self).model() == old(self).model().insert(
                        id,
                        (BfEntry { id: id, vector: vector@, payload: payload.view_fields() }),
                    )
                    &&& final(self).view_wal() == old(self).view_wal().push(
                        (EntryView {
                            kind: WalEntryKind::Update,
                            id: id,
                            vector: vector@,
                            payload: payload.view_fields(),
                        }),
                    )
                    &&& final(self).spec_write_pos() == old(self).spec_write_pos() + rec_len(
                        vector@.len(),
                        payload.view_fields(),
                    )
                    &&& final(self).spec_pending() <= old(self).spec_pending() + 1
                    &&& final(self).spec_next_id() == (if id == u64::MAX {
                        old(self).spec_next_id()
                    } else if id + 1 > old(self).spec_next_id() {
                        (id + 1) as u64
                    } else {
                        old(self).spec_next_id()
                    })
                },
                Err(e) => {
                    &&& *final(self) == *old(self)
                    &&& (e is DimensionMismatch || e is PayloadError || e is IoError)
                },
            },
    {
        self.mutate_upsert(true, id, vector, payload)
    }

    /// Stores a vector under the next automatic identifier and returns it.
    pub fn insert_auto(&mut self, vector: Vec<u32>, payload: Payload) -> (r: Result<u64, Error>)
        requires
            old(self).wf(),
            payload.wf(),
        ensures
            final(self).wf(),
            final(self).spec_config() == old(self).spec_config(),
            (r is Ok <==> upsert_accepts(
                old(self).spec_config().dimension,
                old(self).spec_write_pos(),
                old(self).spec_pending(),
                vector@,
                payload.view_fields(),
            )),
            ((r matches Err(e) && e is DimensionMismatch) <==> vector@.len() != old(
                self,
            ).spec_config().dimension),
            match r {
                Ok(id) => {
                    &&& id == old(self).spec_next_id()
                    &&& (old(self).spec_next_id() != u64::MAX ==> !old(
                        self,
                    ).model().dom().contains(id))
                    &&& final(self).model() == old(self).model().insert(
                        id,
                        (BfEntry { id: id, vector: vector@, payload: payload.view_fields() }),
                    )
                    &&& final(self).view_wal() == old(self).view_wal().push(
                        (EntryView {
                            kind: WalEntryKind::Insert,
                            id: id,
                            vector: vector@,
                            payload: payload.view_fields(),
                        }),
                    )
                    &&& (id != u64::MAX ==> final(self).spec_next_id() == (id + 1) as u64)
                    &&& (id == u64::MAX ==> final(self).spec_next_id() == old(
                        self,
                    ).spec_next_id())
                    &&& final(self).spec_pending() <= old(self).spec_pending() + 1
                },
                Err(e) => *final(self) == *old(self) && (e is DimensionMismatch
                    || e is PayloadError || e is IoError),
            },
    {
        let id = self.next_id;
        proof {
            if id != u64::MAX && self.model().dom().contains(id) {
                lemma_lookup_as_map(self.view_index(), id);
                lemma_bf_lookup_member(self.view_index(), id);
                let e = bf_lookup(self.view_index(), id).unwrap();
                let i = choose|i: int|
                    0 <= i < self.view_index().len() && self.view_index()[i] == e;
                assert(self.view_index()[i].id < self.spec_next_id()
                    || self.view_index()[i].id == u64::MAX);
                assert(false);
            }
        }
        match self.mutate_upsert(false, id, vector, payload) {
            Ok(()) => Ok(id),
            Err(e) => Err(e),
        }
    }

    /// Removes the record under `id` and says whether one was there. The
    /// mutation is logged before it is applied.
    #[verifier::rlimit(100)]
    #[verifier::spinoff_prover]
    pub fn delete(&mut self, id: u64) -> (r: Result<bool, Error>)
        requires
            old(self).wf(),
        ensures
            final(self).wf(),
            final(self).spec_config() == old(self).spec_config(),
            (r is Ok <==> old(self).spec_pending() < u64::MAX - 1),
            match r {
                Ok(b) => {
                    &&& b == old(self).model().dom().contains(id)
                    &&& final(self).model() == old(self).model().remove(id)
                    &&& final(self).view_wal() == old(self).view_wal().push(
                        (EntryView {
                            kind: WalEntryKind::Delete,
                            id: id,
                            vector: Seq::empty(),
                            payload: Seq::empty(),
                        }),
                    )
                    &&& final(self).spec_write_pos() == old(self).spec_write_pos()
                    &&& final(self).spec_next_id() == old(self).spec_next_id()
                    &&& final(self).spec_pending() <= old(self).spec_pending() + 1
                },
                Err(e) => *final(self) == *old(self) && e is IoError && old(self).spec_pending()
                    >= u64::MAX - 1,
            },
    {
        if self.wal.pending() >= u64::MAX - 1 {
            return Err(Error::IoError(String::from_str("sync counter overflow")));
        }
        let entry = WalEntry::delete(id);
        let ghost ev = crate::wal::entry_view(entry);
        proof {
            lemma_empty_payload_bytes();
            assert(entry_wf(ev));
        }
        match self.wal.append(entry) {
            Ok(_) => {},
            Err(_) => {
                proof {
                    assert(false);
                }
            },
        }
        let ghost m0 = self.model();
        let ghost w0 = old(self).view_wal();
        let b = self.apply_core_delete(id);
        proof {
            assert(step_m(m0, ev) == m0.remove(id));
            lemma_replay_absorb(m0, w0, ev);
            assert(replay_m(self.model(), self.view_wal()) == self.model());
            assert(self.view_wal() =~= w0.push(ev));
            lemma_wal_size_snoc(w0, ev);
            assert(wal_size(self.view_wal(), self.view_wal().len() as int)
                <= self.spec_write_pos());
            assert forall|k: int|
                0 <= k < self.view_wal().len() implies (((#[trigger] self.view_wal()[k]).kind
                == WalEntryKind::Insert || self.view_wal()[k].kind == WalEntryKind::Update)
                ==> self.view_wal()[k].vector.len() == self.config.dimension) by {
                if k < w0.len() {
                    assert(self.view_wal()[k] == w0[k]);
                } else {
                    assert(self.view_wal()[k] == ev);
                }
            }
        }
        Ok(b)
    }

    /// The `k` nearest stored vectors to `query` among those passing the
    /// filter, sorted ascending by distance order key.
    pub fn search(&self, query: &[u32], k: usize, filter: Option<Filter>) -> (r: Vec<
        SearchResult,
    >)
        requires
            self.wf(),
        ensures
            query@.len() != self.spec_config().dimension ==> r@.len() == 0,
            query@.len() == self.spec_config().dimension ==> crate::brute::search_post(
                r@,
                self.view_index(),
                self.spec_config().metric,
                query@,
                k as int,
                filter,
            ),
    {
        self.index.search(query, k, filter)
    }

    /// The vector and payload under `id`, copied out.
    pub fn get(&self, id: u64) -> (r: Option<(Vec<u32>, Payload)>)
        requires
            self.wf(),
        ensures
            match r {
                Some((v, p)) => {
                    &&& self.model().dom().contains(id)
                    &&& self.model()[id].vector == v@
                    &&& self.model()[id].payload == p.view_fields()
                    &&& p.wf()
                },
                None => !self.model().dom().contains(id),
            },
    {
        proof {
            lemma_lookup_as_map(self.view_index(), id);
        }
        match self.index.get(id) {
            Some((v, p)) => {
                let vv = crate::vector::Vector::new(v.as_slice()).into_inner();
                let pp = p.duplicate();
                proof {
                    lemma_bf_lookup_member(self.view_index(), id);
                    let e = bf_lookup(self.view_index(), id).unwrap();
                    let i = choose|i: int|
                        0 <= i < self.view_index().len() && self.view_index()[i] == e;
                    assert(crate::payload::keys_unique(e.payload) && crate::payload::values_wf(
                        e.payload,
                    ));
                }
                Some((vv, pp))
            },
            None => None,
        }
    }

    /// Forces the log forward: everything applied so far is durable in the
    /// record log, so the write-ahead log is checkpointed and truncated.
    #[verifier::rlimit(100)]
    #[verifier::spinoff_prover]
    pub fn flush(&mut self) -> (r: Result<(), Error>)
        requires
            old(self).wf(),
        ensures
            final(self).wf(),
            final(self).spec_config() == old(self).spec_config(),
            final(self).model() == old(self).model(),
            final(self).view_wal() == Seq::<EntryView>::empty(),
            final(self).view_data() == old(self).view_data(),
            final(self).spec_next_id() == old(self).spec_next_id(),
            final(self).spec_write_pos() == old(self).spec_write_pos(),
            final(self).spec_pending() == 0,
            r is Ok,
    {
        self.wal.checkpoint();
        proof {
            assert(wal_size(self.view_wal(), 0) == 0);
        }
        Ok(())
    }

    /// The byte image of the record log, for the embedder to persist.
    pub fn data_bytes(&self) -> (r: Vec<u8>)
        requires
            self.wf(),
        ensures
            r@ == crate::record::file_enc(self.view_data()),
    {
        self.data.to_bytes()
    }

    /// The byte image of the write-ahead log, for the embedder to persist.
    pub fn wal_bytes(&self) -> (r: Vec<u8>)
        requires
            self.wf(),
        ensures
            r@ == crate::wal::wal_enc(self.view_wal()),
    {
        self.wal.to_bytes()
    }
}

/// The serialized payload of the empty field list is the two brace bytes.
pub proof fn lemma_empty_payload_bytes()
    ensures
        payload_bytes_len(Seq::<(Seq<char>, SpecValue)>::empty()) == 2,
{
    reveal(payload_bytes_len);
    assert(crate::json::jser_fields(Seq::<(Seq<char>, SpecValue)>::empty())
        =~= Seq::<u8>::empty());
    assert(crate::json::jser_obj(Seq::<(Seq<char>, SpecValue)>::empty()).len() == 2);
}

/// The recovery equivalence: for a well-formed collection, rebuilding from
/// the record log's live map and replaying the logged entries gives exactly
/// the in-memory map. A process that stops without flushing therefore
/// reopens to the same identifier-to-record map as one that flushed.
pub proof fn lemma_recovery_equivalence(c: &Collection)
    requires
        c.wf(),
    ensures
        replay_m(data_map(c.view_data()), c.view_wal()) == c.model(),
{
}

/// The entry list and the map model are two readings of one state: the
/// identifiers are distinct, each entry is the model's binding of its
/// identifier, the model's domain is exactly the entry identifiers, the
/// record log's live map is the model, every stored vector has the
/// configured dimension, and the identifier counter sits above every
/// stored identifier.
/// Crash safety, end to end: a well-formed collection's own byte images
/// parse back to exactly its records and logged entries, and replaying
/// those entries over the live map rebuilds exactly the map it holds.
/// With the opening contract this means reopening from a persisted image
/// recovers the same collection map.
pub proof fn lemma_reopen_exact(c: &Collection)
    requires
        c.wf(),
    ensures
        crate::wal::wal_parse(crate::wal::wal_enc(c.view_wal()), 0) == Some(c.view_wal()),
        crate::record::file_parse(crate::record::file_enc(c.view_data()), 0) == c.view_data(),
        replay_m(data_map(c.view_data()), c.view_wal()) == c.model(),
        inputs_dim_ok(c.view_data(), c.view_wal(), c.spec_config().dimension as nat),
        load_size(c.view_data(), c.view_wal()) <= 2 * (c.spec_write_pos() as int),
{
    crate::wal::lemma_wal_roundtrip(c.view_wal());
    crate::record::lemma_file_roundtrip(c.view_data(), c.spec_write_pos());
    let dim = c.spec_config().dimension as nat;
    let av = active_entries(c.view_data());
    lemma_active_distinct(c.view_data());
    assert(forall|a: int, b: int|
        0 <= a < b < av.len() ==> (#[trigger] av[a]).id != (#[trigger] av[b]).id) by {
        assert(forall|k: int|
            0 <= k < av.len() ==> (#[trigger] av[k]).id == active_of(c.view_data())[k].id);
    }
    assert forall|k: int| 0 <= k < av.len() implies (#[trigger] av[k]).vector.len() == dim by {
        lemma_bf_lookup_at(av, k);
        lemma_lookup_as_map(av, av[k].id);
        assert(data_map(c.view_data())[av[k].id] == av[k]);
        assert(c.model().dom().contains(av[k].id));
        lemma_lookup_as_map(c.view_index(), av[k].id);
        lemma_bf_lookup_member(c.view_index(), av[k].id);
        let e = bf_lookup(c.view_index(), av[k].id).unwrap();
        let i = choose|i: int| 0 <= i < c.view_index().len() && c.view_index()[i] == e;
        assert(c.view_index()[i].vector.len() == dim);
        assert(c.model()[av[k].id] == e);
    }
    lemma_avs_size_total(c.view_data(), c.spec_write_pos());
}

pub proof fn lemma_view_coherent(c: &Collection)
    requires
        c.wf(),
    ensures
        forall|i: int, j: int|
            0 <= i < j < c.view_index().len() ==> (#[trigger] c.view_index()[i]).id != (
            #[trigger] c.view_index()[j]).id,
        forall|i: int|
            0 <= i < c.view_index().len() ==> c.model().dom().contains(
                (#[trigger] c.view_index()[i]).id,
            ) && c.model()[c.view_index()[i].id] == c.view_index()[i],
        forall|id: u64|
            c.model().dom().contains(id) ==> exists|i: int|
                0 <= i < c.view_index().len() && (#[trigger] c.view_index()[i]).id == id,
        c.view_index().len() == c.model().dom().len(),
        c.model().dom().finite(),
        data_map(c.view_data()) == c.model(),
        forall|i: int|
            0 <= i < c.view_index().len() ==> (#[trigger] c.view_index()[i]).vector.len()
                == c.spec_config().dimension,
        forall|i: int|
            0 <= i < c.view_index().len() ==> ((#[trigger] c.view_index()[i]).id
                < c.spec_next_id() || c.view_index()[i].id == u64::MAX),
{
    let s = c.view_index();
    lemma_as_map_len(s);
    assert forall|i: int|
        0 <= i < s.len() implies c.model().dom().contains((#[trigger] s[i]).id) && c.model()[
    s[i].id] == s[i] by {
        lemma_bf_lookup_at(s, i);
        lemma_lookup_as_map(s, s[i].id);
    }
    assert forall|id: u64| c.model().dom().contains(id) implies exists|i: int|
        0 <= i < s.len() && (#[trigger] s[i]).id == id by {
        lemma_lookup_as_map(s, id);
        lemma_bf_lookup_member(s, id);
        let e = bf_lookup(s, id).unwrap();
        let i = choose|i: int| 0 <= i < s.len() && s[i] == e;
        assert(s[i].id == id);
    }
}

/// The metadata accepts the dimension: the bytes parse as one whole
/// canonical object with unique names whose `dimension` field is an
/// integral number equal to it.
pub open spec fn meta_accepts(mb: Seq<u8>, dimension: nat) -> bool {
    &&& (crate::json::jparse_obj(mb, 0) matches Some(fp) && fp.1 == mb.len()
        && crate::payload::keys_unique(fp.0))
    &&& (crate::json::jparse_obj(mb, 0) matches Some(fp) ==> (match crate::payload::plookup(
        fp.0,
        "dimension"@,
    ) {
        Some(SpecValue::Num(t)) => (match crate::value::token_as_int(t) {
            Some(d) => d >= 0 && d == dimension,
            None => false,
        }),
        _ => false,
    }))
}

/// The automatic-identifier floor the metadata records: its `next_id`
/// field when that holds an integer of at least one, else one.
pub open spec fn meta_next(mb: Seq<u8>) -> int {
    match crate::json::jparse_obj(mb, 0) {
        Some(fp) => match crate::payload::plookup(fp.0, "next_id"@) {
            Some(SpecValue::Num(t)) => match crate::value::token_as_int(t) {
                Some(n) => if n >= 1 {
                    n as int
                } else {
                    1
                },
                None => 1,
            },
            _ => 1,
        },
        None => 1,
    }
}

/// Whether every logged insert or update carries a vector of the dimension.
pub open spec fn wal_dims_ok(es: Seq<EntryView>, dimension: nat) -> bool {
    forall|k: int|
        0 <= k < es.len() ==> (((#[trigger] es[k]).kind == WalEntryKind::Insert || es[k].kind
            == WalEntryKind::Update) ==> es[k].vector.len() == dimension)
}

/// Whether every live record and every logged insert or update carries a
/// vector of the dimension.
pub open spec fn inputs_dim_ok(rs: Seq<RecView>, es: Seq<EntryView>, dimension: nat) -> bool {
    &&& (forall|k: int|
        0 <= k < active_entries(rs).len() ==> (#[trigger] active_entries(rs)[k]).vector.len()
            == dimension)
    &&& wal_dims_ok(es, dimension)
}

/// Bytes the first `i` loaded records take in the compacted log.
pub open spec fn avs_size(avs: Seq<BfEntry>, i: int) -> int
    decreases i,
{
    if i <= 0 {
        0
    } else {
        avs_size(avs, i - 1) + rec_len(avs[i - 1].vector.len(), avs[i - 1].payload)
    }
}

/// Bytes the first `i` replayed entries append to the compacted log.
pub open spec fn wal_size(es: Seq<EntryView>, i: int) -> int
    decreases i,
{
    if i <= 0 {
        0
    } else {
        wal_size(es, i - 1) + (match es[i - 1].kind {
            WalEntryKind::Insert => rec_len(es[i - 1].vector.len(), es[i - 1].payload) as int,
            WalEntryKind::Update => rec_len(es[i - 1].vector.len(), es[i - 1].payload) as int,
            _ => 0,
        })
    }
}

/// Whether one logged entry can be replayed: deletes and checkpoints
/// always, inserts and updates when the vector has the dimension and the
/// record log has room.
pub open spec fn replay_accepts(write_pos: u64, ev: EntryView, dimension: nat) -> bool {
    match ev.kind {
        WalEntryKind::Insert => ev.vector.len() == dimension && write_pos + rec_len(
            ev.vector.len(),
            ev.payload,
        ) <= u64::MAX,
        WalEntryKind::Update => ev.vector.len() == dimension && write_pos + rec_len(
            ev.vector.len(),
            ev.payload,
        ) <= u64::MAX,
        WalEntryKind::Delete => true,
        WalEntryKind::Checkpoint => true,
    }
}

/// How many bytes replaying one entry appends to the record log.
pub open spec fn entry_growth(ev: EntryView) -> int {
    match ev.kind {
        WalEntryKind::Insert => rec_len(ev.vector.len(), ev.payload) as int,
        WalEntryKind::Update => rec_len(ev.vector.len(), ev.payload) as int,
        WalEntryKind::Delete => 0,
        WalEntryKind::Checkpoint => 0,
    }
}

/// Bytes the compacted record log holds after loading the live records and
/// replaying the whole log.
pub open spec fn load_size(rs: Seq<RecView>, es: Seq<EntryView>) -> int {
    avs_size(active_entries(rs), active_entries(rs).len() as int) + wal_size(
        es,
        es.len() as int,
    )
}

/// Prefix sums of the load sizes never exceed the whole.
proof fn lemma_avs_size_mono(avs: Seq<BfEntry>, i: int, j: int)
    requires
        0 <= i <= j <= avs.len(),
    ensures
        avs_size(avs, i) <= avs_size(avs, j),
        avs_size(avs, i) >= 0,
    decreases j - i + i,
{
    if i > 0 {
        lemma_avs_size_mono(avs, i - 1, i - 1);
    }
    if i < j {
        lemma_avs_size_mono(avs, i, j - 1);
    }
}

/// Prefix sums of the replay sizes never exceed the whole.
proof fn lemma_wal_size_mono(es: Seq<EntryView>, i: int, j: int)
    requires
        0 <= i <= j <= es.len(),
    ensures
        wal_size(es, i) <= wal_size(es, j),
        wal_size(es, i) >= 0,
    decreases j - i + i,
{
    if i > 0 {
        lemma_wal_size_mono(es, i - 1, i - 1);
    }
    if i < j {
        lemma_wal_size_mono(es, i, j - 1);
    }
}

/// Size sums agree on a shared prefix.
proof fn lemma_wal_size_agree(a: Seq<EntryView>, b: Seq<EntryView>, i: int)
    requires
        0 <= i,
        i <= a.len(),
        i <= b.len(),
        forall|k: int| 0 <= k < i ==> a[k] == b[k],
    ensures
        wal_size(a, i) == wal_size(b, i),
    decreases i,
{
    if i > 0 {
        lemma_wal_size_agree(a, b, i - 1);
    }
}

/// Logging one more entry grows the replay size by its growth.
proof fn lemma_wal_size_snoc(es: Seq<EntryView>, e: EntryView)
    ensures
        wal_size(es.push(e), es.len() as int + 1) == wal_size(es, es.len() as int) + entry_growth(e),
{
    lemma_wal_size_agree(es.push(e), es, es.len() as int);
    assert(es.push(e)[es.len() as int] == e);
}

/// Size sums agree on a shared prefix.
proof fn lemma_avs_size_agree(a: Seq<BfEntry>, b: Seq<BfEntry>, i: int)
    requires
        0 <= i,
        i <= a.len(),
        i <= b.len(),
        forall|k: int| 0 <= k < i ==> a[k] == b[k],
    ensures
        avs_size(a, i) == avs_size(b, i),
    decreases i,
{
    if i > 0 {
        lemma_avs_size_agree(a, b, i - 1);
    }
}

/// Live records of a log with unique live identifiers are pairwise
/// distinct by identifier, and none is tombstoned.
proof fn lemma_active_distinct(rs: Seq<RecView>)
    requires
        live_unique(rs),
    ensures
        forall|i: int| 0 <= i < active_of(rs).len() ==> !(#[trigger] active_of(rs)[i]).deleted,
        forall|i: int, j: int|
            0 <= i < j < active_of(rs).len() ==> (#[trigger] active_of(rs)[i]).id != (
            #[trigger] active_of(rs)[j]).id,
    decreases rs.len(),
{
    if rs.len() > 0 {
        let pre = rs.drop_last();
        assert(live_unique(pre)) by {
            assert(forall|i: int| 0 <= i < pre.len() ==> pre[i] == rs[i]);
        }
        lemma_active_distinct(pre);
        lemma_active_member(pre);
        let av = active_of(rs);
        let avp = active_of(pre);
        if rs.last().deleted {
            assert(av =~= avp);
        } else {
            assert(av =~= avp.push(rs.last()));
            assert forall|i: int, j: int|
                0 <= i < j < av.len() implies (#[trigger] av[i]).id != (
            #[trigger] av[j]).id by {
                if j < avp.len() {
                    assert(av[i] == avp[i] && av[j] == avp[j]);
                } else {
                    assert(av[j] == rs.last());
                    assert(av[i] == avp[i]);
                    let m = choose|m: int| 0 <= m < pre.len() && pre[m] == avp[i];
                    assert(rs[m] == avp[i]);
                    assert(!rs[m].deleted && !rs[rs.len() - 1].deleted);
                }
            }
        }
    }
}

/// The live records' bytes never exceed the whole log's.
proof fn lemma_avs_size_total(rs: Seq<RecView>, wp: u64)
    requires
        crate::record::file_wf(rs, wp),
    ensures
        avs_size(active_entries(rs), active_entries(rs).len() as int) <= wp,
    decreases rs.len(),
{
    if rs.len() == 0 {
        assert(active_of(rs) =~= Seq::<RecView>::empty());
        assert(active_entries(rs) =~= Seq::<BfEntry>::empty());
    } else {
        let pre = rs.drop_last();
        let last = rs[rs.len() - 1];
        let wp0 = last.offset;
        assert(crate::record::file_wf(pre, wp0)) by {
            assert(forall|i: int| 0 <= i < pre.len() ==> pre[i] == rs[i]);
        }
        lemma_avs_size_total(pre, wp0);
        let av = active_entries(rs);
        let avp = active_entries(pre);
        if last.deleted {
            assert(active_of(rs) =~= active_of(pre));
            assert(av =~= avp);
            assert(wp0 <= wp);
        } else {
            assert(active_of(rs) =~= active_of(pre).push(last));
            assert(av =~= avp.push(
                (BfEntry { id: last.id, vector: last.vector, payload: last.payload }),
            ));
            lemma_avs_size_agree(av, avp, avp.len() as int);
            assert(avs_size(av, av.len() as int) == avs_size(avp, avp.len() as int) + rec_len(
                last.vector.len(),
                last.payload,
            ));
            assert(wp == wp0 + rec_len(last.vector.len(), last.payload));
        }
    }
}

/// Every live record of a list is one of its records.
pub proof fn lemma_active_member(rs: Seq<RecView>)
    ensures
        forall|k: int|
            0 <= k < active_of(rs).len() ==> exists|i: int|
                0 <= i < rs.len() && rs[i] == #[trigger] active_of(rs)[k],
    decreases rs.len(),
{
    if rs.len() > 0 {
        lemma_active_member(rs.drop_last());
        assert forall|k: int|
            0 <= k < active_of(rs).len() implies exists|i: int|
            0 <= i < rs.len() && rs[i] == #[trigger] active_of(rs)[k] by {
            if k < active_of(rs.drop_last()).len() {
                assert(active_of(rs)[k] == active_of(rs.drop_last())[k]);
                let i = choose|i: int|
                    0 <= i < rs.drop_last().len() && rs.drop_last()[i] == active_of(
                        rs.drop_last(),
                    )[k];
                assert(rs[i] == active_of(rs)[k]);
            } else {
                assert(!rs.last().deleted);
                assert(active_of(rs)[k] == rs.last());
                assert(rs[rs.len() - 1] == active_of(rs)[k]);
            }
        }
    }
}

/// The name each metric is written under in the metadata.
pub open spec fn metric_name(m: DistanceMetric) -> Seq<char> {
    match m {
        DistanceMetric::Euclidean => "Euclidean"@,
        DistanceMetric::Cosine => "Cosine"@,
        DistanceMetric::DotProduct => "DotProduct"@,
        DistanceMetric::Hamming => "Hamming"@,
    }
}

/// The metadata fields a collection writes.
pub open spec fn meta_fields(
    dimension: nat,
    metric: DistanceMetric,
    count: nat,
    next_id: nat,
) -> Seq<(Seq<char>, SpecValue)> {
    seq![
        ("dimension"@, SpecValue::Num(crate::bytes::dec_of(dimension))),
        ("metric"@, SpecValue::Str(metric_name(metric))),
        ("vector_count"@, SpecValue::Num(crate::bytes::dec_of(count))),
        ("next_id"@, SpecValue::Num(crate::bytes::dec_of(next_id))),
    ]
}

impl Collection {
    /// The metadata bytes: dimension, metric, vector count and the next
    /// automatic identifier, as a canonical JSON object.
    #[verifier::rlimit(100)]
    #[verifier::spinoff_prover]
    pub fn meta_bytes(&self) -> (r: Vec<u8>)
        requires
            self.wf(),
        ensures
            r@ == crate::json::jser_obj(
                meta_fields(
                    self.spec_config().dimension as nat,
                    self.spec_config().metric,
                    self.view_index().len(),
                    self.spec_next_id() as nat,
                ),
            ),
    {
        let name = match self.config.metric {
            DistanceMetric::Euclidean => String::from_str("Euclidean"),
            DistanceMetric::Cosine => String::from_str("Cosine"),
            DistanceMetric::DotProduct => String::from_str("DotProduct"),
            DistanceMetric::Hamming => String::from_str("Hamming"),
        };
        let mut fields: Vec<(String, Value)> = Vec::new();
        fields.push(
            (String::from_str("dimension"), Value::from_u64(self.config.dimension as u64)),
        );
        fields.push((String::from_str("metric"), Value::from_text(name.as_str())));
        fields.push((String::from_str("vector_count"), Value::from_u64(self.index.len() as u64)));
        fields.push((String::from_str("next_id"), Value::from_u64(self.next_id)));
        proof {
            assert(crate::json::fields_view(fields@) =~= meta_fields(
                self.spec_config().dimension as nat,
                self.spec_config().metric,
                self.view_index().len(),
                self.spec_next_id() as nat,
            ));
        }
        crate::json::ser_obj(&fields)
    }

    /// Loads one live record read back from a record-log image.
    #[verifier::rlimit(100)]
    #[verifier::spinoff_prover]
    fn load_active(&mut self, rec: &crate::record::DataRecord) -> (r: Result<(), Error>)
        requires
            old(self).wf0(),
            crate::record::rec_wf(crate::record::rec_view(*rec)),
        ensures
            final(self).spec_config() == old(self).spec_config(),
            final(self).view_wal() == old(self).view_wal(),
            final(self).spec_pending() == old(self).spec_pending(),
            final(self).spec_next_id() >= old(self).spec_next_id(),
            (r is Ok <==> rec.vector@.len() == old(self).spec_config().dimension && old(
                self,
            ).spec_write_pos() + rec_len(rec.vector@.len(), rec.payload.view_fields())
                <= u64::MAX),
            match r {
                Ok(()) => final(self).wf0() && rec.vector@.len() == old(
                    self,
                ).spec_config().dimension && final(self).model() == old(self).model().insert(
                    rec.id,
                    (BfEntry {
                        id: rec.id,
                        vector: rec.vector@,
                        payload: rec.payload.view_fields(),
                    }),
                ) && final(self).spec_write_pos() == old(self).spec_write_pos() + rec_len(
                    rec.vector@.len(),
                    rec.payload.view_fields(),
                ),
                Err(e) => *final(self) == *old(self) && e is CollectionError,
            },
    {
        proof {
            reveal(rec_len);
            reveal(payload_bytes_len);
        }
        if rec.vector.len() != self.config.dimension {
            return Err(
                Error::CollectionError(String::from_str("stored vector of another dimension")),
            );
        }
        let rvec = crate::vector::Vector::new(rec.vector.as_slice()).into_inner();
        let rpay = rec.payload.duplicate();
        let pj = rpay.to_json();
        proof {
            reveal(payload_bytes_len);
            reveal(rec_len);
            assert(rpay.wf());
        }
        let total: u64 = 17 + 4 * (rvec.len() as u64) + (pj.len() as u64);
        if self.data.write_position() > u64::MAX - total {
            return Err(Error::CollectionError(String::from_str("record log is full")));
        }
        self.apply_core_insert(rec.id, rvec, rpay);
        Ok(())
    }

    /// Replays one logged entry during recovery.
    #[verifier::rlimit(100)]
    #[verifier::spinoff_prover]
    fn replay_entry(&mut self, e: &WalEntry) -> (r: Result<(), Error>)
        requires
            old(self).wf0(),
            entry_wf(crate::wal::entry_view(*e)),
        ensures
            final(self).spec_config() == old(self).spec_config(),
            final(self).view_wal() == old(self).view_wal(),
            final(self).spec_pending() == old(self).spec_pending(),
            final(self).spec_next_id() >= old(self).spec_next_id(),
            (r is Ok <==> replay_accepts(
                old(self).spec_write_pos(),
                crate::wal::entry_view(*e),
                old(self).spec_config().dimension as nat,
            )),
            match r {
                Ok(()) => final(self).wf0() && final(self).model() == step_m(
                    old(self).model(),
                    crate::wal::entry_view(*e),
                ) && final(self).spec_write_pos() == old(self).spec_write_pos() + entry_growth(
                    crate::wal::entry_view(*e),
                ),
                Err(err) => *final(self) == *old(self) && err is CollectionError,
            },
    {
        proof {
            reveal(rec_len);
            reveal(payload_bytes_len);
        }
        match e.kind {
            WalEntryKind::Insert | WalEntryKind::Update => {
                if e.vector.len() != self.config.dimension {
                    return Err(
                        Error::CollectionError(
                            String::from_str("logged vector of another dimension"),
                        ),
                    );
                }
                let rvec = crate::vector::Vector::new(e.vector.as_slice()).into_inner();
                let rpay = e.payload.duplicate();
                let pj = rpay.to_json();
                proof {
                    reveal(payload_bytes_len);
                    reveal(rec_len);
                    assert(rpay.wf());
                }
                let total: u64 = 17 + 4 * (rvec.len() as u64) + (pj.len() as u64);
                if self.data.write_position() > u64::MAX - total {
                    return Err(Error::CollectionError(String::from_str("record log is full")));
                }
                self.apply_core_insert(e.id, rvec, rpay);
                Ok(())
            },
            WalEntryKind::Delete => {
                let _ = self.apply_core_delete(e.id);
                Ok(())
            },
            WalEntryKind::Checkpoint => Ok(()),
        }
    }

    /// Opens a collection from its byte images, or creates an empty one
    /// when there is no metadata. The record log's live records are loaded
    /// first, compacting away tombstones and shadowed duplicates, and the
    /// logged entries are then replayed in order; the resulting map is
    /// exactly the replay over the live map read from the images.
    #[verifier::rlimit(100)]
    #[verifier::spinoff_prover]
    pub fn open_or_create(
        meta: Option<&[u8]>,
        data_bytes: &[u8],
        wal_bytes: &[u8],
        config: CollectionConfig,
    ) -> (r: Result<Collection, Error>)
        ensures
            match r {
                Ok(c) => {
                    &&& c.wf()
                    &&& c.spec_config() == config
                    &&& crate::wal::wal_parse(wal_bytes@, 0) matches Some(es) && c.view_wal() == es
                        && c.model() == replay_m(
                        data_map(crate::record::file_parse(data_bytes@, 0)),
                        es,
                    )
                    &&& (meta matches Some(mb) ==> meta_accepts(mb@, config.dimension as nat))
                    &&& (forall|id: u64|
                        c.model().dom().contains(id) ==> id < c.spec_next_id() || id
                            == u64::MAX)
                    &&& c.spec_pending() == 0
                    &&& (meta matches Some(mb) ==> c.spec_next_id() >= meta_next(mb@))
                },
                Err(e) => {
                    &&& (e is WalCorrupted || e is IoError ==> crate::wal::wal_parse(
                        wal_bytes@,
                        0,
                    ) is None)
                    &&& (e is CollectionError ==> (config.dimension >= 0x4000_0000 || (
                    meta matches Some(mb) && !meta_accepts(mb@, config.dimension as nat)) || (
                    crate::wal::wal_parse(wal_bytes@, 0) matches Some(es) && (!inputs_dim_ok(
                        crate::record::file_parse(data_bytes@, 0),
                        es,
                        config.dimension as nat,
                    ) || load_size(crate::record::file_parse(data_bytes@, 0), es) > u64::MAX))))
                    &&& (e is CollectionError || e is WalCorrupted || e is IoError)
                },
            },
            (config.dimension < 0x4000_0000 && (meta is None || (meta matches Some(mb)
                && meta_accepts(mb@, config.dimension as nat))) && (crate::wal::wal_parse(
                wal_bytes@,
                0,
            ) matches Some(es) && inputs_dim_ok(
                crate::record::file_parse(data_bytes@, 0),
                es,
                config.dimension as nat,
            ) && load_size(crate::record::file_parse(data_bytes@, 0), es) <= u64::MAX))
                ==> r is Ok,
    {
        if config.dimension >= 0x4000_0000 {
            return Err(Error::CollectionError(String::from_str("dimension too large")));
        }
        let mut next_base: u64 = 1;
        match meta {
            Some(mb) => {
                let p = match Payload::from_json(mb) {
                    Some(p) => p,
                    None => {
                        proof {
                            assert(!meta_accepts(mb@, config.dimension as nat));
                        }
                        return Err(
                            Error::CollectionError(String::from_str("metadata does not parse")),
                        );
                    },
                };
                let d = match p.get_i64("dimension") {
                    Some(d) => d,
                    None => {
                        proof {
                            assert(!meta_accepts(mb@, config.dimension as nat));
                        }
                        return Err(
                            Error::CollectionError(
                                String::from_str("metadata lacks a dimension"),
                            ),
                        );
                    },
                };
                if d < 0 || d as u64 != config.dimension as u64 {
                    proof {
                        assert(!meta_accepts(mb@, config.dimension as nat));
                    }
                    return Err(Error::CollectionError(String::from_str("dimension mismatch")));
                }
                proof {
                    assert(meta_accepts(mb@, config.dimension as nat));
                }
                match p.get_i64("next_id") {
                    Some(n) => {
                        if n >= 1 {
                            next_base = n as u64;
                        }
                    },
                    None => {},
                }
                proof {
                    assert(next_base as int == meta_next(mb@));
                }
            },
            None => {},
        }
        proof {
            assert(match meta {
                Some(mb2) => next_base as int == meta_next(mb2@),
                None => true,
            });
        }
        let data0 = DataFile::from_bytes(data_bytes);
        let entries = match Wal::read_all(wal_bytes) {
            Ok(es) => es,
            Err(e) => {
                return Err(e);
            },
        };
        let mut c = Collection {
            config,
            index: BruteForceIndex::new(config.metric, config.dimension),
            wal: Wal::from_entries(config.sync_mode, entries),
            data: DataFile::open_new(),
            next_id: next_base,
        };
        let ghost es = c.wal.view_entries();
        let ghost m0 = data_map(data0.view_recs());
        proof {
            assert(active_of(Seq::<RecView>::empty()).len() == 0);
            assert(active_entries(Seq::<RecView>::empty()) =~= Seq::<BfEntry>::empty());
            assert(as_map(Seq::<BfEntry>::empty()) =~= Map::<u64, BfEntry>::empty());
            assert(c.model() =~= Map::<u64, BfEntry>::empty());
            assert(c.wf0());
        }
        // load the live records, newest binding of each identifier last
        let actives = data0.iter_active();
        let ghost av = active_entries(data0.view_recs());
        proof {
            lemma_active_member(data0.view_recs());
            assert(av.len() == actives@.len());
        }
        let n = actives.len();
        let mut t: usize = 0;
        proof {
            assert(as_map(av.take(0)) =~= Map::<u64, BfEntry>::empty());
        }
        while t < n
            invariant
                0 <= t <= n,
                n == actives@.len(),
                av.len() == n,
                av == active_entries(data0.view_recs()),
                crate::record::recs_view(actives@) == active_of(data0.view_recs()),
                data0.wf(),
                c.wf0(),
                c.spec_config() == config,
                c.view_wal() == es,
                c.model() == as_map(av.take(t as int)),
                c.spec_write_pos() == avs_size(av, t as int),
                c.spec_pending() == 0,
                c.spec_next_id() >= next_base,
                crate::wal::wal_parse(wal_bytes@, 0) == Some(es),
                data0.view_recs() == crate::record::file_parse(data_bytes@, 0),
            decreases n - t,
        {
            proof {
                lemma_active_member(data0.view_recs());
                assert(crate::record::rec_view(actives@[t as int]) == active_of(
                    data0.view_recs(),
                )[t as int]);
                let i = choose|i: int|
                    0 <= i < data0.view_recs().len() && data0.view_recs()[i] == active_of(
                        data0.view_recs(),
                    )[t as int];
                assert(crate::record::rec_wf(data0.view_recs()[i]));
            }
            match c.load_active(&actives[t]) {
                Ok(()) => {},
                Err(e) => {
                    proof {
                        let dim = config.dimension as nat;
                        let rs = data0.view_recs();
                        assert(av[t as int].vector == actives@[t as int].vector@);
                        assert(av[t as int].payload == actives@[t as int].payload.view_fields());
                        if actives@[t as int].vector@.len() != dim {
                            assert(!inputs_dim_ok(rs, es, dim)) by {
                                assert(active_entries(rs)[t as int].vector.len() != dim);
                            }
                        } else {
                            lemma_avs_size_mono(av, t + 1, av.len() as int);
                            lemma_wal_size_mono(es, 0, es.len() as int);
                            assert(avs_size(av, t + 1) == avs_size(av, t as int) + rec_len(
                                av[t as int].vector.len(),
                                av[t as int].payload,
                            ));
                            assert(load_size(rs, es) > u64::MAX);
                        }
                    }
                    return Err(e);
                },
            }
            proof {
                assert(av.take(t + 1).drop_last() =~= av.take(t as int));
                assert(av.take(t + 1).last() == av[t as int]);
                assert(c.model() =~= as_map(av.take(t + 1)));
            }
            t += 1;
        }
        proof {
            assert(av.take(n as int) =~= av);
            assert(c.model() == m0);
            assert(c.spec_write_pos() == avs_size(av, av.len() as int));
        }
        // replay the logged entries, in order
        let replayed = c.wal.entries();
        let rn = replayed.len();
        let mut u: usize = 0;
        proof {
            assert(es.take(0) =~= Seq::<EntryView>::empty());
            assert(replay_m(m0, es.take(0)) == m0);
        }
        while u < rn
            invariant
                0 <= u <= rn,
                rn == replayed@.len(),
                crate::wal::entries_view(replayed@) == es,
                es.len() == rn,
                c.wf0(),
                c.spec_config() == config,
                c.view_wal() == es,
                c.wal.wf(),
                c.model() == replay_m(m0, es.take(u as int)),
                c.spec_write_pos() == avs_size(av, av.len() as int) + wal_size(es, u as int),
                c.spec_pending() == 0,
                c.spec_next_id() >= next_base,
                forall|w: int|
                    0 <= w < u ==> (((#[trigger] es[w]).kind == WalEntryKind::Insert
                        || es[w].kind == WalEntryKind::Update) ==> es[w].vector.len()
                        == config.dimension),
                av == active_entries(data0.view_recs()),
                crate::wal::wal_parse(wal_bytes@, 0) == Some(es),
                data0.view_recs() == crate::record::file_parse(data_bytes@, 0),
            decreases rn - u,
        {
            let ghost ev = es[u as int];
            proof {
                assert(crate::wal::entry_view(replayed@[u as int]) == ev);
                assert(entry_wf(ev));
                lemma_replay_snoc(m0, es.take(u as int), ev);
                assert(es.take(u + 1) =~= es.take(u as int).push(ev));
            }
            match c.replay_entry(&replayed[u]) {
                Ok(()) => {},
                Err(e) => {
                    proof {
                        let dim = config.dimension as nat;
                        let rs = data0.view_recs();
                        assert(ev.kind == WalEntryKind::Insert || ev.kind == WalEntryKind::Update);
                        if ev.vector.len() != dim {
                            assert(!inputs_dim_ok(rs, es, dim)) by {
                                assert(es[u as int].vector.len() != dim);
                            }
                        } else {
                            lemma_wal_size_mono(es, u + 1, es.len() as int);
                            assert(wal_size(es, u + 1) == wal_size(es, u as int) + entry_growth(
                                ev,
                            ));
                            assert(load_size(rs, es) > u64::MAX);
                        }
                    }
                    return Err(e);
                },
            }
            proof {
                assert(c.model() =~= replay_m(m0, es.take(u + 1)));
            }
            u += 1;
        }
        proof {
            assert(es.take(rn as int) =~= es);
            assert(c.model() == replay_m(m0, es));
            lemma_replay_idem(m0, es);
            assert(replay_m(c.model(), c.view_wal()) == c.model());
            assert(data_map(crate::record::file_parse(data_bytes@, 0)) == m0);
            assert forall|idv: u64| c.model().dom().contains(idv) implies idv
                < c.spec_next_id() || idv == u64::MAX by {
                lemma_lookup_as_map(c.view_index(), idv);
                lemma_bf_lookup_member(c.view_index(), idv);
            }
            assert(wal_dims_ok(c.view_wal(), config.dimension as nat));
            lemma_avs_size_mono(av, 0, av.len() as int);
            assert(wal_size(c.view_wal(), c.view_wal().len() as int) <= c.spec_write_pos());
        }
        Ok(c)
    }
}

} // verus!
