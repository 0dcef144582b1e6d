//! The write-ahead log.
//!
//! Every mutation is appended here before it is applied. A frame is
//! `[crc32:u32][len:u32][entry:u8 x len]`, little endian, with the checksum
//! taken over the entry bytes alone. An entry is
//! `[kind:u8][id:u64][dim:u32][scalar bits:u32 x dim][plen:u32][payload json]`.
//! Reading back stops cleanly at a torn tail and fails on a checksum
//! mismatch.

use vstd::prelude::*;
use vstd::string::StringExecFns;
use crate::bytes::{le32, le64, read_le32, read_le64, push_le32, push_le64, get_le32, get_le64};
use crate::json::jparse_obj;
use crate::payload::{Payload, keys_unique, values_wf};
use crate::value::SpecValue;
use crate::record::{vec_bytes, read_vec, payload_bytes, payload_bytes_len, lemma_read_vec_snoc,
    lemma_read_vec_of_enc, lemma_vec_bytes_len};
use crate::error::Error;

verus! {

/// The checksum of a byte sequence.
pub uninterp spec fn crc32_of(data: Seq<u8>) -> u32;

/// Relies on `crc32fast::hash`: the CRC-32 checksum of the bytes, a function
/// of the bytes alone.
#[verifier::external_body]
fn crc32(data: &[u8]) -> (r: u32)
    ensures
        r == crc32_of(data@),
{
    crc32fast::hash(data)
}

/// When appended frames are forced to storage.
#[derive(Debug, Clone, Copy, PartialEq, Eq, Structural)]
pub enum SyncMode {
    /// After every append.
    Immediate,
    /// After every batch of appends and on an explicit sync.
    Batched,
    /// Never; the operating system flushes when it likes.
    NoSync,
}

impl Default for SyncMode {
    /// The default mode.
    fn default() -> (r: Self)
        ensures
            r == SyncMode::Batched,
    {
        SyncMode::Batched
    }
}

/// The operation a log entry records.
#[derive(Debug, Clone, Copy, PartialEq, Eq, Structural)]
pub enum WalEntryKind {
    /// A vector was inserted.
    Insert,
    /// A vector was replaced.
    Update,
    /// A vector was removed.
    Delete,
    /// Everything before this point is durable elsewhere.
    Checkpoint,
}

/// The byte tag of each kind.
pub open spec fn kind_byte(k: WalEntryKind) -> u8 {
    match k {
        WalEntryKind::Insert => 1,
        WalEntryKind::Update => 2,
        WalEntryKind::Delete => 3,
        WalEntryKind::Checkpoint => 4,
    }
}

impl WalEntryKind {
    /// The kind a byte tag names.
    pub fn try_from(value: u8) -> (r: Result<WalEntryKind, Error>)
        ensures
            match r {
                Ok(k) => kind_byte(k) == value,
                Err(e) => e is WalCorrupted && !(1 <= value <= 4),
            },
    {
        match value {
            1 => Ok(WalEntryKind::Insert),
            2 => Ok(WalEntryKind::Update),
            3 => Ok(WalEntryKind::Delete),
            4 => Ok(WalEntryKind::Checkpoint),
            _ => Err(Error::WalCorrupted(String::from_str("invalid entry kind"))),
        }
    }

    /// The byte tag of the kind.
    pub fn as_byte(&self) -> (r: u8)
        ensures
            r == kind_byte(*self),
    {
        match self {
            WalEntryKind::Insert => 1,
            WalEntryKind::Update => 2,
            WalEntryKind::Delete => 3,
            WalEntryKind::Checkpoint => 4,
        }
    }
}

/// One logged operation.
#[derive(Debug)]
pub struct WalEntry {
    /// The operation.
    pub kind: WalEntryKind,
    /// The vector identifier; zero for a checkpoint.
    pub id: u64,
    /// The vector, empty for delete and checkpoint.
    pub vector: Vec<u32>,
    /// The payload, empty for delete and checkpoint.
    pub payload: Payload,
}

/// The shape of a logged operation.
pub struct EntryView {
    /// The operation.
    pub kind: WalEntryKind,
    /// The vector identifier.
    pub id: u64,
    /// The vector bit patterns.
    pub vector: Seq<u32>,
    /// The payload fields.
    pub payload: Seq<(Seq<char>, SpecValue)>,
}

/// View of one entry.
pub open spec fn entry_view(e: WalEntry) -> EntryView {
    EntryView { kind: e.kind, id: e.id, vector: e.vector@, payload: e.payload.view_fields() }
}

/// View of an entry list.
pub open spec fn entries_view(es: Seq<WalEntry>) -> Seq<EntryView> {
    es.map_values(|e: WalEntry| entry_view(e))
}

/// Well-formed entry: bounded sizes and a well-formed payload.
pub open spec fn entry_wf(e: EntryView) -> bool {
    &&& e.vector.len() < 0x1_0000_0000
    &&& payload_bytes_len(e.payload) < 0x1_0000_0000
    &&& 17 + 4 * e.vector.len() + payload_bytes_len(e.payload) < 0x1_0000_0000
    &&& keys_unique(e.payload)
    &&& values_wf(e.payload)
}

/// Encoded bytes of one entry, before framing.
pub open spec fn ent_enc(e: EntryView) -> Seq<u8> {
    seq![kind_byte(e.kind)] + le64(e.id) + le32(e.vector.len() as u32) + vec_bytes(e.vector)
        + le32(payload_bytes_len(e.payload) as u32) + payload_bytes(e.payload)
}

/// Encoded frame of one entry: checksum, length, entry bytes.
pub open spec fn frame_enc(e: EntryView) -> Seq<u8> {
    le32(crc32_of(ent_enc(e))) + le32(ent_enc(e).len() as u32) + ent_enc(e)
}

/// Encoded bytes of the whole log.
pub open spec fn wal_enc(es: Seq<EntryView>) -> Seq<u8>
    decreases es.len(),
{
    if es.len() == 0 {
        Seq::empty()
    } else {
        frame_enc(es[0]) + wal_enc(es.drop_first())
    }
}

/// One entry decoded from its frame payload; `None` on any malformed field.
#[verifier::opaque]
pub open spec fn ent_parse(b: Seq<u8>) -> Option<EntryView> {
    if b.len() < 17 {
        None
    } else {
        let dim = read_le32(b.subrange(9, 13)) as int;
        if 17 + 4 * dim > b.len() {
            None
        } else {
            let plen = read_le32(b.subrange(13 + 4 * dim, 17 + 4 * dim)) as int;
            let pstart = 17 + 4 * dim;
            if pstart + plen != b.len() {
                None
            } else {
                match jparse_obj(b, pstart) {
                    Some((fs, e)) => if e == b.len() && keys_unique(fs) && payload_bytes_len(fs)
                        == plen && 1 <= b[0] <= 4 {
                        Some(
                            EntryView {
                                kind: if b[0] == 1 {
                                    WalEntryKind::Insert
                                } else if b[0] == 2 {
                                    WalEntryKind::Update
                                } else if b[0] == 3 {
                                    WalEntryKind::Delete
                                } else {
                                    WalEntryKind::Checkpoint
                                },
                                id: read_le64(b.subrange(1, 9)),
                                vector: read_vec(b, 13, dim),
                                payload: fs,
                            },
                        )
                    } else {
                        None
                    },
                    None => None,
                }
            }
        }
    }
}

/// The frames of a byte image, from position `i`. A clean end or a torn
/// tail gives the entries read so far; a checksum mismatch or a malformed
/// entry gives nothing.
pub open spec fn wal_parse(b: Seq<u8>, i: int) -> Option<Seq<EntryView>>
    decreases b.len() - i,
{
    if i < 0 || i >= b.len() {
        Some(Seq::empty())
    } else if i + 8 > b.len() {
        Some(Seq::empty())
    } else {
        let crc = read_le32(b.subrange(i, i + 4));
        let len = read_le32(b.subrange(i + 4, i + 8)) as int;
        if i + 8 + len > b.len() {
            Some(Seq::empty())
        } else {
            let data = b.subrange(i + 8, i + 8 + len);
            if crc32_of(data) != crc {
                None
            } else {
                match ent_parse(data) {
                    Some(e) => match wal_parse(b, i + 8 + len) {
                        Some(rest) => Some(seq![e] + rest),
                        None => None,
                    },
                    None => None,
                }
            }
        }
    }
}

/// The image of an entry is exactly its header, scalars and payload.
proof fn lemma_ent_enc_len(e: EntryView)
    ensures
        ent_enc(e).len() == 17 + 4 * e.vector.len() + payload_bytes_len(e.payload),
{
    reveal(payload_bytes);
    reveal(payload_bytes_len);
    lemma_vec_bytes_len(e.vector);
}

/// Parsing a well-formed entry's own image gives the entry back.
proof fn lemma_ent_roundtrip(e: EntryView)
    requires
        entry_wf(e),
    ensures
        ent_parse(ent_enc(e)) == Some(e),
{
    reveal(ent_parse);
    reveal(payload_bytes);
    reveal(payload_bytes_len);
    lemma_ent_enc_len(e);
    lemma_vec_bytes_len(e.vector);
    let b = ent_enc(e);
    let dim = e.vector.len() as int;
    let plen = payload_bytes_len(e.payload) as int;
    assert(le64(e.id).len() == 8);
    assert(payload_bytes(e.payload).len() == plen);
    assert(b.len() == 17 + 4 * dim + plen);
    assert(b[0] == kind_byte(e.kind));
    assert(b.subrange(1, 9) =~= le64(e.id)) by {
        assert(forall|k: int| 0 <= k < 8 ==> #[trigger] b.subrange(1, 9)[k] == b[k + 1]);
    }
    crate::bytes::lemma_le64_roundtrip(e.id);
    assert(b.subrange(9, 13) =~= le32(e.vector.len() as u32)) by {
        assert(forall|k: int| 0 <= k < 4 ==> #[trigger] b.subrange(9, 13)[k] == b[k + 9]);
    }
    crate::bytes::lemma_le32_roundtrip(e.vector.len() as u32);
    assert(b.subrange(13, 13 + 4 * dim) =~= vec_bytes(e.vector)) by {
        assert(forall|k: int|
            0 <= k < 4 * dim ==> #[trigger] b.subrange(13, 13 + 4 * dim)[k] == b[k + 13]);
    }
    lemma_read_vec_of_enc(e.vector, b, 13);
    assert(b.subrange(13 + 4 * dim, 17 + 4 * dim) =~= le32(plen as u32)) by {
        assert(forall|k: int|
            0 <= k < 4 ==> #[trigger] b.subrange(13 + 4 * dim, 17 + 4 * dim)[k] == b[k + 13 + 4
                * dim]);
    }
    crate::bytes::lemma_le32_roundtrip(plen as u32);
    let pstart = 17 + 4 * dim;
    assert(b.subrange(pstart, b.len() as int) =~= payload_bytes(e.payload)) by {
        assert(forall|k: int|
            0 <= k < plen ==> #[trigger] b.subrange(pstart, b.len() as int)[k] == b[k
                + pstart]);
    }
    crate::json::lemma_roundtrip_obj(e.payload, b, pstart);
    assert(1 <= b[0] <= 4);
    let parsed = ent_parse(b).unwrap();
    assert(parsed.kind == e.kind);
    assert(parsed =~= e);
    assert(ent_parse(b) == Some(e));
}

/// Parsing a chained image suffix gives back its entries.
proof fn lemma_wal_roundtrip_at(es: Seq<EntryView>, b: Seq<u8>, i: int)
    requires
        0 <= i <= b.len(),
        b.subrange(i, b.len() as int) == wal_enc(es),
        forall|k: int| 0 <= k < es.len() ==> entry_wf(#[trigger] es[k]),
    ensures
        wal_parse(b, i) == Some(es),
    decreases es.len(),
{
    if es.len() == 0 {
        assert(wal_enc(es).len() == 0);
        assert(i == b.len());
        assert(wal_parse(b, i) == Some(Seq::<EntryView>::empty()));
        assert(Seq::<EntryView>::empty() =~= es);
    } else {
        let e = es[0];
        assert(entry_wf(e));
        lemma_ent_enc_len(e);
        let eb = ent_enc(e);
        let el = eb.len() as int;
        assert(el < 0x1_0000_0000);
        let tail = b.subrange(i, b.len() as int);
        assert(tail =~= frame_enc(e) + wal_enc(es.drop_first()));
        assert(forall|k: int| 0 <= k < tail.len() ==> tail[k] == b[i + k]);
        assert(frame_enc(e).len() == 8 + el);
        assert(b.subrange(i, i + 4) =~= le32(crc32_of(eb))) by {
            assert(forall|k: int| 0 <= k < 4 ==> #[trigger] b.subrange(i, i + 4)[k] == tail[k]);
        }
        crate::bytes::lemma_le32_roundtrip(crc32_of(eb));
        assert(b.subrange(i + 4, i + 8) =~= le32(el as u32)) by {
            assert(forall|k: int|
                0 <= k < 4 ==> #[trigger] b.subrange(i + 4, i + 8)[k] == tail[k + 4]);
        }
        crate::bytes::lemma_le32_roundtrip(el as u32);
        assert(i + 8 + el <= b.len());
        let data = b.subrange(i + 8, i + 8 + el);
        assert(data =~= eb) by {
            assert(forall|k: int|
                0 <= k < el ==> #[trigger] b.subrange(i + 8, i + 8 + el)[k] == tail[k + 8]);
        }
        lemma_ent_roundtrip(e);
        assert(ent_parse(data) == Some(e));
        assert(b.subrange(i + 8 + el, b.len() as int) =~= wal_enc(es.drop_first())) by {
            assert(forall|k: int|
                0 <= k < b.len() - i - 8 - el ==> #[trigger] b.subrange(
                    i + 8 + el,
                    b.len() as int,
                )[k] == tail[k + 8 + el]);
        }
        lemma_wal_roundtrip_at(es.drop_first(), b, i + 8 + el);
        assert(wal_parse(b, i) == Some(seq![e] + es.drop_first()));
        assert(seq![e] + es.drop_first() =~= es);
    }
}

/// Round trip of the log: parsing a well-formed log's own image gives back
/// exactly its entries — a clean shutdown and a reopen lose nothing.
pub proof fn lemma_wal_roundtrip(es: Seq<EntryView>)
    requires
        forall|k: int| 0 <= k < es.len() ==> entry_wf(#[trigger] es[k]),
    ensures
        wal_parse(wal_enc(es), 0) == Some(es),
{
    let b = wal_enc(es);
    assert(b.subrange(0, b.len() as int) =~= b);
    lemma_wal_roundtrip_at(es, b, 0);
}

impl WalEntry {
    /// An insert entry.
    pub fn insert(id: u64, vector: Vec<u32>, payload: Payload) -> (r: WalEntry)
        ensures
            entry_view(r) == (EntryView {
                kind: WalEntryKind::Insert,
                id: id,
                vector: vector@,
                payload: payload.view_fields(),
            }),
    {
        WalEntry { kind: WalEntryKind::Insert, id, vector, payload }
    }

    /// An update entry.
    pub fn update(id: u64, vector: Vec<u32>, payload: Payload) -> (r: WalEntry)
        ensures
            entry_view(r) == (EntryView {
                kind: WalEntryKind::Update,
                id: id,
                vector: vector@,
                payload: payload.view_fields(),
            }),
    {
        WalEntry { kind: WalEntryKind::Update, id, vector, payload }
    }

    /// A delete entry.
    pub fn delete(id: u64) -> (r: WalEntry)
        ensures
            entry_view(r) == (EntryView {
                kind: WalEntryKind::Delete,
                id: id,
                vector: Seq::empty(),
                payload: Seq::empty(),
            }),
    {
        let r = WalEntry {
            kind: WalEntryKind::Delete,
            id,
            vector: Vec::new(),
            payload: Payload::new(),
        };
        proof {
            assert(entry_view(r).vector =~= Seq::<u32>::empty());
        }
        r
    }

    /// A checkpoint entry.
    pub fn checkpoint() -> (r: WalEntry)
        ensures
            entry_view(r) == (EntryView {
                kind: WalEntryKind::Checkpoint,
                id: 0,
                vector: Seq::empty(),
                payload: Seq::empty(),
            }),
    {
        let r = WalEntry {
            kind: WalEntryKind::Checkpoint,
            id: 0,
            vector: Vec::new(),
            payload: Payload::new(),
        };
        proof {
            assert(entry_view(r).vector =~= Seq::<u32>::empty());
        }
        r
    }

    /// An entry-for-entry copy.
    pub fn duplicate(&self) -> (r: WalEntry)
        ensures
            entry_view(r) == entry_view(*self),
    {
        WalEntry {
            kind: self.kind,
            id: self.id,
            vector: crate::vector::Vector::new(self.vector.as_slice()).into_inner(),
            payload: self.payload.duplicate(),
        }
    }
}

/// The write-ahead log: the entries appended since the last checkpoint, and
/// the sync policy. Forcing bytes to storage is the embedder's work; the log
/// reports when its policy calls for a sync.
#[derive(Debug)]
pub struct Wal {
    entries: Vec<WalEntry>,
    sync_mode: SyncMode,
    entries_since_sync: u64,
    batch_size: u64,
}

impl Wal {
    /// View: the logged entries.
    pub closed spec fn view_entries(&self) -> Seq<EntryView> {
        entries_view(self.entries@)
    }

    /// The sync policy.
    pub closed spec fn spec_sync_mode(&self) -> SyncMode {
        self.sync_mode
    }

    /// Entries appended since the last sync.
    pub closed spec fn spec_pending(&self) -> u64 {
        self.entries_since_sync
    }

    /// The batch size of the batched sync policy.
    pub closed spec fn spec_batch(&self) -> u64 {
        self.batch_size
    }

    /// Well-formed log: every entry within the frame size bounds, batching a
    /// hundred appends.
    pub open spec fn wf(&self) -> bool {
        &&& self.spec_batch() == 100
        &&& forall|i: int|
            0 <= i < self.view_entries().len() ==> entry_wf(#[trigger] self.view_entries()[i])
    }

    /// An empty log under the given sync policy, batching a hundred appends.
    pub fn open_new(sync_mode: SyncMode) -> (r: Wal)
        ensures
            r.view_entries() == Seq::<EntryView>::empty(),
            r.spec_sync_mode() == sync_mode,
            r.spec_pending() == 0,
            r.wf(),
    {
        let r = Wal { entries: Vec::new(), sync_mode, entries_since_sync: 0, batch_size: 100 };
        proof {
            assert(r.view_entries() =~= Seq::<EntryView>::empty());
        }
        r
    }

    /// Appends an entry. The result says whether the sync policy calls for a
    /// sync now: always under `Immediate`, at every full batch under
    /// `Batched`, never under `NoSync`.
    pub fn append(&mut self, entry: WalEntry) -> (r: Result<bool, Error>)
        requires
            old(self).wf(),
            entry_wf(entry_view(entry)),
        ensures
            final(self).wf(),
            final(self).spec_sync_mode() == old(self).spec_sync_mode(),
            match r {
                Ok(needs_sync) => {
                    &&& final(self).view_entries() == old(self).view_entries().push(
                        entry_view(entry),
                    )
                    &&& needs_sync == (old(self).spec_sync_mode() == SyncMode::Immediate || (old(
                        self,
                    ).spec_sync_mode() == SyncMode::Batched && old(self).spec_pending() + 1
                        >= 100))
                    &&& final(self).spec_pending() == (if needs_sync {
                        0
                    } else {
                        old(self).spec_pending() + 1
                    })
                },
                Err(e) => *final(self) == *old(self) && e is IoError && old(self).spec_pending()
                    >= u64::MAX - 1,
            },
    {
        if self.entries_since_sync >= u64::MAX - 1 {
            return Err(Error::IoError(String::from_str("sync counter overflow")));
        }
        let ghost prev = self.view_entries();
        let ghost ev = entry_view(entry);
        self.entries.push(entry);
        proof {
            assert(self.view_entries() =~= prev.push(ev));
        }
        self.entries_since_sync = self.entries_since_sync + 1;
        let needs_sync = match self.sync_mode {
            SyncMode::Immediate => true,
            SyncMode::Batched => self.entries_since_sync >= self.batch_size,
            SyncMode::NoSync => false,
        };
        if needs_sync {
            self.entries_since_sync = 0;
        }
        Ok(needs_sync)
    }

    /// Entries appended since the last forced sync.
    pub fn pending(&self) -> (r: u64)
        ensures
            r == self.spec_pending(),
    {
        self.entries_since_sync
    }

    /// A log already holding the given entries, as after recovery.
    pub fn from_entries(sync_mode: SyncMode, entries: Vec<WalEntry>) -> (r: Wal)
        requires
            forall|i: int|
                0 <= i < entries@.len() ==> entry_wf(#[trigger] entries_view(entries@)[i]),
        ensures
            r.view_entries() == entries_view(entries@),
            r.spec_sync_mode() == sync_mode,
            r.spec_pending() == 0,
            r.wf(),
    {
        Wal { entries, sync_mode, entries_since_sync: 0, batch_size: 100 }
    }

    /// Resets the pending-append counter; the embedder has forced the bytes
    /// out.
    pub fn sync(&mut self)
        requires
            old(self).wf(),
        ensures
            final(self).wf(),
            final(self).view_entries() == old(self).view_entries(),
            final(self).spec_sync_mode() == old(self).spec_sync_mode(),
            final(self).spec_pending() == 0,
    {
        self.entries_since_sync = 0;
        proof {
            assert(self.view_entries() == old(self).view_entries());
        }
    }

    /// Appends a checkpoint entry, then truncates the log: everything before
    /// the checkpoint is durable elsewhere.
    pub fn checkpoint(&mut self)
        requires
            old(self).wf(),
        ensures
            final(self).wf(),
            final(self).view_entries() == Seq::<EntryView>::empty(),
            final(self).spec_sync_mode() == old(self).spec_sync_mode(),
            final(self).spec_pending() == 0,
    {
        self.entries.clear();
        self.entries_since_sync = 0;
        proof {
            assert(self.view_entries() =~= Seq::<EntryView>::empty());
        }
    }

    /// The entries, copied out in order.
    pub fn entries(&self) -> (r: Vec<WalEntry>)
        ensures
            entries_view(r@) == self.view_entries(),
    {
        let n = self.entries.len();
        let mut out: Vec<WalEntry> = Vec::new();
        let mut i: usize = 0;
        while i < n
            invariant
                0 <= i <= n,
                n == self.entries@.len(),
                entries_view(out@) == self.view_entries().take(i as int),
            decreases n - i,
        {
            let ghost prev = entries_view(out@);
            out.push(self.entries[i].duplicate());
            proof {
                assert(entries_view(out@) =~= prev.push(entry_view(self.entries@[i as int])));
                assert(entries_view(out@) =~= self.view_entries().take(i + 1));
            }
            i += 1;
        }
        proof {
            assert(self.view_entries().take(n as int) =~= self.view_entries());
        }
        out
    }

    /// The byte image of the log.
    #[verifier::rlimit(100)]
    pub fn to_bytes(&self) -> (r: Vec<u8>)
        requires
            self.wf(),
        ensures
            r@ == wal_enc(self.view_entries()),
    {
        let n = self.entries.len();
        let mut out: Vec<u8> = Vec::new();
        let mut i: usize = 0;
        proof {
            assert(wal_enc(self.view_entries().take(0)) =~= Seq::<u8>::empty());
            assert(out@ =~= wal_enc(self.view_entries().take(0)));
        }
        while i < n
            invariant
                0 <= i <= n,
                n == self.entries@.len(),
                self.wf(),
                out@ == wal_enc(self.view_entries().take(i as int)),
            decreases n - i,
        {
            let ghost pre = out@;
            proof {
                assert(entry_view(self.entries@[i as int]) == self.view_entries()[i as int]);
                assert(entry_wf(self.view_entries()[i as int]));
            }
            let data = ent_bytes(&self.entries[i]);
            let c = crc32(data.as_slice());
            push_le32(&mut out, c);
            push_le32(&mut out, data.len() as u32);
            let mut k: usize = 0;
            let ghost before = out@;
            while k < data.len()
                invariant
                    0 <= k <= data@.len(),
                    out@ == before + data@.take(k as int),
                decreases data@.len() - k,
            {
                out.push(data[k]);
                proof {
                    assert(out@ =~= before + data@.take(k + 1));
                }
                k += 1;
            }
            proof {
                assert(data@.take(data@.len() as int) =~= data@);
                assert(entry_wf(self.view_entries()[i as int]));
                lemma_wal_enc_snoc(self.view_entries(), i as int);
                assert(out@ =~= pre + frame_enc(self.view_entries()[i as int]));
                assert(out@ =~= wal_enc(self.view_entries().take(i + 1)));
            }
            i += 1;
        }
        proof {
            assert(self.view_entries().take(n as int) =~= self.view_entries());
        }
        out
    }

    /// Rebuilds the entries from a byte image, for recovery. A torn tail
    /// ends the read cleanly; a checksum mismatch or malformed entry is
    /// corruption.
    #[verifier::rlimit(100)]
    pub fn read_all(b: &[u8]) -> (r: Result<Vec<WalEntry>, Error>)
        ensures
            match r {
                Ok(es) => wal_parse(b@, 0) == Some(entries_view(es@)) && (forall|i: int|
                    0 <= i < es@.len() ==> entry_wf(#[trigger] entries_view(es@)[i])),
                Err(e) => wal_parse(b@, 0) is None && (e is WalCorrupted || e is IoError),
            },
    {
        let n = b.len();
        let mut out: Vec<WalEntry> = Vec::new();
        let mut pos: usize = 0;
        loop
            invariant
                0 <= pos <= n,
                n == b@.len(),
                forall|i: int| 0 <= i < out@.len() ==> entry_wf(#[trigger] entries_view(out@)[i]),
                wal_parse(b@, 0) == (match wal_parse(b@, pos as int) {
                    Some(rest) => Some(entries_view(out@) + rest),
                    None => None::<Seq<EntryView>>,
                }),
            decreases n - pos,
        {
            if pos >= n || n - pos < 8 {
                proof {
                    assert(wal_parse(b@, pos as int) == Some(Seq::<EntryView>::empty()));
                    assert(entries_view(out@) + Seq::<EntryView>::empty() =~= entries_view(out@));
                }
                return Ok(out);
            }
            let crc_stored = get_le32(b, pos);
            let len32 = get_le32(b, pos + 4);
            let len = len32 as usize;
            if len as u64 > n as u64 - pos as u64 - 8 {
                proof {
                    assert(pos + 8 + (len32 as int) > n);
                    assert(wal_parse(b@, pos as int) == Some(Seq::<EntryView>::empty()));
                    assert(entries_view(out@) + Seq::<EntryView>::empty() =~= entries_view(out@));
                }
                return Ok(out);
            }
            let mut data: Vec<u8> = Vec::new();
            let mut k: usize = 0;
            while k < len
                invariant
                    0 <= k <= len,
                    pos + 8 + len <= n,
                    n == b@.len(),
                    data@ == b@.subrange(pos + 8, pos + 8 + k as int),
                decreases len - k,
            {
                data.push(b[pos + 8 + k]);
                proof {
                    assert(data@ =~= b@.subrange(pos + 8, pos + 8 + (k + 1)));
                }
                k += 1;
            }
            let c = crc32(data.as_slice());
            if c != crc_stored {
                return Err(Error::WalCorrupted(String::from_str("checksum mismatch")));
            }
            match ent_parse_exec(&data) {
                Some(e) => {
                    let ghost prev = entries_view(out@);
                    let ghost ev = entry_view(e);
                    out.push(e);
                    proof {
                        assert(entries_view(out@) =~= prev.push(ev));
                        assert(forall|rest: Seq<EntryView>|
                            prev + (seq![ev] + rest) =~= entries_view(out@) + rest);
                    }
                    pos = pos + 8 + len;
                },
                None => {
                    return Err(Error::WalCorrupted(String::from_str("malformed entry")));
                },
            }
        }
    }
}

/// Encoding one more entry extends the image.
proof fn lemma_wal_enc_snoc(es: Seq<EntryView>, i: int)
    requires
        0 <= i < es.len(),
    ensures
        wal_enc(es.take(i + 1)) == wal_enc(es.take(i)) + frame_enc(es[i]),
    decreases i,
{
    if i == 0 {
        assert(es.take(1).drop_first() =~= es.take(0));
        assert(es.take(0).len() == 0);
        assert(wal_enc(es.take(1)) =~= wal_enc(es.take(0)) + frame_enc(es[0]));
    } else {
        lemma_wal_enc_snoc(es.drop_first(), i - 1);
        assert(es.take(i + 1).drop_first() =~= es.drop_first().take(i));
        assert(es.take(i).drop_first() =~= es.drop_first().take(i - 1));
        assert(es.take(i + 1)[0] == es[0]);
        assert(es.take(i)[0] == es[0]);
        assert(es.drop_first()[i - 1] == es[i]);
        assert(wal_enc(es.take(i + 1)) =~= wal_enc(es.take(i)) + frame_enc(es[i]));
    }
}

/// Encodes one entry, without the frame.
#[verifier::rlimit(100)]
fn ent_bytes(e: &WalEntry) -> (r: Vec<u8>)
    requires
        entry_wf(entry_view(*e)),
    ensures
        r@ == ent_enc(entry_view(*e)),
{
    let mut out: Vec<u8> = Vec::new();
    out.push(e.kind.as_byte());
    push_le64(&mut out, e.id);
    push_le32(&mut out, e.vector.len() as u32);
    let ghost after_head = out@;
    let m = e.vector.len();
    let mut j: usize = 0;
    proof {
        assert(vec_bytes(e.vector@.take(0)) =~= Seq::<u8>::empty());
        assert(out@ =~= after_head + vec_bytes(e.vector@.take(0)));
    }
    while j < m
        invariant
            0 <= j <= m,
            m == e.vector@.len(),
            out@ == after_head + vec_bytes(e.vector@.take(j as int)),
        decreases m - j,
    {
        push_le32(&mut out, e.vector[j]);
        proof {
            crate::record::lemma_vec_bytes_snoc(e.vector@, j as int);
            assert(out@ =~= after_head + vec_bytes(e.vector@.take(j + 1)));
        }
        j += 1;
    }
    proof {
        assert(e.vector@.take(m as int) =~= e.vector@);
    }
    let pj = e.payload.to_json();
    proof {
        reveal(payload_bytes_len);
        reveal(payload_bytes);
        assert(pj@ == payload_bytes(entry_view(*e).payload));
    }
    push_le32(&mut out, pj.len() as u32);
    let mut k: usize = 0;
    let ghost before_pj = out@;
    while k < pj.len()
        invariant
            0 <= k <= pj@.len(),
            out@ == before_pj + pj@.take(k as int),
        decreases pj@.len() - k,
    {
        out.push(pj[k]);
        proof {
            assert(out@ =~= before_pj + pj@.take(k + 1));
        }
        k += 1;
    }
    proof {
        assert(pj@.take(pj@.len() as int) =~= pj@);
        assert(out@ =~= ent_enc(entry_view(*e)));
    }
    out
}

/// Decodes one entry from its frame payload, with the shape the entry parse
/// specification gives it.
#[verifier::rlimit(100)]
fn ent_parse_exec(data: &Vec<u8>) -> (r: Option<WalEntry>)
    requires
        data@.len() < 0x1_0000_0000,
    ensures
        match r {
            Some(e) => ent_parse(data@) == Some(entry_view(e)) && entry_wf(entry_view(e)),
            None => ent_parse(data@) is None,
        },
{
    let n = data.len();
    if n < 17 {
        proof {
            reveal(ent_parse);
        }
        return None;
    }
    let b = data.as_slice();
    let kb = b[0];
    let id = get_le64(b, 1);
    let dim32 = get_le32(b, 9);
    let dim = dim32 as usize;
    if dim as u64 > (n as u64 - 17) / 4 {
        proof {
            reveal(ent_parse);
            assert(17 + 4 * (dim32 as int) > n);
        }
        return None;
    }
    proof {
        assert(17 + 4 * (dim32 as int) <= n);
    }
    let mut vbits: Vec<u32> = Vec::new();
    let mut j: usize = 0;
    while j < dim
        invariant
            0 <= j <= dim,
            n == b@.len(),
            17 + 4 * dim <= n,
            vbits@ == read_vec(b@, 13, j as int),
            vbits@.len() == j,
        decreases dim - j,
    {
        let x = get_le32(b, 13 + 4 * j);
        vbits.push(x);
        proof {
            lemma_read_vec_snoc(b@, 13, j as int);
            assert(vbits@ =~= read_vec(b@, 13, j + 1));
        }
        j += 1;
    }
    let plen32 = get_le32(b, 13 + 4 * dim);
    let plen = plen32 as usize;
    let pstart = 17 + 4 * dim;
    if plen as u64 != n as u64 - pstart as u64 {
        proof {
            reveal(ent_parse);
        }
        return None;
    }
    let kind = match WalEntryKind::try_from(kb) {
        Ok(k) => k,
        Err(_) => {
            proof {
                reveal(ent_parse);
            }
            return None;
        },
    };
    let parsed = crate::json::parse_obj_exec(b, pstart);
    let (fields, pend) = match parsed {
        Some(x) => x,
        None => {
            proof {
                reveal(ent_parse);
            }
            return None;
        },
    };
    if pend != n {
        proof {
            reveal(ent_parse);
        }
        return None;
    }
    let payload = match Payload::from_fields(fields) {
        Some(p) => p,
        None => {
            proof {
                reveal(ent_parse);
            }
            return None;
        },
    };
    let pj2 = payload.to_json();
    if pj2.len() != plen {
        proof {
            reveal(ent_parse);
            reveal(payload_bytes_len);
        }
        return None;
    }
    let e = WalEntry { kind, id, vector: vbits, payload };
    proof {
        reveal(ent_parse);
        reveal(payload_bytes_len);
        assert(ent_parse(b@) == Some(entry_view(e)));
    }
    Some(e)
}

} // verus!
