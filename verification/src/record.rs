//! The append-only record log.
//!
//! A record is `[tomb:u8][id:u64][dim:u32][scalar bits:u32 x dim][plen:u32]
//! [payload json:u8 x plen]`, all integers little endian, and records stand
//! back to back from offset zero. The log is held as a list of records whose
//! offsets mirror the byte layout exactly; `to_bytes` and `from_bytes` move
//! between the two forms.

use vstd::prelude::*;
use vstd::string::StringExecFns;
use crate::bytes::{le32, le64, read_le32, read_le64, push_le32, push_le64, get_le32, get_le64};
use crate::json::{jser_obj, jparse_obj};
use crate::payload::{Payload, keys_unique, values_wf};
use crate::value::SpecValue;
use crate::error::Error;

verus! {

/// One record of the log.
#[derive(Debug)]
pub struct DataRecord {
    /// Byte offset of the record in the log.
    pub offset: u64,
    /// Whether the record is tombstoned.
    pub deleted: bool,
    /// Identifier of the stored vector.
    pub id: u64,
    /// The vector's scalar bit patterns.
    pub vector: Vec<u32>,
    /// The record's payload.
    pub payload: Payload,
}

/// The shape of a record.
pub struct RecView {
    /// Byte offset.
    pub offset: u64,
    /// Tombstone flag.
    pub deleted: bool,
    /// Identifier.
    pub id: u64,
    /// Vector bit patterns.
    pub vector: Seq<u32>,
    /// Payload fields.
    pub payload: Seq<(Seq<char>, SpecValue)>,
}

/// View of one record.
pub open spec fn rec_view(r: DataRecord) -> RecView {
    RecView {
        offset: r.offset,
        deleted: r.deleted,
        id: r.id,
        vector: r.vector@,
        payload: r.payload.view_fields(),
    }
}

/// View of a record list.
pub open spec fn recs_view(rs: Seq<DataRecord>) -> Seq<RecView> {
    rs.map_values(|r: DataRecord| rec_view(r))
}

/// Little-endian bytes of a list of scalar bit patterns.
pub open spec fn vec_bytes(v: Seq<u32>) -> Seq<u8>
    decreases v.len(),
{
    if v.len() == 0 {
        Seq::empty()
    } else {
        le32(v[0]) + vec_bytes(v.drop_first())
    }
}

/// Serialized payload bytes of a record.
#[verifier::opaque]
pub open spec fn payload_bytes(p: Seq<(Seq<char>, SpecValue)>) -> Seq<u8> {
    jser_obj(p)
}

/// Length of the serialized payload of a record.
#[verifier::opaque]
pub open spec fn payload_bytes_len(p: Seq<(Seq<char>, SpecValue)>) -> nat {
    jser_obj(p).len()
}

/// Encoded length of a record with the given vector length and payload.
pub open spec fn rec_len(vlen: nat, p: Seq<(Seq<char>, SpecValue)>) -> nat {
    (17 + 4 * vlen + payload_bytes_len(p)) as nat
}

/// Encoded bytes of one record.
pub open spec fn rec_enc(r: RecView) -> Seq<u8> {
    seq![
        if r.deleted {
            1u8
        } else {
            0u8
        },
    ] + le64(r.id) + le32(r.vector.len() as u32) + vec_bytes(r.vector) + le32(
        payload_bytes_len(r.payload) as u32,
    ) + payload_bytes(r.payload)
}

/// Encoded bytes of a record list, back to back.
pub open spec fn file_enc(rs: Seq<RecView>) -> Seq<u8>
    decreases rs.len(),
{
    if rs.len() == 0 {
        Seq::empty()
    } else {
        rec_enc(rs[0]) + file_enc(rs.drop_first())
    }
}

/// Well-formed record: bounded sizes and a well-formed payload.
pub open spec fn rec_wf(r: RecView) -> bool {
    &&& r.vector.len() < 0x1_0000_0000
    &&& payload_bytes_len(r.payload) < 0x1_0000_0000
    &&& keys_unique(r.payload)
    &&& values_wf(r.payload)
}

/// Well-formed log: well-formed records whose offsets chain from zero, and a
/// write position at the end.
pub open spec fn file_wf(rs: Seq<RecView>, write_pos: u64) -> bool {
    &&& (forall|i: int| 0 <= i < rs.len() ==> rec_wf(#[trigger] rs[i]))
    &&& (forall|i: int|
        0 <= i < rs.len() ==> (#[trigger] rs[i]).offset == (if i == 0 {
            0
        } else {
            rs[i - 1].offset + rec_len(rs[i - 1].vector.len(), rs[i - 1].payload)
        }))
    &&& write_pos == (if rs.len() == 0 {
        0
    } else {
        rs[rs.len() - 1].offset + rec_len(
            rs[rs.len() - 1].vector.len(),
            rs[rs.len() - 1].payload,
        )
    })
}

/// The append-only record log.
#[derive(Debug)]
pub struct DataFile {
    records: Vec<DataRecord>,
    write_pos: u64,
}

impl DataFile {
    /// View: the records.
    pub closed spec fn view_recs(&self) -> Seq<RecView> {
        recs_view(self.records@)
    }

    /// The write position.
    pub closed spec fn spec_write_pos(&self) -> u64 {
        self.write_pos
    }

    /// Well-formedness.
    pub open spec fn wf(&self) -> bool {
        file_wf(self.view_recs(), self.spec_write_pos())
    }

    /// An empty log.
    pub fn open_new() -> (r: DataFile)
        ensures
            r.view_recs() == Seq::<RecView>::empty(),
            r.spec_write_pos() == 0,
            r.wf(),
    {
        let r = DataFile { records: Vec::new(), write_pos: 0 };
        proof {
            assert(r.view_recs() =~= Seq::<RecView>::empty());
        }
        r
    }

    /// The current write position: the offset the next record will get.
    pub fn write_position(&self) -> (r: u64)
        ensures
            r == self.spec_write_pos(),
    {
        self.write_pos
    }

    /// Number of records, live and tombstoned.
    pub fn record_count(&self) -> (r: usize)
        ensures
            r == self.view_recs().len(),
    {
        self.records.len()
    }

    /// Appends a live record and returns its offset.
    #[verifier::rlimit(100)]
    pub fn append(&mut self, id: u64, vector: &Vec<u32>, payload: &Payload) -> (r: Result<
        u64,
        Error,
    >)
        requires
            old(self).wf(),
            keys_unique(payload.view_fields()),
            values_wf(payload.view_fields()),
        ensures
            final(self).wf(),
            match r {
                Ok(off) => {
                    &&& off == old(self).spec_write_pos()
                    &&& final(self).view_recs() == old(self).view_recs().push(
                        RecView {
                            offset: off,
                            deleted: false,
                            id: id,
                            vector: vector@,
                            payload: payload.view_fields(),
                        },
                    )
                    &&& final(self).spec_write_pos() == old(self).spec_write_pos() + rec_len(
                        vector@.len(),
                        payload.view_fields(),
                    )
                },
                Err(e) => {
                    &&& *final(self) == *old(self)
                    &&& e is IoError
                    &&& (vector@.len() >= 0x1_0000_0000 || payload_bytes_len(
                        payload.view_fields(),
                    ) >= 0x1_0000_0000 || old(self).spec_write_pos() + rec_len(
                        vector@.len(),
                        payload.view_fields(),
                    ) > u64::MAX)
                },
            },
    {
        proof {
            reveal(payload_bytes_len);
        }
        let pj = payload.to_json();
        if (vector.len() as u64) >= 0x1_0000_0000u64 {
            return Err(Error::IoError(String::from_str("vector too long")));
        }
        if (pj.len() as u64) >= 0x1_0000_0000u64 {
            return Err(Error::IoError(String::from_str("payload too long")));
        }
        let dim = vector.len() as u64;
        let plen = pj.len() as u64;
        let size: u64 = 17 + 4 * dim + plen;
        if self.write_pos > u64::MAX - size {
            return Err(
                Error::IoError(String::from_str("record log is full")),
            );
        }
        let off = self.write_pos;
        let rec = DataRecord {
            offset: off,
            deleted: false,
            id,
            vector: crate::vector::Vector::new(vector.as_slice()).into_inner(),
            payload: payload.duplicate(),
        };
        let ghost old_recs = self.view_recs();
        proof {
            assert(rec_view(rec) == RecView {
                offset: off,
                deleted: false,
                id: id,
                vector: vector@,
                payload: payload.view_fields(),
            });
        }
        self.records.push(rec);
        self.write_pos = off + size;
        proof {
            assert(self.view_recs() =~= old_recs.push(
                RecView {
                    offset: off,
                    deleted: false,
                    id: id,
                    vector: vector@,
                    payload: payload.view_fields(),
                },
            ));
            assert(forall|i: int|
                0 <= i < old_recs.len() ==> self.view_recs()[i] == old_recs[i]);
        }
        Ok(off)
    }

    /// Marks the record at `offset` tombstoned; the offset must name a
    /// record.
    #[verifier::rlimit(100)]
    #[verifier::spinoff_prover]
    pub fn mark_deleted(&mut self, offset: u64) -> (r: Result<(), Error>)
        requires
            old(self).wf(),
        ensures
            final(self).wf(),
            match r {
                Ok(()) => exists|i: int|
                    0 <= i < old(self).view_recs().len() && (#[trigger] old(
                        self,
                    ).view_recs()[i]).offset == offset && final(self).view_recs() == old(
                        self,
                    ).view_recs().update(
                        i,
                        RecView {
                            deleted: true,
                            ..old(self).view_recs()[i]
                        },
                    ) && final(self).spec_write_pos() == old(self).spec_write_pos(),
                Err(e) => *final(self) == *old(self) && e is IoError && (forall|i: int|
                    0 <= i < old(self).view_recs().len() ==> (#[trigger] old(
                        self,
                    ).view_recs()[i]).offset != offset),
            },
    {
        let n = self.records.len();
        let mut i: usize = 0;
        while i < n
            invariant
                0 <= i <= n,
                n == self.records@.len(),
                *self == *old(self),
                old(self).wf(),
                forall|k: int|
                    0 <= k < i ==> (#[trigger] self.view_recs()[k]).offset != offset,
            decreases n - i,
        {
            if self.records[i].offset == offset {
                proof {
                    assert(self.view_recs()[i as int].offset == offset);
                }
                let was = self.records.remove(i);
                let upd = DataRecord {
                    offset: was.offset,
                    deleted: true,
                    id: was.id,
                    vector: was.vector,
                    payload: was.payload,
                };
                self.records.insert(i, upd);
                proof {
                    assert(self.view_recs() =~= old(self).view_recs().update(
                        i as int,
                        RecView {
                            deleted: true,
                            ..old(self).view_recs()[i as int]
                        },
                    ));
                }
                return Ok(());
            }
            i += 1;
        }
        Err(Error::IoError(String::from_str("no record at this offset")))
    }

    /// Reads the record at `offset`.
    pub fn read_at(&self, offset: u64) -> (r: Result<DataRecord, Error>)
        ensures
            match r {
                Ok(rec) => exists|i: int|
                    0 <= i < self.view_recs().len() && (#[trigger] self.view_recs()[i]).offset
                        == offset && rec_view(rec) == self.view_recs()[i],
                Err(e) => e is IoError && (forall|i: int|
                    0 <= i < self.view_recs().len() ==> (#[trigger] self.view_recs()[i]).offset
                        != offset),
            },
    {
        let n = self.records.len();
        let mut i: usize = 0;
        while i < n
            invariant
                0 <= i <= n,
                n == self.records@.len(),
                forall|k: int|
                    0 <= k < i ==> (#[trigger] self.view_recs()[k]).offset != offset,
            decreases n - i,
        {
            if self.records[i].offset == offset {
                let rec = DataRecord {
                    offset: self.records[i].offset,
                    deleted: self.records[i].deleted,
                    id: self.records[i].id,
                    vector: crate::vector::Vector::new(
                        self.records[i].vector.as_slice(),
                    ).into_inner(),
                    payload: self.records[i].payload.duplicate(),
                };
                proof {
                    assert(self.view_recs()[i as int].offset == offset);
                    assert(rec_view(rec) == self.view_recs()[i as int]);
                }
                return Ok(rec);
            }
            i += 1;
        }
        Err(Error::IoError(String::from_str("no record at this offset")))
    }

    /// Tombstones the first live record holding `id` and returns its
    /// offset; nothing changes when no live record holds it.
    #[verifier::rlimit(100)]
    pub fn tombstone_by_id(&mut self, id: u64) -> (r: Option<u64>)
        requires
            old(self).wf(),
        ensures
            final(self).wf(),
            final(self).spec_write_pos() == old(self).spec_write_pos(),
            match r {
                Some(off) => exists|i: int|
                    {
                        &&& 0 <= i < old(self).view_recs().len()
                        &&& !(#[trigger] old(self).view_recs()[i]).deleted
                        &&& old(self).view_recs()[i].id == id
                        &&& old(self).view_recs()[i].offset == off
                        &&& final(self).view_recs() == old(self).view_recs().update(
                            i,
                            RecView { deleted: true, ..old(self).view_recs()[i] },
                        )
                        &&& (forall|j: int|
                            0 <= j < i ==> ((#[trigger] old(self).view_recs()[j]).deleted || old(
                                self,
                            ).view_recs()[j].id != id))
                    },
                None => *final(self) == *old(self) && (forall|i: int|
                    0 <= i < old(self).view_recs().len() ==> ((#[trigger] old(
                        self,
                    ).view_recs()[i]).deleted || old(self).view_recs()[i].id != id)),
            },
    {
        let n = self.records.len();
        let mut i: usize = 0;
        while i < n
            invariant
                0 <= i <= n,
                n == self.records@.len(),
                *self == *old(self),
                old(self).wf(),
                forall|k: int|
                    0 <= k < i ==> ((#[trigger] self.view_recs()[k]).deleted
                        || self.view_recs()[k].id != id),
            decreases n - i,
        {
            if !self.records[i].deleted && self.records[i].id == id {
                proof {
                    assert(!self.view_recs()[i as int].deleted);
                    assert(self.view_recs()[i as int].id == id);
                }
                let off = self.records[i].offset;
                let was = self.records.remove(i);
                let upd = DataRecord {
                    offset: was.offset,
                    deleted: true,
                    id: was.id,
                    vector: was.vector,
                    payload: was.payload,
                };
                self.records.insert(i, upd);
                proof {
                    assert(self.view_recs() =~= old(self).view_recs().update(
                        i as int,
                        RecView { deleted: true, ..old(self).view_recs()[i as int] },
                    ));
                }
                return Some(off);
            }
            i += 1;
        }
        None
    }

    /// The records that are not tombstoned, in file order.
    pub fn iter_active(&self) -> (r: Vec<DataRecord>)
        ensures
            recs_view(r@) == active_of(self.view_recs()),
    {
        let n = self.records.len();
        let mut out: Vec<DataRecord> = Vec::new();
        let mut i: usize = 0;
        proof {
            lemma_active_take(self.view_recs(), 0);
        }
        while i < n
            invariant
                0 <= i <= n,
                n == self.records@.len(),
                recs_view(out@) == active_of(self.view_recs().take(i as int)),
            decreases n - i,
        {
            if !self.records[i].deleted {
                let rec = DataRecord {
                    offset: self.records[i].offset,
                    deleted: false,
                    id: self.records[i].id,
                    vector: crate::vector::Vector::new(
                        self.records[i].vector.as_slice(),
                    ).into_inner(),
                    payload: self.records[i].payload.duplicate(),
                };
                let ghost prev = recs_view(out@);
                out.push(rec);
                proof {
                    assert(recs_view(out@) =~= prev.push(rec_view(rec)));
                    assert(rec_view(rec) == self.view_recs()[i as int]);
                    lemma_active_step(self.view_recs(), i as int);
                    assert(recs_view(out@) =~= active_of(self.view_recs().take(i + 1)));
                }
            } else {
                proof {
                    assert(self.view_recs()[i as int].deleted);
                    lemma_active_step(self.view_recs(), i as int);
                }
            }
            i += 1;
        }
        proof {
            assert(self.view_recs().take(n as int) =~= self.view_recs());
        }
        out
    }
}

/// The live records of a list, in order.
pub open spec fn active_of(rs: Seq<RecView>) -> Seq<RecView>
    decreases rs.len(),
{
    if rs.len() == 0 {
        Seq::empty()
    } else {
        active_of(rs.drop_last()) + (if rs.last().deleted {
            Seq::empty()
        } else {
            seq![rs.last()]
        })
    }
}

proof fn lemma_active_take(rs: Seq<RecView>, i: int)
    requires
        0 <= i <= rs.len(),
    ensures
        i == 0 ==> active_of(rs.take(i)) == Seq::<RecView>::empty(),
{
    if i == 0 {
        assert(rs.take(0).len() == 0);
        assert(active_of(rs.take(0)) =~= Seq::<RecView>::empty());
    }
}

/// One step of the live-record filter.
proof fn lemma_active_step(rs: Seq<RecView>, i: int)
    requires
        0 <= i < rs.len(),
    ensures
        active_of(rs.take(i + 1)) == active_of(rs.take(i)) + (if rs[i].deleted {
            Seq::<RecView>::empty()
        } else {
            seq![rs[i]]
        }),
{
    assert(rs.take(i + 1).drop_last() =~= rs.take(i));
    assert(rs.take(i + 1).last() == rs[i]);
}

// --- the byte image ---

/// The scalar bit patterns read from `n` little-endian fields at `i`.
pub open spec fn read_vec(b: Seq<u8>, i: int, n: int) -> Seq<u32>
    decreases n,
{
    if n <= 0 {
        Seq::empty()
    } else {
        seq![read_le32(b.subrange(i, i + 4))] + read_vec(b, i + 4, n - 1)
    }
}

/// One record parsed from position `i`. The payload must be canonical: its
/// serialized form is exactly the stored bytes.
#[verifier::opaque]
pub open spec fn rec_parse(b: Seq<u8>, i: int) -> Option<(RecView, int)> {
    if i < 0 || i + 17 > b.len() {
        None
    } else {
        let dim = read_le32(b.subrange(i + 9, i + 13)) as int;
        if i + 17 + 4 * dim > b.len() {
            None
        } else {
            let plen = read_le32(b.subrange(i + 13 + 4 * dim, i + 17 + 4 * dim)) as int;
            let pstart = i + 17 + 4 * dim;
            if pstart + plen > b.len() {
                None
            } else {
                match jparse_obj(b, pstart) {
                    Some((fs, e)) => if e == pstart + plen && keys_unique(fs)
                        && payload_bytes_len(fs) == plen {
                        Some(
                            (
                                RecView {
                                    offset: i as u64,
                                    deleted: b[i] == 1,
                                    id: read_le64(b.subrange(i + 1, i + 9)),
                                    vector: read_vec(b, i + 13, dim),
                                    payload: fs,
                                },
                                e,
                            ),
                        )
                    } else {
                        None
                    },
                    None => None,
                }
            }
        }
    }
}

/// All records parsed from position `i`; parsing stops cleanly at the first
/// failure, treating the rest as a torn tail.
pub open spec fn file_parse(b: Seq<u8>, i: int) -> Seq<RecView>
    decreases b.len() - i,
{
    if i < 0 || i >= b.len() {
        Seq::empty()
    } else {
        match rec_parse(b, i) {
            Some((r, j)) => if i < j <= b.len() {
                seq![r] + file_parse(b, j)
            } else {
                Seq::empty()
            },
            None => Seq::empty(),
        }
    }
}

/// Encoding one more record extends the image.
proof fn lemma_file_enc_snoc(rs: Seq<RecView>, i: int)
    requires
        0 <= i < rs.len(),
    ensures
        file_enc(rs.take(i + 1)) == file_enc(rs.take(i)) + rec_enc(rs[i]),
    decreases i,
{
    if i == 0 {
        assert(rs.take(1).drop_first() =~= rs.take(0));
        assert(rs.take(0).len() == 0);
        assert(file_enc(rs.take(1)) =~= file_enc(rs.take(0)) + rec_enc(rs[0]));
    } else {
        lemma_file_enc_snoc(rs.drop_first(), i - 1);
        assert(rs.take(i + 1).drop_first() =~= rs.drop_first().take(i));
        assert(rs.take(i).drop_first() =~= rs.drop_first().take(i - 1));
        assert(rs.take(i + 1)[0] == rs[0]);
        assert(rs.take(i)[0] == rs[0]);
        assert(rs.drop_first()[i - 1] == rs[i]);
        assert(file_enc(rs.take(i + 1)) =~= file_enc(rs.take(i)) + rec_enc(rs[i]));
    }
}

/// Reading one more scalar field extends the list.
pub proof fn lemma_vec_bytes_snoc(v: Seq<u32>, j: int)
    requires
        0 <= j < v.len(),
    ensures
        vec_bytes(v.take(j + 1)) == vec_bytes(v.take(j)) + le32(v[j]),
    decreases j,
{
    if j == 0 {
        assert(v.take(1).drop_first() =~= v.take(0));
        assert(v.take(0).len() == 0);
        assert(vec_bytes(v.take(1)) =~= vec_bytes(v.take(0)) + le32(v[0]));
    } else {
        lemma_vec_bytes_snoc(v.drop_first(), j - 1);
        assert(v.take(j + 1).drop_first() =~= v.drop_first().take(j));
        assert(v.take(j).drop_first() =~= v.drop_first().take(j - 1));
        assert(v.take(j + 1)[0] == v[0]);
        assert(v.take(j)[0] == v[0]);
        assert(v.drop_first()[j - 1] == v[j]);
        assert(vec_bytes(v.take(j + 1)) =~= vec_bytes(v.take(j)) + le32(v[j]));
    }
}

/// The image of a vector is four bytes an element.
pub proof fn lemma_vec_bytes_len(v: Seq<u32>)
    ensures
        vec_bytes(v).len() == 4 * v.len(),
    decreases v.len(),
{
    if v.len() > 0 {
        lemma_vec_bytes_len(v.drop_first());
    }
}

/// Reading a vector back from its own little-endian image.
pub proof fn lemma_read_vec_of_enc(v: Seq<u32>, b: Seq<u8>, i: int)
    requires
        0 <= i,
        i + 4 * v.len() <= b.len(),
        b.subrange(i, i + 4 * v.len()) == vec_bytes(v),
    ensures
        read_vec(b, i, v.len() as int) == v,
    decreases v.len(),
{
    lemma_vec_bytes_len(v);
    if v.len() == 0 {
        assert(read_vec(b, i, 0) =~= v);
    } else {
        lemma_vec_bytes_len(v.drop_first());
        let sub = b.subrange(i, i + 4 * v.len());
        assert(forall|k: int| 0 <= k < sub.len() ==> sub[k] == b[i + k]);
        assert(b.subrange(i, i + 4) =~= le32(v[0])) by {
            assert(forall|k: int|
                0 <= k < 4 ==> #[trigger] b.subrange(i, i + 4)[k] == sub[k]);
        }
        crate::bytes::lemma_le32_roundtrip(v[0]);
        assert(b.subrange(i + 4, i + 4 + 4 * (v.len() - 1)) =~= vec_bytes(v.drop_first())) by {
            assert(forall|k: int|
                0 <= k < 4 * (v.len() - 1) ==> #[trigger] b.subrange(
                    i + 4,
                    i + 4 + 4 * (v.len() - 1),
                )[k] == sub[k + 4]);
            assert(forall|k: int|
                0 <= k < 4 * (v.len() - 1) ==> vec_bytes(v)[k + 4] == #[trigger] vec_bytes(
                    v.drop_first(),
                )[k]);
        }
        lemma_read_vec_of_enc(v.drop_first(), b, i + 4);
        assert(read_vec(b, i, v.len() as int) =~= v);
    }
}

/// The image of a record is exactly its encoded length.
pub proof fn lemma_rec_enc_len(r: RecView)
    requires
        rec_wf(r),
    ensures
        rec_enc(r).len() == rec_len(r.vector.len(), r.payload),
{
    reveal(payload_bytes);
    reveal(payload_bytes_len);
    lemma_vec_bytes_len(r.vector);
}

/// Parsing a well-formed record's own image at its offset gives the record
/// back.
proof fn lemma_rec_roundtrip(r: RecView, b: Seq<u8>, i: int)
    requires
        rec_wf(r),
        r.offset == i,
        0 <= i,
        i + rec_enc(r).len() <= b.len(),
        b.subrange(i, i + rec_enc(r).len()) == rec_enc(r),
    ensures
        rec_parse(b, i) == Some((r, i + rec_enc(r).len())),
{
    reveal(rec_parse);
    reveal(payload_bytes);
    reveal(payload_bytes_len);
    lemma_rec_enc_len(r);
    lemma_vec_bytes_len(r.vector);
    let dim = r.vector.len() as int;
    let plen = payload_bytes_len(r.payload) as int;
    let w = rec_enc(r).len() as int;
    let sub = b.subrange(i, i + w);
    assert(forall|k: int| 0 <= k < w ==> sub[k] == b[i + k]);
    assert(b[i] == rec_enc(r)[0]);
    assert(b.subrange(i + 1, i + 9) =~= le64(r.id)) by {
        assert(forall|k: int|
            0 <= k < 8 ==> #[trigger] b.subrange(i + 1, i + 9)[k] == sub[k + 1]);
    }
    crate::bytes::lemma_le64_roundtrip(r.id);
    assert(b.subrange(i + 9, i + 13) =~= le32(r.vector.len() as u32)) by {
        assert(forall|k: int|
            0 <= k < 4 ==> #[trigger] b.subrange(i + 9, i + 13)[k] == sub[k + 9]);
    }
    crate::bytes::lemma_le32_roundtrip(r.vector.len() as u32);
    assert(b.subrange(i + 13, i + 13 + 4 * dim) =~= vec_bytes(r.vector)) by {
        assert(forall|k: int|
            0 <= k < 4 * dim ==> #[trigger] b.subrange(i + 13, i + 13 + 4 * dim)[k] == sub[k
                + 13]);
    }
    lemma_read_vec_of_enc(r.vector, b, i + 13);
    assert(b.subrange(i + 13 + 4 * dim, i + 17 + 4 * dim) =~= le32(plen as u32)) by {
        assert(forall|k: int|
            0 <= k < 4 ==> #[trigger] b.subrange(i + 13 + 4 * dim, i + 17 + 4 * dim)[k] == sub[k
                + 13 + 4 * dim]);
    }
    crate::bytes::lemma_le32_roundtrip(plen as u32);
    let pstart = i + 17 + 4 * dim;
    assert(b.subrange(pstart, pstart + plen) =~= payload_bytes(r.payload)) by {
        assert(forall|k: int|
            0 <= k < plen ==> #[trigger] b.subrange(pstart, pstart + plen)[k] == sub[k + 17 + 4
                * dim]);
    }
    crate::json::lemma_roundtrip_obj(r.payload, b, pstart);
    let parsed = rec_parse(b, i).unwrap().0;
    assert(parsed.deleted == r.deleted);
    assert(parsed =~= r);
    assert(rec_parse(b, i) == Some((r, i + w)));
}

/// Parsing a chained image suffix gives back its records.
proof fn lemma_file_roundtrip_at(rs: Seq<RecView>, b: Seq<u8>, i: int)
    requires
        0 <= i <= b.len(),
        b.subrange(i, b.len() as int) == file_enc(rs),
        forall|k: int| 0 <= k < rs.len() ==> rec_wf(#[trigger] rs[k]),
        rs.len() > 0 ==> rs[0].offset == i,
        forall|k: int|
            1 <= k < rs.len() ==> (#[trigger] rs[k]).offset == rs[k - 1].offset + rec_len(
                rs[k - 1].vector.len(),
                rs[k - 1].payload,
            ),
    ensures
        file_parse(b, i) == rs,
    decreases rs.len(),
{
    if rs.len() == 0 {
        assert(file_enc(rs).len() == 0);
        assert(i == b.len());
        assert(file_parse(b, i) =~= rs);
    } else {
        let r = rs[0];
        lemma_rec_enc_len(r);
        let w = rec_enc(r).len() as int;
        let tail = b.subrange(i, b.len() as int);
        assert(tail =~= rec_enc(r) + file_enc(rs.drop_first()));
        assert(forall|k: int| 0 <= k < tail.len() ==> tail[k] == b[i + k]);
        assert(b.subrange(i, i + w) =~= rec_enc(r)) by {
            assert(forall|k: int|
                0 <= k < w ==> #[trigger] b.subrange(i, i + w)[k] == tail[k]);
        }
        lemma_rec_roundtrip(r, b, i);
        assert(b.subrange(i + w, b.len() as int) =~= file_enc(rs.drop_first())) by {
            assert(forall|k: int|
                0 <= k < b.len() - i - w ==> #[trigger] b.subrange(i + w, b.len() as int)[k]
                    == tail[k + w]);
        }
        assert(forall|k: int|
            1 <= k < rs.drop_first().len() ==> (#[trigger] rs.drop_first()[k]).offset
                == rs.drop_first()[k - 1].offset + rec_len(
                rs.drop_first()[k - 1].vector.len(),
                rs.drop_first()[k - 1].payload,
            ));
        lemma_file_roundtrip_at(rs.drop_first(), b, i + w);
        assert(file_parse(b, i) =~= seq![r] + rs.drop_first());
        assert(seq![r] + rs.drop_first() =~= rs);
    }
}

/// Round trip of the record log: parsing a well-formed log's own image
/// gives back exactly its records — persisting and reopening loses
/// nothing.
pub proof fn lemma_file_roundtrip(rs: Seq<RecView>, write_pos: u64)
    requires
        file_wf(rs, write_pos),
    ensures
        file_parse(file_enc(rs), 0) == rs,
{
    let b = file_enc(rs);
    assert(b.subrange(0, b.len() as int) =~= b);
    lemma_file_roundtrip_at(rs, b, 0);
}

impl DataFile {
    /// The byte image of the log.
    #[verifier::rlimit(100)]
    #[verifier::spinoff_prover]
    pub fn to_bytes(&self) -> (r: Vec<u8>)
        requires
            self.wf(),
        ensures
            r@ == file_enc(self.view_recs()),
    {
        let n = self.records.len();
        let mut out: Vec<u8> = Vec::new();
        let mut i: usize = 0;
        proof {
            assert(self.view_recs().take(0).len() == 0);
            assert(file_enc(self.view_recs().take(0)) =~= Seq::<u8>::empty());
            assert(out@ =~= file_enc(self.view_recs().take(0)));
        }
        while i < n
            invariant
                0 <= i <= n,
                n == self.records@.len(),
                forall|w: int|
                    0 <= w < self.view_recs().len() ==> rec_wf(#[trigger] self.view_recs()[w]),
                out@ == file_enc(self.view_recs().take(i as int)),
            decreases n - i,
        {
            let ghost pre = out@;
            let rec = &self.records[i];
            out.push(if rec.deleted {
                1
            } else {
                0
            });
            push_le64(&mut out, rec.id);
            push_le32(&mut out, rec.vector.len() as u32);
            let ghost after_head = out@;
            let m = rec.vector.len();
            let mut j: usize = 0;
            proof {
                assert(vec_bytes(rec.vector@.take(0)) =~= Seq::<u8>::empty());
                assert(out@ =~= after_head + vec_bytes(rec.vector@.take(0)));
            }
            while j < m
                invariant
                    0 <= j <= m,
                    m == self.records@[i as int].vector@.len(),
                    0 <= i < n,
                    n == self.records@.len(),
                    out@ == after_head + vec_bytes(self.records@[i as int].vector@.take(j as int)),
                decreases m - j,
            {
                push_le32(&mut out, self.records[i].vector[j]);
                proof {
                    lemma_vec_bytes_snoc(self.records@[i as int].vector@, j as int);
                    assert(out@ =~= after_head + vec_bytes(
                        self.records@[i as int].vector@.take(j + 1),
                    ));
                }
                j += 1;
            }
            proof {
                assert(self.records@[i as int].vector@.take(m as int) =~= self.records@[i
                    as int].vector@);
            }
            let pj = self.records[i].payload.to_json();
            proof {
                reveal(payload_bytes_len);
                reveal(payload_bytes);
                assert(pj@ == payload_bytes(self.view_recs()[i as int].payload));
                assert(rec_wf(self.view_recs()[i as int]));
            }
            push_le32(&mut out, pj.len() as u32);
            let mut k: usize = 0;
            let ghost before_pj = out@;
            while k < pj.len()
                invariant
                    0 <= k <= pj@.len(),
                    out@ == before_pj + pj@.take(k as int),
                decreases pj@.len() - k,
            {
                out.push(pj[k]);
                proof {
                    assert(out@ =~= before_pj + pj@.take(k + 1));
                }
                k += 1;
            }
            proof {
                reveal(payload_bytes_len);
                assert(pj@.take(pj@.len() as int) =~= pj@);
                assert(rec_wf(self.view_recs()[i as int]));
                assert(pj@.len() < 0x1_0000_0000);
                assert(self.view_recs()[i as int].vector.len() < 0x1_0000_0000);
                lemma_file_enc_snoc(self.view_recs(), i as int);
                assert(rec_view(self.records@[i as int]) == self.view_recs()[i as int]);
                assert(out@ =~= pre + rec_enc(self.view_recs()[i as int]));
                assert(out@ =~= file_enc(self.view_recs().take(i + 1)));
            }
            i += 1;
        }
        proof {
            assert(self.view_recs().take(n as int) =~= self.view_recs());
        }
        out
    }

    /// Rebuilds a log from a byte image; a torn or corrupt tail is dropped.
    #[verifier::rlimit(100)]
    #[verifier::spinoff_prover]
    pub fn from_bytes(b: &[u8]) -> (r: DataFile)
        ensures
            r.view_recs() == file_parse(b@, 0),
            r.wf(),
    {
        let n = b.len();
        let mut records: Vec<DataRecord> = Vec::new();
        let mut pos: usize = 0;
        let mut write_pos: u64 = 0;
        loop
            invariant
                0 <= pos <= n,
                n == b@.len(),
                write_pos == pos,
                recs_view(records@) == file_parse(b@, 0).take(records@.len() as int),
                file_wf(recs_view(records@), write_pos),
                file_parse(b@, pos as int) == file_parse(b@, 0).skip(records@.len() as int),
                records@.len() <= file_parse(b@, 0).len(),
            decreases n - pos,
        {
            let ghost done = records@.len() as int;
            let ghost all = file_parse(b@, 0);
            if pos >= n {
                proof {
                    assert(file_parse(b@, pos as int) =~= Seq::<RecView>::empty());
                    assert(all.skip(done) =~= Seq::<RecView>::empty());
                    assert(all.take(done) =~= all);
                }
                return DataFile { records, write_pos };
            }
            match rec_parse_exec(b, pos) {
                Some((rec, newpos)) => {
                    let ghost prev = recs_view(records@);
                    proof {
                        assert(file_parse(b@, pos as int) =~= seq![rec_view(rec)] + file_parse(
                            b@,
                            newpos as int,
                        ));
                    }
                    records.push(rec);
                    write_pos = newpos as u64;
                    proof {
                        assert(recs_view(records@) =~= prev.push(rec_view(rec)));
                        assert(all.skip(done)[0] == rec_view(rec));
                        assert(all.len() >= done + 1);
                        assert(recs_view(records@) =~= all.take(done + 1));
                        assert(all.skip(done).drop_first() =~= all.skip(done + 1));
                        assert((seq![rec_view(rec)] + file_parse(b@, newpos as int)).drop_first()
                            =~= file_parse(b@, newpos as int));
                        assert(file_parse(b@, newpos as int) =~= all.skip(done + 1));
                        assert(file_wf(recs_view(records@), write_pos));
                    }
                    pos = newpos;
                },
                None => {
                    proof {
                        assert(file_parse(b@, pos as int) =~= Seq::<RecView>::empty());
                        assert(all.skip(done) =~= Seq::<RecView>::empty());
                        assert(all.take(done) =~= all);
                    }
                    return DataFile { records, write_pos };
                },
            }
        }
    }
}

/// Reads one record from position `pos`, with the shape the record parse
/// specification gives it.
#[verifier::rlimit(100)]
fn rec_parse_exec(b: &[u8], pos: usize) -> (r: Option<(DataRecord, usize)>)
    requires
        pos < b@.len(),
    ensures
        match r {
            Some((rec, newpos)) => {
                &&& rec_parse(b@, pos as int) == Some((rec_view(rec), newpos as int))
                &&& pos < newpos <= b@.len()
                &&& rec.offset == pos
                &&& rec_wf(rec_view(rec))
                &&& newpos - pos == rec_len(rec_view(rec).vector.len(), rec_view(rec).payload)
            },
            None => rec_parse(b@, pos as int) is None,
        },
{
    let n = b.len();
    if n - pos < 17 {
        proof {
            reveal(rec_parse);
        }
        return None;
    }
    let tomb = b[pos];
    let id = get_le64(b, pos + 1);
    let dim32 = get_le32(b, pos + 9);
    let dim = dim32 as usize;
    if dim as u64 > (n as u64 - pos as u64 - 17) / 4 {
        proof {
            reveal(rec_parse);
            assert(pos + 17 + 4 * (dim32 as int) > n);
        }
        return None;
    }
    proof {
        assert(pos + 17 + 4 * (dim32 as int) <= n);
    }
    let mut vbits: Vec<u32> = Vec::new();
    let mut j: usize = 0;
    while j < dim
        invariant
            0 <= j <= dim,
            n == b@.len(),
            pos + 17 + 4 * dim <= n,
            vbits@ == read_vec(b@, pos + 13, j as int),
            vbits@.len() == j,
        decreases dim - j,
    {
        let x = get_le32(b, pos + 13 + 4 * j);
        vbits.push(x);
        proof {
            lemma_read_vec_snoc(b@, pos + 13, j as int);
            assert(vbits@ =~= read_vec(b@, pos + 13, j + 1));
        }
        j += 1;
    }
    let plen32 = get_le32(b, pos + 13 + 4 * dim);
    let plen = plen32 as usize;
    let pstart = pos + 17 + 4 * dim;
    if plen as u64 > n as u64 - pstart as u64 {
        proof {
            reveal(rec_parse);
        }
        return None;
    }
    let parsed = crate::json::parse_obj_exec(b, pstart);
    let (fields, pend) = match parsed {
        Some(x) => x,
        None => {
            proof {
                reveal(rec_parse);
            }
            return None;
        },
    };
    if pend != pstart + plen {
        proof {
            reveal(rec_parse);
        }
        return None;
    }
    let payload = match Payload::from_fields(fields) {
        Some(p) => p,
        None => {
            proof {
                reveal(rec_parse);
            }
            return None;
        },
    };
    // canonicality: the payload serializes back to exactly the stored length
    let pj2 = payload.to_json();
    if pj2.len() != plen {
        proof {
            reveal(rec_parse);
            reveal(payload_bytes_len);
        }
        return None;
    }
    let rec = DataRecord {
        offset: pos as u64,
        deleted: tomb == 1,
        id,
        vector: vbits,
        payload,
    };
    proof {
        reveal(rec_parse);
        reveal(payload_bytes_len);
        assert(rec_parse(b@, pos as int) == Some((rec_view(rec), pstart + plen as int)));
    }
    Some((rec, pstart + plen))
}

/// Reading one more scalar field extends the parsed list.
pub proof fn lemma_read_vec_snoc(b: Seq<u8>, i: int, j: int)
    requires
        j >= 0,
    ensures
        read_vec(b, i, j + 1) == read_vec(b, i, j) + seq![read_le32(b.subrange(i + 4 * j, i + 4 * j + 4))],
    decreases j,
{
    if j == 0 {
        assert(read_vec(b, i, 1) =~= read_vec(b, i, 0) + seq![read_le32(b.subrange(i, i + 4))]);
    } else {
        lemma_read_vec_snoc(b, i + 4, j - 1);
        assert(read_vec(b, i, j + 1) =~= seq![read_le32(b.subrange(i, i + 4))] + read_vec(
            b,
            i + 4,
            j,
        ));
        assert(read_vec(b, i, j) =~= seq![read_le32(b.subrange(i, i + 4))] + read_vec(
            b,
            i + 4,
            j - 1,
        ));
        assert(read_vec(b, i, j + 1) =~= read_vec(b, i, j) + seq![read_le32(
            b.subrange(i + 4 * j, i + 4 * j + 4),
        )]);
    }
}

} // verus!
