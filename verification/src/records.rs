//! The change-record model: the logical unit of a log entry.
//!
//! A [`ChangeRecord`](EmbeddingRecord) describes a single create / update /
//! delete of a vector item; a [`LogRecord`] wraps one together with the
//! position and timestamp the log store assigned to it.

use uuid::Uuid;
use vstd::prelude::*;

verus! {

/// `uuid::Uuid` is declared so that collection identifiers can run through
/// verified code.  A value of it is opaque here: the engine only carries it
/// and compares it for equality.
#[verifier::external_type_specification]
#[verifier::external_body]
pub struct ExUuid(Uuid);

/// Relies on the derived `PartialEq` of `uuid::Uuid`, which compares the
/// sixteen underlying bytes: it decides equality of the two values.
#[verifier::external_body]
pub(crate) fn uuid_eq(a: &Uuid, b: &Uuid) -> (r: bool)
    ensures
        r == (*a == *b),
{
    a == b
}

/// The kind of mutation a change record carries.
#[derive(Clone, Copy, Debug, PartialEq, Eq, Structural)]
pub enum Operation {
    Add,
    Update,
    Upsert,
    Delete,
}

/// Encoding tag for an embedding payload.
#[derive(Clone, Copy, Debug, PartialEq, Eq, Structural)]
pub enum ScalarEncoding {
    Float32,
    Int32,
}

/// An arbitrary-precision, non-negative sequence number, able to hold
/// distributed counters that exceed the native word size.  Stored as
/// little-endian base-2^64 limbs; viewed as the natural number it denotes.
#[derive(Debug)]
pub struct SeqId {
    pub limbs: Vec<u64>,
}

/// The natural number denoted by little-endian base-2^64 limbs.
pub open spec fn limbs_value(limbs: Seq<u64>) -> nat
    decreases limbs.len(),
{
    if limbs.len() == 0 {
        0
    } else {
        (limbs[0] + 0x1_0000_0000_0000_0000 * limbs_value(limbs.drop_first())) as nat
    }
}

impl View for SeqId {
    type V = nat;

    open spec fn view(&self) -> nat {
        limbs_value(self.limbs@)
    }
}

impl SeqId {
    /// A sequence number holding a value that fits one word.
    pub fn from_u64(n: u64) -> (r: Self)
        ensures
            r@ == n,
    {
        let r = SeqId { limbs: vec![n] };
        proof {
            assert(r.limbs@.drop_first().len() == 0);
            assert(limbs_value(r.limbs@.drop_first()) == 0);
        }
        r
    }
}

impl Clone for SeqId {
    fn clone(&self) -> (res: Self)
        ensures
            res.limbs@ == self.limbs@,
            res@ == self@,
    {
        let res = SeqId { limbs: self.limbs.clone() };
        proof {
            assert(res.limbs@ =~= self.limbs@);
        }
        res
    }
}

/// One key/value pair of record metadata.
#[derive(Debug)]
pub struct MetadataPair {
    pub key: String,
    pub value: String,
}

impl Clone for MetadataPair {
    fn clone(&self) -> (res: Self)
        ensures
            res == *self,
    {
        MetadataPair { key: self.key.clone(), value: self.value.clone() }
    }
}

/// A single logged mutation against a vector item: the change record.
///
/// The embedding payload is carried as raw 32-bit scalars; the engine never
/// reads it.
#[derive(Debug)]
pub struct EmbeddingRecord {
    pub id: String,
    pub seq_id: SeqId,
    pub embedding: Option<Vec<u32>>,
    pub encoding: Option<ScalarEncoding>,
    pub metadata: Option<Vec<MetadataPair>>,
    pub operation: Operation,
    pub collection_id: Uuid,
}

/// The mathematical value of a change record.
pub ghost struct EmbeddingRecordView {
    pub id: Seq<char>,
    pub seq_id: nat,
    pub embedding: Option<Seq<u32>>,
    pub encoding: Option<ScalarEncoding>,
    pub metadata: Option<Seq<MetadataPair>>,
    pub operation: Operation,
    pub collection_id: Uuid,
}

impl View for EmbeddingRecord {
    type V = EmbeddingRecordView;

    open spec fn view(&self) -> EmbeddingRecordView {
        EmbeddingRecordView {
            id: self.id@,
            seq_id: self.seq_id@,
            embedding: match self.embedding {
                Option::None => Option::None,
                Option::Some(v) => Option::Some(v@),
            },
            encoding: self.encoding,
            metadata: match self.metadata {
                Option::None => Option::None,
                Option::Some(v) => Option::Some(v@),
            },
            operation: self.operation,
            collection_id: self.collection_id,
        }
    }
}

impl Clone for EmbeddingRecord {
    fn clone(&self) -> (res: Self)
        ensures
            res@ == self@,
    {
        let embedding = match &self.embedding {
            Option::Some(v) => {
                let c = v.clone();
                proof {
                    assert(c@ =~= v@);
                }
                Option::Some(c)
            },
            Option::None => Option::None,
        };
        let metadata = match &self.metadata {
            Option::Some(v) => {
                let c = v.clone();
                proof {
                    assert(c@ =~= v@);
                }
                Option::Some(c)
            },
            Option::None => Option::None,
        };
        EmbeddingRecord {
            id: self.id.clone(),
            seq_id: self.seq_id.clone(),
            embedding,
            encoding: self.encoding,
            metadata,
            operation: self.operation,
            collection_id: self.collection_id,
        }
    }
}

/// A log entry: a change record together with `log_id`, the monotonic
/// position the log store assigned to it, and `log_id_ts`, the timestamp
/// the store assigned, used for boundary filtering.
#[derive(Debug)]
pub struct LogRecord {
    pub collection_id: Uuid,
    pub log_id: i64,
    pub log_id_ts: i64,
    pub record: EmbeddingRecord,
}

/// The mathematical value of a log entry.
pub ghost struct LogRecordView {
    pub collection_id: Uuid,
    pub log_id: int,
    pub log_id_ts: int,
    pub record: EmbeddingRecordView,
}

impl View for LogRecord {
    type V = LogRecordView;

    open spec fn view(&self) -> LogRecordView {
        LogRecordView {
            collection_id: self.collection_id,
            log_id: self.log_id as int,
            log_id_ts: self.log_id_ts as int,
            record: self.record@,
        }
    }
}

impl Clone for LogRecord {
    fn clone(&self) -> (res: Self)
        ensures
            res@ == self@,
    {
        LogRecord {
            collection_id: self.collection_id,
            log_id: self.log_id,
            log_id_ts: self.log_id_ts,
            record: self.record.clone(),
        }
    }
}

/// The sequence of values denoted by a sequence of log entries.
pub open spec fn views_of(s: Seq<LogRecord>) -> Seq<LogRecordView> {
    s.map_values(|r: LogRecord| r@)
}

} // verus!
