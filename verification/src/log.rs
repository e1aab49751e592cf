//! The Log-Source capability: a pluggable interface exposing one paginated
//! read over a collection's change log, plus reference implementations.
//!
//! A source models each collection as a sequence of log-entry values in
//! arrival order (ascending `log_id`).  The cursor (`offset`) addresses
//! positions in that sequence: a read considers the entries at positions
//! `offset .. offset + batch_size` and reports those whose timestamp lies
//! within the (optional, inclusive) upper bound `end_timestamp`.  An empty
//! result is the exhaustion / boundary signal.

use uuid::Uuid;
use vstd::prelude::*;

use crate::records::uuid_eq;
use crate::records::views_of;
use crate::records::LogRecord;
use crate::records::LogRecordView;

verus! {

/// The single surfaced error kind of the retrieval engine.
#[derive(Clone, Copy, Debug, PartialEq, Eq, Structural)]
pub enum PullLogsError {
    /// A non-positive batch size: an invalid configuration, rejected
    /// eagerly, before any read.
    InvalidBatchSize,
    /// A transport / storage failure reported by the Log-Source.
    ReadFailed,
}

/// The largest per-collection log a conforming source may hold: one
/// batch-size stride past the end of the log must still fit the signed
/// 64-bit cursor, for any batch size.
pub open spec fn max_log_len() -> int {
    0x7fff_ffff_ffff_ffff - 0x7fff_ffff
}

/// Whether an entry lies within the inclusive upper time boundary.
pub open spec fn within_bound(r: LogRecordView, end_timestamp: Option<i64>) -> bool {
    match end_timestamp {
        Option::None => true,
        Option::Some(t) => r.log_id_ts <= t,
    }
}

/// The subsequence of entries that lie within the time boundary, in order.
pub open spec fn bounded_only(s: Seq<LogRecordView>, end_timestamp: Option<i64>) -> Seq<
    LogRecordView,
>
    decreases s.len(),
{
    if s.len() == 0 {
        Seq::empty()
    } else if within_bound(s[0], end_timestamp) {
        seq![s[0]] + bounded_only(s.drop_first(), end_timestamp)
    } else {
        bounded_only(s.drop_first(), end_timestamp)
    }
}

/// The entries at positions `offset .. offset + batch_size` of a log.
pub open spec fn page_window(log: Seq<LogRecordView>, offset: int, batch_size: int) -> Seq<
    LogRecordView,
> {
    if 0 <= offset && offset < log.len() {
        log.subrange(
            offset,
            if offset + batch_size <= log.len() {
                offset + batch_size
            } else {
                log.len() as int
            },
        )
    } else {
        Seq::empty()
    }
}

/// What one read call reports: the entries of the addressed window that lie
/// within the time boundary.
pub open spec fn page_of(
    log: Seq<LogRecordView>,
    offset: int,
    batch_size: int,
    end_timestamp: Option<i64>,
) -> Seq<LogRecordView> {
    bounded_only(page_window(log, offset, batch_size), end_timestamp)
}

/// `bounded_only` distributes over concatenation.
proof fn lemma_bounded_only_app(
    a: Seq<LogRecordView>,
    b: Seq<LogRecordView>,
    end_timestamp: Option<i64>,
)
    ensures
        bounded_only(a + b, end_timestamp) == bounded_only(a, end_timestamp) + bounded_only(
            b,
            end_timestamp,
        ),
    decreases a.len(),
{
    if a.len() == 0 {
        assert(a + b =~= b);
        assert(bounded_only(a, end_timestamp) + bounded_only(b, end_timestamp) =~= bounded_only(
            b,
            end_timestamp,
        ));
    } else {
        assert((a + b)[0] == a[0]);
        assert((a + b).drop_first() =~= a.drop_first() + b);
        lemma_bounded_only_app(a.drop_first(), b, end_timestamp);
        if within_bound(a[0], end_timestamp) {
            assert(seq![a[0]] + (bounded_only(a.drop_first(), end_timestamp) + bounded_only(
                b,
                end_timestamp,
            )) =~= (seq![a[0]] + bounded_only(a.drop_first(), end_timestamp)) + bounded_only(
                b,
                end_timestamp,
            ));
        }
    }
}

/// `bounded_only` on a single entry keeps or drops it.
proof fn lemma_bounded_only_one(x: LogRecordView, end_timestamp: Option<i64>)
    ensures
        bounded_only(seq![x], end_timestamp) == if within_bound(x, end_timestamp) {
            seq![x]
        } else {
            Seq::<LogRecordView>::empty()
        },
{
    assert(seq![x].drop_first() =~= Seq::<LogRecordView>::empty());
    assert(bounded_only(Seq::<LogRecordView>::empty(), end_timestamp) == Seq::<
        LogRecordView,
    >::empty());
    if within_bound(x, end_timestamp) {
        assert(seq![x] + Seq::<LogRecordView>::empty() =~= seq![x]);
    }
}

/// When the in-bound entries are exactly a prefix, `bounded_only` keeps
/// that prefix.
pub proof fn lemma_bounded_only_prefix(s: Seq<LogRecordView>, end_timestamp: Option<i64>, c: int)
    requires
        0 <= c <= s.len(),
        forall|i: int| 0 <= i < c ==> within_bound(#[trigger] s[i], end_timestamp),
        forall|i: int| c <= i < s.len() ==> !within_bound(#[trigger] s[i], end_timestamp),
    ensures
        bounded_only(s, end_timestamp) == s.take(c),
    decreases s.len(),
{
    if s.len() == 0 {
        assert(s.take(c) =~= Seq::<LogRecordView>::empty());
    } else if c == 0 {
        assert(!within_bound(s[0], end_timestamp));
        assert forall|i: int| 0 <= i < s.drop_first().len() implies !within_bound(
            #[trigger] s.drop_first()[i],
            end_timestamp,
        ) by {
            assert(s.drop_first()[i] == s[i + 1]);
        }
        lemma_bounded_only_prefix(s.drop_first(), end_timestamp, 0);
        assert(s.take(0) =~= Seq::<LogRecordView>::empty());
        assert(s.drop_first().take(0) =~= Seq::<LogRecordView>::empty());
    } else {
        assert(within_bound(s[0], end_timestamp));
        assert forall|i: int| 0 <= i < c - 1 implies within_bound(
            #[trigger] s.drop_first()[i],
            end_timestamp,
        ) by {
            assert(s.drop_first()[i] == s[i + 1]);
        }
        assert forall|i: int| c - 1 <= i < s.drop_first().len() implies !within_bound(
            #[trigger] s.drop_first()[i],
            end_timestamp,
        ) by {
            assert(s.drop_first()[i] == s[i + 1]);
        }
        lemma_bounded_only_prefix(s.drop_first(), end_timestamp, c - 1);
        assert(seq![s[0]] + s.drop_first().take(c - 1) =~= s.take(c));
    }
}

/// `bounded_only` never returns more entries than it was given.
pub proof fn lemma_bounded_only_len(s: Seq<LogRecordView>, end_timestamp: Option<i64>)
    ensures
        bounded_only(s, end_timestamp).len() <= s.len(),
    decreases s.len(),
{
    if s.len() > 0 {
        lemma_bounded_only_len(s.drop_first(), end_timestamp);
    }
}

/// The Log-Source capability: one paginated read over a collection's log.
///
/// An implementation models each collection's log as a sequence of entry
/// values (`collection_log`), states whether its reads can fail at all
/// (`fallible`), and keeps an invariant (`inv`) strong enough to bound every
/// collection's log by [`max_log_len`], so that cursor arithmetic stays
/// within `i64`.
pub trait Log: Sized {
    /// The implementation's well-formedness condition.
    spec fn inv(&self) -> bool;

    /// The model: the collection's full log, in arrival order.
    spec fn collection_log(&self, collection_id: Uuid) -> Seq<LogRecordView>;

    /// Whether a read against this source can fail at all.
    spec fn fallible(&self) -> bool;

    /// A conforming source keeps every collection's log within the cursor
    /// domain.
    proof fn lemma_log_bounded(&self, collection_id: Uuid)
        requires
            self.inv(),
        ensures
            self.collection_log(collection_id).len() <= max_log_len(),
    ;

    /// Cheap duplication into an independent handle over the same log.
    fn dup(&self) -> (r: Self)
        requires
            self.inv(),
        ensures
            r.inv(),
            r.fallible() == self.fallible(),
            forall|c: Uuid| #[trigger] r.collection_log(c) == self.collection_log(c),
    ;

    /// The paginated read.  On success it reports exactly the entries of
    /// the addressed window that lie within the time boundary; it never
    /// changes the log, and an infallible source never fails.
    fn read(
        &mut self,
        collection_id: Uuid,
        offset: i64,
        batch_size: i32,
        end_timestamp: Option<i64>,
    ) -> (r: Result<Vec<LogRecord>, PullLogsError>)
        requires
            old(self).inv(),
            0 <= offset,
            1 <= batch_size,
        ensures
            final(self).inv(),
            final(self).fallible() == old(self).fallible(),
            forall|c: Uuid|
                #[trigger] final(self).collection_log(c) == old(self).collection_log(c),
            (r matches Ok(page) ==> views_of(page@) == page_of(
                old(self).collection_log(collection_id),
                offset as int,
                batch_size as int,
                end_timestamp,
            )),
            (r matches Err(e) ==> e == PullLogsError::ReadFailed && old(self).fallible()),
    ;
}

/// One collection's slice of an in-memory log store.
struct LogPartition {
    collection_id: Uuid,
    entries: Vec<LogRecord>,
}

impl LogPartition {
    fn duplicate(&self) -> (res: Self)
        ensures
            res.collection_id == self.collection_id,
            views_of(res.entries@) == views_of(self.entries@),
            res.entries@.len() == self.entries@.len(),
    {
        let entries = self.entries.clone();
        proof {
            assert forall|i: int| 0 <= i < entries@.len() implies views_of(entries@)[i] == views_of(
                self.entries@,
            )[i] by {
                assert(cloned::<LogRecord>(self.entries@[i], entries@[i]));
            }
            assert(views_of(entries@) =~= views_of(self.entries@));
        }
        LogPartition { collection_id: self.collection_id, entries }
    }
}

/// The log of the first partition that carries the collection, as values;
/// empty when none does.
spec fn find_partition(parts: Seq<LogPartition>, collection_id: Uuid) -> Seq<LogRecordView>
    decreases parts.len(),
{
    if parts.len() == 0 {
        Seq::empty()
    } else if parts[0].collection_id == collection_id {
        views_of(parts[0].entries@)
    } else {
        find_partition(parts.drop_first(), collection_id)
    }
}

/// Every partition's log fits the cursor domain.
spec fn partitions_bounded(parts: Seq<LogPartition>) -> bool {
    forall|i: int| 0 <= i < parts.len() ==> #[trigger] parts[i].entries@.len() <= max_log_len()
}

proof fn lemma_find_partition_bounded(parts: Seq<LogPartition>, collection_id: Uuid)
    requires
        partitions_bounded(parts),
    ensures
        find_partition(parts, collection_id).len() <= max_log_len(),
    decreases parts.len(),
{
    if parts.len() == 0 {
    } else if parts[0].collection_id == collection_id {
        assert(parts[0].entries@.len() <= max_log_len());
    } else {
        assert forall|i: int| 0 <= i < parts.drop_first().len() implies #[trigger] parts.drop_first()[i].entries@.len()
            <= max_log_len() by {
            assert(parts.drop_first()[i] == parts[i + 1]);
        }
        lemma_find_partition_bounded(parts.drop_first(), collection_id);
    }
}

/// When the first `ix` partitions miss the collection, the lookup is decided
/// at or after position `ix`.
proof fn lemma_find_partition_at(parts: Seq<LogPartition>, collection_id: Uuid, ix: int)
    requires
        0 <= ix <= parts.len(),
        forall|j: int| 0 <= j < ix ==> #[trigger] parts[j].collection_id != collection_id,
    ensures
        ix == parts.len() ==> find_partition(parts, collection_id) == Seq::<
            LogRecordView,
        >::empty(),
        ix < parts.len() && parts[ix].collection_id == collection_id ==> find_partition(
            parts,
            collection_id,
        ) == views_of(parts[ix].entries@),
    decreases ix,
{
    if ix == 0 {
    } else {
        assert(parts[0].collection_id != collection_id);
        assert forall|j: int| 0 <= j < ix - 1 implies #[trigger] parts.drop_first()[j].collection_id
            != collection_id by {
            assert(parts.drop_first()[j] == parts[j + 1]);
        }
        lemma_find_partition_at(parts.drop_first(), collection_id, ix - 1);
        if ix < parts.len() {
            assert(parts.drop_first()[ix - 1] == parts[ix]);
        }
    }
}

/// Replacing a partition by one with the same collection changes only that
/// collection's log, and only when no earlier partition carries it.
proof fn lemma_find_partition_update(parts: Seq<LogPartition>, ix: int, p: LogPartition)
    requires
        0 <= ix < parts.len(),
        p.collection_id == parts[ix].collection_id,
    ensures
        forall|c: Uuid|
            c != p.collection_id ==> #[trigger] find_partition(parts.update(ix, p), c)
                == find_partition(parts, c),
        (forall|j: int| 0 <= j < ix ==> #[trigger] parts[j].collection_id != p.collection_id)
            ==> find_partition(parts.update(ix, p), p.collection_id) == views_of(p.entries@),
    decreases ix,
{
    let updated = parts.update(ix, p);
    if ix == 0 {
        assert(updated[0] == p);
        assert(updated.drop_first() =~= parts.drop_first());
        assert forall|c: Uuid| c != p.collection_id implies #[trigger] find_partition(updated, c)
            == find_partition(parts, c) by {
            assert(parts[0] == parts[ix]);
        }
    } else {
        assert(updated[0] == parts[0]);
        assert(updated.drop_first() =~= parts.drop_first().update(ix - 1, p));
        assert(parts.drop_first()[ix - 1] == parts[ix]);
        lemma_find_partition_update(parts.drop_first(), ix - 1, p);
        assert forall|c: Uuid| c != p.collection_id implies #[trigger] find_partition(updated, c)
            == find_partition(parts, c) by {
            if parts[0].collection_id != c {
                assert(find_partition(parts.drop_first().update(ix - 1, p), c) == find_partition(
                    parts.drop_first(),
                    c,
                ));
            }
        }
        if forall|j: int| 0 <= j < ix ==> #[trigger] parts[j].collection_id != p.collection_id {
            assert forall|j: int| 0 <= j < ix - 1 implies #[trigger] parts.drop_first()[j].collection_id
                != p.collection_id by {
                assert(parts.drop_first()[j] == parts[j + 1]);
            }
            assert(parts[0].collection_id != p.collection_id);
        }
    }
}

/// Appending a partition for a collection no earlier partition carries adds
/// that collection's log and changes no other.
proof fn lemma_find_partition_push(parts: Seq<LogPartition>, p: LogPartition)
    requires
        forall|j: int| 0 <= j < parts.len() ==> #[trigger] parts[j].collection_id
            != p.collection_id,
    ensures
        find_partition(parts.push(p), p.collection_id) == views_of(p.entries@),
        forall|c: Uuid|
            c != p.collection_id ==> #[trigger] find_partition(parts.push(p), c) == find_partition(
                parts,
                c,
            ),
    decreases parts.len(),
{
    let pushed = parts.push(p);
    if parts.len() == 0 {
        assert(pushed[0] == p);
        assert(pushed.drop_first() =~= Seq::<LogPartition>::empty());
        assert forall|c: Uuid| c != p.collection_id implies #[trigger] find_partition(pushed, c)
            == find_partition(parts, c) by {
            assert(find_partition(Seq::<LogPartition>::empty(), c) == Seq::<
                LogRecordView,
            >::empty());
        }
    } else {
        assert(pushed[0] == parts[0]);
        assert(pushed.drop_first() =~= parts.drop_first().push(p));
        assert forall|j: int| 0 <= j < parts.drop_first().len() implies #[trigger] parts.drop_first()[j].collection_id
            != p.collection_id by {
            assert(parts.drop_first()[j] == parts[j + 1]);
        }
        lemma_find_partition_push(parts.drop_first(), p);
        assert forall|c: Uuid| c != p.collection_id implies #[trigger] find_partition(pushed, c)
            == find_partition(parts, c) by {
            if parts[0].collection_id != c {
                assert(find_partition(parts.drop_first().push(p), c) == find_partition(
                    parts.drop_first(),
                    c,
                ));
            }
        }
    }
}

/// Two stores with pointwise equal collections and logs agree on every
/// lookup.
proof fn lemma_find_partition_parallel(a: Seq<LogPartition>, b: Seq<LogPartition>)
    requires
        a.len() == b.len(),
        forall|j: int|
            0 <= j < a.len() ==> #[trigger] a[j].collection_id == b[j].collection_id && views_of(
                a[j].entries@,
            ) == views_of(b[j].entries@),
    ensures
        forall|c: Uuid| #[trigger] find_partition(a, c) == find_partition(b, c),
    decreases a.len(),
{
    if a.len() > 0 {
        assert(a.drop_first().len() == b.drop_first().len());
        assert forall|j: int|
            0 <= j < a.drop_first().len() implies #[trigger] a.drop_first()[j].collection_id
            == b.drop_first()[j].collection_id && views_of(a.drop_first()[j].entries@) == views_of(
            b.drop_first()[j].entries@,
        ) by {
            assert(a.drop_first()[j] == a[j + 1]);
            assert(b.drop_first()[j] == b[j + 1]);
        }
        lemma_find_partition_parallel(a.drop_first(), b.drop_first());
        assert forall|c: Uuid| #[trigger] find_partition(a, c) == find_partition(b, c) by {
            assert(a[0].collection_id == b[0].collection_id);
            if a[0].collection_id != c {
                assert(find_partition(a.drop_first(), c) == find_partition(b.drop_first(), c));
            }
        }
    }
}

/// A minimal in-memory Log-Source, the reference implementation for
/// testing: per-collection logs held as plain vectors, reads never fail.
pub struct InMemoryLog {
    partitions: Vec<LogPartition>,
}

impl InMemoryLog {
    /// An empty log store.
    pub fn new() -> (r: Self)
        ensures
            r.inv(),
            !r.fallible(),
            forall|c: Uuid| #[trigger] r.collection_log(c) == Seq::<LogRecordView>::empty(),
    {
        let r = InMemoryLog { partitions: Vec::new() };
        proof {
            assert forall|c: Uuid| #[trigger] r.collection_log(c) == Seq::<
                LogRecordView,
            >::empty() by {
                assert(find_partition(r.partitions@, c) == Seq::<LogRecordView>::empty());
            }
        }
        r
    }

    /// Append one entry to a collection's log.
    pub fn add_log(&mut self, collection_id: Uuid, record: LogRecord)
        requires
            old(self).inv(),
            old(self).collection_log(collection_id).len() < max_log_len(),
        ensures
            final(self).inv(),
            final(self).fallible() == old(self).fallible(),
            final(self).collection_log(collection_id) == old(self).collection_log(
                collection_id,
            ).push(record@),
            forall|c: Uuid|
                c != collection_id ==> #[trigger] final(self).collection_log(c) == old(
                    self,
                ).collection_log(c),
    {
        match self.find_index(&collection_id) {
            Option::Some(ix) => {
                let ghost parts0 = self.partitions@;
                let mut tmp = LogPartition { collection_id, entries: Vec::new() };
                self.partitions.set_and_swap(ix, &mut tmp);
                tmp.entries.push(record);
                let ghost grown = tmp;
                self.partitions.set_and_swap(ix, &mut tmp);
                proof {
                    assert(self.partitions@ =~= parts0.update(ix as int, grown));
                    lemma_find_partition_at(parts0, collection_id, ix as int);
                    assert(views_of(grown.entries@) =~= views_of(parts0[ix as int].entries@).push(
                        record@,
                    ));
                    lemma_find_partition_update(parts0, ix as int, grown);
                    assert forall|j: int|
                        0 <= j < self.partitions@.len() implies #[trigger] self.partitions@[j].entries@.len()
                        <= max_log_len() by {
                        if j != ix {
                            assert(self.partitions@[j] == parts0[j]);
                        }
                    }
                }
            },
            Option::None => {
                let ghost parts0 = self.partitions@;
                let mut entries: Vec<LogRecord> = Vec::new();
                entries.push(record);
                let p = LogPartition { collection_id, entries };
                let ghost pushed_part = p;
                self.partitions.push(p);
                proof {
                    lemma_find_partition_at(parts0, collection_id, parts0.len() as int);
                    assert(views_of(pushed_part.entries@) =~= Seq::<LogRecordView>::empty().push(
                        record@,
                    ));
                    lemma_find_partition_push(parts0, pushed_part);
                    assert forall|j: int|
                        0 <= j < self.partitions@.len() implies #[trigger] self.partitions@[j].entries@.len()
                        <= max_log_len() by {
                        if j < parts0.len() {
                            assert(self.partitions@[j] == parts0[j]);
                        } else {
                            assert(self.partitions@[j] == pushed_part);
                        }
                    }
                }
            },
        }
    }

    /// The position of the collection's partition, when one exists.
    fn find_index(&self, collection_id: &Uuid) -> (res: Option<usize>)
        ensures
            match res {
                Option::Some(ix) => ix < self.partitions@.len() && self.partitions@[ix as int].collection_id
                    == *collection_id && (forall|j: int|
                    0 <= j < ix ==> #[trigger] self.partitions@[j].collection_id
                        != *collection_id),
                Option::None => forall|j: int|
                    0 <= j < self.partitions@.len() ==> #[trigger] self.partitions@[j].collection_id
                        != *collection_id,
            },
    {
        let n = self.partitions.len();
        let mut i: usize = 0;
        while i < n
            invariant
                i <= n == self.partitions@.len(),
                forall|j: int|
                    0 <= j < i ==> #[trigger] self.partitions@[j].collection_id != *collection_id,
            decreases n - i,
        {
            if uuid_eq(&self.partitions[i].collection_id, collection_id) {
                return Option::Some(i);
            }
            i += 1;
        }
        Option::None
    }
}

impl Log for InMemoryLog {
    closed spec fn inv(&self) -> bool {
        partitions_bounded(self.partitions@)
    }

    closed spec fn collection_log(&self, collection_id: Uuid) -> Seq<LogRecordView> {
        find_partition(self.partitions@, collection_id)
    }

    closed spec fn fallible(&self) -> bool {
        false
    }

    proof fn lemma_log_bounded(&self, collection_id: Uuid) {
        lemma_find_partition_bounded(self.partitions@, collection_id);
    }

    fn dup(&self) -> (r: Self) {
        let n = self.partitions.len();
        let mut parts: Vec<LogPartition> = Vec::new();
        let mut i: usize = 0;
        while i < n
            invariant
                i <= n == self.partitions@.len(),
                parts@.len() == i,
                forall|j: int|
                    0 <= j < i ==> #[trigger] parts@[j].collection_id
                        == self.partitions@[j].collection_id && views_of(parts@[j].entries@)
                        == views_of(self.partitions@[j].entries@) && parts@[j].entries@.len()
                        == self.partitions@[j].entries@.len(),
            decreases n - i,
        {
            let ghost parts_pre = parts@;
            let src = &self.partitions[i];
            let copy = src.duplicate();
            parts.push(copy);
            proof {
                assert forall|j: int|
                    0 <= j < i + 1 implies #[trigger] parts@[j].collection_id
                    == self.partitions@[j].collection_id && views_of(parts@[j].entries@)
                    == views_of(self.partitions@[j].entries@) && parts@[j].entries@.len()
                    == self.partitions@[j].entries@.len() by {
                    if j < i {
                        assert(parts@[j] == parts_pre[j]);
                    } else {
                        assert(parts@[j] == copy);
                    }
                }
            }
            i += 1;
        }
        let r = InMemoryLog { partitions: parts };
        proof {
            assert forall|j: int|
                0 <= j < r.partitions@.len() implies #[trigger] r.partitions@[j].entries@.len()
                <= max_log_len() by {
                assert(r.partitions@[j].collection_id == self.partitions@[j].collection_id);
                assert(self.partitions@[j].entries@.len() <= max_log_len());
            }
            lemma_find_partition_parallel(r.partitions@, self.partitions@);
        }
        r
    }

    fn read(
        &mut self,
        collection_id: Uuid,
        offset: i64,
        batch_size: i32,
        end_timestamp: Option<i64>,
    ) -> (r: Result<Vec<LogRecord>, PullLogsError>) {
        let ghost log_v = find_partition(self.partitions@, collection_id);
        match self.find_index(&collection_id) {
            Option::None => {
                let empty_page: Vec<LogRecord> = Vec::new();
                proof {
                    lemma_find_partition_at(
                        self.partitions@,
                        collection_id,
                        self.partitions@.len() as int,
                    );
                    assert(views_of(empty_page@) =~= Seq::<LogRecordView>::empty());
                }
                Ok(empty_page)
            },
            Option::Some(ix) => {
                proof {
                    lemma_find_partition_at(self.partitions@, collection_id, ix as int);
                    assert(self.partitions@[ix as int].entries@.len() <= max_log_len());
                }
                let entries = &self.partitions[ix].entries;
                let len = entries.len();
                if offset >= len as i64 {
                    let empty_page: Vec<LogRecord> = Vec::new();
                    proof {
                        assert(views_of(empty_page@) =~= Seq::<LogRecordView>::empty());
                    }
                    return Ok(empty_page);
                }
                let start: usize = offset as usize;
                let stop: usize = if (batch_size as i64) <= (len as i64) - offset {
                    (offset + (batch_size as i64)) as usize
                } else {
                    len
                };
                let mut page: Vec<LogRecord> = Vec::new();
                let mut k = start;
                proof {
                    assert(log_v.len() == entries@.len());
                    assert(log_v.subrange(start as int, start as int) =~= Seq::<
                        LogRecordView,
                    >::empty());
                    assert(views_of(page@) =~= Seq::<LogRecordView>::empty());
                }
                while k < stop
                    invariant
                        start <= k <= stop <= entries@.len(),
                        log_v == views_of(entries@),
                        views_of(page@) == bounded_only(
                            log_v.subrange(start as int, k as int),
                            end_timestamp,
                        ),
                    decreases stop - k,
                {
                    let rec = &entries[k];
                    let keep = match end_timestamp {
                        Option::Some(t) => rec.log_id_ts <= t,
                        Option::None => true,
                    };
                    let ghost page_pre = page@;
                    if keep {
                        page.push(rec.clone());
                    }
                    proof {
                        assert(log_v[k as int] == entries@[k as int]@);
                        assert(log_v.subrange(start as int, k + 1) =~= log_v.subrange(
                            start as int,
                            k as int,
                        ) + seq![log_v[k as int]]);
                        lemma_bounded_only_app(
                            log_v.subrange(start as int, k as int),
                            seq![log_v[k as int]],
                            end_timestamp,
                        );
                        lemma_bounded_only_one(log_v[k as int], end_timestamp);
                        if keep {
                            assert(views_of(page@) =~= views_of(page_pre).push(
                                log_v[k as int],
                            ));
                            assert(bounded_only(log_v.subrange(start as int, k as int), end_timestamp)
                                + seq![log_v[k as int]] =~= bounded_only(
                                log_v.subrange(start as int, k as int),
                                end_timestamp,
                            ).push(log_v[k as int]));
                        } else {
                            assert(bounded_only(log_v.subrange(start as int, k as int), end_timestamp)
                                + Seq::<LogRecordView>::empty() =~= bounded_only(
                                log_v.subrange(start as int, k as int),
                                end_timestamp,
                            ));
                        }
                    }
                    k += 1;
                }
                proof {
                    assert(log_v.subrange(start as int, stop as int) =~= page_window(
                        log_v,
                        offset as int,
                        batch_size as int,
                    ));
                }
                Ok(page)
            },
        }
    }
}

/// A Log-Source test double that serves an in-memory log but fails every
/// read past a set number of successful ones.
pub struct FailingLog {
    inner: InMemoryLog,
    fail_after: u64,
    reads_made: u64,
}

impl FailingLog {
    /// A source over `inner`'s log whose reads succeed `fail_after` times
    /// and fail from then on.
    pub fn new(inner: InMemoryLog, fail_after: u64) -> (r: Self)
        requires
            inner.inv(),
        ensures
            r.inv(),
            r.fallible(),
            forall|c: Uuid| #[trigger] r.collection_log(c) == inner.collection_log(c),
    {
        FailingLog { inner, fail_after, reads_made: 0 }
    }
}

impl Log for FailingLog {
    closed spec fn inv(&self) -> bool {
        self.inner.inv()
    }

    closed spec fn collection_log(&self, collection_id: Uuid) -> Seq<LogRecordView> {
        self.inner.collection_log(collection_id)
    }

    closed spec fn fallible(&self) -> bool {
        true
    }

    proof fn lemma_log_bounded(&self, collection_id: Uuid) {
        self.inner.lemma_log_bounded(collection_id);
    }

    fn dup(&self) -> (r: Self) {
        FailingLog {
            inner: self.inner.dup(),
            fail_after: self.fail_after,
            reads_made: self.reads_made,
        }
    }

    fn read(
        &mut self,
        collection_id: Uuid,
        offset: i64,
        batch_size: i32,
        end_timestamp: Option<i64>,
    ) -> (r: Result<Vec<LogRecord>, PullLogsError>) {
        if self.reads_made >= self.fail_after {
            return Err(PullLogsError::ReadFailed);
        }
        self.reads_made = self.reads_made + 1;
        self.inner.read(collection_id, offset, batch_size, end_timestamp)
    }
}

} // verus!
