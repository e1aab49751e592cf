//! The retrieval operator: drains a collection's change log page by page
//! into an ordered in-memory result, honoring an optional record cap and an
//! optional upper time boundary.

use uuid::Uuid;
use vstd::prelude::*;

use crate::log::bounded_only;
use crate::log::max_log_len;
use crate::log::page_of;
use crate::log::page_window;
use crate::log::within_bound;
use crate::log::Log;
use crate::log::PullLogsError;
use crate::log::{lemma_bounded_only_len, lemma_bounded_only_prefix};
use crate::records::views_of;
use crate::records::LogRecord;
use crate::records::LogRecordView;

verus! {

/// The generic task contract shared across pipeline stages: a single entry
/// point taking a typed input and returning a typed output or a typed
/// error — no hidden channels, no partial output.
pub trait Operator<I, O>: Sized {
    type Error;

    /// What the stage asks of its caller.
    spec fn run_requires(&self, input: &I) -> bool;

    /// What the stage promises of its result.
    spec fn run_ensures(&self, input: &I, r: Result<O, Self::Error>) -> bool;

    /// Run the stage once over the given input.
    fn run(&self, input: &I) -> (r: Result<O, Self::Error>)
        requires
            self.run_requires(input),
        ensures
            self.run_ensures(input, r),
    ;
}

/// The input to the pull logs operator: the collection to read, the
/// exclusive start offset, the per-read batch size, an optional cap on the
/// number of records and an optional inclusive upper time boundary.
pub struct PullLogsInput {
    pub collection_id: Uuid,
    pub offset: i64,
    pub batch_size: i32,
    pub num_records: Option<i32>,
    pub end_timestamp: Option<i64>,
}

impl PullLogsInput {
    /// Create a new pull logs input.
    pub fn new(
        collection_id: Uuid,
        offset: i64,
        batch_size: i32,
        num_records: Option<i32>,
        end_timestamp: Option<i64>,
    ) -> (r: Self)
        ensures
            r.collection_id == collection_id,
            r.offset == offset,
            r.batch_size == batch_size,
            r.num_records == num_records,
            r.end_timestamp == end_timestamp,
    {
        PullLogsInput { collection_id, offset, batch_size, num_records, end_timestamp }
    }
}

/// The output of the pull logs operator: the accumulated log entries, in
/// arrival order.
#[derive(Debug)]
pub struct PullLogsOutput {
    pub logs: Vec<LogRecord>,
}

impl View for PullLogsOutput {
    type V = Seq<LogRecordView>;

    open spec fn view(&self) -> Seq<LogRecordView> {
        views_of(self.logs@)
    }
}

impl PullLogsOutput {
    /// Create a new pull logs output.
    pub fn new(logs: Vec<LogRecord>) -> (r: Self)
        ensures
            r.logs@ == logs@,
            r@ == views_of(logs@),
    {
        PullLogsOutput { logs }
    }

    /// The log entries that were read by an invocation of the operator.
    pub fn logs(&self) -> (r: &Vec<LogRecord>)
        ensures
            r@ == self.logs@,
            views_of(r@) == self@,
    {
        &self.logs
    }
}

/// Everything a capless invocation accumulates from `offset` on: one page
/// per read, in arrival order, up to the first empty page.
pub open spec fn pulled(
    log: Seq<LogRecordView>,
    offset: int,
    batch_size: int,
    end_timestamp: Option<i64>,
) -> Seq<LogRecordView>
    decreases (if offset < log.len() { log.len() - offset } else { 0 }),
{
    if 0 <= offset && offset < log.len() && 1 <= batch_size {
        let page = page_of(log, offset, batch_size, end_timestamp);
        if page.len() == 0 {
            Seq::empty()
        } else {
            page + pulled(log, offset + batch_size, batch_size, end_timestamp)
        }
    } else {
        Seq::empty()
    }
}

/// The number of reads a capless invocation performs from `offset` on, the
/// terminating empty read included.
pub open spec fn reads_to_drain(
    log: Seq<LogRecordView>,
    offset: int,
    batch_size: int,
    end_timestamp: Option<i64>,
) -> nat
    decreases (if offset < log.len() { log.len() - offset } else { 0 }),
{
    if 0 <= offset && offset < log.len() && 1 <= batch_size {
        if page_of(log, offset, batch_size, end_timestamp).len() == 0 {
            1
        } else {
            1 + reads_to_drain(log, offset + batch_size, batch_size, end_timestamp)
        }
    } else {
        1
    }
}

/// The record cap applied to an accumulated result: the first `k` entries
/// when a cap `k` with `0 <= k < len` is set, everything otherwise.
pub open spec fn capped(s: Seq<LogRecordView>, num_records: Option<i32>) -> Seq<LogRecordView> {
    match num_records {
        Option::None => s,
        Option::Some(k) => if 0 <= k && k < s.len() {
            s.take(k as int)
        } else {
            s
        },
    }
}

/// The pull logs operator: reads a collection's log from a Log-Source.
pub struct PullLogsOperator<L: Log> {
    client: L,
}

impl<L: Log> PullLogsOperator<L> {
    /// The model of the client's log for a collection.
    pub closed spec fn client_log(&self, collection_id: Uuid) -> Seq<LogRecordView> {
        self.client.collection_log(collection_id)
    }

    /// The client's well-formedness condition.
    pub closed spec fn client_inv(&self) -> bool {
        self.client.inv()
    }

    /// Whether the client's reads can fail at all.
    pub closed spec fn client_fallible(&self) -> bool {
        self.client.fallible()
    }

    /// Create a new pull logs operator over the given log client.
    pub fn new(client: L) -> (r: Box<Self>)
        requires
            client.inv(),
        ensures
            r.client_inv(),
            r.client_fallible() == client.fallible(),
            forall|c: Uuid| #[trigger] r.client_log(c) == client.collection_log(c),
    {
        Box::new(PullLogsOperator { client })
    }
}

impl<L: Log> Operator<PullLogsInput, PullLogsOutput> for PullLogsOperator<L> {
    type Error = PullLogsError;

    open spec fn run_requires(&self, input: &PullLogsInput) -> bool {
        self.client_inv() && 0 <= input.offset
    }

    /// The retrieval contract.  With a positive batch size, a successful
    /// run returns exactly the drained pages with the record cap applied;
    /// a failing run surfaces the Log-Source error unchanged, with no
    /// partial result, and can only happen against a fallible source.  A
    /// non-positive batch size is rejected eagerly.
    open spec fn run_ensures(
        &self,
        input: &PullLogsInput,
        r: Result<PullLogsOutput, PullLogsError>,
    ) -> bool {
        let drained = pulled(
            self.client_log(input.collection_id),
            input.offset as int,
            input.batch_size as int,
            input.end_timestamp,
        );
        &&& (input.batch_size <= 0 ==> r == Err::<PullLogsOutput, PullLogsError>(
            PullLogsError::InvalidBatchSize,
        ))
        &&& (1 <= input.batch_size ==> match r {
            Ok(out) => out@ == capped(drained, input.num_records),
            Err(e) => e == PullLogsError::ReadFailed && self.client_fallible(),
        })
        &&& (1 <= input.batch_size && !self.client_fallible() ==> r is Ok)
    }

    fn run(&self, input: &PullLogsInput) -> (r: Result<PullLogsOutput, PullLogsError>) {
        if input.batch_size <= 0 {
            return Err(PullLogsError::InvalidBatchSize);
        }
        let mut client = self.client.dup();
        let ghost full = self.client.collection_log(input.collection_id);
        let batch_size = input.batch_size;
        let mut offset: i64 = input.offset;
        let mut result: Vec<LogRecord> = Vec::new();
        proof {
            assert(views_of(result@) =~= Seq::<LogRecordView>::empty());
            assert(Seq::<LogRecordView>::empty() + pulled(
                full,
                offset as int,
                batch_size as int,
                input.end_timestamp,
            ) =~= pulled(full, offset as int, batch_size as int, input.end_timestamp));
        }
        loop
            invariant
                1 <= batch_size == input.batch_size,
                0 <= offset,
                client.inv(),
                client.fallible() == self.client.fallible(),
                forall|c: Uuid| #[trigger] client.collection_log(c) == self.client.collection_log(
                    c,
                ),
                full == self.client.collection_log(input.collection_id),
                views_of(result@) + pulled(
                    full,
                    offset as int,
                    batch_size as int,
                    input.end_timestamp,
                ) == pulled(full, input.offset as int, batch_size as int, input.end_timestamp),
            ensures
                1 <= batch_size == input.batch_size,
                full == self.client.collection_log(input.collection_id),
                views_of(result@) + pulled(
                    full,
                    offset as int,
                    batch_size as int,
                    input.end_timestamp,
                ) == pulled(full, input.offset as int, batch_size as int, input.end_timestamp),
                pulled(full, offset as int, batch_size as int, input.end_timestamp).len() == 0 || (
                input.num_records matches Some(k) && 0 <= k <= views_of(result@).len()),
            decreases (if (offset as int) < full.len() {
                full.len() - offset
            } else {
                0
            }),
        {
            let page_res = client.read(input.collection_id, offset, batch_size, input.end_timestamp);
            let mut page = match page_res {
                Ok(p) => p,
                Err(e) => {
                    return Err(e);
                },
            };
            if page.len() == 0 {
                break;
            }
            let ghost offset0 = offset as int;
            let ghost page_v = views_of(page@);
            proof {
                client.lemma_log_bounded(input.collection_id);
                lemma_bounded_only_len(
                    page_window(full, offset0, batch_size as int),
                    input.end_timestamp,
                );
                assert(page_window(full, offset0, batch_size as int).len() > 0);
                assert(offset0 < full.len());
                assert(full.len() <= max_log_len());
                assert(pulled(full, offset0, batch_size as int, input.end_timestamp) == page_v
                    + pulled(
                    full,
                    offset0 + batch_size,
                    batch_size as int,
                    input.end_timestamp,
                ));
            }
            let ghost result_pre = result@;
            offset = offset + (batch_size as i64);
            result.append(&mut page);
            proof {
                assert(views_of(result@) =~= views_of(result_pre) + page_v);
                assert((views_of(result_pre) + page_v) + pulled(
                    full,
                    offset as int,
                    batch_size as int,
                    input.end_timestamp,
                ) =~= views_of(result_pre) + (page_v + pulled(
                    full,
                    offset as int,
                    batch_size as int,
                    input.end_timestamp,
                )));
            }
            if let Some(k) = input.num_records {
                if k >= 0 && result.len() >= (k as usize) {
                    break;
                }
            }
        }
        let ghost drained = pulled(
            full,
            input.offset as int,
            batch_size as int,
            input.end_timestamp,
        );
        let ghost result0 = views_of(result@);
        proof {
            assert(drained.take(result0.len() as int) =~= result0);
        }
        if let Some(k) = input.num_records {
            if k >= 0 && result.len() > (k as usize) {
                result.truncate(k as usize);
                proof {
                    assert(views_of(result@) =~= result0.take(k as int));
                    assert(result0.take(k as int) =~= drained.take(k as int));
                }
            }
        }
        proof {
            assert(views_of(result@) == capped(drained, input.num_records)) by {
                if result0.len() == drained.len() {
                    assert(result0 =~= drained);
                }
                match input.num_records {
                    Option::Some(k) => {
                        if 0 <= k && k < drained.len() {
                            assert(views_of(result@) =~= drained.take(k as int));
                        } else {
                            assert(views_of(result@) =~= drained);
                        }
                    },
                    Option::None => {
                        assert(views_of(result@) =~= drained);
                    },
                }
            }
        }
        Ok(PullLogsOutput::new(result))
    }
}

/// With the in-bound entries forming exactly the prefix of length `m`, a
/// capless drain from `offset` accumulates exactly the prefix entries from
/// `offset` on.
proof fn lemma_pulled_prefix(
    log: Seq<LogRecordView>,
    offset: int,
    batch_size: int,
    end_timestamp: Option<i64>,
    m: int,
)
    requires
        1 <= batch_size,
        0 <= offset,
        0 <= m <= log.len(),
        forall|i: int| 0 <= i < m ==> within_bound(#[trigger] log[i], end_timestamp),
        forall|i: int| m <= i < log.len() ==> !within_bound(#[trigger] log[i], end_timestamp),
    ensures
        pulled(log, offset, batch_size, end_timestamp) == (if offset < m {
            log.subrange(offset, m)
        } else {
            Seq::<LogRecordView>::empty()
        }),
    decreases (if offset < log.len() {
        log.len() - offset
    } else {
        0
    }),
{
    if offset >= log.len() {
    } else {
        let w_end = if offset + batch_size <= log.len() {
            offset + batch_size
        } else {
            log.len() as int
        };
        let w = log.subrange(offset, w_end);
        let c = if m <= offset {
            0
        } else if m < w_end {
            m - offset
        } else {
            w_end - offset
        };
        assert forall|i: int| 0 <= i < c implies within_bound(#[trigger] w[i], end_timestamp) by {
            assert(w[i] == log[offset + i]);
        }
        assert forall|i: int| c <= i < w.len() implies !within_bound(
            #[trigger] w[i],
            end_timestamp,
        ) by {
            assert(w[i] == log[offset + i]);
        }
        lemma_bounded_only_prefix(w, end_timestamp, c);
        assert(page_of(log, offset, batch_size, end_timestamp) == w.take(c));
        assert(w.take(c) =~= log.subrange(offset, offset + c));
        if c == 0 {
            assert(pulled(log, offset, batch_size, end_timestamp) == Seq::<
                LogRecordView,
            >::empty());
        } else {
            lemma_pulled_prefix(log, offset + batch_size, batch_size, end_timestamp, m);
            assert(pulled(log, offset, batch_size, end_timestamp) == log.subrange(
                offset,
                offset + c,
            ) + pulled(log, offset + batch_size, batch_size, end_timestamp));
            if offset + batch_size < m {
                assert(log.subrange(offset, offset + c) + log.subrange(offset + batch_size, m)
                    =~= log.subrange(offset, m));
            } else {
                assert(log.subrange(offset, offset + c) + Seq::<LogRecordView>::empty()
                    =~= log.subrange(offset, m));
            }
        }
    }
}

/// With the in-bound entries forming exactly the prefix of length `m`, a
/// capless drain from `offset` performs ceil((m - offset) / batch_size)
/// non-empty reads plus the one terminating empty read.
proof fn lemma_reads_prefix(
    log: Seq<LogRecordView>,
    offset: int,
    batch_size: int,
    end_timestamp: Option<i64>,
    m: int,
)
    requires
        1 <= batch_size,
        0 <= offset,
        0 <= m <= log.len(),
        forall|i: int| 0 <= i < m ==> within_bound(#[trigger] log[i], end_timestamp),
        forall|i: int| m <= i < log.len() ==> !within_bound(#[trigger] log[i], end_timestamp),
    ensures
        reads_to_drain(log, offset, batch_size, end_timestamp) == (if offset < m {
            1 + (m - offset + batch_size - 1) / batch_size
        } else {
            1
        }),
    decreases (if offset < log.len() {
        log.len() - offset
    } else {
        0
    }),
{
    lemma_pulled_prefix(log, offset, batch_size, end_timestamp, m);
    if offset >= log.len() {
    } else {
        let page = page_of(log, offset, batch_size, end_timestamp);
        if offset < m {
            assert(pulled(log, offset, batch_size, end_timestamp).len() > 0);
            assert(page.len() > 0);
            lemma_reads_prefix(log, offset + batch_size, batch_size, end_timestamp, m);
            if offset + batch_size < m {
                let y = m - offset - 1;
                vstd::arithmetic::div_mod::lemma_fundamental_div_mod(y, batch_size);
                vstd::arithmetic::div_mod::lemma_mod_pos_bound(y, batch_size);
                assert((y / batch_size + 1) * batch_size == (y / batch_size) * batch_size
                    + batch_size) by (nonlinear_arith);
                vstd::arithmetic::div_mod::lemma_fundamental_div_mod_converse(
                    y + batch_size,
                    batch_size,
                    y / batch_size + 1,
                    y % batch_size,
                );
            } else {
                vstd::arithmetic::div_mod::lemma_fundamental_div_mod_converse(
                    m - offset + batch_size - 1,
                    batch_size,
                    1,
                    m - offset - 1,
                );
            }
        } else {
            if page.len() > 0 {
                assert(pulled(log, offset, batch_size, end_timestamp).len() > 0);
            }
        }
    }
}

/// Whether the log-assigned timestamps are monotone with the log position.
pub open spec fn ts_sorted(log: Seq<LogRecordView>) -> bool {
    forall|i: int, j: int|
        0 <= i <= j < log.len() ==> #[trigger] log[i].log_id_ts <= #[trigger] log[j].log_id_ts
}

/// Over a log with monotone timestamps, the entries within a bound form a
/// prefix; its length is returned.
proof fn lemma_sorted_boundary(log: Seq<LogRecordView>, t: i64) -> (m: int)
    requires
        ts_sorted(log),
    ensures
        0 <= m <= log.len(),
        forall|i: int| 0 <= i < m ==> within_bound(#[trigger] log[i], Option::Some(t)),
        forall|i: int|
            m <= i < log.len() ==> !within_bound(#[trigger] log[i], Option::Some(t)),
    decreases log.len(),
{
    if log.len() == 0 {
        0
    } else if log[0].log_id_ts > t {
        assert forall|i: int| 0 <= i < log.len() implies !within_bound(
            #[trigger] log[i],
            Option::Some(t),
        ) by {
            assert(log[0].log_id_ts <= log[i].log_id_ts);
        }
        0
    } else {
        assert forall|i: int, j: int|
            0 <= i <= j < log.drop_first().len() implies #[trigger] log.drop_first()[i].log_id_ts
            <= #[trigger] log.drop_first()[j].log_id_ts by {
            assert(log.drop_first()[i] == log[i + 1]);
            assert(log.drop_first()[j] == log[j + 1]);
        }
        let m0 = lemma_sorted_boundary(log.drop_first(), t);
        assert forall|i: int| 0 <= i < m0 + 1 implies within_bound(
            #[trigger] log[i],
            Option::Some(t),
        ) by {
            if i > 0 {
                assert(log.drop_first()[i - 1] == log[i]);
            }
        }
        assert forall|i: int| m0 + 1 <= i < log.len() implies !within_bound(
            #[trigger] log[i],
            Option::Some(t),
        ) by {
            assert(log.drop_first()[i - 1] == log[i]);
        }
        m0 + 1
    }
}

/// Law (full drain): with a positive batch size, no record cap and no time
/// bound, retrieval from offset 0 returns every entry of the log, in its
/// original order, using ceil(E / B) non-empty reads plus the one
/// terminating empty read.
pub proof fn lemma_full_drain(log: Seq<LogRecordView>, batch_size: int)
    requires
        1 <= batch_size,
    ensures
        pulled(log, 0, batch_size, Option::None) == log,
        reads_to_drain(log, 0, batch_size, Option::None) == 1 + (log.len() + batch_size - 1)
            / batch_size,
{
    lemma_pulled_prefix(log, 0, batch_size, Option::None, log.len() as int);
    if log.len() > 0 {
        assert(log.subrange(0, log.len() as int) =~= log);
    } else {
        assert(pulled(log, 0, batch_size, Option::None) =~= log);
    }
    lemma_reads_prefix(log, 0, batch_size, Option::None, log.len() as int);
    if log.len() == 0 {
        vstd::arithmetic::div_mod::lemma_fundamental_div_mod_converse(
            batch_size - 1,
            batch_size,
            0,
            batch_size - 1,
        );
    }
}

/// Law (record cap): with a cap of K >= 0 records the operator returns
/// exactly min(K, E) entries, whatever the batch size; with E >= K the
/// returned length is exactly K.
pub proof fn lemma_record_cap(log: Seq<LogRecordView>, batch_size: int, k: i32)
    requires
        1 <= batch_size,
        0 <= k,
    ensures
        capped(pulled(log, 0, batch_size, Option::None), Option::Some(k)).len() == (if k
            <= log.len() {
            k as int
        } else {
            log.len() as int
        }),
{
    lemma_full_drain(log, batch_size);
}

/// Law (delegation of time filtering): over a log whose timestamps are
/// monotone with the log position, retrieval with an upper bound returns
/// exactly the entries the Log-Source reports within the bound — the
/// operator performs no filtering of its own.
pub proof fn lemma_time_bound_delegation(log: Seq<LogRecordView>, batch_size: int, t: i64)
    requires
        1 <= batch_size,
        ts_sorted(log),
    ensures
        pulled(log, 0, batch_size, Option::Some(t)) == bounded_only(log, Option::Some(t)),
{
    let m = lemma_sorted_boundary(log, t);
    lemma_pulled_prefix(log, 0, batch_size, Option::Some(t), m);
    lemma_bounded_only_prefix(log, Option::Some(t), m);
    if m == 0 {
        assert(log.take(0) =~= Seq::<LogRecordView>::empty());
    } else {
        assert(log.subrange(0, m) =~= log.take(m));
    }
}

/// Law (batch-size independence): changing the batch size alone never
/// changes the result set — with no time bound, or with one over a log
/// whose timestamps are monotone with the log position.
pub proof fn lemma_batch_size_independent(
    log: Seq<LogRecordView>,
    b1: int,
    b2: int,
    end_timestamp: Option<i64>,
)
    requires
        1 <= b1,
        1 <= b2,
        end_timestamp matches Option::Some(_) ==> ts_sorted(log),
    ensures
        pulled(log, 0, b1, end_timestamp) == pulled(log, 0, b2, end_timestamp),
{
    match end_timestamp {
        Option::None => {
            lemma_full_drain(log, b1);
            lemma_full_drain(log, b2);
        },
        Option::Some(t) => {
            lemma_time_bound_delegation(log, b1, t);
            lemma_time_bound_delegation(log, b2, t);
        },
    }
}

/// Law (determinism): the retrieval result is a function of the log model
/// and the input alone, so repeated invocation with an identical input
/// against an unchanged log yields an identical output sequence.
pub proof fn lemma_deterministic(
    log: Seq<LogRecordView>,
    offset: int,
    batch_size: int,
    num_records: Option<i32>,
    end_timestamp: Option<i64>,
    r1: Seq<LogRecordView>,
    r2: Seq<LogRecordView>,
)
    requires
        r1 == capped(pulled(log, offset, batch_size, end_timestamp), num_records),
        r2 == capped(pulled(log, offset, batch_size, end_timestamp), num_records),
    ensures
        r1 == r2,
{
}

} // verus!
