use pull_logs::log::{FailingLog, InMemoryLog, PullLogsError};
use pull_logs::operator::{Operator, PullLogsInput, PullLogsOperator};
use pull_logs::records::{EmbeddingRecord, LogRecord, MetadataPair, Operation, ScalarEncoding, SeqId};
use uuid::Uuid;

fn collection(n: u128) -> Uuid {
    Uuid::from_u128(n)
}

fn record(collection_id: Uuid, id: &str, seq: u64) -> EmbeddingRecord {
    EmbeddingRecord {
        id: id.to_string(),
        seq_id: SeqId::from_u64(seq),
        embedding: None,
        encoding: None,
        metadata: None,
        operation: Operation::Add,
        collection_id,
    }
}

fn entry(collection_id: Uuid, log_id: i64, log_id_ts: i64, id: &str) -> LogRecord {
    LogRecord {
        collection_id,
        log_id,
        log_id_ts,
        record: record(collection_id, id, log_id as u64),
    }
}

/// A log holding `n` entries for the collection, with `log_id` and
/// `log_id_ts` both running 1, 2, ..., n.
fn log_with_entries(collection_id: Uuid, n: i64) -> InMemoryLog {
    let mut log = InMemoryLog::new();
    for i in 1..=n {
        log.add_log(collection_id, entry(collection_id, i, i, &format!("item_{}", i)));
    }
    log
}

#[test]
fn test_pull_logs() {
    let mut log = InMemoryLog::new();

    let collection_uuid_1 = Uuid::parse_str("00000000-0000-0000-0000-000000000001").unwrap();
    log.add_log(collection_uuid_1, entry(collection_uuid_1, 1, 1, "embedding_id_1"));
    log.add_log(collection_uuid_1, entry(collection_uuid_1, 2, 2, "embedding_id_2"));

    let operator = PullLogsOperator::new(log);

    // Pull all logs from collection 1
    let input = PullLogsInput::new(collection_uuid_1, 0, 1, None, None);
    let output = operator.run(&input).unwrap();
    assert_eq!(output.logs().len(), 2);

    // Pull all logs from collection 1 with a large batch size
    let input = PullLogsInput::new(collection_uuid_1, 0, 100, None, None);
    let output = operator.run(&input).unwrap();
    assert_eq!(output.logs().len(), 2);

    // Pull logs from collection 1 with a limit
    let input = PullLogsInput::new(collection_uuid_1, 0, 1, Some(1), None);
    let output = operator.run(&input).unwrap();
    assert_eq!(output.logs().len(), 1);

    // Pull logs from collection 1 with an end timestamp
    let input = PullLogsInput::new(collection_uuid_1, 0, 1, None, Some(1));
    let output = operator.run(&input).unwrap();
    assert_eq!(output.logs().len(), 1);

    // Pull logs from collection 1 with an end timestamp
    let input = PullLogsInput::new(collection_uuid_1, 0, 1, None, Some(2));
    let output = operator.run(&input).unwrap();
    assert_eq!(output.logs().len(), 2);

    // Pull logs from collection 1 with an end timestamp and a limit
    let input = PullLogsInput::new(collection_uuid_1, 0, 1, Some(1), Some(2));
    let output = operator.run(&input).unwrap();
    assert_eq!(output.logs().len(), 1);

    // Pull logs from collection 1 with a limit and a large batch size
    let input = PullLogsInput::new(collection_uuid_1, 0, 100, Some(1), None);
    let output = operator.run(&input).unwrap();
    assert_eq!(output.logs().len(), 1);

    // Pull logs from collection 1 with an end timestamp and a large batch size
    let input = PullLogsInput::new(collection_uuid_1, 0, 100, None, Some(1));
    let output = operator.run(&input).unwrap();
    assert_eq!(output.logs().len(), 1);

    // Pull logs from collection 1 with an end timestamp and a large batch size
    let input = PullLogsInput::new(collection_uuid_1, 0, 100, None, Some(2));
    let output = operator.run(&input).unwrap();
    assert_eq!(output.logs().len(), 2);

    // Pull logs from collection 1 with an end timestamp and a limit and a
    // large batch size
    let input = PullLogsInput::new(collection_uuid_1, 0, 100, Some(1), Some(2));
    let output = operator.run(&input).unwrap();
    assert_eq!(output.logs().len(), 1);
}

#[test]
fn full_drain_returns_all_in_order() {
    let cid = collection(7);
    let operator = PullLogsOperator::new(log_with_entries(cid, 5));
    let input = PullLogsInput::new(cid, 0, 2, None, None);
    let output = operator.run(&input).unwrap();
    assert_eq!(output.logs().len(), 5);
    for (i, rec) in output.logs().iter().enumerate() {
        assert_eq!(rec.log_id, (i + 1) as i64);
        assert_eq!(rec.record.id, format!("item_{}", i + 1));
    }
}

#[test]
fn full_drain_uses_ceil_reads_plus_one() {
    // 5 entries at batch size 2 need ceil(5/2) = 3 non-empty reads plus
    // one terminating empty read: 4 in all.  A source granting only 3
    // reads fails the drain; one granting 4 completes it.
    let cid = collection(8);
    let operator =
        PullLogsOperator::new(FailingLog::new(log_with_entries(cid, 5), 4));
    let input = PullLogsInput::new(cid, 0, 2, None, None);
    assert_eq!(operator.run(&input).unwrap().logs().len(), 5);

    let operator =
        PullLogsOperator::new(FailingLog::new(log_with_entries(cid, 5), 3));
    let input = PullLogsInput::new(cid, 0, 2, None, None);
    assert_eq!(operator.run(&input).unwrap_err(), PullLogsError::ReadFailed);
}

#[test]
fn exact_batch_boundary_costs_extra_read() {
    // 4 entries at batch size 2: the log ends exactly on a batch
    // boundary, so the drain takes 2 non-empty reads plus one empty: 3.
    let cid = collection(9);
    let operator =
        PullLogsOperator::new(FailingLog::new(log_with_entries(cid, 4), 3));
    let input = PullLogsInput::new(cid, 0, 2, None, None);
    assert_eq!(operator.run(&input).unwrap().logs().len(), 4);

    let operator =
        PullLogsOperator::new(FailingLog::new(log_with_entries(cid, 4), 2));
    let input = PullLogsInput::new(cid, 0, 2, None, None);
    assert!(operator.run(&input).is_err());
}

#[test]
fn empty_collection_takes_one_read() {
    let cid = collection(10);
    let operator = PullLogsOperator::new(FailingLog::new(InMemoryLog::new(), 1));
    let input = PullLogsInput::new(cid, 0, 3, None, None);
    assert_eq!(operator.run(&input).unwrap().logs().len(), 0);

    let operator = PullLogsOperator::new(FailingLog::new(InMemoryLog::new(), 0));
    let input = PullLogsInput::new(cid, 0, 3, None, None);
    assert!(operator.run(&input).is_err());
}

#[test]
fn record_cap_truncates_to_min() {
    let cid = collection(11);
    let operator = PullLogsOperator::new(log_with_entries(cid, 3));

    // cap below the log size: exactly the cap, whatever the batch size
    for batch_size in [1, 2, 100] {
        let input = PullLogsInput::new(cid, 0, batch_size, Some(2), None);
        let output = operator.run(&input).unwrap();
        assert_eq!(output.logs().len(), 2);
        assert_eq!(output.logs()[0].log_id, 1);
        assert_eq!(output.logs()[1].log_id, 2);
    }

    // cap equal to the log size, and cap above it: everything
    let input = PullLogsInput::new(cid, 0, 2, Some(3), None);
    assert_eq!(operator.run(&input).unwrap().logs().len(), 3);
    let input = PullLogsInput::new(cid, 0, 2, Some(5), None);
    assert_eq!(operator.run(&input).unwrap().logs().len(), 3);

    // cap of zero: nothing
    let input = PullLogsInput::new(cid, 0, 2, Some(0), None);
    assert_eq!(operator.run(&input).unwrap().logs().len(), 0);
}

#[test]
fn negative_record_cap_behaves_as_no_cap() {
    let cid = collection(12);
    let operator = PullLogsOperator::new(log_with_entries(cid, 3));
    let input = PullLogsInput::new(cid, 0, 2, Some(-1), None);
    assert_eq!(operator.run(&input).unwrap().logs().len(), 3);
}

#[test]
fn time_bound_is_delegated_to_the_source() {
    let cid = collection(13);
    let operator = PullLogsOperator::new(log_with_entries(cid, 4));

    // the filtered result set does not depend on the batch size
    for batch_size in [1, 2, 3, 100] {
        let input = PullLogsInput::new(cid, 0, batch_size, None, Some(2));
        let output = operator.run(&input).unwrap();
        assert_eq!(output.logs().len(), 2);
        assert_eq!(output.logs()[0].log_id_ts, 1);
        assert_eq!(output.logs()[1].log_id_ts, 2);
    }

    // a bound before every entry yields nothing
    let input = PullLogsInput::new(cid, 0, 2, None, Some(0));
    assert_eq!(operator.run(&input).unwrap().logs().len(), 0);

    // a bound past every entry yields everything
    let input = PullLogsInput::new(cid, 0, 2, None, Some(100));
    assert_eq!(operator.run(&input).unwrap().logs().len(), 4);
}

#[test]
fn stride_past_filtered_window_skips_later_entries() {
    // The offset advances by the batch size after every non-empty read,
    // even when time filtering returned fewer entries.  Over a log whose
    // timestamps are NOT monotone with position, a fully filtered window
    // then ends the drain early and in-bound entries beyond it are
    // missed: with timestamps 1, 5, 1 and bound 2, batch size 1 finds one
    // entry where batch size 3 finds two.
    let cid = collection(14);
    let mut log = InMemoryLog::new();
    log.add_log(cid, entry(cid, 1, 1, "first"));
    log.add_log(cid, entry(cid, 2, 5, "second"));
    log.add_log(cid, entry(cid, 3, 1, "third"));
    let operator = PullLogsOperator::new(log);

    let input = PullLogsInput::new(cid, 0, 1, None, Some(2));
    assert_eq!(operator.run(&input).unwrap().logs().len(), 1);

    let input = PullLogsInput::new(cid, 0, 3, None, Some(2));
    assert_eq!(operator.run(&input).unwrap().logs().len(), 2);
}

#[test]
fn repeated_invocation_is_deterministic() {
    let cid = collection(15);
    let operator = PullLogsOperator::new(log_with_entries(cid, 4));
    let input = PullLogsInput::new(cid, 0, 3, Some(2), Some(3));
    let first = operator.run(&input).unwrap();
    let second = operator.run(&input).unwrap();
    assert_eq!(first.logs().len(), second.logs().len());
    for (a, b) in first.logs().iter().zip(second.logs().iter()) {
        assert_eq!(a.log_id, b.log_id);
        assert_eq!(a.log_id_ts, b.log_id_ts);
        assert_eq!(a.record.id, b.record.id);
    }
}

#[test]
fn failure_mid_drain_returns_no_partial_result() {
    // the source serves the first read and fails the second: the whole
    // operation fails and none of the entries read so far come back
    let cid = collection(16);
    let operator =
        PullLogsOperator::new(FailingLog::new(log_with_entries(cid, 3), 1));
    let input = PullLogsInput::new(cid, 0, 1, None, None);
    let err = operator.run(&input).unwrap_err();
    assert_eq!(err, PullLogsError::ReadFailed);
}

#[test]
fn non_positive_batch_size_is_rejected_eagerly() {
    let cid = collection(17);
    // even a source that fails every read is never consulted
    let operator = PullLogsOperator::new(FailingLog::new(log_with_entries(cid, 2), 0));
    let input = PullLogsInput::new(cid, 0, 0, None, None);
    assert_eq!(operator.run(&input).unwrap_err(), PullLogsError::InvalidBatchSize);
    let input = PullLogsInput::new(cid, 0, -5, None, None);
    assert_eq!(operator.run(&input).unwrap_err(), PullLogsError::InvalidBatchSize);
}

#[test]
fn offset_skips_the_prefix() {
    let cid = collection(18);
    let operator = PullLogsOperator::new(log_with_entries(cid, 3));
    let input = PullLogsInput::new(cid, 1, 2, None, None);
    let output = operator.run(&input).unwrap();
    assert_eq!(output.logs().len(), 2);
    assert_eq!(output.logs()[0].log_id, 2);
    assert_eq!(output.logs()[1].log_id, 3);

    let input = PullLogsInput::new(cid, 3, 2, None, None);
    assert_eq!(operator.run(&input).unwrap().logs().len(), 0);
}

#[test]
fn collections_are_isolated() {
    let cid_a = collection(19);
    let cid_b = collection(20);
    let mut log = InMemoryLog::new();
    log.add_log(cid_a, entry(cid_a, 1, 1, "a_1"));
    log.add_log(cid_b, entry(cid_b, 1, 1, "b_1"));
    log.add_log(cid_a, entry(cid_a, 2, 2, "a_2"));
    let operator = PullLogsOperator::new(log);

    let input = PullLogsInput::new(cid_a, 0, 10, None, None);
    let output = operator.run(&input).unwrap();
    assert_eq!(output.logs().len(), 2);
    assert_eq!(output.logs()[0].record.id, "a_1");
    assert_eq!(output.logs()[1].record.id, "a_2");

    let input = PullLogsInput::new(cid_b, 0, 10, None, None);
    let output = operator.run(&input).unwrap();
    assert_eq!(output.logs().len(), 1);
    assert_eq!(output.logs()[0].record.id, "b_1");

    let unknown = collection(21);
    let input = PullLogsInput::new(unknown, 0, 10, None, None);
    assert_eq!(operator.run(&input).unwrap().logs().len(), 0);
}

#[test]
fn records_carry_payloads_through() {
    let cid = collection(22);
    let mut log = InMemoryLog::new();
    let rec = EmbeddingRecord {
        id: "payload".to_string(),
        seq_id: SeqId::from_u64(42),
        embedding: Some(vec![1, 2, 3]),
        encoding: Some(ScalarEncoding::Float32),
        metadata: Some(vec![MetadataPair {
            key: "source".to_string(),
            value: "unit".to_string(),
        }]),
        operation: Operation::Upsert,
        collection_id: cid,
    };
    log.add_log(cid, LogRecord { collection_id: cid, log_id: 1, log_id_ts: 1, record: rec });
    let operator = PullLogsOperator::new(log);
    let input = PullLogsInput::new(cid, 0, 5, None, None);
    let output = operator.run(&input).unwrap();
    assert_eq!(output.logs().len(), 1);
    let got = &output.logs()[0].record;
    assert_eq!(got.id, "payload");
    assert_eq!(got.seq_id.limbs, vec![42]);
    assert_eq!(got.embedding, Some(vec![1, 2, 3]));
    assert_eq!(got.encoding, Some(ScalarEncoding::Float32));
    let pairs = got.metadata.as_ref().unwrap();
    assert_eq!(pairs.len(), 1);
    assert_eq!(pairs[0].key, "source");
    assert_eq!(pairs[0].value, "unit");
    assert!(matches!(got.operation, Operation::Upsert));
}
