use bytes::Bytes;
use zipped_tables::counting_store::{StatsSnapshot, StoreReply, StoreRequest, StoreStats};

#[test]
fn nothing_is_counted_at_first() {
    let stats = StoreStats::default();
    assert_eq!(stats.snapshot(), StatsSnapshot::default());
    assert_eq!(StatsSnapshot::default().total_gets(), 0);
}

#[test]
fn reads_are_counted() {
    let mut stats = StoreStats::default();
    stats.record_request(&StoreRequest::GetOpts);
    stats.record_request(&StoreRequest::GetRange);
    stats.record_request(&StoreRequest::GetRanges(5));
    stats.record_request(&StoreRequest::GetRanges(0));
    stats.record_request(&StoreRequest::Head);
    stats.record_request(&StoreRequest::List);
    stats.record_request(&StoreRequest::ListWithDelimiter);
    let snapshot = stats.snapshot();
    assert_eq!(
        snapshot,
        StatsSnapshot {
            get_requests: 2,
            get_ranges_calls: 2,
            get_ranges_ranges: 5,
            head_requests: 1,
            list_requests: 2,
            bytes_read: 0,
        }
    );
    assert_eq!(snapshot.total_gets(), 7);
}

#[test]
fn writes_are_not_counted() {
    let mut stats = StoreStats::default();
    stats.record_request(&StoreRequest::Put);
    stats.record_request(&StoreRequest::PutMultipart);
    stats.record_request(&StoreRequest::Delete);
    stats.record_request(&StoreRequest::CopyObject);
    stats.record_request(&StoreRequest::CopyIfNotExists);
    assert_eq!(stats.snapshot(), StatsSnapshot::default());
}

#[test]
fn bytes_of_replies_are_counted() {
    let mut stats = StoreStats::default();
    stats.record_reply(&StoreReply::GetOpts(10..25));
    assert_eq!(stats.snapshot().bytes_read, 15);
    stats.record_reply(&StoreReply::GetRange(Bytes::from(vec![1, 2, 3])));
    assert_eq!(stats.snapshot().bytes_read, 18);
    stats.record_reply(&StoreReply::GetRanges(vec![
        Bytes::from(vec![0; 100]),
        Bytes::new(),
        Bytes::from(vec![0; 7]),
    ]));
    assert_eq!(stats.snapshot().bytes_read, 125);
    assert_eq!(stats.snapshot().get_requests, 0);
}

#[test]
fn counters_start_over_when_full() {
    let mut stats = StoreStats { bytes_read: u64::MAX, ..StoreStats::default() };
    stats.record_reply(&StoreReply::GetOpts(0..3));
    assert_eq!(stats.snapshot().bytes_read, 2);
}

#[test]
fn difference_is_what_happened_in_between() {
    let mut stats = StoreStats::default();
    stats.record_request(&StoreRequest::Head);
    stats.record_reply(&StoreReply::GetOpts(0..40));
    let before = stats.snapshot();
    stats.record_request(&StoreRequest::GetRanges(3));
    stats.record_request(&StoreRequest::GetRange);
    stats.record_reply(&StoreReply::GetRange(Bytes::from(vec![9; 9])));
    let difference = stats.snapshot() - before;
    assert_eq!(
        difference,
        StatsSnapshot {
            get_requests: 1,
            get_ranges_calls: 1,
            get_ranges_ranges: 3,
            head_requests: 0,
            list_requests: 0,
            bytes_read: 9,
        }
    );
}
