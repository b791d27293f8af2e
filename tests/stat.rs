use mping::stat::{window_key, Bucket, Buckets, Result, TargetResult};

fn pending(txts: u128, target: &str, seq: u16) -> Result {
    Result::new(txts, target, seq)
}

fn reply(txts: u128, rxts: u128, target: &str, seq: u16) -> Result {
    let mut r = Result::new(txts, target, seq);
    r.rxts = rxts;
    r.received = true;
    r
}

#[test]
fn new_record_is_pending() {
    let r = Result::new(42, "10.0.0.1", 7);
    assert_eq!(r.txts, 42);
    assert_eq!(r.target, "10.0.0.1");
    assert_eq!(r.seq, 7);
    assert_eq!(r.rxts, 0);
    assert_eq!(r.latency, 0);
    assert!(!r.received);
    assert!(!r.bitflip);
}

#[test]
fn calc_latency_subtracts_times() {
    let mut r = reply(1_000, 4_500, "a", 1);
    r.calc_latency();
    assert_eq!(r.latency, 3_500);
    assert_eq!(r.txts, 1_000);
    assert_eq!(r.rxts, 4_500);
}

#[test]
fn calc_latency_is_zero_when_clock_went_back() {
    let mut r = reply(5_000, 4_000, "a", 1);
    r.latency = 9;
    r.calc_latency();
    assert_eq!(r.latency, 0);
}

#[test]
fn window_key_is_epoch_second() {
    assert_eq!(window_key(0), 0);
    assert_eq!(window_key(999_999_999), 0);
    assert_eq!(window_key(1_000_000_000), 1);
    assert_eq!(window_key(1_700_000_000_123_456_789), 1_700_000_000);
    assert_eq!(window_key(u128::MAX), u128::MAX / 1_000_000_000);
}

#[test]
fn same_send_time_same_window() {
    let t = 1_234_567_890_123u128;
    assert_eq!(window_key(t), window_key(t));
    assert_eq!(window_key(t), 1_234);
}

#[test]
fn bucket_add_replaces_same_key() {
    let mut b = Bucket::new(3);
    b.add(pending(10, "a", 1));
    b.add(pending(11, "b", 1));
    b.add(pending(12, "a", 2));
    b.add(pending(13, "a", 1));
    let v = b.values();
    assert_eq!(v.len(), 3);
    assert_eq!((v[0].target.as_str(), v[0].seq, v[0].txts), ("a", 1, 13));
    assert_eq!((v[1].target.as_str(), v[1].seq, v[1].txts), ("b", 1, 11));
    assert_eq!((v[2].target.as_str(), v[2].seq, v[2].txts), ("a", 2, 12));
    assert_eq!(b.key, 3);
}

#[test]
fn bucket_add_reply_computes_latency_for_known_request() {
    let mut b = Bucket::new(1);
    b.add(pending(1_000, "a", 5));
    b.add_reply(reply(1_000, 1_750, "a", 5));
    let v = b.values();
    assert_eq!(v.len(), 1);
    assert!(v[0].received);
    assert_eq!(v[0].latency, 750);
    assert_eq!(v[0].rxts, 1_750);
}

#[test]
fn bucket_add_reply_without_request_is_bare() {
    let mut b = Bucket::new(1);
    b.add(pending(1_000, "a", 6));
    b.add_reply(reply(1_000, 1_750, "a", 5));
    let v = b.values();
    assert_eq!(v.len(), 2);
    assert!(!v[0].received);
    assert!(v[1].received);
    assert_eq!(v[1].seq, 5);
    assert_eq!(v[1].latency, 750);
}

#[test]
fn bucket_clone_keeps_records() {
    let mut b = Bucket::new(9);
    b.add(pending(1, "x", 1));
    let c = b.clone();
    assert_eq!(c.key, 9);
    assert_eq!(c.values().len(), 1);
    assert_eq!(c.values()[0].target, "x");
}

#[test]
fn buckets_evict_in_ascending_order() {
    let mut s = Buckets::new();
    s.add(5, pending(5_000_000_000, "a", 1));
    s.add(2, pending(2_000_000_000, "a", 2));
    s.add(8, pending(8_000_000_000, "a", 3));
    s.add(2, pending(2_100_000_000, "a", 4));
    assert_eq!(s.buckets.len(), 3);
    assert_eq!(s.last().unwrap().key, 2);
    let first = s.pop().unwrap();
    assert_eq!(first.key, 2);
    assert_eq!(first.values().len(), 2);
    assert_eq!(s.pop().unwrap().key, 5);
    assert_eq!(s.pop().unwrap().key, 8);
    assert!(s.pop().is_none());
    assert!(s.last().is_none());
}

#[test]
fn last_leaves_window_in_place() {
    let mut s = Buckets::new();
    s.add(4, pending(4_000_000_000, "a", 1));
    let peek = s.last().unwrap();
    assert_eq!(peek.key, 4);
    assert_eq!(peek.values().len(), 1);
    assert_eq!(s.buckets.len(), 1);
}

#[test]
fn add_reply_creates_missing_window() {
    let mut s = Buckets::new();
    s.add_reply(7, reply(7_000_000_000, 7_000_000_500, "a", 1));
    let b = s.pop().unwrap();
    assert_eq!(b.key, 7);
    assert!(b.values()[0].received);
    assert_eq!(b.values()[0].latency, 500);
}

#[test]
fn record_send_and_reply_meet_in_one_window() {
    let mut s = Buckets::new();
    let ts = 3_999_999_999u128;
    s.record_send(ts, "10.1.1.1", 9);
    s.record_reply(reply(ts, ts + 2_000_000, "10.1.1.1", 9));
    let b = s.pop().unwrap();
    assert_eq!(b.key, 3);
    let v = b.values();
    assert_eq!(v.len(), 1);
    assert!(v[0].received);
    assert_eq!(v[0].latency, 2_000_000);
    assert!(s.pop().is_none());
}

#[test]
fn target_result_formulas() {
    let t = TargetResult { latency: 3_000_000, loss: 1, received: 3, bitflip_count: 0 };
    assert_eq!(t.sent(), 4);
    assert_eq!(t.mean_latency(), 1_000_000);
    assert_eq!(t.loss_rate(), 2_500);
    let none = TargetResult::default();
    assert_eq!(none.sent(), 0);
    assert_eq!(none.mean_latency(), 0);
    assert_eq!(none.loss_rate(), 0);
    let all_lost = TargetResult { latency: 0, loss: 3, received: 0, bitflip_count: 0 };
    assert_eq!(all_lost.mean_latency(), 0);
    assert_eq!(all_lost.loss_rate(), 10_000);
    let third = TargetResult { latency: 0, loss: 1, received: 2, bitflip_count: 0 };
    assert_eq!(third.loss_rate(), 3_333);
    let two_thirds = TargetResult { latency: 0, loss: 2, received: 1, bitflip_count: 0 };
    assert_eq!(two_thirds.loss_rate(), 6_667);
}
