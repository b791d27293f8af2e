use std::time::Duration;

use mping::codec::ECHO_REPLY;
use mping::payload::Patterns;
use mping::ping::{accept_reply, build_request, reply_record, PingOption, SendState};
use mping::report::{summarize, Reporter, Tick};
use mping::stat::{Bucket, Buckets, Result};

const SEC: u128 = 1_000_000_000;

fn ipv4(icmp: &[u8], source: [u8; 4]) -> Vec<u8> {
    let total = 20 + icmp.len();
    let mut d = vec![0x45, 0, (total >> 8) as u8, (total & 0xff) as u8, 0, 0, 0, 0, 64, 1, 0, 0];
    d.extend_from_slice(&source);
    d.extend_from_slice(&[10, 0, 0, 1]);
    d.extend_from_slice(icmp);
    d
}

fn echoed(frame: &[u8], source: [u8; 4]) -> Vec<u8> {
    let mut icmp = frame.to_vec();
    icmp[0] = ECHO_REPLY;
    ipv4(&icmp, source)
}

fn dotted(a: [u8; 4]) -> String {
    format!("{}.{}.{}.{}", a[0], a[1], a[2], a[3])
}

fn patterns() -> Patterns {
    Patterns { random: vec![0xC3; 40] }
}

fn option(len: usize) -> PingOption {
    PingOption {
        timeout: Duration::from_secs(1),
        ttl: 64,
        tos: None,
        ident: 4242,
        len,
        rate: 10,
        delay: 3,
        count: Some(5),
    }
}

#[test]
fn payload_length_bounds() {
    assert!(option(16).payload_len_ok());
    assert!(option(64).payload_len_ok());
    assert!(option(65507).payload_len_ok());
    assert!(!option(15).payload_len_ok());
    assert!(!option(65508).payload_len_ok());
}

#[test]
fn send_state_counts_rounds() {
    let mut s = SendState::new();
    assert_eq!((s.seq, s.sent), (1, 0));
    assert!(!s.finish_round(Some(2)));
    assert_eq!((s.seq, s.sent), (2, 1));
    assert!(s.finish_round(Some(2)));
    assert!(!s.finish_round(None));
    assert_eq!(s.sent, 3);
}

#[test]
fn send_state_wraps_sequence() {
    let mut s = SendState { seq: 65535, sent: i64::MAX };
    assert!(s.finish_round(Some(i64::MAX)));
    assert_eq!(s.seq, 0);
    assert_eq!(s.sent, i64::MAX);
}

#[test]
fn accept_reply_recovers_probe() {
    let p = patterns();
    let ts: u128 = 1_650_000_000_987_654_321;
    let frame = build_request(4242, 7, &p, ts);
    let r = accept_reply(&echoed(&frame, [8, 8, 4, 4]), 4242, &p).unwrap();
    assert_eq!(r.source, [8, 8, 4, 4]);
    assert_eq!(r.seq, 7);
    assert_eq!(r.txts, ts);
    assert!(!r.bitflip);
}

#[test]
fn accept_reply_skips_foreign_and_malformed() {
    let p = patterns();
    let frame = build_request(4242, 7, &p, 1);
    assert!(accept_reply(&echoed(&frame, [1, 1, 1, 1]), 4243, &p).is_none());
    assert!(accept_reply(&ipv4(&frame, [1, 1, 1, 1]), 4242, &p).is_none());
    assert!(accept_reply(&[0u8; 10], 4242, &p).is_none());
    let short = mping::codec::encode_request(4242, 7, &[0u8; 15]);
    assert!(accept_reply(&echoed(&short, [1, 1, 1, 1]), 4242, &p).is_none());
}

#[test]
fn corrupted_reply_is_flagged_and_still_counted() {
    let p = patterns();
    let ts: u128 = 20 * SEC + 5;
    let seq = 3u16;
    let mut store = Buckets::new();
    store.record_send(ts, "9.9.9.9", seq);
    let frame = build_request(1, seq, &p, ts);
    let mut d = echoed(&frame, [9, 9, 9, 9]);
    d[20 + 8 + 16] ^= 0xFF;
    let reply = accept_reply(&d, 1, &p).unwrap();
    assert!(reply.bitflip);
    let rec = reply_record(&reply, &dotted(reply.source), ts + 1_000);
    assert!(rec.received);
    store.record_reply(rec);
    let b = store.pop().unwrap();
    let v = b.values();
    assert_eq!(v.len(), 1);
    assert!(v[0].received);
    assert!(v[0].bitflip);
    assert_eq!(v[0].latency, 1_000);
    let s = summarize(&b);
    assert_eq!(s[0].1.bitflip_count, 1);
    assert_eq!(s[0].1.received, 1);
    assert_eq!(s[0].1.loss, 0);
}

#[test]
fn summarize_per_target_in_first_seen_order() {
    let mut b = Bucket::new(1);
    b.add(Result::new(SEC, "b", 1));
    b.add(Result::new(SEC, "a", 1));
    b.add(Result::new(SEC, "b", 2));
    let mut r = Result::new(SEC, "b", 1);
    r.rxts = SEC + 400;
    r.received = true;
    b.add_reply(r);
    let mut r = Result::new(SEC, "b", 2);
    r.rxts = SEC + 600;
    r.received = true;
    b.add_reply(r);
    let s = summarize(&b);
    assert_eq!(s.len(), 2);
    assert_eq!(s[0].0, "b");
    assert_eq!(s[0].1.received, 2);
    assert_eq!(s[0].1.loss, 0);
    assert_eq!(s[0].1.latency, 1_000);
    assert_eq!(s[0].1.mean_latency(), 500);
    assert_eq!(s[1].0, "a");
    assert_eq!(s[1].1.received, 0);
    assert_eq!(s[1].1.loss, 1);
    assert_eq!(s[1].1.latency, 0);
    assert_eq!(s[1].1.loss_rate(), 10_000);
}

#[test]
fn summarize_empty_window() {
    assert!(summarize(&Bucket::new(0)).is_empty());
}

#[test]
fn reporter_waits_on_empty_store() {
    let mut store = Buckets::new();
    let mut rep = Reporter::new(3);
    assert_eq!(rep.delay_ns, 3 * SEC);
    assert!(matches!(rep.tick(&mut store, 100 * SEC), Tick::Wait));
    assert_eq!(rep.last_key, None);
}

#[test]
fn reply_within_grace_is_counted_late_one_is_not() {
    let mut store = Buckets::new();
    let mut rep = Reporter::new(3);
    let key: u128 = 50;
    let ts = key * SEC + 10;
    store.record_send(ts, "t", 1);
    store.record_send(ts, "t", 2);
    let now = key * SEC + 3 * SEC - 1;
    assert!(matches!(rep.tick(&mut store, now), Tick::Wait));
    let mut r = Result::new(ts, "t", 1);
    r.rxts = now;
    r.received = true;
    store.record_reply(r);
    match rep.tick(&mut store, key * SEC + 3 * SEC) {
        Tick::Report(k, v) => {
            assert_eq!(k, key);
            assert_eq!(v.len(), 1);
            assert_eq!(v[0].1.received, 1);
            assert_eq!(v[0].1.loss, 1);
        }
        _ => panic!("window not reported"),
    }
    assert_eq!(rep.last_key, Some(key));
    let mut late = Result::new(ts, "t", 2);
    late.rxts = key * SEC + 3 * SEC + 1;
    late.received = true;
    store.record_reply(late);
    match rep.tick(&mut store, key * SEC + 3 * SEC + 2) {
        Tick::Discard(k) => assert_eq!(k, key),
        _ => panic!("late window not discarded"),
    }
    assert!(store.pop().is_none());
}

#[test]
fn reporter_reports_oldest_first() {
    let mut store = Buckets::new();
    let mut rep = Reporter::new(0);
    for k in [5u128, 2, 8, 2] {
        store.add(k, Result::new(k * SEC, "x", k as u16));
    }
    let mut order = Vec::new();
    loop {
        match rep.tick(&mut store, 100 * SEC) {
            Tick::Report(k, _) => order.push(k),
            Tick::Discard(_) => panic!("nothing is stale"),
            Tick::Wait => break,
        }
    }
    assert_eq!(order, vec![2, 5, 8]);
}

#[test]
fn end_to_end_five_probes_one_report() {
    let opt = option(40);
    assert!(opt.payload_len_ok());
    let p = patterns();
    let mut store = Buckets::new();
    let mut state = SendState::new();
    let mut rep = Reporter::new(opt.delay);
    let base: u128 = 1_700_000_000 * SEC;
    let target = [127, 0, 0, 1];
    let per_round = SEC / opt.rate as u128;
    let mut rounds: u128 = 0;
    loop {
        let ts = base + rounds * per_round;
        let frame = build_request(opt.ident, state.seq, &p, ts);
        store.record_send(ts, &dotted(target), state.seq);
        let reply = accept_reply(&echoed(&frame, target), opt.ident, &p).unwrap();
        let rec = reply_record(&reply, &dotted(reply.source), ts + 250_000);
        store.record_reply(rec);
        rounds += 1;
        assert!(matches!(rep.tick(&mut store, ts + 250_000), Tick::Wait));
        if state.finish_round(opt.count) {
            break;
        }
    }
    assert_eq!(rounds, 5);
    assert_eq!(store.buckets.len(), 1);
    assert_eq!(store.last().unwrap().values().len(), 5);
    let mut reports = Vec::new();
    let mut now = base + 5 * per_round;
    while now <= base + 6 * SEC {
        if let Tick::Report(k, v) = rep.tick(&mut store, now) {
            reports.push((k, v));
        }
        now += SEC / 2;
    }
    assert_eq!(reports.len(), 1);
    let (k, v) = &reports[0];
    assert_eq!(*k, 1_700_000_000);
    assert_eq!(v.len(), 1);
    assert_eq!(v[0].0, "127.0.0.1");
    assert_eq!(v[0].1.sent(), 5);
    assert_eq!(v[0].1.received, 5);
    assert_eq!(v[0].1.loss, 0);
    assert_eq!(v[0].1.loss_rate(), 0);
    assert_eq!(v[0].1.mean_latency(), 250_000);
}
