//! Aggregation of a closed window into per-target totals, and the
//! reporter's decision on each tick.

use vstd::prelude::*;

use crate::stat::{
    Bucket, Buckets, Probe, Result, TargetResult, find_record, is_oldest, keys_unique, lemma_find_record,
    merged_reply, record_key, upsert,
};

verus! {

/// The distinct targets of `s`, in the order of their first record.
pub open spec fn targets_of(s: Seq<Probe>) -> Seq<Seq<char>>
    decreases s.len(),
{
    if s.len() == 0 {
        Seq::empty()
    } else {
        let t = targets_of(s.drop_last());
        if t.contains(s.last().target) {
            t
        } else {
            t.push(s.last().target)
        }
    }
}

/// The records of target `t` in `s` that got a reply.
pub open spec fn count_received(s: Seq<Probe>, t: Seq<char>) -> nat
    decreases s.len(),
{
    if s.len() == 0 {
        0
    } else {
        count_received(s.drop_last(), t) + if s.last().target == t && s.last().received {
            1nat
        } else {
            0nat
        }
    }
}

/// The records of target `t` in `s` without a reply.
pub open spec fn count_lost(s: Seq<Probe>, t: Seq<char>) -> nat
    decreases s.len(),
{
    if s.len() == 0 {
        0
    } else {
        count_lost(s.drop_last(), t) + if s.last().target == t && !s.last().received {
            1nat
        } else {
            0nat
        }
    }
}

/// The records of target `t` in `s` flagged with a corrupted payload.
pub open spec fn count_bitflips(s: Seq<Probe>, t: Seq<char>) -> nat
    decreases s.len(),
{
    if s.len() == 0 {
        0
    } else {
        count_bitflips(s.drop_last(), t) + if s.last().target == t && s.last().bitflip {
            1nat
        } else {
            0nat
        }
    }
}

/// The sum of the latencies of the received records of target `t` in `s`.
pub open spec fn latency_total(s: Seq<Probe>, t: Seq<char>) -> nat
    decreases s.len(),
{
    if s.len() == 0 {
        0
    } else {
        latency_total(s.drop_last(), t) + if s.last().target == t && s.last().received {
            s.last().latency as nat
        } else {
            0nat
        }
    }
}

/// `x`, or `max` where `x` is larger.
pub open spec fn capped(x: nat, max: nat) -> nat {
    if x > max {
        max
    } else {
        x
    }
}

/// The totals of target `t` over the records `s`; each total stops at the
/// largest value of its field.
pub open spec fn target_summary(s: Seq<Probe>, t: Seq<char>) -> TargetResult {
    TargetResult {
        latency: capped(latency_total(s, t), u128::MAX as nat) as u128,
        loss: capped(count_lost(s, t), u32::MAX as nat) as u32,
        received: capped(count_received(s, t), u32::MAX as nat) as u32,
        bitflip_count: capped(count_bitflips(s, t), u32::MAX as nat) as u32,
    }
}

/// The targets of `s` are distinct, and they are exactly the targets of
/// its records.
pub proof fn lemma_targets_of(s: Seq<Probe>)
    ensures
        forall|i: int, j: int|
            0 <= i < j < targets_of(s).len() ==> targets_of(s)[i] != targets_of(s)[j],
        forall|t: Seq<char>|
            targets_of(s).contains(t) <==> exists|i: int| 0 <= i < s.len() && (#[trigger] s[i]).target == t,
    decreases s.len(),
{
    if s.len() > 0 {
        let p = s.drop_last();
        lemma_targets_of(p);
        let tp = targets_of(p);
        let ts = targets_of(s);
        assert(s.drop_last() == p);
        assert forall|t: Seq<char>| tp.contains(t) implies ts.contains(t) by {
            let k = choose|k: int| 0 <= k < tp.len() && tp[k] == t;
            if !tp.contains(s.last().target) {
                assert(ts[k] == tp[k]);
            }
        }
        assert forall|t: Seq<char>|
            ts.contains(t) <==> exists|i: int| 0 <= i < s.len() && (#[trigger] s[i]).target == t by {
            if tp.contains(t) {
                let i = choose|i: int| 0 <= i < p.len() && (#[trigger] p[i]).target == t;
                assert(s[i] == p[i]);
            }
            if exists|i: int| 0 <= i < s.len() && (#[trigger] s[i]).target == t {
                let i = choose|i: int| 0 <= i < s.len() && (#[trigger] s[i]).target == t;
                if i < s.len() - 1 {
                    assert(p[i] == s[i]);
                    assert(tp.contains(t));
                } else if !tp.contains(t) {
                    assert(ts[ts.len() - 1] == t);
                }
            }
            if ts.contains(t) && !tp.contains(t) {
                let k = choose|k: int| 0 <= k < ts.len() && ts[k] == t;
                if tp.contains(s.last().target) {
                    assert(tp[k] == t);
                } else if k < tp.len() {
                    assert(ts[k] == tp[k]);
                }
                assert(s[s.len() - 1].target == t);
            }
        }
    }
}


/// `v` lists the per-target totals of the records `s`: one entry for each
/// target, in the order of the target's first record.
pub open spec fn is_summary_of(v: Seq<(String, TargetResult)>, s: Seq<Probe>) -> bool {
    &&& v.len() == targets_of(s).len()
    &&& forall|j: int|
        0 <= j < v.len() ==> (#[trigger] v[j]).0@ == targets_of(s)[j] && v[j].1 == target_summary(
            s,
            targets_of(s)[j],
        )
}

/// A target's totals with one more of its records counted.
pub open spec fn tally(tr: TargetResult, p: Probe) -> TargetResult {
    TargetResult {
        latency: if p.received {
            tr.latency.saturating_add(p.latency)
        } else {
            tr.latency
        },
        loss: if p.received {
            tr.loss
        } else {
            tr.loss.saturating_add(1)
        },
        received: if p.received {
            tr.received.saturating_add(1)
        } else {
            tr.received
        },
        bitflip_count: if p.bitflip {
            tr.bitflip_count.saturating_add(1)
        } else {
            tr.bitflip_count
        },
    }
}

/// Totals that count nothing.
pub open spec fn no_totals() -> TargetResult {
    TargetResult { latency: 0, loss: 0, received: 0, bitflip_count: 0 }
}

/// One more record changes the totals of its own target by `tally` and
/// leaves the others as they were.
pub proof fn lemma_summary_push(s: Seq<Probe>, p: Probe, t: Seq<char>)
    ensures
        target_summary(s.push(p), t) == if p.target == t {
            tally(target_summary(s, t), p)
        } else {
            target_summary(s, t)
        },
{
    assert(s.push(p).drop_last() =~= s);
}

/// A target without records has no totals.
pub proof fn lemma_summary_absent(s: Seq<Probe>, t: Seq<char>)
    requires
        forall|i: int| 0 <= i < s.len() ==> (#[trigger] s[i]).target != t,
    ensures
        target_summary(s, t) == no_totals(),
    decreases s.len(),
{
    if s.len() > 0 {
        let p = s.drop_last();
        assert forall|i: int| 0 <= i < p.len() implies (#[trigger] p[i]).target != t by {
            assert(p[i] == s[i]);
        }
        lemma_summary_absent(p, t);
        assert(s.last() == s[s.len() - 1]);
    }
}

fn tally_record(tr: TargetResult, r: &Result) -> (out: TargetResult)
    ensures
        out == tally(tr, r@),
{
    TargetResult {
        latency: if r.received {
            tr.latency.saturating_add(r.latency)
        } else {
            tr.latency
        },
        loss: if r.received {
            tr.loss
        } else {
            tr.loss.saturating_add(1)
        },
        received: if r.received {
            tr.received.saturating_add(1)
        } else {
            tr.received
        },
        bitflip_count: if r.bitflip {
            tr.bitflip_count.saturating_add(1)
        } else {
            tr.bitflip_count
        },
    }
}

/// The per-target totals of a window: one entry for each target that has a
/// record in it, in the order of the target's first record.
pub fn summarize(b: &Bucket) -> (r: Vec<(String, TargetResult)>)
    ensures
        is_summary_of(r@, b@),
{
    let mut out: Vec<(String, TargetResult)> = Vec::new();
    let mut i: usize = 0;
    let n = b.value.len();
    while i < n
        invariant
            n == b.value@.len(),
            n == b@.len(),
            i <= n,
            out@.len() == targets_of(b@.take(i as int)).len(),
            forall|j: int|
                0 <= j < out@.len() ==> (#[trigger] out@[j]).0@ == targets_of(b@.take(i as int))[j]
                    && out@[j].1 == target_summary(b@.take(i as int), targets_of(b@.take(i as int))[j]),
        decreases n - i,
    {
        let r = &b.value[i];
        let ghost pre = b@.take(i as int);
        let ghost next = b@.take(i + 1);
        let ghost p = r@;
        proof {
            assert(b@[i as int] == r@);
            assert(next =~= pre.push(p));
            assert(next.drop_last() =~= pre);
            lemma_targets_of(pre);
        }
        let mut j: usize = 0;
        while j < out.len() && out[j].0 != r.target
            invariant
                j <= out@.len(),
                forall|k: int| 0 <= k < j ==> (#[trigger] out@[k]).0@ != r.target@,
            decreases out@.len() - j,
        {
            j = j + 1;
        }
        if j < out.len() {
            let name = out[j].0.clone();
            let tr = tally_record(out[j].1, r);
            proof {
                assert(targets_of(pre).contains(p.target)) by {
                    assert(targets_of(pre)[j as int] == p.target);
                }
                assert(targets_of(next) == targets_of(pre));
                lemma_summary_push(pre, p, p.target);
            }
            out.set(j, (name, tr));
            proof {
                assert forall|k: int| 0 <= k < out@.len() implies (#[trigger] out@[k]).0@ == targets_of(
                    next,
                )[k] && out@[k].1 == target_summary(next, targets_of(next)[k]) by {
                    lemma_summary_push(pre, p, targets_of(pre)[k]);
                }
            }
        } else {
            proof {
                assert(!targets_of(pre).contains(p.target)) by {
                    if targets_of(pre).contains(p.target) {
                        let k = choose|k: int| 0 <= k < targets_of(pre).len() && targets_of(pre)[k] == p.target;
                        assert(out@[k].0@ == p.target);
                    }
                }
                assert(targets_of(next) == targets_of(pre).push(p.target));
                lemma_summary_absent(pre, p.target);
                lemma_summary_push(pre, p, p.target);
            }
            let tr = tally_record(TargetResult { latency: 0, loss: 0, received: 0, bitflip_count: 0 }, r);
            out.push((r.target.clone(), tr));
            proof {
                assert forall|k: int| 0 <= k < out@.len() implies (#[trigger] out@[k]).0@ == targets_of(
                    next,
                )[k] && out@[k].1 == target_summary(next, targets_of(next)[k]) by {
                    lemma_summary_push(pre, p, targets_of(next)[k]);
                }
            }
        }
        i = i + 1;
    }
    assert(b@.take(n as int) =~= b@);
    out
}


/// What the reporter does on a tick.
pub enum Action {
    /// Nothing is due.
    Wait,
    /// The oldest window is not newer than the last one reported: drop it.
    Discard(u128),
    /// The oldest window has aged past the grace delay: report it.
    Report(u128),
}

/// Window `key` has aged past the grace delay at time `now`: its start plus
/// the delay is not later than `now`.
pub open spec fn window_due(key: u128, delay_ns: u128, now: u128) -> bool {
    key * crate::stat::NANOS_PER_SEC + delay_ns <= now
}

/// The reporter's decision, given the last key it reported, its grace delay,
/// the oldest window key of the store and the time.
pub open spec fn next_action(last: Option<u128>, delay_ns: u128, oldest: Option<u128>, now: u128) -> Action {
    match oldest {
        None => Action::Wait,
        Some(k) => if last is Some && k <= last->0 {
            Action::Discard(k)
        } else if window_due(k, delay_ns, now) {
            Action::Report(k)
        } else {
            Action::Wait
        },
    }
}

/// The outcome of one tick of the reporter.
pub enum Tick {
    /// Nothing was due.
    Wait,
    /// A stale window was dropped without a report.
    Discard(u128),
    /// A window was closed: its key and its per-target totals.
    Report(u128, Vec<(String, TargetResult)>),
}

impl Tick {
    /// The decision this outcome carries out.
    pub open spec fn action(&self) -> Action {
        match self {
            Tick::Wait => Action::Wait,
            Tick::Discard(k) => Action::Discard(*k),
            Tick::Report(k, _) => Action::Report(*k),
        }
    }
}

/// The reporter's state: its grace delay and the key it reported last.
pub struct Reporter {
    pub delay_ns: u128,
    pub last_key: Option<u128>,
}

impl Reporter {
    /// A reporter with a grace delay of `delay` seconds that has reported
    /// nothing yet.
    pub fn new(delay: u64) -> (r: Reporter)
        ensures
            r.delay_ns == delay * crate::stat::NANOS_PER_SEC,
            r.last_key is None,
    {
        Reporter { delay_ns: delay as u128 * crate::stat::NANOS_PER_SEC, last_key: None }
    }

    /// Whether window `key` is due at `now`.
    pub fn is_due(&self, key: u128, now: u128) -> (r: bool)
        ensures
            r == window_due(key, self.delay_ns, now),
    {
        if now < self.delay_ns {
            false
        } else {
            let x = now - self.delay_ns;
            let n = crate::stat::NANOS_PER_SEC;
            let q = x / n;
            proof {
                assert(key <= q <==> key * n <= x) by (nonlinear_arith)
                    requires
                        n > 0,
                        q == x / n,
                        x == n * q + x % n,
                        0 <= x % n < n,
                ;
            }
            key <= q
        }
    }

    /// One tick at time `now`: drops a stale oldest window, or closes and
    /// summarizes the oldest window once it is due, or waits.
    pub fn tick(&mut self, store: &mut Buckets, now: u128) -> (r: Tick)
        requires
            old(store).wf(),
        ensures
            final(store).wf(),
            final(self).delay_ns == old(self).delay_ns,
            r.action() == next_action(old(self).last_key, old(self).delay_ns, old(store).oldest(), now),
            match r.action() {
                Action::Wait => final(store)@ == old(store)@ && final(self).last_key == old(self).last_key,
                Action::Discard(k) => final(store)@ == old(store)@.remove(k) && final(self).last_key
                    == old(self).last_key && is_oldest(old(store)@, k),
                Action::Report(k) => final(store)@ == old(store)@.remove(k) && final(self).last_key
                    == Some(k) && is_oldest(old(store)@, k),
            },
            r matches Tick::Report(k, v) ==> is_summary_of(v@, old(store)@[k]),
    {
        proof {
            store.lemma_oldest();
        }
        match store.last() {
            None => Tick::Wait,
            Some(oldest) => {
                let key = oldest.key;
                let stale = match self.last_key {
                    Some(l) => key <= l,
                    None => false,
                };
                if stale {
                    let _ = store.pop();
                    Tick::Discard(key)
                } else if self.is_due(key, now) {
                    match store.pop() {
                        Some(b) => {
                            self.last_key = Some(key);
                            let v = summarize(&b);
                            Tick::Report(key, v)
                        },
                        None => Tick::Wait,
                    }
                } else {
                    Tick::Wait
                }
            },
        }
    }
}


proof fn lemma_count_received_update(s: Seq<Probe>, i: int, r: Probe, t: Seq<char>)
    requires
        0 <= i < s.len(),
    ensures
        count_received(s.update(i, r), t) + (if s[i].target == t && s[i].received {
            1int
        } else {
            0
        }) == count_received(s, t) + (if r.target == t && r.received {
            1int
        } else {
            0
        }),
    decreases s.len(),
{
    let u = s.update(i, r);
    if i == s.len() - 1 {
        assert(u.drop_last() =~= s.drop_last());
    } else {
        assert(u.drop_last() =~= s.drop_last().update(i, r));
        lemma_count_received_update(s.drop_last(), i, r, t);
    }
}

/// A reply merged into its window while the window is open is counted: the
/// window then holds one more received record of its target, whether its
/// request was registered there or not.
pub proof fn law_reply_counted(s: Seq<Probe>, reply: Probe)
    requires
        keys_unique(s),
        reply.received,
        find_record(s, record_key(reply)) >= 0 ==> !s[find_record(s, record_key(reply))].received,
    ensures
        count_received(upsert(s, merged_reply(reply)), reply.target) == count_received(s, reply.target)
            + 1,
{
    lemma_find_record(s, record_key(reply));
    let i = find_record(s, record_key(reply));
    let m = merged_reply(reply);
    if i >= 0 {
        lemma_count_received_update(s, i, m, reply.target);
    } else {
        assert(s.push(m).drop_last() =~= s);
    }
}

/// The grace delay: a window that is not yet due is neither reported nor
/// dropped, so replies merged into it until then are counted; once due it
/// is reported; after it was reported, a window with its key or an older
/// one (such as one that a late reply opened) is dropped without a report.
pub proof fn law_grace_window(last: Option<u128>, delay_ns: u128, key: u128, now: u128)
    ensures
        (last is None || last->0 < key) && !window_due(key, delay_ns, now) ==> next_action(
            last,
            delay_ns,
            Some(key),
            now,
        ) == Action::Wait,
        (last is None || last->0 < key) && window_due(key, delay_ns, now) ==> next_action(
            last,
            delay_ns,
            Some(key),
            now,
        ) == Action::Report(key),
        last is Some && key <= last->0 ==> next_action(last, delay_ns, Some(key), now)
            == Action::Discard(key),
{
}

} // verus!
