//! Probe records, one-second windows of them, and the store of open windows.

use vstd::prelude::*;

verus! {

/// One observation of a single (target, sequence) probe.
pub struct Result {
    /// Transmit time, in nanoseconds since the epoch.
    pub txts: u128,
    /// Receive time, in nanoseconds since the epoch; zero until a reply merges.
    pub rxts: u128,
    pub seq: u16,
    pub target: String,
    /// `rxts - txts` once both are known, zero otherwise.
    pub latency: u128,
    pub received: bool,
    pub bitflip: bool,
}

/// What a record holds, with its target as characters.
pub struct Probe {
    pub txts: u128,
    pub rxts: u128,
    pub seq: u16,
    pub target: Seq<char>,
    pub latency: u128,
    pub received: bool,
    pub bitflip: bool,
}

impl View for Result {
    type V = Probe;

    open spec fn view(&self) -> Probe {
        Probe {
            txts: self.txts,
            rxts: self.rxts,
            seq: self.seq,
            target: self.target@,
            latency: self.latency,
            received: self.received,
            bitflip: self.bitflip,
        }
    }
}

/// The models of a sequence of records.
pub open spec fn probes(s: Seq<Result>) -> Seq<Probe> {
    s.map_values(|r: Result| r@)
}

/// The latency of a record with the given times: zero when the receive time
/// lies before the transmit time (the clock stepped back).
pub open spec fn latency_of(txts: u128, rxts: u128) -> u128 {
    if txts <= rxts {
        (rxts - txts) as u128
    } else {
        0
    }
}

/// Nanoseconds in one second.
pub const NANOS_PER_SEC: u128 = 1_000_000_000;

/// The window of a transmit time: its epoch second, rounded down.
pub open spec fn window_of_time(ts: u128) -> u128 {
    (ts / NANOS_PER_SEC) as u128
}

/// The key of the window that a record sent at `ts` belongs to.
pub fn window_key(ts: u128) -> (r: u128)
    ensures
        r == window_of_time(ts),
{
    ts / NANOS_PER_SEC
}

/// The record of a probe sent at `txts` to `target` with sequence `seq`,
/// before any reply.
pub open spec fn pending_record(txts: u128, target: Seq<char>, seq: u16) -> Probe {
    Probe {
        txts,
        rxts: 0,
        seq,
        target,
        latency: 0,
        received: false,
        bitflip: false,
    }
}

impl Clone for Result {
    fn clone(&self) -> (r: Self)
        ensures
            r == *self,
    {
        Result {
            txts: self.txts,
            rxts: self.rxts,
            seq: self.seq,
            target: self.target.clone(),
            latency: self.latency,
            received: self.received,
            bitflip: self.bitflip,
        }
    }
}

impl Result {
    /// Sets the latency from the transmit and receive times.
    pub fn calc_latency(&mut self)
        ensures
            final(self)@ == (Probe { latency: latency_of(old(self).txts, old(self).rxts), ..old(self)@ }),
    {
        if self.txts <= self.rxts {
            self.latency = self.rxts - self.txts;
        } else {
            self.latency = 0;
        }
    }

    /// A pending record: sent at `txts` to `target` with sequence `seq`,
    /// not yet received.
    pub fn new(txts: u128, target: &str, seq: u16) -> (r: Self)
        ensures
            r@ == pending_record(txts, target@, seq),
    {
        Result {
            txts,
            rxts: 0,
            seq,
            target: target.to_string(),
            latency: 0,
            received: false,
            bitflip: false,
        }
    }
}


/// The key a record is stored under within its window: target and sequence.
pub open spec fn record_key(r: Probe) -> (Seq<char>, u16) {
    (r.target, r.seq)
}

/// No two records of `s` share a key.
pub open spec fn keys_unique(s: Seq<Probe>) -> bool {
    forall|i: int, j: int|
        0 <= i < s.len() && 0 <= j < s.len() && i != j ==> record_key(#[trigger] s[i])
            != record_key(#[trigger] s[j])
}

/// The position of the record stored under `k`, or -1 when there is none.
pub open spec fn find_record(s: Seq<Probe>, k: (Seq<char>, u16)) -> int
    decreases s.len(),
{
    if s.len() == 0 {
        -1
    } else if record_key(s.last()) == k {
        s.len() - 1
    } else {
        find_record(s.drop_last(), k)
    }
}

/// `s` with `r` stored under its key: the record with the same key is
/// replaced in place, or `r` is appended.
pub open spec fn upsert(s: Seq<Probe>, r: Probe) -> Seq<Probe> {
    let i = find_record(s, record_key(r));
    if i >= 0 {
        s.update(i, r)
    } else {
        s.push(r)
    }
}

/// A reply as it is stored: with its latency set from its transmit and
/// receive times.
pub open spec fn merged_reply(r: Probe) -> Probe {
    Probe { latency: latency_of(r.txts, r.rxts), ..r }
}

/// Where `find_record` points, a record of key `k` is; where it gives -1,
/// none is.
pub proof fn lemma_find_record(s: Seq<Probe>, k: (Seq<char>, u16))
    requires
        keys_unique(s),
    ensures
        -1 <= find_record(s, k) < s.len(),
        find_record(s, k) >= 0 ==> record_key(s[find_record(s, k)]) == k,
        find_record(s, k) < 0 ==> forall|i: int| 0 <= i < s.len() ==> record_key(#[trigger] s[i]) != k,
    decreases s.len(),
{
    if s.len() > 0 && record_key(s.last()) != k {
        lemma_find_record(s.drop_last(), k);
        assert forall|i: int| 0 <= i < s.len() - 1 implies s.drop_last()[i] == #[trigger] s[i] by {}
    }
}

/// An upsert keeps the keys unique.
pub proof fn lemma_upsert_unique(s: Seq<Probe>, r: Probe)
    requires
        keys_unique(s),
    ensures
        keys_unique(upsert(s, r)),
{
    lemma_find_record(s, record_key(r));
    let t = upsert(s, r);
    assert forall|i: int, j: int|
        0 <= i < t.len() && 0 <= j < t.len() && i != j implies record_key(#[trigger] t[i])
        != record_key(#[trigger] t[j]) by {
        if find_record(s, record_key(r)) < 0 {
            if i < s.len() && j < s.len() {
                assert(t[i] == s[i] && t[j] == s[j]);
            }
        }
    }
}

/// All records whose transmit time falls in one one-second window.
pub struct Bucket {
    /// The window's epoch second.
    pub key: u128,
    pub value: Vec<Result>,
}

impl View for Bucket {
    type V = Seq<Probe>;

    open spec fn view(&self) -> Seq<Probe> {
        probes(self.value@)
    }
}

impl Clone for Bucket {
    fn clone(&self) -> (r: Self)
        ensures
            r.key == self.key,
            r@ == self@,
    {
        Bucket { key: self.key, value: self.values() }
    }
}

impl Bucket {
    /// Well-formed: no two records share a target and sequence.
    pub open spec fn wf(&self) -> bool {
        keys_unique(self@)
    }

    /// An empty window with the given key.
    pub fn new(key: u128) -> (b: Self)
        ensures
            b.wf(),
            b.key == key,
            b@ == Seq::<Probe>::empty(),
    {
        let b = Bucket { key, value: Vec::new() };
        assert(b@ =~= Seq::<Probe>::empty());
        b
    }

    fn position(&self, target: &String, seq: u16) -> (r: Option<usize>)
        requires
            self.wf(),
        ensures
            r is Some <==> find_record(self@, (target@, seq)) >= 0,
            r is Some ==> r->0 == find_record(self@, (target@, seq)),
    {
        proof {
            lemma_find_record(self@, (target@, seq));
        }
        let mut i: usize = self.value.len();
        while i > 0
            invariant
                i <= self.value@.len(),
                forall|j: int| i <= j < self.value@.len() ==> record_key(#[trigger] self@[j]) != (target@, seq),
                keys_unique(self@),
            decreases i,
        {
            let r = &self.value[i - 1];
            if r.seq == seq && r.target == *target {
                proof {
                    lemma_find_record(self@, (target@, seq));
                    let f = find_record(self@, (target@, seq));
                    assert(record_key(self@[i - 1]) == (target@, seq));
                    if f >= 0 && f != i - 1 {
                        assert(record_key(self@[f]) != record_key(self@[i - 1]));
                    }
                }
                return Some(i - 1);
            }
            i = i - 1;
        }
        proof {
            lemma_find_record(self@, (target@, seq));
        }
        None
    }

    /// Stores a record under its target and sequence, replacing any record
    /// stored there before.
    pub fn add(&mut self, result: Result)
        requires
            old(self).wf(),
        ensures
            final(self).wf(),
            final(self).key == old(self).key,
            final(self)@ == upsert(old(self)@, result@),
    {
        proof {
            lemma_find_record(self@, record_key(result@));
            lemma_upsert_unique(self@, result@);
        }
        let pos = self.position(&result.target, result.seq);
        match pos {
            Some(i) => {
                self.value.set(i, result);
                assert(self@ =~= upsert(old(self)@, result@));
            },
            None => {
                self.value.push(result);
                assert(self@ =~= upsert(old(self)@, result@));
            },
        }
    }

    /// Merges a reply: its latency is computed and it is stored under its
    /// target and sequence, over the pending record of its request if that
    /// is there, as a bare received record otherwise.
    pub fn add_reply(&mut self, result: Result)
        requires
            old(self).wf(),
        ensures
            final(self).wf(),
            final(self).key == old(self).key,
            final(self)@ == upsert(old(self)@, merged_reply(result@)),
    {
        let mut result = result;
        result.calc_latency();
        self.add(result);
    }

    /// Copies of the window's records, in the order they were first stored.
    pub fn values(&self) -> (r: Vec<Result>)
        ensures
            probes(r@) == self@,
    {
        let mut out: Vec<Result> = Vec::new();
        let mut i: usize = 0;
        while i < self.value.len()
            invariant
                i <= self.value@.len(),
                out@ == self.value@.take(i as int),
            decreases self.value@.len() - i,
        {
            out.push(self.value[i].clone());
            i = i + 1;
            assert(out@ =~= self.value@.take(i as int));
        }
        assert(self.value@.take(self.value@.len() as int) =~= self.value@);
        out
    }
}


/// Window keys strictly ascending: one window per key, oldest first.
pub open spec fn keys_ascending(s: Seq<Bucket>) -> bool {
    forall|i: int, j: int| 0 <= i < j < s.len() ==> (#[trigger] s[i]).key < (#[trigger] s[j]).key
}

/// A position of the window with key `k` in `s`.
pub open spec fn window_index(s: Seq<Bucket>, k: u128) -> int {
    choose|i: int| 0 <= i < s.len() && s[i].key == k
}

/// The windows of `s` as a map from key to records.
pub open spec fn windows_of(s: Seq<Bucket>) -> Map<u128, Seq<Probe>> {
    Map::new(
        |k: u128| exists|i: int| 0 <= i < s.len() && s[i].key == k,
        |k: u128| s[window_index(s, k)]@,
    )
}

/// The records of window `k`, empty when there is no such window.
pub open spec fn window_or_empty(m: Map<u128, Seq<Probe>>, k: u128) -> Seq<Probe> {
    if m.contains_key(k) {
        m[k]
    } else {
        Seq::empty()
    }
}

/// `k` is the smallest key of `m`.
pub open spec fn is_oldest(m: Map<u128, Seq<Probe>>, k: u128) -> bool {
    &&& m.contains_key(k)
    &&& forall|j: u128| m.contains_key(j) ==> k <= j
}

/// Each window of an ascending sequence is in the map under its key, and
/// each key of the map is the key of one of the windows.
pub proof fn lemma_windows_of(s: Seq<Bucket>)
    requires
        keys_ascending(s),
    ensures
        forall|i: int|
            0 <= i < s.len() ==> windows_of(s).contains_key(#[trigger] s[i].key) && windows_of(s)[s[i].key]
                == s[i]@,
        forall|k: u128|
            windows_of(s).contains_key(k) ==> exists|i: int| 0 <= i < s.len() && #[trigger] s[i].key == k,
{
    assert forall|i: int| 0 <= i < s.len() implies windows_of(s).contains_key(#[trigger] s[i].key)
        && windows_of(s)[s[i].key] == s[i]@ by {
        let j = window_index(s, s[i].key);
        assert(0 <= j < s.len() && s[j].key == s[i].key);
        if j < i {
            assert(s[j].key < s[i].key);
        } else if i < j {
            assert(s[i].key < s[j].key);
        }
    }
}

proof fn lemma_insert_window(s: Seq<Bucket>, i: int, b: Bucket)
    requires
        keys_ascending(s),
        0 <= i <= s.len(),
        forall|x: int| 0 <= x < i ==> (#[trigger] s[x]).key < b.key,
        forall|x: int| i <= x < s.len() ==> b.key < (#[trigger] s[x]).key,
    ensures
        keys_ascending(s.insert(i, b)),
        windows_of(s.insert(i, b)) == windows_of(s).insert(b.key, b@),
{
    let t = s.insert(i, b);
    let key = b.key;
    assert forall|x: int| 0 <= x < t.len() implies #[trigger] t[x] == (if x < i {
        s[x]
    } else if x == i {
        b
    } else {
        s[x - 1]
    }) by {}
    assert forall|x: int, y: int| 0 <= x < y < t.len() implies (#[trigger] t[x]).key < (
    #[trigger] t[y]).key by {
        if y < i {
            assert(s[x].key < s[y].key);
        } else if x > i {
            assert(s[x - 1].key < s[y - 1].key);
        }
    }
    lemma_windows_of(s);
    lemma_windows_of(t);
    let m = windows_of(s).insert(key, b@);
    assert forall|k: u128| #[trigger] windows_of(t).contains_key(k) <==> m.contains_key(k) by {
        if windows_of(t).contains_key(k) && k != key {
            let x = choose|x: int| 0 <= x < t.len() && #[trigger] t[x].key == k;
            if x < i {
                assert(s[x].key == k);
            } else if x > i {
                assert(s[x - 1].key == k);
            }
        }
        if m.contains_key(k) && k != key {
            let y = choose|y: int| 0 <= y < s.len() && #[trigger] s[y].key == k;
            if y >= i {
                assert(t[y + 1].key == k);
            } else {
                assert(t[y].key == k);
            }
        }
        if k == key {
            assert(t[i].key == key);
        }
    }
    assert forall|k: u128| #[trigger] windows_of(t).contains_key(k) implies windows_of(t)[k] == m[k] by {
        let x = choose|x: int| 0 <= x < t.len() && #[trigger] t[x].key == k;
        if x < i {
            assert(t[x] == s[x]);
        } else if x > i {
            assert(t[x] == s[x - 1]);
        }
    }
    assert(windows_of(t) =~= m);
}

/// The store of open windows, ordered by key.
pub struct Buckets {
    pub buckets: Vec<Bucket>,
}

impl View for Buckets {
    type V = Map<u128, Seq<Probe>>;

    open spec fn view(&self) -> Map<u128, Seq<Probe>> {
        windows_of(self.buckets@)
    }
}

impl Buckets {
    /// Well-formed: one window per key, held in ascending key order, each
    /// well-formed.
    pub open spec fn wf(&self) -> bool {
        &&& keys_ascending(self.buckets@)
        &&& forall|i: int| 0 <= i < self.buckets@.len() ==> (#[trigger] self.buckets@[i]).wf()
    }

    /// The key of the oldest window, if any.
    pub open spec fn oldest(&self) -> Option<u128> {
        if self.buckets@.len() == 0 {
            None
        } else {
            Some(self.buckets@[0].key)
        }
    }

    /// The oldest key is the smallest key of the view; there is none exactly
    /// when the store is empty.
    pub proof fn lemma_oldest(&self)
        requires
            self.wf(),
        ensures
            self.oldest() is None <==> self@.is_empty(),
            self.oldest() is Some ==> is_oldest(self@, self.oldest()->0),
    {
        lemma_windows_of(self.buckets@);
        if self.buckets@.len() > 0 {
            let b = self.buckets@[0];
            assert(self@.contains_key(b.key));
            assert(!self@.is_empty()) by {
                assert(self@.dom().contains(b.key));
            }
            assert forall|j: u128| self@.contains_key(j) implies b.key <= j by {
                let i = choose|i: int| 0 <= i < self.buckets@.len() && #[trigger] self.buckets@[i].key == j;
                if i > 0 {
                    assert(self.buckets@[0].key < self.buckets@[i].key);
                }
            }
        } else {
            assert(self@.dom() =~= Set::<u128>::empty());
        }
    }

    /// An empty store.
    pub fn new() -> (r: Buckets)
        ensures
            r.wf(),
            r@ == Map::<u128, Seq<Probe>>::empty(),
    {
        let r = Buckets { buckets: Vec::new() };
        assert(r@ =~= Map::<u128, Seq<Probe>>::empty());
        r
    }

    /// The first position whose window key is not below `key`.
    fn lower_bound(&self, key: u128) -> (r: usize)
        requires
            self.wf(),
        ensures
            r <= self.buckets@.len(),
            forall|i: int| 0 <= i < r ==> (#[trigger] self.buckets@[i]).key < key,
            forall|i: int| r <= i < self.buckets@.len() ==> key <= (#[trigger] self.buckets@[i]).key,
    {
        let mut i: usize = 0;
        while i < self.buckets.len() && self.buckets[i].key < key
            invariant
                i <= self.buckets@.len(),
                keys_ascending(self.buckets@),
                forall|j: int| 0 <= j < i ==> (#[trigger] self.buckets@[j]).key < key,
            decreases self.buckets@.len() - i,
        {
            i = i + 1;
        }
        proof {
            assert forall|j: int| i <= j < self.buckets@.len() implies key <= (
            #[trigger] self.buckets@[j]).key by {
                if i < j {
                    assert(self.buckets@[i as int].key < self.buckets@[j].key);
                }
            }
        }
        i
    }

    /// Stores a record in window `key`, creating the window when it is not
    /// there.
    pub fn add(&mut self, key: u128, value: Result)
        requires
            old(self).wf(),
        ensures
            final(self).wf(),
            final(self)@ == old(self)@.insert(key, upsert(window_or_empty(old(self)@, key), value@)),
    {
        let mut bucket = self.take_window(key);
        proof {
            lemma_upsert_unique(bucket@, value@);
        }
        bucket.add(value);
        self.put_window(bucket);
    }

    /// Merges a reply into window `key`, creating the window when it is not
    /// there.
    pub fn add_reply(&mut self, key: u128, result: Result)
        requires
            old(self).wf(),
        ensures
            final(self).wf(),
            final(self)@ == old(self)@.insert(
                key,
                upsert(
                    window_or_empty(old(self)@, key),
                    merged_reply(result@),
                ),
            ),
    {
        let mut bucket = self.take_window(key);
        bucket.add_reply(result);
        self.put_window(bucket);
    }

    /// Removes window `key` and hands it out; an empty window when it was
    /// not there.
    fn take_window(&mut self, key: u128) -> (b: Bucket)
        requires
            old(self).wf(),
        ensures
            final(self).wf(),
            final(self)@ == old(self)@.remove(key),
            b.wf(),
            b.key == key,
            b@ == window_or_empty(old(self)@, key),
    {
        proof {
            lemma_windows_of(self.buckets@);
        }
        let i = self.lower_bound(key);
        if i < self.buckets.len() && self.buckets[i].key == key {
            let ghost s = self.buckets@;
            let b = self.buckets.remove(i);
            proof {
                let t = self.buckets@;
                assert(t =~= s.remove(i as int));
                assert forall|x: int, y: int| 0 <= x < y < t.len() implies (#[trigger] t[x]).key < (
                #[trigger] t[y]).key by {
                    let xs = if x < i { x } else { x + 1 };
                    let ys = if y < i { y } else { y + 1 };
                    assert(t[x] == s[xs] && t[y] == s[ys]);
                }
                assert forall|x: int| 0 <= x < t.len() implies (#[trigger] t[x]).wf() by {
                    let xs = if x < i { x } else { x + 1 };
                    assert(t[x] == s[xs]);
                }
                lemma_windows_of(t);
                let m = windows_of(s).remove(key);
                assert forall|k: u128| #[trigger] windows_of(t).contains_key(k) <==> m.contains_key(k) by {
                    if windows_of(t).contains_key(k) {
                        let x = choose|x: int| 0 <= x < t.len() && #[trigger] t[x].key == k;
                        let xs = if x < i { x } else { x + 1 };
                        assert(t[x] == s[xs]);
                    }
                    if m.contains_key(k) {
                        let y = choose|y: int| 0 <= y < s.len() && #[trigger] s[y].key == k;
                        assert(y != i);
                        let yt = if y < i { y } else { y - 1 };
                        assert(t[yt] == s[y]);
                    }
                }
                assert forall|k: u128| #[trigger] windows_of(t).contains_key(k) implies windows_of(t)[k]
                    == m[k] by {
                    let x = choose|x: int| 0 <= x < t.len() && #[trigger] t[x].key == k;
                    let xs = if x < i { x } else { x + 1 };
                    assert(t[x] == s[xs]);
                }
                assert(windows_of(t) =~= m);
            }
            b
        } else {
            proof {
                assert(!self@.contains_key(key)) by {
                    if self@.contains_key(key) {
                        let y = choose|y: int| 0 <= y < self.buckets@.len() && #[trigger] self.buckets@[y].key == key;
                        if y < i {
                        } else if y > i {
                            assert(self.buckets@[i as int].key < self.buckets@[y].key);
                        }
                    }
                }
                assert(self@.remove(key) =~= self@);
            }
            Bucket::new(key)
        }
    }

    /// Removes the oldest window and hands it out.
    pub fn pop(&mut self) -> (r: Option<Bucket>)
        requires
            old(self).wf(),
        ensures
            final(self).wf(),
            old(self).oldest() is None ==> r is None && final(self)@ == old(self)@,
            old(self).oldest() is Some ==> r is Some && r->0.key == old(self).oldest()->0,
            r is None <==> old(self)@.is_empty(),
            r is Some ==> {
                &&& r->0.wf()
                &&& is_oldest(old(self)@, r->0.key)
                &&& r->0@ == old(self)@[r->0.key]
                &&& final(self)@ == old(self)@.remove(r->0.key)
            },
    {
        proof {
            self.lemma_oldest();
        }
        if self.buckets.len() == 0 {
            None
        } else {
            let key = self.buckets[0].key;
            Some(self.take_window(key))
        }
    }

    /// A copy of the oldest window, which stays in the store.
    pub fn last(&self) -> (r: Option<Bucket>)
        requires
            self.wf(),
        ensures
            r is None <==> self@.is_empty(),
            r is Some ==> {
                &&& r->0.wf()
                &&& r->0.key == self.oldest()->0
                &&& is_oldest(self@, r->0.key)
                &&& r->0@ == self@[r->0.key]
            },
    {
        proof {
            self.lemma_oldest();
            lemma_windows_of(self.buckets@);
        }
        if self.buckets.len() == 0 {
            None
        } else {
            Some(self.buckets[0].clone())
        }
    }

    /// Registers a probe sent at `txts` to `target` with sequence `seq`, in
    /// the window of its transmit time.
    pub fn record_send(&mut self, txts: u128, target: &str, seq: u16)
        requires
            old(self).wf(),
        ensures
            final(self).wf(),
            final(self)@ == old(self)@.insert(
                window_of_time(txts),
                upsert(
                    window_or_empty(old(self)@, window_of_time(txts)),
                    pending_record(txts, target@, seq),
                ),
            ),
    {
        let r = Result::new(txts, target, seq);
        self.add(window_key(txts), r);
    }

    /// Merges a reply into the window of its transmit time.
    pub fn record_reply(&mut self, reply: Result)
        requires
            old(self).wf(),
        ensures
            final(self).wf(),
            final(self)@ == old(self)@.insert(
                window_of_time(reply.txts),
                upsert(
                    window_or_empty(old(self)@, window_of_time(reply.txts)),
                    merged_reply(reply@),
                ),
            ),
    {
        let key = window_key(reply.txts);
        self.add_reply(key, reply);
    }

    /// Puts a window whose key is not in the store back in its place.
    fn put_window(&mut self, b: Bucket)
        requires
            old(self).wf(),
            b.wf(),
            !old(self)@.contains_key(b.key),
        ensures
            final(self).wf(),
            final(self)@ == old(self)@.insert(b.key, b@),
    {
        proof {
            lemma_windows_of(self.buckets@);
        }
        let key = b.key;
        let i = self.lower_bound(key);
        let ghost s = self.buckets@;
        proof {
            if i < s.len() {
                assert(s[i as int].key != key);
            }
        }
        self.buckets.insert(i, b);
        proof {
            lemma_insert_window(s, i as int, b);
        }
    }
}


/// Per-target totals of one window.
#[derive(Clone, Copy, Debug, Default, PartialEq, Eq)]
pub struct TargetResult {
    /// Sum of the latencies of the received records, in nanoseconds.
    pub latency: u128,
    /// Records without a reply.
    pub loss: u32,
    /// Records with a reply.
    pub received: u32,
    /// Records whose reply payload did not match the expected pattern.
    pub bitflip_count: u32,
}

/// Loss rate in hundredths of a percent, rounded half up; zero when nothing
/// was sent.
pub open spec fn loss_basis_points(loss: int, sent: int) -> int {
    if sent == 0 {
        0
    } else {
        (loss * 20000 + sent) / (2 * sent)
    }
}

impl TargetResult {
    /// Records sent: received plus lost.
    pub fn sent(&self) -> (r: u64)
        ensures
            r == self.loss + self.received,
    {
        self.loss as u64 + self.received as u64
    }

    /// The mean latency of the received records in nanoseconds; zero when
    /// none was received.
    pub fn mean_latency(&self) -> (r: u128)
        ensures
            self.received == 0 ==> r == 0,
            self.received > 0 ==> r == self.latency / (self.received as u128),
    {
        if self.received == 0 {
            0
        } else {
            self.latency / (self.received as u128)
        }
    }

    /// The share of lost records in hundredths of a percent, rounded half
    /// up: 10000 when all were lost, zero when none was sent.
    pub fn loss_rate(&self) -> (r: u64)
        ensures
            r == loss_basis_points(self.loss as int, self.loss + self.received),
            r <= 10000,
    {
        let sent = self.sent();
        if sent == 0 {
            0
        } else {
            let loss = self.loss as u64;
            assert(loss * 20000 + sent <= 20000 * sent + sent) by (nonlinear_arith)
                requires loss <= sent;
            assert((loss * 20000 + sent) / (2 * sent) <= 10000) by (nonlinear_arith)
                requires loss <= sent, sent > 0;
            (loss * 20000 + sent) / (2 * sent)
        }
    }
}


/// After an upsert, the record found under the key of `p` is `p`.
pub proof fn lemma_upsert_stores(s: Seq<Probe>, p: Probe)
    requires
        keys_unique(s),
    ensures
        0 <= find_record(upsert(s, p), record_key(p)) < upsert(s, p).len(),
        upsert(s, p)[find_record(upsert(s, p), record_key(p))] == p,
{
    lemma_find_record(s, record_key(p));
    lemma_upsert_unique(s, p);
    let t = upsert(s, p);
    lemma_find_record(t, record_key(p));
    let j = if find_record(s, record_key(p)) >= 0 {
        find_record(s, record_key(p))
    } else {
        s.len() as int
    };
    assert(t[j] == p);
    let i = find_record(t, record_key(p));
    if i != j {
        assert(record_key(t[i]) != record_key(t[j]));
    }
}

/// A merged reply carries the latency `rxts - txts`, never negative,
/// whenever the receive time is not before the transmit time, as with a
/// clock that does not go back; and it is the record stored under its key.
pub proof fn law_latency_nonnegative(s: Seq<Probe>, reply: Probe)
    requires
        keys_unique(s),
        reply.txts <= reply.rxts,
    ensures
        merged_reply(reply).latency == reply.rxts - reply.txts,
        merged_reply(reply).latency >= 0,
        ({
            let t = upsert(s, merged_reply(reply));
            t[find_record(t, record_key(reply))] == merged_reply(reply)
        }),
{
    lemma_upsert_stores(s, merged_reply(reply));
}

/// Records with the same transmit time fall in the same window, and a
/// window's key is its epoch second: the window holds the transmit time.
pub proof fn law_window_determinism(t1: u128, t2: u128)
    ensures
        t1 == t2 ==> window_of_time(t1) == window_of_time(t2),
        window_of_time(t1) * NANOS_PER_SEC <= t1 < (window_of_time(t1) + 1) * NANOS_PER_SEC,
{
    let k = window_of_time(t1);
    assert(k * NANOS_PER_SEC <= t1 < (k + 1) * NANOS_PER_SEC) by (nonlinear_arith)
        requires
            k == t1 / NANOS_PER_SEC,
            NANOS_PER_SEC == 1_000_000_000,
    ;
}

/// Windows leave the store oldest first: after the oldest window is
/// removed, the next oldest has a larger key.
pub proof fn law_eviction_order(m: Map<u128, Seq<Probe>>, k1: u128, k2: u128)
    requires
        is_oldest(m, k1),
        is_oldest(m.remove(k1), k2),
    ensures
        k1 < k2,
{
    assert(m.contains_key(k2));
}

} // verus!
