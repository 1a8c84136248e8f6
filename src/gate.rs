//! Suppresses repeated external adjustments that carry the same
//! idempotency key within a time-to-live window.
use vstd::prelude::*;

verus! {

/// The window during which a key counts as a duplicate: one day, in seconds.
pub const DEFAULT_TTL_SECS: u64 = 86400;

/// Above this many records, admitting a key first sweeps out expired ones.
pub const DEFAULT_SWEEP_ABOVE: usize = 10000;

/// When a key was first seen (or last re-admitted after expiry).
#[derive(Debug)]
pub struct GateRecord {
    pub key: String,
    pub seen: u64,
}

/// A record seen at `seen` still suppresses its key at time `now`.
pub open spec fn is_fresh(seen: u64, now: u64, ttl: u64) -> bool {
    now < seen + ttl
}

pub open spec fn has_key(s: Seq<GateRecord>, k: Seq<char>) -> bool {
    exists|i: int| 0 <= i < s.len() && #[trigger] s[i].key@ == k
}

pub open spec fn seen_of(s: Seq<GateRecord>, k: Seq<char>) -> u64 {
    s[choose|i: int| 0 <= i < s.len() && #[trigger] s[i].key@ == k].seen
}

pub open spec fn unique_keys(s: Seq<GateRecord>) -> bool {
    forall|i: int, j: int| 0 <= i < s.len() && 0 <= j < s.len() && i != j ==> #[trigger] s[i].key@ != #[trigger] s[j].key@
}

proof fn lemma_record_at(s: Seq<GateRecord>, i: int)
    requires
        unique_keys(s),
        0 <= i < s.len(),
    ensures
        has_key(s, s[i].key@),
        seen_of(s, s[i].key@) == s[i].seen,
{
    assert(s[i].key@ == s[i].key@);
    let j = choose|j: int| 0 <= j < s.len() && #[trigger] s[j].key@ == s[i].key@;
    assert(s[j].key@ == s[i].key@);
}

/// What admitting `k` at `now` does to a gate: the key is recorded, with
/// `now` as its time if it was let through and its old time otherwise;
/// other keys keep their times, and only expired ones may be dropped.
pub open spec fn recorded(before: IdempotencyGate, after: IdempotencyGate, k: Seq<char>, now: u64) -> bool {
    &&& after.ttl() == before.ttl()
    &&& has_key(after.records(), k)
    &&& before.admits(k, now) ==> seen_of(after.records(), k) == now
    &&& !before.admits(k, now) ==> seen_of(after.records(), k) == seen_of(before.records(), k)
    &&& forall|k2: Seq<char>|
        k2 != k && has_key(before.records(), k2) && is_fresh(seen_of(before.records(), k2), now, before.ttl())
            ==> #[trigger] has_key(after.records(), k2) && seen_of(after.records(), k2) == seen_of(before.records(), k2)
    &&& forall|k2: Seq<char>|
        k2 != k && #[trigger] has_key(after.records(), k2) ==> has_key(before.records(), k2) && seen_of(
            after.records(),
            k2,
        ) == seen_of(before.records(), k2)
}

/// A bounded, in-memory deduplication layer for one process.
pub struct IdempotencyGate {
    records: Vec<GateRecord>,
    ttl: u64,
    sweep_above: usize,
}

impl IdempotencyGate {
    pub closed spec fn records(&self) -> Seq<GateRecord> {
        self.records@
    }

    pub closed spec fn ttl(&self) -> u64 {
        self.ttl
    }

    pub closed spec fn wf(&self) -> bool {
        unique_keys(self.records@)
    }

    /// `admit_key(k, now)` lets the key through: it is unknown, or its record expired.
    pub open spec fn admits(&self, k: Seq<char>, now: u64) -> bool {
        !(has_key(self.records(), k) && is_fresh(seen_of(self.records(), k), now, self.ttl()))
    }

    pub fn new(ttl: u64, sweep_above: usize) -> (r: IdempotencyGate)
        ensures
            r.wf(),
            r.ttl() == ttl,
            r.records() == Seq::<GateRecord>::empty(),
    {
        IdempotencyGate { records: Vec::new(), ttl, sweep_above }
    }

    pub fn len(&self) -> (r: usize)
        ensures
            r == self.records().len(),
    {
        self.records.len()
    }

    fn find(&self, key: &String) -> (r: Option<usize>)
        requires
            self.wf(),
        ensures
            match r {
                Some(i) => i < self.records@.len() && self.records@[i as int].key@ == key@ && has_key(
                    self.records@,
                    key@,
                ) && seen_of(self.records@, key@) == self.records@[i as int].seen,
                None => !has_key(self.records@, key@),
            },
    {
        let mut i: usize = 0;
        while i < self.records.len()
            invariant
                self.wf(),
                i <= self.records@.len(),
                forall|p: int| 0 <= p < i ==> #[trigger] self.records@[p].key@ != key@,
            decreases self.records@.len() - i,
        {
            if self.records[i].key == *key {
                proof {
                    lemma_record_at(self.records@, i as int);
                }
                return Some(i);
            }
            i += 1;
        }
        None
    }

    /// Drops every record that has expired at `now`.
    fn sweep(&mut self, now: u64)
        requires
            old(self).wf(),
        ensures
            final(self).wf(),
            final(self).ttl == old(self).ttl,
            forall|k: Seq<char>|
                #[trigger] has_key(final(self).records@, k) ==> has_key(old(self).records@, k) && seen_of(
                    final(self).records@,
                    k,
                ) == seen_of(old(self).records@, k) && is_fresh(seen_of(old(self).records@, k), now, old(self).ttl),
            forall|k: Seq<char>|
                has_key(old(self).records@, k) && is_fresh(seen_of(old(self).records@, k), now, old(self).ttl)
                    ==> #[trigger] has_key(final(self).records@, k),
    {
        let ghost src = self.records@;
        let mut kept: Vec<GateRecord> = Vec::new();
        let mut i: usize = 0;
        while i < self.records.len()
            invariant
                self.records@ == src,
                unique_keys(src),
                i <= src.len(),
                unique_keys(kept@),
                forall|p: int| 0 <= p < kept@.len() ==> exists|q: int|
                    0 <= q < i && #[trigger] kept@[p] == src[q] && is_fresh(src[q].seen, now, self.ttl),
                forall|q: int| 0 <= q < i && is_fresh(src[q].seen, now, self.ttl) ==> exists|p: int|
                    0 <= p < kept@.len() && #[trigger] kept@[p] == src[q],
            decreases src.len() - i,
        {
            let seen = self.records[i].seen;
            if seen as u128 + self.ttl as u128 > now as u128 {
                let ghost before = kept@;
                let r = GateRecord { key: self.records[i].key.clone(), seen };
                kept.push(r);
                proof {
                    assert(r == src[i as int]);
                    assert forall|a: int, b: int| 0 <= a < kept@.len() && 0 <= b < kept@.len() && a != b implies #[trigger] kept@[a].key@
                        != #[trigger] kept@[b].key@ by {
                        if a == before.len() {
                            assert(kept@[b] == before[b]);
                            let q = choose|q: int| 0 <= q < i && #[trigger] before[b] == src[q] && is_fresh(src[q].seen, now, self.ttl);
                        } else if b == before.len() {
                            assert(kept@[a] == before[a]);
                            let q = choose|q: int| 0 <= q < i && #[trigger] before[a] == src[q] && is_fresh(src[q].seen, now, self.ttl);
                        } else {
                            assert(kept@[a] == before[a] && kept@[b] == before[b]);
                        }
                    }
                    assert forall|p: int| 0 <= p < kept@.len() implies exists|q: int|
                        0 <= q < i + 1 && #[trigger] kept@[p] == src[q] && is_fresh(src[q].seen, now, self.ttl) by {
                        if p < before.len() {
                            assert(kept@[p] == before[p]);
                        } else {
                            assert(kept@[p] == src[i as int]);
                        }
                    }
                    assert forall|q: int| 0 <= q < i + 1 && is_fresh(src[q].seen, now, self.ttl) implies exists|p: int|
                        0 <= p < kept@.len() && #[trigger] kept@[p] == src[q] by {
                        if q == i {
                            assert(kept@[before.len() as int] == src[q]);
                        } else {
                            let p = choose|p: int| 0 <= p < before.len() && #[trigger] before[p] == src[q];
                            assert(kept@[p] == before[p]);
                        }
                    }
                }
            }
            i += 1;
        }
        self.records = kept;
        proof {
            let f = self.records@;
            assert forall|k: Seq<char>| #[trigger] has_key(f, k) implies has_key(src, k) && seen_of(f, k) == seen_of(src, k) && is_fresh(seen_of(src, k), now, self.ttl) by {
                let p = choose|p: int| 0 <= p < f.len() && #[trigger] f[p].key@ == k;
                let q = choose|q: int| 0 <= q < src.len() && #[trigger] f[p] == src[q] && is_fresh(src[q].seen, now, self.ttl);
                lemma_record_at(f, p);
                lemma_record_at(src, q);
            }
            assert forall|k: Seq<char>| has_key(src, k) && is_fresh(seen_of(src, k), now, self.ttl) implies #[trigger] has_key(f, k) by {
                let q = choose|q: int| 0 <= q < src.len() && #[trigger] src[q].key@ == k;
                lemma_record_at(src, q);
                let p = choose|p: int| 0 <= p < f.len() && #[trigger] f[p] == src[q];
                assert(f[p].key@ == k);
            }
        }
    }

    /// Lets `key` through if it is new or its record has expired, and then
    /// records it as seen at `now`; refuses it while a fresh record exists.
    /// Past a size threshold, expired records are swept out first.
    pub fn admit_key(&mut self, key: String, now: u64) -> (r: bool)
        requires
            old(self).wf(),
        ensures
            final(self).wf(),
            final(self).ttl() == old(self).ttl(),
            r == old(self).admits(key@, now),
            has_key(final(self).records(), key@),
            r ==> seen_of(final(self).records(), key@) == now,
            !r ==> seen_of(final(self).records(), key@) == seen_of(old(self).records(), key@),
            forall|k: Seq<char>|
                k != key@ && has_key(old(self).records(), k) && is_fresh(seen_of(old(self).records(), k), now, old(self).ttl())
                    ==> #[trigger] has_key(final(self).records(), k) && seen_of(final(self).records(), k) == seen_of(
                    old(self).records(),
                    k,
                ),
            forall|k: Seq<char>|
                k != key@ && #[trigger] has_key(final(self).records(), k) ==> has_key(old(self).records(), k)
                    && seen_of(final(self).records(), k) == seen_of(old(self).records(), k),
            recorded(*old(self), *final(self), key@, now),
    {
        match self.find(&key) {
            Some(i) => {
                let seen = self.records[i].seen;
                if (seen as u128) + (self.ttl as u128) > now as u128 {
                    return false;
                }
            },
            None => {},
        }
        let ghost before = self.records@;
        if self.records.len() > self.sweep_above {
            self.sweep(now);
        }
        let ghost mid = self.records@;
        match self.find(&key) {
            Some(i) => {
                let ghost s = self.records@;
                let rec = GateRecord { key, seen: now };
                self.records.set(i, rec);
                proof {
                    let f = self.records@;
                    assert forall|a: int, b: int| 0 <= a < f.len() && 0 <= b < f.len() && a != b implies #[trigger] f[a].key@
                        != #[trigger] f[b].key@ by {
                        assert(s[a].key@ != s[b].key@);
                    }
                    lemma_record_at(f, i as int);
                    assert forall|k: Seq<char>| k != key@ implies (#[trigger] has_key(f, k) == has_key(s, k) && (has_key(s, k) ==> seen_of(f, k) == seen_of(s, k))) by {
                        if has_key(s, k) {
                            let j = choose|j: int| 0 <= j < s.len() && #[trigger] s[j].key@ == k;
                            lemma_record_at(s, j);
                            assert(f[j] == s[j]);
                            lemma_record_at(f, j);
                        }
                        if has_key(f, k) {
                            let j = choose|j: int| 0 <= j < f.len() && #[trigger] f[j].key@ == k;
                            assert(f[j] == s[j]);
                        }
                    }
                }
            },
            None => {
                let ghost s = self.records@;
                self.records.push(GateRecord { key, seen: now });
                proof {
                    let f = self.records@;
                    assert forall|a: int, b: int| 0 <= a < f.len() && 0 <= b < f.len() && a != b implies #[trigger] f[a].key@
                        != #[trigger] f[b].key@ by {
                        if a < s.len() && b < s.len() {
                            assert(f[a] == s[a] && f[b] == s[b]);
                        } else if a < s.len() {
                            assert(f[a] == s[a]);
                        } else {
                            assert(f[b] == s[b]);
                        }
                    }
                    lemma_record_at(f, s.len() as int);
                    assert forall|k: Seq<char>| k != f[s.len() as int].key@ implies (#[trigger] has_key(f, k) == has_key(s, k) && (has_key(s, k) ==> seen_of(f, k) == seen_of(s, k))) by {
                        if has_key(s, k) {
                            let j = choose|j: int| 0 <= j < s.len() && #[trigger] s[j].key@ == k;
                            lemma_record_at(s, j);
                            assert(f[j] == s[j]);
                            lemma_record_at(f, j);
                        }
                        if has_key(f, k) {
                            let j = choose|j: int| 0 <= j < f.len() && #[trigger] f[j].key@ == k;
                            if j < s.len() {
                                assert(f[j] == s[j]);
                            }
                        }
                    }
                }
            },
        }
        true
    }
}

/// Within the window a key is let through once: after an admission at `t`,
/// every call at a time before `t + ttl` is refused, and the first call at
/// `t + ttl` or later is let through again.
pub proof fn lemma_admit_once_per_window(g: IdempotencyGate, k: Seq<char>, t: u64, later: u64)
    requires
        has_key(g.records(), k),
        seen_of(g.records(), k) == t,
        t <= later,
    ensures
        g.admits(k, later) <==> later >= t + g.ttl(),
{
}

/// Across two calls: once a key was let through at `t`, a later call with
/// the same key before `t + ttl` is refused, and one at `t + ttl` or later is
/// let through again.
pub proof fn lemma_second_call_within_window(
    before: IdempotencyGate,
    after: IdempotencyGate,
    k: Seq<char>,
    t: u64,
    later: u64,
)
    requires
        recorded(before, after, k, t),
        before.admits(k, t),
        t <= later,
    ensures
        after.admits(k, later) <==> later >= t + before.ttl(),
{
    lemma_admit_once_per_window(after, k, t, later);
}

} // verus!
