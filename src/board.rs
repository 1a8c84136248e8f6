//! The ranked balance table of one chat.
//!
//! A board keeps its entries in rank order at all times: higher value first,
//! and among equal values the entry created earlier first. The rank of a
//! member is therefore simply its index, and it is always consistent with
//! the latest committed value.
use vstd::prelude::*;

verus! {

/// The balance of one member within one chat.
#[derive(Clone, Copy, Debug, PartialEq, Eq)]
pub struct LedgerEntry {
    pub user: u64,
    pub value: i32,
    /// The day number of the last successful growth, if any.
    pub grown_on: Option<i64>,
    /// When the entry was last changed, in seconds.
    pub updated_at: i64,
    /// Creation order within the chat; breaks ties between equal values.
    pub seq: u64,
}

/// `a` stands strictly ahead of `b` in the rank order.
pub open spec fn ranks_ahead(a: LedgerEntry, b: LedgerEntry) -> bool {
    a.value > b.value || (a.value == b.value && a.seq < b.seq)
}

pub open spec fn has_user(s: Seq<LedgerEntry>, u: u64) -> bool {
    exists|i: int| 0 <= i < s.len() && #[trigger] s[i].user == u
}

pub open spec fn index_of_user(s: Seq<LedgerEntry>, u: u64) -> int {
    choose|i: int| 0 <= i < s.len() && #[trigger] s[i].user == u
}

pub open spec fn entry_of(s: Seq<LedgerEntry>, u: u64) -> LedgerEntry {
    s[index_of_user(s, u)]
}

/// The balance of `u`; a member without an entry counts as zero.
pub open spec fn value_of(s: Seq<LedgerEntry>, u: u64) -> int {
    if has_user(s, u) {
        entry_of(s, u).value as int
    } else {
        0
    }
}

/// 1-based rank position of `u`.
pub open spec fn position_of(s: Seq<LedgerEntry>, u: u64) -> int {
    index_of_user(s, u) + 1
}

pub open spec fn sorted_by_rank(s: Seq<LedgerEntry>) -> bool {
    forall|i: int, j: int| 0 <= i < j < s.len() ==> ranks_ahead(#[trigger] s[i], #[trigger] s[j])
}

pub open spec fn unique_users(s: Seq<LedgerEntry>) -> bool {
    forall|i: int, j: int|
        0 <= i < s.len() && 0 <= j < s.len() && i != j ==> #[trigger] s[i].user != #[trigger] s[j].user
}

pub open spec fn unique_seqs(s: Seq<LedgerEntry>) -> bool {
    forall|i: int, j: int|
        0 <= i < s.len() && 0 <= j < s.len() && i != j ==> #[trigger] s[i].seq != #[trigger] s[j].seq
}

/// A rank order: sorted, one entry per member, creation numbers distinct.
pub open spec fn ranked_well(s: Seq<LedgerEntry>) -> bool {
    sorted_by_rank(s) && unique_users(s) && unique_seqs(s)
}

pub open spec fn fits_i32(v: int) -> bool {
    i32::MIN <= v <= i32::MAX
}

/// What `u`'s entry becomes after a delta: the old entry with a new value and
/// time, or a fresh entry numbered `seq` when `u` had none.
pub open spec fn entry_after_delta(
    s: Seq<LedgerEntry>,
    u: u64,
    delta: i32,
    now: i64,
    seq: u64,
) -> LedgerEntry {
    if has_user(s, u) {
        LedgerEntry {
            value: (entry_of(s, u).value + delta) as i32,
            updated_at: now,
            ..entry_of(s, u)
        }
    } else {
        LedgerEntry { user: u, value: delta, grown_on: None, updated_at: now, seq }
    }
}

/// Every member but `u` keeps its entry, and no member appears or disappears.
pub open spec fn others_unchanged(a: Seq<LedgerEntry>, b: Seq<LedgerEntry>, u: u64) -> bool {
    forall|w: u64|
        w != u ==> (#[trigger] has_user(b, w) == has_user(a, w) && (has_user(a, w) ==> entry_of(b, w)
            == entry_of(a, w)))
}

pub proof fn lemma_entry_at(s: Seq<LedgerEntry>, i: int)
    requires
        unique_users(s),
        0 <= i < s.len(),
    ensures
        has_user(s, s[i].user),
        index_of_user(s, s[i].user) == i,
        entry_of(s, s[i].user) == s[i],
{
    assert(s[i].user == s[i].user);
    let j = index_of_user(s, s[i].user);
    assert(0 <= j < s.len() && s[j].user == s[i].user);
}

proof fn lemma_remove_keeps_order(s: Seq<LedgerEntry>, i: int)
    requires
        ranked_well(s),
        0 <= i < s.len(),
    ensures
        ranked_well(s.remove(i)),
        forall|w: u64| w != s[i].user ==> #[trigger] has_user(s.remove(i), w) == has_user(s, w),
{
    s.remove_ensures(i);
    let r = s.remove(i);
    assert forall|a: int, b: int| 0 <= a < b < r.len() implies ranks_ahead(#[trigger] r[a], #[trigger] r[b]) by {
        let sa = if a < i { a } else { a + 1 };
        let sb = if b < i { b } else { b + 1 };
        assert(r[a] == s[sa] && r[b] == s[sb]);
    }
    assert forall|a: int, b: int| 0 <= a < r.len() && 0 <= b < r.len() && a != b implies #[trigger] r[a].user != #[trigger] r[b].user by {
        let sa = if a < i { a } else { a + 1 };
        let sb = if b < i { b } else { b + 1 };
        assert(r[a] == s[sa] && r[b] == s[sb]);
    }
    assert forall|a: int, b: int| 0 <= a < r.len() && 0 <= b < r.len() && a != b implies #[trigger] r[a].seq != #[trigger] r[b].seq by {
        let sa = if a < i { a } else { a + 1 };
        let sb = if b < i { b } else { b + 1 };
        assert(r[a] == s[sa] && r[b] == s[sb]);
    }
    assert forall|w: u64| w != s[i].user implies #[trigger] has_user(r, w) == has_user(s, w) by {
        if has_user(s, w) {
            let j = choose|j: int| 0 <= j < s.len() && #[trigger] s[j].user == w;
            let rj = if j < i { j } else { j - 1 };
            assert(r[rj] == s[j]);
        }
        if has_user(r, w) {
            let j = choose|j: int| 0 <= j < r.len() && #[trigger] r[j].user == w;
            let sj = if j < i { j } else { j + 1 };
            assert(r[j] == s[sj]);
        }
    }
}

/// Inserting `e` at `k` between the entries ahead of it and those behind it
/// keeps the order, and adds `e`'s member without touching the others.
proof fn lemma_insert_keeps_order(s: Seq<LedgerEntry>, k: int, e: LedgerEntry)
    requires
        ranked_well(s),
        !has_user(s, e.user),
        0 <= k <= s.len(),
        forall|p: int| 0 <= p < k ==> ranks_ahead(#[trigger] s[p], e),
        forall|p: int| k <= p < s.len() ==> ranks_ahead(e, #[trigger] s[p]),
        forall|p: int| 0 <= p < s.len() ==> #[trigger] s[p].seq != e.seq,
    ensures
        ranked_well(s.insert(k, e)),
        s.insert(k, e)[k] == e,
        has_user(s.insert(k, e), e.user),
        entry_of(s.insert(k, e), e.user) == e,
        others_unchanged(s, s.insert(k, e), e.user),
{
    s.insert_ensures(k, e);
    let f = s.insert(k, e);
    assert forall|a: int, b: int| 0 <= a < b < f.len() implies ranks_ahead(#[trigger] f[a], #[trigger] f[b]) by {
        if a < k {
            assert(f[a] == s[a]);
        } else if a > k {
            assert(f[a] == s[a - 1]);
        }
        if b < k {
            assert(f[b] == s[b]);
        } else if b > k {
            assert(f[b] == s[b - 1]);
        }
    }
    assert forall|a: int, b: int| 0 <= a < f.len() && 0 <= b < f.len() && a != b implies #[trigger] f[a].user != #[trigger] f[b].user && f[a].seq != f[b].seq by {
        if a < k {
            assert(f[a] == s[a]);
        } else if a > k {
            assert(f[a] == s[a - 1]);
        }
        if b < k {
            assert(f[b] == s[b]);
        } else if b > k {
            assert(f[b] == s[b - 1]);
        }
    }
    assert(unique_seqs(f)) by {
        assert forall|a: int, b: int| 0 <= a < f.len() && 0 <= b < f.len() && a != b implies #[trigger] f[a].seq != #[trigger] f[b].seq by {
            assert(f[a].user != f[b].user && f[a].seq != f[b].seq);
        }
    }
    lemma_entry_at(f, k);
    assert forall|w: u64| w != e.user implies (#[trigger] has_user(f, w) == has_user(s, w) && (
    has_user(s, w) ==> entry_of(f, w) == entry_of(s, w))) by {
        if has_user(s, w) {
            let j = choose|j: int| 0 <= j < s.len() && #[trigger] s[j].user == w;
            let fj = if j < k { j } else { j + 1 };
            assert(f[fj] == s[j]);
            lemma_entry_at(s, j);
            lemma_entry_at(f, fj);
        }
        if has_user(f, w) {
            let j = choose|j: int| 0 <= j < f.len() && #[trigger] f[j].user == w;
            let sj = if j < k { j } else { j - 1 };
            assert(f[j] == s[sj]);
        }
    }
}


/// `u` may grow on day `today`: it has no entry yet, never grew, or last
/// grew on an earlier day.
pub open spec fn may_grow(s: Seq<LedgerEntry>, u: u64, today: i64) -> bool {
    !has_user(s, u) || match entry_of(s, u).grown_on {
        Some(d) => d < today,
        None => true,
    }
}

/// The rank order without `ex`'s entry.
pub open spec fn without_user(s: Seq<LedgerEntry>, ex: Option<u64>) -> Seq<LedgerEntry> {
    match ex {
        Some(x) => if has_user(s, x) {
            s.remove(index_of_user(s, x))
        } else {
            s
        },
        None => s,
    }
}

/// The entries changed after `since`, in rank order.
pub open spec fn active_since(s: Seq<LedgerEntry>, since: i64) -> Seq<LedgerEntry> {
    s.filter(|e: LedgerEntry| e.updated_at > since)
}

/// The rows `offset .. offset + limit` of the rank order, as far as they exist.
pub open spec fn page_of(s: Seq<LedgerEntry>, offset: int, limit: int) -> Seq<LedgerEntry> {
    if offset >= s.len() {
        Seq::empty()
    } else if offset + limit >= s.len() {
        s.subrange(offset, s.len() as int)
    } else {
        s.subrange(offset, offset + limit)
    }
}

/// Distinct rows of the order without `ex` hold distinct entries.
pub proof fn lemma_without_user_distinct(s: Seq<LedgerEntry>, ex: Option<u64>, a: int, b: int)
    requires
        unique_users(s),
        0 <= a < without_user(s, ex).len(),
        0 <= b < without_user(s, ex).len(),
        a != b,
    ensures
        without_user(s, ex)[a] != without_user(s, ex)[b],
{
    if ex is Some && has_user(s, ex->0) {
        let x = index_of_user(s, ex->0);
        s.remove_ensures(x);
        let sa = if a < x { a } else { a + 1 };
        let sb = if b < x { b } else { b + 1 };
        assert(without_user(s, ex)[a] == s[sa]);
        assert(without_user(s, ex)[b] == s[sb]);
        assert(s[sa].user != s[sb].user);
    } else {
        assert(s[a].user != s[b].user);
    }
}

/// A row of the order without `ex` is an entry of the order, and not `ex`'s.
pub proof fn lemma_without_user_member(s: Seq<LedgerEntry>, ex: Option<u64>, e: LedgerEntry)
    requires
        unique_users(s),
        without_user(s, ex).contains(e),
    ensures
        s.contains(e),
        has_user(s, e.user),
        Some(e.user) != ex,
{
    let w = without_user(s, ex);
    let a = choose|a: int| 0 <= a < w.len() && w[a] == e;
    if ex is Some && has_user(s, ex->0) {
        let x = index_of_user(s, ex->0);
        s.remove_ensures(x);
        let sa = if a < x { a } else { a + 1 };
        assert(w[a] == s[sa]);
        assert(s[sa].user == e.user);
        assert(sa != x);
    } else {
        assert(s[a] == e);
        assert(s[a].user == e.user);
    }
}

/// Two entries of a rank order with the same member are the same entry.
pub proof fn lemma_same_user_same_entry(s: Seq<LedgerEntry>, a: LedgerEntry, b: LedgerEntry)
    requires
        unique_users(s),
        s.contains(a),
        s.contains(b),
        a.user == b.user,
    ensures
        a == b,
{
    let i = choose|i: int| 0 <= i < s.len() && s[i] == a;
    let j = choose|j: int| 0 <= j < s.len() && s[j] == b;
    assert(s[i].user == s[j].user);
}

/// In a rank order, a member with the higher value stands strictly ahead.
pub proof fn lemma_higher_value_ahead(s: Seq<LedgerEntry>, a: u64, b: u64)
    requires
        ranked_well(s),
        has_user(s, a),
        has_user(s, b),
        value_of(s, a) > value_of(s, b),
    ensures
        position_of(s, a) < position_of(s, b),
{
    let ia = index_of_user(s, a);
    let ib = index_of_user(s, b);
    assert(s[ia].user == a && s[ib].user == b);
    if ib < ia {
        assert(ranks_ahead(s[ib], s[ia]));
    }
}

/// Pages 0 and 1 of `n` rows are consecutive slices of the rank order:
/// together they are its first `2n` rows, and no member is on both.
pub proof fn lemma_pages_contiguous(s: Seq<LedgerEntry>, n: int)
    requires
        unique_users(s),
        n > 0,
    ensures
        page_of(s, 0, n) + page_of(s, n, n) == page_of(s, 0, 2 * n),
        forall|i: int, j: int|
            0 <= i < page_of(s, 0, n).len() && 0 <= j < page_of(s, n, n).len() ==> (#[trigger] page_of(s, 0, n)[i]).user
                != (#[trigger] page_of(s, n, n)[j]).user,
{
    let p0 = page_of(s, 0, n);
    let p1 = page_of(s, n, n);
    assert(p0 + p1 =~= page_of(s, 0, 2 * n));
    assert forall|i: int, j: int| 0 <= i < p0.len() && 0 <= j < p1.len() implies (#[trigger] p0[i]).user != (#[trigger] p1[j]).user by {
        assert(p0[i] == s[i]);
        assert(p1[j] == s[n + j]);
    }
}

/// Replacing an entry by one of the same member leaves the rest as it was.
proof fn lemma_update_keeps(s: Seq<LedgerEntry>, k: int, e: LedgerEntry)
    requires
        unique_users(s),
        0 <= k < s.len(),
        s[k].user == e.user,
    ensures
        unique_users(s.update(k, e)),
        has_user(s.update(k, e), e.user),
        entry_of(s.update(k, e), e.user) == e,
        index_of_user(s.update(k, e), e.user) == k,
        others_unchanged(s, s.update(k, e), e.user),
{
    let f = s.update(k, e);
    assert forall|a: int, b: int| 0 <= a < f.len() && 0 <= b < f.len() && a != b implies #[trigger] f[a].user != #[trigger] f[b].user by {
        assert(s[a].user != s[b].user);
    }
    lemma_entry_at(f, k);
    assert forall|w: u64| w != e.user implies (#[trigger] has_user(f, w) == has_user(s, w) && (
    has_user(s, w) ==> entry_of(f, w) == entry_of(s, w))) by {
        if has_user(s, w) {
            let j = choose|j: int| 0 <= j < s.len() && #[trigger] s[j].user == w;
            assert(f[j] == s[j]);
            lemma_entry_at(s, j);
            lemma_entry_at(f, j);
        }
        if has_user(f, w) {
            let j = choose|j: int| 0 <= j < f.len() && #[trigger] f[j].user == w;
            assert(f[j] == s[j]);
        }
    }
}


/// Every member but `u` and `v` keeps its entry.
pub open spec fn others_unchanged2(a: Seq<LedgerEntry>, b: Seq<LedgerEntry>, u: u64, v: u64) -> bool {
    forall|w: u64|
        w != u && w != v ==> (#[trigger] has_user(b, w) == has_user(a, w) && (has_user(a, w)
            ==> entry_of(b, w) == entry_of(a, w)))
}

/// How many new entries a move between `a` and `b` creates.
pub open spec fn entries_needed(s: Seq<LedgerEntry>, a: u64, b: u64) -> int {
    (if has_user(s, a) { 0int } else { 1int }) + (if has_user(s, b) { 0int } else { 1int })
}

/// The entries of one chat, in rank order.
pub struct ChatBoard {
    entries: Vec<LedgerEntry>,
    next_seq: u64,
}

impl ChatBoard {
    /// The rank order: index 0 is the top.
    pub closed spec fn ranked(&self) -> Seq<LedgerEntry> {
        self.entries@
    }

    /// The creation number that the next new entry receives.
    pub closed spec fn next_seq(&self) -> u64 {
        self.next_seq
    }

    pub closed spec fn wf(&self) -> bool {
        &&& ranked_well(self.entries@)
        &&& forall|i: int| 0 <= i < self.entries@.len() ==> #[trigger] self.entries@[i].seq < self.next_seq
    }

    pub proof fn lemma_wf(&self)
        requires
            self.wf(),
        ensures
            ranked_well(self.ranked()),
    {
    }

    pub fn new() -> (r: ChatBoard)
        ensures
            r.wf(),
            r.ranked() == Seq::<LedgerEntry>::empty(),
            r.next_seq() == 0,
    {
        ChatBoard { entries: Vec::new(), next_seq: 0 }
    }

    pub fn len(&self) -> (r: usize)
        ensures
            r == self.ranked().len(),
    {
        self.entries.len()
    }

    pub fn at(&self, i: usize) -> (r: LedgerEntry)
        requires
            i < self.ranked().len(),
        ensures
            r == self.ranked()[i as int],
    {
        self.entries[i]
    }

    /// Index of `u`'s entry in the rank order.
    pub fn find(&self, u: u64) -> (r: Option<usize>)
        requires
            self.wf(),
        ensures
            match r {
                Some(i) => i < self.ranked().len() && self.ranked()[i as int].user == u
                    && index_of_user(self.ranked(), u) == i && has_user(self.ranked(), u),
                None => !has_user(self.ranked(), u),
            },
    {
        let mut i: usize = 0;
        while i < self.entries.len()
            invariant
                self.wf(),
                i <= self.entries@.len(),
                forall|p: int| 0 <= p < i ==> #[trigger] self.entries@[p].user != u,
            decreases self.entries@.len() - i,
        {
            if self.entries[i].user == u {
                proof {
                    lemma_entry_at(self.entries@, i as int);
                }
                return Some(i);
            }
            i += 1;
        }
        None
    }

    pub fn value_of(&self, u: u64) -> (r: i32)
        requires
            self.wf(),
        ensures
            r == value_of(self.ranked(), u),
    {
        match self.find(u) {
            Some(i) => self.entries[i].value,
            None => 0,
        }
    }

    /// Puts `e` where the rank order wants it; returns its index.
    fn place(&mut self, e: LedgerEntry) -> (k: usize)
        requires
            ranked_well(old(self).entries@),
            !has_user(old(self).entries@, e.user),
            forall|p: int| 0 <= p < old(self).entries@.len() ==> #[trigger] old(self).entries@[p].seq != e.seq,
        ensures
            k <= old(self).entries@.len(),
            final(self).entries@ == old(self).entries@.insert(k as int, e),
            final(self).next_seq == old(self).next_seq,
            ranked_well(final(self).entries@),
            final(self).entries@[k as int] == e,
            has_user(final(self).entries@, e.user),
            entry_of(final(self).entries@, e.user) == e,
            index_of_user(final(self).entries@, e.user) == k,
            others_unchanged(old(self).entries@, final(self).entries@, e.user),
    {
        let mut k: usize = 0;
        while k < self.entries.len() && (self.entries[k].value > e.value || (self.entries[k].value
            == e.value && self.entries[k].seq < e.seq))
            invariant
                k <= self.entries@.len(),
                forall|p: int| 0 <= p < k ==> ranks_ahead(#[trigger] self.entries@[p], e),
            decreases self.entries@.len() - k,
        {
            k += 1;
        }
        proof {
            let s = self.entries@;
            assert forall|p: int| k <= p < s.len() implies ranks_ahead(e, #[trigger] s[p]) by {
                assert(ranks_ahead(e, s[k as int]));
                if p > k {
                    assert(ranks_ahead(s[k as int], s[p]));
                }
            }
            lemma_insert_keeps_order(s, k as int, e);
        }
        self.entries.insert(k, e);
        proof {
            lemma_entry_at(self.entries@, k as int);
        }
        k
    }

    /// Adds `delta` to `u`'s value, creating the entry with value `delta` if
    /// absent, stamps it with `now` and moves it to its new rank. Returns the
    /// entry's index in the new order. Fails, changing nothing, when the value
    /// would leave the `i32` range or no creation number is left.
    pub fn apply_delta(&mut self, u: u64, delta: i32, now: i64) -> (r: Option<usize>)
        requires
            old(self).wf(),
        ensures
            final(self).wf(),
            r is None <==> (!fits_i32(value_of(old(self).ranked(), u) + delta) || (!has_user(
                old(self).ranked(),
                u,
            ) && old(self).next_seq() == u64::MAX)),
            r is None ==> *final(self) == *old(self),
            r matches Some(k) ==> {
                &&& k < final(self).ranked().len()
                &&& has_user(final(self).ranked(), u)
                &&& index_of_user(final(self).ranked(), u) == k
                &&& entry_of(final(self).ranked(), u) == entry_after_delta(
                    old(self).ranked(),
                    u,
                    delta,
                    now,
                    old(self).next_seq(),
                )
                &&& value_of(final(self).ranked(), u) == value_of(old(self).ranked(), u) + delta
                &&& others_unchanged(old(self).ranked(), final(self).ranked(), u)
                &&& final(self).next_seq() == old(self).next_seq() + if has_user(old(self).ranked(), u) {
                    0int
                } else {
                    1int
                }
                &&& final(self).ranked().len() == old(self).ranked().len() + if has_user(
                    old(self).ranked(),
                    u,
                ) {
                    0int
                } else {
                    1int
                }
            },
    {
        match self.find(u) {
            Some(i) => {
                let cur = self.entries[i];
                proof {
                    lemma_entry_at(self.entries@, i as int);
                }
                let nv = match cur.value.checked_add(delta) {
                    Some(v) => v,
                    None => return None,
                };
                let ghost s0 = self.entries@;
                let removed = self.entries.remove(i);
                proof {
                    lemma_remove_keeps_order(s0, i as int);
                    s0.remove_ensures(i as int);
                    assert forall|p: int| 0 <= p < self.entries@.len() implies #[trigger] self.entries@[p].seq != cur.seq by {
                        let sp = if p < i { p } else { p + 1 };
                        assert(self.entries@[p] == s0[sp]);
                    }
                }
                let e = LedgerEntry { value: nv, updated_at: now, ..cur };
                let ghost s1 = self.entries@;
                let k = self.place(e);
                proof {
                    let f = self.entries@;
                    s1.insert_ensures(k as int, e);
                    assert forall|p: int| 0 <= p < f.len() implies #[trigger] f[p].seq < self.next_seq by {
                        if p != k {
                            let q = if p < k { p } else { p - 1 };
                            assert(f[p] == s1[q]);
                            let sp = if q < i { q } else { q + 1 };
                            assert(s1[q] == s0[sp]);
                        }
                    }
                    assert forall|w: u64| w != u implies (#[trigger] has_user(f, w) == has_user(s0, w) && (
                    has_user(s0, w) ==> entry_of(f, w) == entry_of(s0, w))) by {
                        assert(has_user(f, w) == has_user(s1, w));
                        assert(has_user(s1, w) == has_user(s0, w));
                        if has_user(s0, w) {
                            let j = choose|j: int| 0 <= j < s0.len() && #[trigger] s0[j].user == w;
                            let rj = if j < i { j } else { j - 1 };
                            assert(s1[rj] == s0[j]);
                            lemma_entry_at(s0, j);
                            lemma_entry_at(s1, rj);
                        }
                    }
                }
                Some(k)
            },
            None => {
                if self.next_seq == u64::MAX {
                    return None;
                }
                let e = LedgerEntry { user: u, value: delta, grown_on: None, updated_at: now, seq: self.next_seq };
                let ghost s0 = self.entries@;
                let k = self.place(e);
                self.next_seq = self.next_seq + 1;
                proof {
                    let f = self.entries@;
                    s0.insert_ensures(k as int, e);
                    assert forall|p: int| 0 <= p < f.len() implies #[trigger] f[p].seq < self.next_seq by {
                        if p < k {
                            assert(f[p] == s0[p]);
                        } else if p > k {
                            assert(f[p] == s0[p - 1]);
                        }
                    }
                }
                Some(k)
            },
        }
    }

    /// Applies `incr` to `u` as today's growth, provided `u` has not grown on
    /// `today` or later, and records `today` as its growth day. The check and
    /// the update happen as one step. `Err(true)` means already grown today;
    /// `Err(false)` that the new value does not fit or no creation number is
    /// left. On error nothing changes.
    pub fn grow(&mut self, u: u64, incr: i32, today: i64, now: i64) -> (r: Result<usize, bool>)
        requires
            old(self).wf(),
        ensures
            final(self).wf(),
            r == Err::<usize, bool>(true) <==> !may_grow(old(self).ranked(), u, today),
            r == Err::<usize, bool>(false) <==> may_grow(old(self).ranked(), u, today) && (!fits_i32(
                value_of(old(self).ranked(), u) + incr,
            ) || (!has_user(old(self).ranked(), u) && old(self).next_seq() == u64::MAX)),
            r is Err ==> *final(self) == *old(self),
            r matches Ok(k) ==> {
                &&& k < final(self).ranked().len()
                &&& has_user(final(self).ranked(), u)
                &&& index_of_user(final(self).ranked(), u) == k
                &&& entry_of(final(self).ranked(), u) == LedgerEntry {
                    grown_on: Some(today),
                    ..entry_after_delta(old(self).ranked(), u, incr, now, old(self).next_seq())
                }
                &&& value_of(final(self).ranked(), u) == value_of(old(self).ranked(), u) + incr
                &&& !may_grow(final(self).ranked(), u, today)
                &&& others_unchanged(old(self).ranked(), final(self).ranked(), u)
                &&& final(self).next_seq() == old(self).next_seq() + if has_user(old(self).ranked(), u) {
                    0int
                } else {
                    1int
                }
                &&& final(self).ranked().len() == old(self).ranked().len() + if has_user(old(self).ranked(), u) {
                    0int
                } else {
                    1int
                }
            },
    {
        match self.find(u) {
            Some(i) => {
                let last = self.entries[i].grown_on;
                match last {
                    Some(d) => {
                        if d >= today {
                            return Err(true);
                        }
                    },
                    None => {},
                }
            },
            None => {},
        }
        let ghost s0 = self.entries@;
        let k = match self.apply_delta(u, incr, now) {
            Some(k) => k,
            None => return Err(false),
        };
        let ghost s1 = self.entries@;
        let e = LedgerEntry { grown_on: Some(today), ..self.entries[k] };
        proof {
            lemma_update_keeps(s1, k as int, e);
            let f = s1.update(k as int, e);
            assert forall|a: int, b: int| 0 <= a < b < f.len() implies ranks_ahead(#[trigger] f[a], #[trigger] f[b]) by {
                assert(ranks_ahead(s1[a], s1[b]));
            }
            assert forall|a: int, b: int| 0 <= a < f.len() && 0 <= b < f.len() && a != b implies #[trigger] f[a].seq != #[trigger] f[b].seq by {
                assert(s1[a].seq != s1[b].seq);
            }
            assert forall|p: int| 0 <= p < f.len() implies #[trigger] f[p].seq < self.next_seq by {
                assert(s1[p].seq < self.next_seq);
            }
        }
        self.entries.set(k, e);
        proof {
            let f = self.entries@;
            assert forall|w: u64| w != u implies (#[trigger] has_user(f, w) == has_user(s0, w) && (
            has_user(s0, w) ==> entry_of(f, w) == entry_of(s0, w))) by {
                assert(has_user(f, w) == has_user(s1, w));
                assert(has_user(s1, w) == has_user(s0, w));
            }
            assert(entry_of(f, u) == e);
            assert(value_of(f, u) == e.value);
            assert(s1[k as int] == entry_of(s1, u));
            assert(e == LedgerEntry { grown_on: Some(today), ..entry_after_delta(s0, u, incr, now, old(self).next_seq()) });
            assert(!may_grow(f, u, today));
            assert(index_of_user(f, u) == k);
            assert(others_unchanged(s0, f, u));
        }
        Ok(k)
    }

    /// How many members the chat has, leaving out `ex`.
    pub fn count_members(&self, ex: Option<u64>) -> (r: usize)
        requires
            self.wf(),
        ensures
            r == without_user(self.ranked(), ex).len(),
    {
        let n = self.entries.len();
        match ex {
            Some(x) => match self.find(x) {
                Some(_) => n - 1,
                None => n,
            },
            None => n,
        }
    }

    /// The member at `idx` in rank order, leaving out `ex`.
    pub fn nth_member(&self, ex: Option<u64>, idx: usize) -> (r: Option<LedgerEntry>)
        requires
            self.wf(),
        ensures
            idx < without_user(self.ranked(), ex).len() ==> r == Some(without_user(self.ranked(), ex)[idx as int]),
            idx >= without_user(self.ranked(), ex).len() ==> r is None,
    {
        let skip: usize = match ex {
            Some(x) => match self.find(x) {
                Some(j) => j,
                None => self.entries.len(),
            },
            None => self.entries.len(),
        };
        proof {
            if ex is Some && skip < self.entries@.len() {
                self.entries@.remove_ensures(skip as int);
            }
        }
        let n = self.count_members(ex);
        if idx >= n {
            None
        } else if idx < skip {
            Some(self.entries[idx])
        } else {
            Some(self.entries[idx + 1])
        }
    }

    /// The entries changed after `since`, in rank order.
    pub fn active_since(&self, since: i64) -> (r: Vec<LedgerEntry>)
        ensures
            r@ == active_since(self.ranked(), since),
    {
        let mut out: Vec<LedgerEntry> = Vec::new();
        let mut i: usize = 0;
        while i < self.entries.len()
            invariant
                i <= self.entries@.len(),
                out@ == active_since(self.entries@.subrange(0, i as int), since),
            decreases self.entries@.len() - i,
        {
            let e = self.entries[i];
            proof {
                reveal(Seq::filter);
                let t = self.entries@.subrange(0, i as int + 1);
                assert(t.drop_last() == self.entries@.subrange(0, i as int));
                assert(t.last() == e);
            }
            if e.updated_at > since {
                out.push(e);
            }
            i += 1;
        }
        proof {
            assert(self.entries@.subrange(0, self.entries@.len() as int) == self.entries@);
        }
        out
    }

    /// Up to `limit` entries of the rank order, starting at row `offset`.
    pub fn page(&self, offset: usize, limit: usize) -> (r: Vec<LedgerEntry>)
        ensures
            r@ == page_of(self.ranked(), offset as int, limit as int),
    {
        let n = self.entries.len();
        let mut out: Vec<LedgerEntry> = Vec::new();
        if offset >= n {
            return out;
        }
        let end: usize = if limit >= n - offset { n } else { offset + limit };
        let mut i: usize = offset;
        while i < end
            invariant
                offset <= i <= end <= n,
                n == self.entries@.len(),
                out@ == self.entries@.subrange(offset as int, i as int),
            decreases end - i,
        {
            out.push(self.entries[i]);
            i += 1;
        }
        out
    }

    /// Moves `amount` from `from` to `to` as one step: both values change or
    /// neither does. Returns the new indices of `from` and `to`.
    pub fn move_value(&mut self, from: u64, to: u64, amount: u16, now: i64) -> (r: Option<(usize, usize)>)
        requires
            old(self).wf(),
            from != to,
        ensures
            final(self).wf(),
            r is None <==> (!fits_i32(value_of(old(self).ranked(), from) - amount) || !fits_i32(
                value_of(old(self).ranked(), to) + amount,
            ) || old(self).next_seq() + entries_needed(old(self).ranked(), from, to) > u64::MAX),
            r is None ==> *final(self) == *old(self),
            r is Some ==> value_of(final(self).ranked(), from) == value_of(old(self).ranked(), from) - amount,
            r is Some ==> value_of(final(self).ranked(), to) == value_of(old(self).ranked(), to) + amount,
            r is Some ==> has_user(final(self).ranked(), from) && has_user(final(self).ranked(), to),
            r matches Some(p) ==> p.0 == index_of_user(final(self).ranked(), from) && p.1 == index_of_user(final(self).ranked(), to),
            r is Some ==> others_unchanged2(old(self).ranked(), final(self).ranked(), from, to),
            r is Some ==> final(self).next_seq() == old(self).next_seq() + entries_needed(old(self).ranked(), from, to),
            r is Some ==> final(self).ranked().len() == old(self).ranked().len() + entries_needed(
                old(self).ranked(),
                from,
                to,
            ),
    {
        let vf = self.value_of(from);
        let vt = self.value_of(to);
        let hf = self.find(from).is_some();
        let ht = self.find(to).is_some();
        let needed: u64 = (if hf { 0 } else { 1 }) + (if ht { 0 } else { 1 });
        if (vf as i64) - (amount as i64) < i32::MIN as i64 || (vt as i64) + (amount as i64)
            > i32::MAX as i64 || self.next_seq > u64::MAX - needed {
            return None;
        }
        let ghost s0 = self.entries@;
        let d: i32 = amount as i32;
        let r1 = self.apply_delta(from, -d, now);
        let ghost s1 = self.entries@;
        let r2 = self.apply_delta(to, d, now);
        let ghost s2 = self.entries@;
        proof {
            assert(r1 is Some);
            assert(r2 is Some);
            assert(has_user(s1, to) == has_user(s0, to));
            assert(value_of(s1, to) == value_of(s0, to));
            assert(has_user(s2, from));
            assert(value_of(s2, from) == value_of(s1, from));
            assert forall|w: u64| w != from && w != to implies (#[trigger] has_user(s2, w) == has_user(s0, w)
                && (has_user(s0, w) ==> entry_of(s2, w) == entry_of(s0, w))) by {
                assert(has_user(s2, w) == has_user(s1, w));
                assert(has_user(s1, w) == has_user(s0, w));
                if has_user(s0, w) {
                    assert(entry_of(s1, w) == entry_of(s0, w));
                    assert(entry_of(s2, w) == entry_of(s1, w));
                }
            }
        }
        let i = match self.find(from) {
            Some(i) => i,
            None => 0,
        };
        let j = match self.find(to) {
            Some(j) => j,
            None => 0,
        };
        proof {
            assert(value_of(s2, from) == value_of(s0, from) - amount);
            assert(value_of(s2, to) == value_of(s0, to) + amount);
            assert(has_user(s2, from) && has_user(s2, to));
            assert(i == index_of_user(s2, from));
            assert(j == index_of_user(s2, to));
            assert(others_unchanged2(s0, s2, from, to));
        }
        Some((i, j))
    }

    /// Removes `u`'s entry, if any; says whether there was one.
    pub fn remove_user(&mut self, u: u64) -> (r: bool)
        requires
            old(self).wf(),
        ensures
            final(self).wf(),
            r == has_user(old(self).ranked(), u),
            final(self).ranked() == without_user(old(self).ranked(), Some(u)),
            final(self).next_seq() == old(self).next_seq(),
    {
        match self.find(u) {
            Some(i) => {
                let ghost s0 = self.entries@;
                self.entries.remove(i);
                proof {
                    lemma_remove_keeps_order(s0, i as int);
                    s0.remove_ensures(i as int);
                    assert forall|p: int| 0 <= p < self.entries@.len() implies #[trigger] self.entries@[p].seq < self.next_seq by {
                        let sp = if p < i { p } else { p + 1 };
                        assert(self.entries@[p] == s0[sp]);
                    }
                }
                true
            },
            None => false,
        }
    }
}

} // verus!
