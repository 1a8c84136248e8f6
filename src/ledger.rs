//! The ledger of all chats: identities, one ranked board per chat, and the
//! append-only log of transfers.
use std::collections::HashMap;
use vstd::prelude::*;
use crate::board::{
    entries_needed, entry_after_delta, entry_of, fits_i32, has_user, index_of_user, may_grow,
    others_unchanged, others_unchanged2, page_of, value_of, without_user, ChatBoard, LedgerEntry,
};
use crate::chat::ChatKey;

verus! {

broadcast use vstd::std_specs::hash::group_hash_axioms;

/// An internal identity: created on first interaction, renamed on later ones.
#[derive(Debug)]
pub struct User {
    pub uid: u64,
    pub name: String,
    /// Registration time, in seconds.
    pub created_at: i64,
}

impl User {
    pub fn duplicate(&self) -> (r: User)
        ensures
            r == *self,
    {
        User { uid: self.uid, name: self.name.clone(), created_at: self.created_at }
    }
}

/// The kind of a logged transfer.
#[derive(Debug, Clone, Copy, PartialEq, Eq)]
pub enum TransferKind {
    Gift,
    Fire,
}

/// One logged transfer; written once and never changed.
#[derive(Debug, Clone, Copy)]
pub struct TransferRecord {
    /// The chat's internal number.
    pub chat: usize,
    pub from: u64,
    pub to: u64,
    pub amount: u16,
    pub kind: TransferKind,
    pub at: i64,
}

/// The value after a change and, where ranking is enabled, the 1-based rank.
#[derive(Debug, Clone, Copy, PartialEq, Eq)]
pub struct GrowthResult {
    pub new_length: i32,
    pub pos_in_top: Option<u64>,
}

/// Why a ledger operation did not happen.
#[derive(Debug, Clone, Copy, PartialEq, Eq)]
pub enum LedgerError {
    /// The member already grew on this calendar day.
    AlreadyGrown,
    /// The member has no identity record.
    UnknownUser,
    /// A value would leave the storable range.
    OutOfRange,
    /// Sender and recipient are the same member.
    SameUser,
}

/// One row of a rank page.
#[derive(Debug)]
pub struct TopRow {
    pub entry: LedgerEntry,
    pub name: String,
    /// 1-based rank position.
    pub position: u64,
}

/// A page of the rank order and whether rows follow it.
#[derive(Debug)]
pub struct TopPage {
    pub rows: Vec<TopRow>,
    pub has_more_pages: bool,
}

pub open spec fn position_result(ranking: bool, s: Seq<LedgerEntry>, u: u64) -> Option<u64> {
    if ranking {
        Some((index_of_user(s, u) + 1) as u64)
    } else {
        None
    }
}

/// The 1-based rank of `u` as reported, where ranking is enabled and `u`
/// has an entry.
pub open spec fn shown_position(ranking: bool, s: Seq<LedgerEntry>, u: u64) -> Option<i64> {
    if ranking && has_user(s, u) && index_of_user(s, u) < i64::MAX {
        Some((index_of_user(s, u) + 1) as i64)
    } else {
        None
    }
}

/// A logged transfer that `uid` neither sent nor received.
pub open spec fn not_involving(uid: u64) -> spec_fn(TransferRecord) -> bool {
    |t: TransferRecord| t.from != uid && t.to != uid
}

/// The name shown for `uid`: its registered name, or nothing.
pub open spec fn name_of(users: Map<u64, User>, uid: u64) -> Seq<char> {
    if users.contains_key(uid) {
        users[uid].name@
    } else {
        Seq::empty()
    }
}

/// What a transfer of `amount` from `from` to `to` needs besides two
/// registered, distinct members: both values stay in range and enough
/// creation numbers are left for new entries.
pub open spec fn transfer_fits(s: Seq<LedgerEntry>, next: u64, from: u64, to: u64, amount: u16) -> bool {
    &&& fits_i32(value_of(s, from) - amount)
    &&& fits_i32(value_of(s, to) + amount)
    &&& next + entries_needed(s, from, to) <= u64::MAX
}

pub struct Ledger {
    users: HashMap<u64, User>,
    chats: Vec<ChatKey>,
    boards: Vec<ChatBoard>,
    transfers: Vec<TransferRecord>,
    ranking: bool,
}

impl Ledger {
    pub closed spec fn users(&self) -> Map<u64, User> {
        self.users@
    }

    pub closed spec fn log(&self) -> Seq<TransferRecord> {
        self.transfers@
    }

    pub closed spec fn ranking_enabled(&self) -> bool {
        self.ranking
    }

    pub closed spec fn has_chat(&self, k: (Option<i64>, Seq<char>)) -> bool {
        exists|i: int| 0 <= i < self.chats@.len() && #[trigger] self.chats@[i]@ == k
    }

    pub closed spec fn chat_index(&self, k: (Option<i64>, Seq<char>)) -> int {
        choose|i: int| 0 <= i < self.chats@.len() && #[trigger] self.chats@[i]@ == k
    }

    /// The rank order of chat `k`; empty for a chat never touched.
    pub closed spec fn ranked(&self, k: (Option<i64>, Seq<char>)) -> Seq<LedgerEntry> {
        if self.has_chat(k) {
            self.boards@[self.chat_index(k)].ranked()
        } else {
            Seq::empty()
        }
    }

    pub closed spec fn next_seq(&self, k: (Option<i64>, Seq<char>)) -> u64 {
        if self.has_chat(k) {
            self.boards@[self.chat_index(k)].next_seq()
        } else {
            0
        }
    }

    pub closed spec fn wf(&self) -> bool {
        &&& self.chats@.len() == self.boards@.len()
        &&& forall|i: int| 0 <= i < self.boards@.len() ==> (#[trigger] self.boards@[i]).wf()
        &&& forall|i: int, j: int|
            0 <= i < self.chats@.len() && 0 <= j < self.chats@.len() && i != j ==> #[trigger] self.chats@[i]@
                != #[trigger] self.chats@[j]@
    }

    /// Nothing differs from `other`.
    pub open spec fn unchanged_from(&self, other: &Ledger) -> bool {
        &&& self.users() == other.users()
        &&& self.ranking_enabled() == other.ranking_enabled()
        &&& self.log() == other.log()
        &&& forall|k: (Option<i64>, Seq<char>)|
            #[trigger] self.ranked(k) == other.ranked(k) && self.next_seq(k) == other.next_seq(k)
                && self.has_chat(k) == other.has_chat(k) && self.chat_index(k) == other.chat_index(k)
    }

    /// Users, log and ranking mode are as in `other`, and so is every chat but `k`.
    pub open spec fn same_but_chat(&self, other: &Ledger, k: (Option<i64>, Seq<char>)) -> bool {
        &&& self.users() == other.users()
        &&& self.ranking_enabled() == other.ranking_enabled()
        &&& forall|k2: (Option<i64>, Seq<char>)|
            k2 != k ==> #[trigger] self.ranked(k2) == other.ranked(k2) && self.next_seq(k2) == other.next_seq(k2)
    }

    proof fn lemma_same_fields(a: Ledger, b: Ledger)
        requires
            a.users@ == b.users@,
            a.ranking == b.ranking,
            a.chats@ == b.chats@,
            a.boards@ == b.boards@,
            a.transfers@ == b.transfers@,
        ensures
            b.unchanged_from(&a),
    {
    }

    pub proof fn lemma_unchanged_trans(a: Ledger, b: Ledger, c: Ledger)
        requires
            b.unchanged_from(&a),
            c.unchanged_from(&b),
        ensures
            c.unchanged_from(&a),
    {
        assert forall|k: (Option<i64>, Seq<char>)| #[trigger] c.ranked(k) == a.ranked(k) && c.next_seq(k) == a.next_seq(k)
            && c.has_chat(k) == a.has_chat(k) && c.chat_index(k) == a.chat_index(k) by {
            assert(b.ranked(k) == a.ranked(k));
            assert(c.ranked(k) == b.ranked(k));
        }
    }

    pub proof fn lemma_unchanged_refl(&self)
        ensures
            self.unchanged_from(self),
    {
    }

    /// Every chat's entries form a rank order.
    pub proof fn lemma_ranked_well(&self, k: (Option<i64>, Seq<char>))
        requires
            self.wf(),
        ensures
            crate::board::ranked_well(self.ranked(k)),
    {
        if self.has_chat(k) {
            let i = self.chat_index(k);
            self.boards@[i].lemma_wf();
        }
    }

    proof fn lemma_chat_at(&self, i: int)
        requires
            self.wf(),
            0 <= i < self.chats@.len(),
        ensures
            self.has_chat(self.chats@[i]@),
            self.chat_index(self.chats@[i]@) == i,
    {
        let k = self.chats@[i]@;
        assert(self.chats@[i]@ == k);
        let j = self.chat_index(k);
        assert(0 <= j < self.chats@.len() && self.chats@[j]@ == k);
    }

    pub fn new(ranking: bool) -> (r: Ledger)
        ensures
            r.wf(),
            r.users() == Map::<u64, User>::empty(),
            r.log() == Seq::<TransferRecord>::empty(),
            r.ranking_enabled() == ranking,
            forall|k: (Option<i64>, Seq<char>)|
                #[trigger] r.ranked(k) == Seq::<LedgerEntry>::empty() && r.next_seq(k) == 0 && !r.has_chat(k),
    {
        Ledger {
            users: HashMap::new(),
            chats: Vec::new(),
            boards: Vec::new(),
            transfers: Vec::new(),
            ranking,
        }
    }

    /// Records `uid` with `name`. A known member keeps its registration time
    /// and only takes the new name.
    pub fn upsert_user(&mut self, uid: u64, name: String, now: i64) -> (r: User)
        requires
            old(self).wf(),
        ensures
            final(self).wf(),
            r.uid == uid && r.name == name,
            r.created_at == if old(self).users().contains_key(uid) {
                old(self).users()[uid].created_at
            } else {
                now
            },
            final(self).users() == old(self).users().insert(uid, r),
            final(self).log() == old(self).log(),
            final(self).ranking_enabled() == old(self).ranking_enabled(),
            forall|k: (Option<i64>, Seq<char>)|
                #[trigger] final(self).ranked(k) == old(self).ranked(k) && final(self).next_seq(k) == old(self).next_seq(k),
    {
        let created_at = match self.users.get(&uid) {
            Some(u) => u.created_at,
            None => now,
        };
        let r = User { uid, name, created_at };
        self.users.insert(uid, r.duplicate());
        r
    }

    pub fn get_user(&self, uid: u64) -> (r: Option<User>)
        ensures
            r == if self.users().contains_key(uid) {
                Some(self.users()[uid])
            } else {
                None
            },
    {
        match self.users.get(&uid) {
            Some(u) => Some(u.duplicate()),
            None => None,
        }
    }

    fn find_chat(&self, key: &ChatKey) -> (r: Option<usize>)
        requires
            self.wf(),
        ensures
            match r {
                Some(i) => i < self.chats@.len() && self.chats@[i as int]@ == key@ && self.has_chat(key@)
                    && self.chat_index(key@) == i,
                None => !self.has_chat(key@),
            },
    {
        let mut i: usize = 0;
        while i < self.chats.len()
            invariant
                self.wf(),
                i <= self.chats@.len(),
                forall|p: int| 0 <= p < i ==> #[trigger] self.chats@[p]@ != key@,
            decreases self.chats@.len() - i,
        {
            if self.chats[i].same_as(key) {
                proof {
                    self.lemma_chat_at(i as int);
                }
                return Some(i);
            }
            i += 1;
        }
        None
    }

    /// The index of chat `key`'s board, adding an empty board if the chat is new.
    fn chat_slot(&mut self, key: &ChatKey) -> (i: usize)
        requires
            old(self).wf(),
        ensures
            final(self).wf(),
            i < final(self).boards@.len(),
            final(self).has_chat(key@),
            final(self).chat_index(key@) == i,
            final(self).ranked(key@) == old(self).ranked(key@),
            final(self).next_seq(key@) == old(self).next_seq(key@),
            final(self).same_but_chat(old(self), key@),
            final(self).log() == old(self).log(),
            old(self).has_chat(key@) ==> final(self).unchanged_from(old(self)),
    {
        match self.find_chat(key) {
            Some(i) => i,
            None => {
                let ghost before = *self;
                self.chats.push(key.duplicate());
                self.boards.push(ChatBoard::new());
                let i = self.chats.len() - 1;
                proof {
                    assert forall|a: int, b: int|
                        0 <= a < self.chats@.len() && 0 <= b < self.chats@.len() && a != b implies #[trigger] self.chats@[a]@
                            != #[trigger] self.chats@[b]@ by {
                        if a != i && b != i {
                            assert(before.chats@[a] == self.chats@[a]);
                            assert(before.chats@[b] == self.chats@[b]);
                        } else if a == i {
                            assert(before.chats@[b] == self.chats@[b]);
                        } else {
                            assert(before.chats@[a] == self.chats@[a]);
                        }
                    }
                    assert forall|p: int| 0 <= p < self.boards@.len() implies (#[trigger] self.boards@[p]).wf() by {
                        if p < i {
                            assert(self.boards@[p] == before.boards@[p]);
                        }
                    }
                    self.lemma_chat_at(i as int);
                    assert forall|k2: (Option<i64>, Seq<char>)| k2 != key@ implies #[trigger] self.ranked(k2)
                        == before.ranked(k2) && self.next_seq(k2) == before.next_seq(k2) by {
                        if before.has_chat(k2) {
                            let j = before.chat_index(k2);
                            before.lemma_chat_at(j);
                            assert(self.chats@[j] == before.chats@[j]);
                            self.lemma_chat_at(j);
                            assert(self.boards@[j] == before.boards@[j]);
                        }
                        if self.has_chat(k2) {
                            let j = self.chat_index(k2);
                            if j < i {
                                assert(self.chats@[j] == before.chats@[j]);
                                assert(before.chats@[j]@ == k2);
                            }
                        }
                    }
                }
                i
            },
        }
    }

    /// Puts back a board that was changed in place of board `i`.
    proof fn lemma_board_replaced(before: Ledger, after: Ledger, i: int, k: (Option<i64>, Seq<char>))
        requires
            before.wf(),
            0 <= i < before.boards@.len(),
            before.chats@[i]@ == k,
            after.chats@ == before.chats@,
            after.users@ == before.users@,
            after.ranking == before.ranking,
            after.boards@ == before.boards@.update(i, after.boards@[i]),
            after.boards@[i].wf(),
        ensures
            after.wf(),
            after.has_chat(k),
            after.ranked(k) == after.boards@[i].ranked(),
            after.next_seq(k) == after.boards@[i].next_seq(),
            after.same_but_chat(&before, k),
    {
        before.lemma_chat_at(i);
        assert forall|p: int| 0 <= p < after.boards@.len() implies (#[trigger] after.boards@[p]).wf() by {
            if p != i {
                assert(after.boards@[p] == before.boards@[p]);
            }
        }
        after.lemma_chat_at(i);
        assert forall|k2: (Option<i64>, Seq<char>)| k2 != k implies #[trigger] after.ranked(k2) == before.ranked(k2)
            && after.next_seq(k2) == before.next_seq(k2) by {
            if before.has_chat(k2) {
                let j = before.chat_index(k2);
                before.lemma_chat_at(j);
                assert(after.boards@[j] == before.boards@[j]);
            }
        }
    }

    /// The value of `uid` in chat `key`; zero when it has no entry there.
    pub fn fetch_value(&self, uid: u64, key: &ChatKey) -> (r: i32)
        requires
            self.wf(),
        ensures
            r == value_of(self.ranked(key@), uid),
    {
        match self.find_chat(key) {
            Some(i) => self.boards[i].value_of(uid),
            None => 0,
        }
    }

    pub fn has_entry(&self, uid: u64, key: &ChatKey) -> (r: bool)
        requires
            self.wf(),
        ensures
            r == has_user(self.ranked(key@), uid),
    {
        match self.find_chat(key) {
            Some(i) => self.boards[i].find(uid).is_some(),
            None => false,
        }
    }

    /// The entry of `uid` in chat `key`, if any.
    pub fn fetch_entry(&self, uid: u64, key: &ChatKey) -> (r: Option<LedgerEntry>)
        requires
            self.wf(),
        ensures
            r == if has_user(self.ranked(key@), uid) {
                Some(entry_of(self.ranked(key@), uid))
            } else {
                None
            },
    {
        match self.find_chat(key) {
            Some(i) => match self.boards[i].find(uid) {
                Some(j) => Some(self.boards[i].at(j)),
                None => None,
            },
            None => None,
        }
    }

    /// Adds `delta` to the value of `uid` in chat `key`, creating the entry
    /// (and the chat) when absent. The member must be registered.
    pub fn apply_delta(&mut self, key: &ChatKey, uid: u64, delta: i32, now: i64) -> (r: Result<
        GrowthResult,
        LedgerError,
    >)
        requires
            old(self).wf(),
        ensures
            final(self).wf(),
            final(self).log() == old(self).log(),
            r == Err::<GrowthResult, LedgerError>(LedgerError::UnknownUser) <==> !old(self).users().contains_key(uid),
            r == Err::<GrowthResult, LedgerError>(LedgerError::OutOfRange) <==> old(self).users().contains_key(uid) && (
            !fits_i32(value_of(old(self).ranked(key@), uid) + delta) || (!has_user(old(self).ranked(key@), uid)
                && old(self).next_seq(key@) == u64::MAX)),
            r is Ok <==> old(self).users().contains_key(uid) && fits_i32(value_of(old(self).ranked(key@), uid) + delta)
                && (has_user(old(self).ranked(key@), uid) || old(self).next_seq(key@) != u64::MAX),
            r is Err ==> r == Err::<GrowthResult, LedgerError>(LedgerError::UnknownUser) || r == Err::<
                GrowthResult,
                LedgerError,
            >(LedgerError::OutOfRange),
            r is Err ==> final(self).unchanged_from(old(self)),
            r matches Ok(g) ==> {
                &&& value_of(final(self).ranked(key@), uid) == value_of(old(self).ranked(key@), uid) + delta
                &&& g.new_length == value_of(final(self).ranked(key@), uid)
                &&& has_user(final(self).ranked(key@), uid)
                &&& entry_of(final(self).ranked(key@), uid) == entry_after_delta(
                    old(self).ranked(key@),
                    uid,
                    delta,
                    now,
                    old(self).next_seq(key@),
                )
                &&& g.pos_in_top == position_result(old(self).ranking_enabled(), final(self).ranked(key@), uid)
                &&& others_unchanged(old(self).ranked(key@), final(self).ranked(key@), uid)
                &&& final(self).same_but_chat(old(self), key@)
                &&& final(self).next_seq(key@) == old(self).next_seq(key@) + if has_user(old(self).ranked(key@), uid) {
                    0int
                } else {
                    1int
                }
                &&& final(self).ranked(key@).len() == old(self).ranked(key@).len() + if has_user(
                    old(self).ranked(key@),
                    uid,
                ) {
                    0int
                } else {
                    1int
                }
            },
    {
        if !self.users.contains_key(&uid) {
            return Err(LedgerError::UnknownUser);
        }
        let ghost before = *self;
        let i = self.chat_slot(key);
        let ghost mid = *self;
        let mut b = self.boards.remove(i);
        let res = b.apply_delta(uid, delta, now);
        self.boards.insert(i, b);
        proof {
            assert(self.boards@ == mid.boards@.update(i as int, self.boards@[i as int]));
            Ledger::lemma_board_replaced(mid, *self, i as int, key@);
        }
        match res {
            Some(k) => {
                proof {
                    assert(self.same_but_chat(&before, key@));
                }
                // the board's length bounds the index, so the position fits
                let rows = self.boards[i].len();
                proof {
                    assert(k < rows);
                }
                let pos = if self.ranking {
                    Some((k + 1) as u64)
                } else {
                    None
                };
                Ok(GrowthResult { new_length: self.boards[i].at(k).value, pos_in_top: pos })
            },
            None => {
                proof {
                    assert(self.boards@ =~= mid.boards@);
                    assert(before.has_chat(key@));
                    Ledger::lemma_same_fields(mid, *self);
                    Ledger::lemma_unchanged_trans(before, mid, *self);
                }
                Err(LedgerError::OutOfRange)
            },
        }
    }

    /// Today's growth of `uid` in chat `key` by `incr`, at most once per
    /// calendar day: the day check and the update are one step.
    pub fn grow(&mut self, key: &ChatKey, uid: u64, incr: i32, today: i64, now: i64) -> (r: Result<
        GrowthResult,
        LedgerError,
    >)
        requires
            old(self).wf(),
        ensures
            final(self).wf(),
            final(self).log() == old(self).log(),
            r == Err::<GrowthResult, LedgerError>(LedgerError::UnknownUser) <==> !old(self).users().contains_key(uid),
            r == Err::<GrowthResult, LedgerError>(LedgerError::AlreadyGrown) <==> old(self).users().contains_key(uid)
                && !may_grow(old(self).ranked(key@), uid, today),
            r == Err::<GrowthResult, LedgerError>(LedgerError::OutOfRange) <==> old(self).users().contains_key(uid)
                && may_grow(old(self).ranked(key@), uid, today) && (!fits_i32(
                value_of(old(self).ranked(key@), uid) + incr,
            ) || (!has_user(old(self).ranked(key@), uid) && old(self).next_seq(key@) == u64::MAX)),
            r != Err::<GrowthResult, LedgerError>(LedgerError::SameUser),
            r is Ok <==> old(self).users().contains_key(uid) && may_grow(old(self).ranked(key@), uid, today) && fits_i32(
                value_of(old(self).ranked(key@), uid) + incr,
            ) && (has_user(old(self).ranked(key@), uid) || old(self).next_seq(key@) != u64::MAX),
            r is Err ==> final(self).unchanged_from(old(self)),
            r matches Ok(g) ==> {
                &&& grew(*old(self), *final(self), key@, uid, incr, today, now)
                &&& g.new_length == value_of(final(self).ranked(key@), uid)
                &&& g.pos_in_top == position_result(old(self).ranking_enabled(), final(self).ranked(key@), uid)
            },
    {
        if !self.users.contains_key(&uid) {
            return Err(LedgerError::UnknownUser);
        }
        let ghost before = *self;
        let i = self.chat_slot(key);
        let ghost mid = *self;
        let mut b = self.boards.remove(i);
        let res = b.grow(uid, incr, today, now);
        self.boards.insert(i, b);
        proof {
            assert(self.boards@ == mid.boards@.update(i as int, self.boards@[i as int]));
            Ledger::lemma_board_replaced(mid, *self, i as int, key@);
        }
        match res {
            Ok(k) => {
                proof {
                    assert(self.same_but_chat(&before, key@));
                }
                // the board's length bounds the index, so the position fits
                let rows = self.boards[i].len();
                proof {
                    assert(k < rows);
                }
                let pos = if self.ranking {
                    Some((k + 1) as u64)
                } else {
                    None
                };
                Ok(GrowthResult { new_length: self.boards[i].at(k).value, pos_in_top: pos })
            },
            Err(already) => {
                proof {
                    assert(self.boards@ =~= mid.boards@);
                    assert(before.has_chat(key@));
                    Ledger::lemma_same_fields(mid, *self);
                    Ledger::lemma_unchanged_trans(before, mid, *self);
                }
                if already {
                    Err(LedgerError::AlreadyGrown)
                } else {
                    Err(LedgerError::OutOfRange)
                }
            },
        }
    }

    /// Moves `amount` from `from` to `to` within chat `key` as one step, and
    /// logs the transfer. Either both values change or nothing does.
    pub fn transfer(
        &mut self,
        key: &ChatKey,
        from: u64,
        to: u64,
        amount: u16,
        kind: TransferKind,
        now: i64,
    ) -> (r: Result<(GrowthResult, GrowthResult), LedgerError>)
        requires
            old(self).wf(),
        ensures
            final(self).wf(),
            r == Err::<(GrowthResult, GrowthResult), LedgerError>(LedgerError::SameUser) <==> from == to,
            r == Err::<(GrowthResult, GrowthResult), LedgerError>(LedgerError::UnknownUser) <==> from != to && (
            !old(self).users().contains_key(from) || !old(self).users().contains_key(to)),
            r == Err::<(GrowthResult, GrowthResult), LedgerError>(LedgerError::OutOfRange) <==> from != to
                && old(self).users().contains_key(from) && old(self).users().contains_key(to) && !transfer_fits(
                old(self).ranked(key@),
                old(self).next_seq(key@),
                from,
                to,
                amount,
            ),
            r != Err::<(GrowthResult, GrowthResult), LedgerError>(LedgerError::AlreadyGrown),
            r is Ok <==> from != to && old(self).users().contains_key(from) && old(self).users().contains_key(to)
                && transfer_fits(old(self).ranked(key@), old(self).next_seq(key@), from, to, amount),
            r is Err ==> final(self).unchanged_from(old(self)),
            r matches Ok((gf, gt)) ==> {
                &&& value_of(final(self).ranked(key@), from) == value_of(old(self).ranked(key@), from) - amount
                &&& value_of(final(self).ranked(key@), to) == value_of(old(self).ranked(key@), to) + amount
                &&& value_of(final(self).ranked(key@), from) + value_of(final(self).ranked(key@), to)
                    == value_of(old(self).ranked(key@), from) + value_of(old(self).ranked(key@), to)
                &&& gf.new_length == value_of(final(self).ranked(key@), from)
                &&& gt.new_length == value_of(final(self).ranked(key@), to)
                &&& has_user(final(self).ranked(key@), from) && has_user(final(self).ranked(key@), to)
                &&& gf.pos_in_top == position_result(old(self).ranking_enabled(), final(self).ranked(key@), from)
                &&& gt.pos_in_top == position_result(old(self).ranking_enabled(), final(self).ranked(key@), to)
                &&& others_unchanged2(old(self).ranked(key@), final(self).ranked(key@), from, to)
                &&& final(self).same_but_chat(old(self), key@)
                &&& final(self).next_seq(key@) == old(self).next_seq(key@) + entries_needed(old(self).ranked(key@), from, to)
                &&& final(self).ranked(key@).len() == old(self).ranked(key@).len() + entries_needed(
                    old(self).ranked(key@),
                    from,
                    to,
                )
                &&& final(self).log() == old(self).log().push(
                    TransferRecord {
                        chat: final(self).chat_index(key@) as usize,
                        from,
                        to,
                        amount,
                        kind,
                        at: now,
                    },
                )
            },
    {
        if from == to {
            return Err(LedgerError::SameUser);
        }
        if !self.users.contains_key(&from) || !self.users.contains_key(&to) {
            return Err(LedgerError::UnknownUser);
        }
        let ghost before = *self;
        let i = self.chat_slot(key);
        let ghost mid = *self;
        let mut b = self.boards.remove(i);
        let res = b.move_value(from, to, amount, now);
        self.boards.insert(i, b);
        proof {
            assert(self.boards@ == mid.boards@.update(i as int, self.boards@[i as int]));
            Ledger::lemma_board_replaced(mid, *self, i as int, key@);
        }
        match res {
            Some((fi, ti)) => {
                // the board's length bounds both indices, so the positions fit
                let rows = self.boards[i].len();
                proof {
                    assert(fi < rows && ti < rows);
                }
                let (pf, pt) = if self.ranking {
                    (Some((fi + 1) as u64), Some((ti + 1) as u64))
                } else {
                    (None, None)
                };
                let gf = GrowthResult { new_length: self.boards[i].at(fi).value, pos_in_top: pf };
                let gt = GrowthResult { new_length: self.boards[i].at(ti).value, pos_in_top: pt };
                let ghost pre_log = *self;
                self.transfers.push(TransferRecord { chat: i, from, to, amount, kind, at: now });
                proof {
                    assert(self.ranked(key@) == pre_log.ranked(key@));
                    assert forall|k2: (Option<i64>, Seq<char>)| #[trigger] self.ranked(k2) == pre_log.ranked(k2)
                        && self.next_seq(k2) == pre_log.next_seq(k2) by {}
                }
                Ok((gf, gt))
            },
            None => {
                proof {
                    assert(self.boards@ =~= mid.boards@);
                    assert(before.has_chat(key@));
                    Ledger::lemma_same_fields(mid, *self);
                    Ledger::lemma_unchanged_trans(before, mid, *self);
                }
                Err(LedgerError::OutOfRange)
            },
        }
    }

    /// Page `page` of chat `key`'s rank order, `size` rows to a page, and
    /// whether further rows exist (found by reading one row more).
    pub fn top_page(&self, key: &ChatKey, page: usize, size: usize) -> (r: TopPage)
        requires
            self.wf(),
        ensures
            r.rows@.len() == page_of(self.ranked(key@), page * size, size as int).len(),
            forall|k: int|
                0 <= k < r.rows@.len() ==> {
                    &&& (#[trigger] r.rows@[k]).entry == page_of(self.ranked(key@), page * size, size as int)[k]
                    &&& r.rows@[k].position == page * size + k + 1
                    &&& r.rows@[k].name@ == name_of(self.users(), r.rows@[k].entry.user)
                },
            r.has_more_pages == (self.ranked(key@).len() > page * size + size),
    {
        let empty = TopPage { rows: Vec::new(), has_more_pages: false };
        let i = match self.find_chat(key) {
            Some(i) => i,
            None => return empty,
        };
        let n = self.boards[i].len();
        let offset = match page.checked_mul(size) {
            Some(o) => o,
            None => return empty,
        };
        let fetch = if size == usize::MAX { size } else { size + 1 };
        let entries = self.boards[i].page(offset, fetch);
        let has_more = entries.len() > size;
        let mut rows: Vec<TopRow> = Vec::new();
        let mut k: usize = 0;
        let limit = if has_more { size } else { entries.len() };
        while k < limit
            invariant
                limit <= entries@.len(),
                limit <= size,
                k <= limit,
                offset == page * size,
                n == self.ranked(key@).len(),
                entries@ == page_of(self.ranked(key@), offset as int, fetch as int),
                rows@.len() == k,
                forall|q: int|
                    0 <= q < k ==> {
                        &&& (#[trigger] rows@[q]).entry == entries@[q]
                        &&& rows@[q].position == offset + q + 1
                        &&& rows@[q].name@ == name_of(self.users(), rows@[q].entry.user)
                    },
            decreases limit - k,
        {
            let e = entries[k];
            let name = match self.users.get(&e.user) {
                Some(u) => u.name.clone(),
                None => String::new(),
            };
            proof {
                assert(offset + k < n);
            }
            rows.push(TopRow { entry: e, name, position: (offset + k + 1) as u64 });
            k += 1;
        }
        TopPage { rows, has_more_pages: has_more }
    }

    /// How many members chat `key` has, leaving out `ex`.
    pub fn count_members(&self, key: &ChatKey, ex: Option<u64>) -> (r: usize)
        requires
            self.wf(),
        ensures
            r == without_user(self.ranked(key@), ex).len(),
    {
        match self.find_chat(key) {
            Some(i) => self.boards[i].count_members(ex),
            None => 0,
        }
    }

    /// The member at `idx` of chat `key` in rank order, leaving out `ex`.
    pub fn nth_member(&self, key: &ChatKey, ex: Option<u64>, idx: usize) -> (r: Option<LedgerEntry>)
        requires
            self.wf(),
        ensures
            idx < without_user(self.ranked(key@), ex).len() ==> r == Some(without_user(self.ranked(key@), ex)[idx as int]),
            idx >= without_user(self.ranked(key@), ex).len() ==> r is None,
    {
        match self.find_chat(key) {
            Some(i) => self.boards[i].nth_member(ex, idx),
            None => None,
        }
    }

    /// The members of chat `key` changed after `since`, in rank order.
    pub fn active_members(&self, key: &ChatKey, since: i64) -> (r: Vec<LedgerEntry>)
        requires
            self.wf(),
        ensures
            r@ == crate::board::active_since(self.ranked(key@), since),
    {
        match self.find_chat(key) {
            Some(i) => self.boards[i].active_since(since),
            None => {
                proof {
                    reveal(Seq::filter);
                }
                Vec::new()
            },
        }
    }

    /// The 1-based rank of `uid` in chat `key` where ranking is enabled.
    pub fn position(&self, uid: u64, key: &ChatKey) -> (r: Option<i64>)
        requires
            self.wf(),
        ensures
            r == shown_position(self.ranking_enabled(), self.ranked(key@), uid),
    {
        if !self.ranking {
            return None;
        }
        match self.find_chat(key) {
            Some(i) => match self.boards[i].find(uid) {
                Some(j) => if (j as u64) < (i64::MAX as u64) {
                    Some((j as i64) + 1)
                } else {
                    None
                },
                None => None,
            },
            None => None,
        }
    }

    /// Deletes everything of `uid`: its identity, its entry in every chat and
    /// every transfer it sent or received. Returns how many identities were
    /// deleted (one or none).
    pub fn purge_user(&mut self, uid: u64) -> (r: u64)
        requires
            old(self).wf(),
        ensures
            final(self).wf(),
            r == if old(self).users().contains_key(uid) {
                1u64
            } else {
                0u64
            },
            final(self).users() == old(self).users().remove(uid),
            final(self).ranking_enabled() == old(self).ranking_enabled(),
            forall|k: (Option<i64>, Seq<char>)|
                #[trigger] final(self).ranked(k) == without_user(old(self).ranked(k), Some(uid)) && final(self).next_seq(k)
                    == old(self).next_seq(k),
            final(self).log() == old(self).log().filter(not_involving(uid)),
    {
        let ghost start = *self;
        let existed = self.users.remove(&uid).is_some();
        let ghost users1 = self.users@;
        let mut i: usize = 0;
        while i < self.boards.len()
            invariant
                start.wf(),
                self.users@ == users1,
                self.transfers@ == start.transfers@,
                self.ranking == start.ranking,
                self.chats@ == start.chats@,
                self.boards@.len() == start.boards@.len(),
                self.chats@.len() == self.boards@.len(),
                i <= self.boards@.len(),
                forall|j: int| 0 <= j < self.boards@.len() ==> (#[trigger] self.boards@[j]).wf(),
                forall|j: int|
                    0 <= j < i ==> (#[trigger] self.boards@[j]).ranked() == without_user(start.boards@[j].ranked(), Some(uid))
                        && self.boards@[j].next_seq() == start.boards@[j].next_seq(),
                forall|j: int| i <= j < self.boards@.len() ==> #[trigger] self.boards@[j] == start.boards@[j],
            decreases self.boards@.len() - i,
        {
            let ghost before = self.boards@;
            let mut b = self.boards.remove(i);
            b.remove_user(uid);
            self.boards.insert(i, b);
            proof {
                assert(self.boards@ == before.update(i as int, self.boards@[i as int]));
                assert forall|j: int| 0 <= j < self.boards@.len() implies (#[trigger] self.boards@[j]).wf() by {
                    if j != i {
                        assert(self.boards@[j] == before[j]);
                    }
                }
            }
            i += 1;
        }
        let ghost log0 = self.transfers@;
        let mut kept: Vec<TransferRecord> = Vec::new();
        let mut t: usize = 0;
        while t < self.transfers.len()
            invariant
                self.transfers@ == log0,
                t <= log0.len(),
                kept@ == log0.subrange(0, t as int).filter(not_involving(uid)),
            decreases log0.len() - t,
        {
            let rec = self.transfers[t];
            proof {
                reveal(Seq::filter);
                let sub = log0.subrange(0, t as int + 1);
                assert(sub.drop_last() == log0.subrange(0, t as int));
                assert(sub.last() == rec);
            }
            if rec.from != uid && rec.to != uid {
                kept.push(rec);
            }
            t += 1;
        }
        proof {
            assert(log0.subrange(0, log0.len() as int) == log0);
        }
        self.transfers = kept;
        proof {
            assert forall|a: int, b: int|
                0 <= a < self.chats@.len() && 0 <= b < self.chats@.len() && a != b implies #[trigger] self.chats@[a]@
                    != #[trigger] self.chats@[b]@ by {
                assert(start.chats@[a]@ != start.chats@[b]@);
            }
            assert forall|k: (Option<i64>, Seq<char>)| #[trigger] self.ranked(k) == without_user(start.ranked(k), Some(uid))
                && self.next_seq(k) == start.next_seq(k) by {
                if start.has_chat(k) {
                    let j = start.chat_index(k);
                    assert(self.boards@[j].ranked() == without_user(start.boards@[j].ranked(), Some(uid)));
                } else {
                    assert(!self.has_chat(k));
                }
            }
        }
        if existed {
            1
        } else {
            0
        }
    }
}

/// What a successful `grow(key, uid, incr, today, now)` leaves behind.
pub open spec fn grew(
    before: Ledger,
    after: Ledger,
    key: (Option<i64>, Seq<char>),
    uid: u64,
    incr: i32,
    today: i64,
    now: i64,
) -> bool {
    &&& value_of(after.ranked(key), uid) == value_of(before.ranked(key), uid) + incr
    &&& has_user(after.ranked(key), uid)
    &&& entry_of(after.ranked(key), uid) == LedgerEntry {
        grown_on: Some(today),
        ..entry_after_delta(before.ranked(key), uid, incr, now, before.next_seq(key))
    }
    &&& !may_grow(after.ranked(key), uid, today)
    &&& others_unchanged(before.ranked(key), after.ranked(key), uid)
    &&& after.same_but_chat(&before, key)
    &&& after.next_seq(key) == before.next_seq(key) + if has_user(before.ranked(key), uid) {
        0int
    } else {
        1int
    }
    &&& after.ranked(key).len() == before.ranked(key).len() + if has_user(before.ranked(key), uid) {
        0int
    } else {
        1int
    }
}

/// Growth happens at most once per member, chat and day: after a successful
/// growth on `today`, the member is still registered and may not grow again
/// that day, which is exactly when `grow` answers `AlreadyGrown` and
/// changes nothing.
pub proof fn lemma_grow_once_per_day(
    before: Ledger,
    after: Ledger,
    key: (Option<i64>, Seq<char>),
    uid: u64,
    incr: i32,
    today: i64,
    now: i64,
)
    requires
        before.users().contains_key(uid),
        grew(before, after, key, uid, incr, today, now),
    ensures
        after.users().contains_key(uid),
        !may_grow(after.ranked(key), uid, today),
        value_of(after.ranked(key), uid) == value_of(before.ranked(key), uid) + incr,
{
}

/// Once a delta lifts a member's value above another member's, the lifted
/// member stands strictly ahead of the other in the rank order, and so
/// earlier on the rank pages.
pub proof fn lemma_delta_ranks_ahead(
    before: Ledger,
    after: Ledger,
    key: (Option<i64>, Seq<char>),
    u: u64,
    w: u64,
    delta: i32,
)
    requires
        after.wf(),
        u != w,
        has_user(before.ranked(key), w),
        has_user(after.ranked(key), u),
        value_of(after.ranked(key), u) == value_of(before.ranked(key), u) + delta,
        others_unchanged(before.ranked(key), after.ranked(key), u),
        value_of(before.ranked(key), u) + delta > value_of(before.ranked(key), w),
    ensures
        crate::board::position_of(after.ranked(key), u) < crate::board::position_of(after.ranked(key), w),
{
    after.lemma_ranked_well(key);
    assert(has_user(after.ranked(key), w));
    crate::board::lemma_higher_value_ahead(after.ranked(key), u, w);
}

} // verus!
