//! Gifts to one member and "fire": an amount split evenly among several
//! random members.
use std::collections::HashMap;
use vstd::prelude::*;
use crate::board::{entries_needed, fits_i32, has_user, others_unchanged2, value_of, without_user};
use crate::chat::ChatKey;
use crate::ledger::{position_result, GrowthResult, Ledger, LedgerError, TransferKind, TransferRecord};
use crate::sampling::random_members;

verus! {

broadcast use vstd::std_specs::hash::group_hash_axioms, vstd::seq_lib::group_filter_ensures;

/// Why a gift was refused.
#[derive(Debug, PartialEq, Eq)]
pub enum GiftError {
    /// The amount is zero.
    InvalidAmount,
    /// No recipient was named.
    NoRecipient,
    /// Sender and recipient are the same member.
    SamePerson,
    /// The recipient may not receive gifts; carries the name shown instead.
    Restricted(String),
    /// The sender holds less than the amount.
    NotEnough { current: i32, required: u16 },
    /// The recipient has no entry in this chat.
    WrongPerson,
    /// The transfer itself failed.
    Failed(LedgerError),
}

/// Why a fire was refused.
#[derive(Debug, Clone, Copy, PartialEq, Eq)]
pub enum FireError {
    /// The share per recipient would be zero.
    TooSmall,
    /// The sender holds less than the total.
    NotEnough { current: i32, required: u16 },
    /// Fewer members than recipients were found.
    NotEnoughUsers { found: usize, required: u16 },
    /// Every single transfer failed.
    NoTransfers,
}

/// The outcome of a fire: who received a share, with their new values.
#[derive(Debug)]
pub struct FireReport {
    pub delivered: Vec<(u64, i32)>,
    pub amount_per_person: u16,
    pub sender_length: i32,
}

impl FireReport {
    /// What left the sender in all.
    pub fn transferred(&self) -> (r: u128)
        ensures
            r == self.delivered@.len() * self.amount_per_person,
    {
        let n = self.delivered.len() as u128;
        proof {
            assert(n * (self.amount_per_person as u128) <= u128::MAX) by (nonlinear_arith)
                requires
                    n <= u64::MAX,
                    self.amount_per_person <= u16::MAX,
            ;
        }
        n * self.amount_per_person as u128
    }
}

/// The even share of `total` among `recipients`; `None` when it is zero.
pub fn amount_per_person(total: u16, recipients: u16) -> (r: Option<u16>)
    requires
        recipients > 0,
    ensures
        r == if total / recipients == 0 {
            None
        } else {
            Some((total / recipients) as u16)
        },
{
    let share = total / recipients;
    if share == 0 {
        None
    } else {
        Some(share)
    }
}

/// Checks a gift of `amount` from `from` to `to` in chat `key`, in the order
/// a user would correct them, and performs it when all pass.
pub fn gift(
    ledger: &mut Ledger,
    key: &ChatKey,
    from: u64,
    to: Option<u64>,
    amount: u16,
    restricted: &HashMap<u64, String>,
    now: i64,
) -> (r: Result<(GrowthResult, GrowthResult), GiftError>)
    requires
        old(ledger).wf(),
    ensures
        final(ledger).wf(),
        (r == Err::<(GrowthResult, GrowthResult), GiftError>(GiftError::InvalidAmount)) <==> amount == 0,
        (r == Err::<(GrowthResult, GrowthResult), GiftError>(GiftError::NoRecipient)) <==> amount > 0 && to is None,
        (r == Err::<(GrowthResult, GrowthResult), GiftError>(GiftError::SamePerson)) <==> amount > 0 && to == Some(from),
        (r matches Err(GiftError::Restricted(_))) <==> amount > 0 && (to matches Some(t) && t != from
            && restricted@.contains_key(t)),
        r matches Err(GiftError::Restricted(name)) ==> name == restricted@[to->0],
        r matches Err(GiftError::NotEnough { current, required }) ==> current == value_of(old(ledger).ranked(key@), from)
            && required == amount,
        (r matches Err(GiftError::NotEnough { .. })) <==> amount > 0 && (to matches Some(t) && t != from
            && !restricted@.contains_key(t) && value_of(old(ledger).ranked(key@), from) < amount),
        (r == Err::<(GrowthResult, GrowthResult), GiftError>(GiftError::WrongPerson)) <==> amount > 0 && (to matches Some(t)
            && t != from && !restricted@.contains_key(t) && value_of(old(ledger).ranked(key@), from) >= amount
            && !has_user(old(ledger).ranked(key@), t)),
        r is Err && !(r matches Err(GiftError::Failed(_))) ==> final(ledger).unchanged_from(old(ledger)),
        r matches Err(GiftError::Failed(e)) ==> final(ledger).unchanged_from(old(ledger)) && e != LedgerError::SameUser,
        r is Ok ==> (to matches Some(t) && value_of(final(ledger).ranked(key@), from) == value_of(
            old(ledger).ranked(key@),
            from,
        ) - amount && value_of(final(ledger).ranked(key@), t) == value_of(old(ledger).ranked(key@), t) + amount),
        r matches Ok((gf, gt)) ==> gf.new_length == value_of(final(ledger).ranked(key@), from)
            && gt.new_length == value_of(final(ledger).ranked(key@), to->0),
        r is Ok <==> amount > 0 && (to matches Some(t) && t != from && !restricted@.contains_key(t) && value_of(
            old(ledger).ranked(key@),
            from,
        ) >= amount && has_user(old(ledger).ranked(key@), t) && old(ledger).users().contains_key(from)
            && old(ledger).users().contains_key(t) && value_of(old(ledger).ranked(key@), t) + amount <= i32::MAX),
        r matches Ok((gf, gt)) ==> {
            &&& gf.pos_in_top == position_result(old(ledger).ranking_enabled(), final(ledger).ranked(key@), from)
            &&& gt.pos_in_top == position_result(old(ledger).ranking_enabled(), final(ledger).ranked(key@), to->0)
            &&& others_unchanged2(old(ledger).ranked(key@), final(ledger).ranked(key@), from, to->0)
            &&& final(ledger).same_but_chat(old(ledger), key@)
            &&& final(ledger).log() == old(ledger).log().push(
                TransferRecord {
                    chat: final(ledger).chat_index(key@) as usize,
                    from,
                    to: to->0,
                    amount,
                    kind: TransferKind::Gift,
                    at: now,
                },
            )
        },
{
    proof {
        ledger.lemma_unchanged_refl();
    }
    if amount == 0 {
        return Err(GiftError::InvalidAmount);
    }
    let to = match to {
        Some(t) => t,
        None => return Err(GiftError::NoRecipient),
    };
    if to == from {
        return Err(GiftError::SamePerson);
    }
    match restricted.get(&to) {
        Some(name) => return Err(GiftError::Restricted(name.clone())),
        None => {},
    }
    let current = ledger.fetch_value(from, key);
    if current < amount as i32 {
        return Err(GiftError::NotEnough { current, required: amount });
    }
    if !ledger.has_entry(to, key) {
        return Err(GiftError::WrongPerson);
    }
    proof {
        assert(has_user(old(ledger).ranked(key@), from));
        assert(entries_needed(old(ledger).ranked(key@), from, to) == 0);
    }
    match ledger.transfer(key, from, to, amount, TransferKind::Gift, now) {
        Ok(res) => Ok(res),
        Err(e) => Err(GiftError::Failed(e)),
    }
}

/// A share of `amount` can go from `sender` to `to`: both are registered and
/// the value of `to` stays in range.
pub open spec fn share_fits(ledger: Ledger, key: (Option<i64>, Seq<char>), sender: u64, to: u64, amount: u16) -> bool {
    ledger.users().contains_key(sender) && ledger.users().contains_key(to) && value_of(ledger.ranked(key), to)
        + amount <= i32::MAX
}

pub open spec fn fits_pred(ledger: Ledger, key: (Option<i64>, Seq<char>), sender: u64, amount: u16) -> spec_fn(u64) -> bool {
    |u: u64| share_fits(ledger, key, sender, u, amount)
}

/// `picked` could be the members a fire of `count` shares drew: `count`
/// distinct members of the chat, none of them the sender.
pub open spec fn drawn(ledger: Ledger, key: (Option<i64>, Seq<char>), sender: u64, count: int, picked: Seq<u64>) -> bool {
    &&& picked.len() == count
    &&& picked.no_duplicates()
    &&& forall|i: int| 0 <= i < picked.len() ==> #[trigger] picked[i] != sender && has_user(ledger.ranked(key), picked[i])
}

pub open spec fn receivers(r: Seq<(u64, i32)>) -> Seq<u64> {
    r.map_values(|p: (u64, i32)| p.0)
}

/// What `fire_to` guarantees of a ledger `before` and `after` it, and of the
/// shares `delivered` that it reports.
pub open spec fn fired(
    before: Ledger,
    after: Ledger,
    key: (Option<i64>, Seq<char>),
    sender: u64,
    recipients: Seq<u64>,
    amount: u16,
    delivered: Seq<(u64, i32)>,
) -> bool {
    &&& receivers(delivered) == recipients.filter(fits_pred(before, key, sender, amount))
    &&& value_of(after.ranked(key), sender) == value_of(before.ranked(key), sender) - delivered.len() * amount
    &&& forall|j: int|
        0 <= j < delivered.len() ==> (#[trigger] delivered[j]).1 == value_of(after.ranked(key), delivered[j].0)
            && delivered[j].1 == value_of(before.ranked(key), delivered[j].0) + amount
    &&& forall|i: int|
        0 <= i < recipients.len() && !share_fits(before, key, sender, #[trigger] recipients[i], amount) ==> value_of(
            after.ranked(key),
            recipients[i],
        ) == value_of(before.ranked(key), recipients[i])
    &&& after.log().len() == before.log().len() + delivered.len()
    &&& after.users() == before.users()
}

/// Sends `amount` from `sender` to each of `recipients` in turn, each as a
/// transfer of its own; a failed one is skipped and costs the sender nothing.
/// Exactly the recipients that are registered and stay in range receive it.
#[verifier::rlimit(50)]
pub fn fire_to(
    ledger: &mut Ledger,
    key: &ChatKey,
    sender: u64,
    recipients: &Vec<u64>,
    amount: u16,
    now: i64,
) -> (r: Vec<(u64, i32)>)
    requires
        old(ledger).wf(),
        has_user(old(ledger).ranked(key@), sender),
        value_of(old(ledger).ranked(key@), sender) >= recipients@.len() * amount,
        recipients@.len() * amount <= u16::MAX,
        recipients@.no_duplicates(),
        forall|i: int| 0 <= i < recipients@.len() ==> #[trigger] recipients@[i] != sender && has_user(
            old(ledger).ranked(key@),
            recipients@[i],
        ),
    ensures
        final(ledger).wf(),
        fired(*old(ledger), *final(ledger), key@, sender, recipients@, amount, r@),
        r@.len() == 0 ==> final(ledger).unchanged_from(old(ledger)),
{
    let ghost start = *ledger;
    proof {
        ledger.lemma_unchanged_refl();
    }
    let ghost pred = fits_pred(start, key@, sender, amount);
    let mut delivered: Vec<(u64, i32)> = Vec::new();
    let mut i: usize = 0;
    while i < recipients.len()
        invariant
            ledger.wf(),
            i <= recipients@.len(),
            pred == fits_pred(start, key@, sender, amount),
            receivers(delivered@) == recipients@.subrange(0, i as int).filter(pred),
            delivered@.len() <= i,
            ledger.users() == start.users(),
            delivered@.len() == 0 ==> ledger.unchanged_from(&start),
            has_user(ledger.ranked(key@), sender),
            recipients@.len() * amount <= u16::MAX,
            value_of(start.ranked(key@), sender) >= recipients@.len() * amount,
            value_of(ledger.ranked(key@), sender) == value_of(start.ranked(key@), sender) - delivered@.len() * amount,
            recipients@.no_duplicates(),
            forall|q: int| 0 <= q < recipients@.len() ==> #[trigger] recipients@[q] != sender && has_user(
                start.ranked(key@),
                recipients@[q],
            ),
            forall|q: int| 0 <= q < recipients@.len() ==> has_user(ledger.ranked(key@), #[trigger] recipients@[q]),
            forall|q: int|
                i <= q < recipients@.len() ==> value_of(ledger.ranked(key@), #[trigger] recipients@[q]) == value_of(
                    start.ranked(key@),
                    recipients@[q],
                ),
            forall|q: int|
                0 <= q < i && !share_fits(start, key@, sender, #[trigger] recipients@[q], amount) ==> value_of(
                    ledger.ranked(key@),
                    recipients@[q],
                ) == value_of(start.ranked(key@), recipients@[q]),
            forall|j: int|
                0 <= j < delivered@.len() ==> exists|q: int|
                    0 <= q < i && #[trigger] delivered@[j].0 == recipients@[q],
            forall|j: int|
                0 <= j < delivered@.len() ==> (#[trigger] delivered@[j]).1 == value_of(ledger.ranked(key@), delivered@[j].0)
                    && delivered@[j].1 == value_of(start.ranked(key@), delivered@[j].0) + amount,
            ledger.log().len() == start.log().len() + delivered@.len(),
        decreases recipients@.len() - i,
    {
        let to = recipients[i];
        let ghost before = *ledger;
        let ghost dbefore = delivered@;
        proof {
            assert(delivered@.len() * amount <= i * amount) by (nonlinear_arith)
                requires delivered@.len() <= i;
            assert((i + 1) * amount <= recipients@.len() * amount) by (nonlinear_arith)
                requires i + 1 <= recipients@.len();
            assert(i * amount + amount == (i + 1) * amount) by (nonlinear_arith);
            assert(value_of(before.ranked(key@), to) == value_of(start.ranked(key@), to));
            reveal(Seq::filter);
            let t = recipients@.subrange(0, i as int + 1);
            assert(t.drop_last() == recipients@.subrange(0, i as int));
            assert(t.last() == to);
        }
        let res = ledger.transfer(key, sender, to, amount, TransferKind::Fire, now);
        match res {
            Ok((_, gt)) => {
                delivered.push((to, gt.new_length));
                proof {
                    assert(share_fits(start, key@, sender, to, amount));
                    assert(receivers(delivered@) == receivers(dbefore).push(to));
                    assert forall|q: int| 0 <= q < recipients@.len() implies has_user(ledger.ranked(key@), #[trigger] recipients@[q]) by {
                        if recipients@[q] != to {
                            assert(has_user(before.ranked(key@), recipients@[q]));
                        }
                    }
                    assert forall|q: int| i < q < recipients@.len() implies value_of(ledger.ranked(key@), #[trigger] recipients@[q])
                        == value_of(start.ranked(key@), recipients@[q]) by {
                        assert(recipients@[q] != to);
                        assert(value_of(before.ranked(key@), recipients@[q]) == value_of(start.ranked(key@), recipients@[q]));
                    }
                    assert forall|q: int| 0 <= q < i + 1 && !share_fits(start, key@, sender, #[trigger] recipients@[q], amount) implies value_of(
                        ledger.ranked(key@), recipients@[q]) == value_of(start.ranked(key@), recipients@[q]) by {
                        assert(recipients@[q] != to);
                    }
                    assert forall|j: int| 0 <= j < delivered@.len() implies exists|q: int|
                        0 <= q < i + 1 && #[trigger] delivered@[j].0 == recipients@[q] by {
                        if j < dbefore.len() {
                            assert(delivered@[j] == dbefore[j]);
                        } else {
                            assert(delivered@[j].0 == recipients@[i as int]);
                        }
                    }
                    assert forall|j: int| 0 <= j < delivered@.len() implies (#[trigger] delivered@[j]).1 == value_of(
                        ledger.ranked(key@), delivered@[j].0) && delivered@[j].1 == value_of(start.ranked(key@), delivered@[j].0)
                        + amount by {
                        if j < dbefore.len() {
                            assert(delivered@[j] == dbefore[j]);
                            let q = choose|q: int| 0 <= q < i && #[trigger] dbefore[j].0 == recipients@[q];
                            assert(recipients@[q] != to);
                        }
                    }
                    assert((dbefore.len() + 1) * amount == dbefore.len() * amount + amount) by (nonlinear_arith);
                }
            },
            Err(e) => {
                proof {
                    assert(has_user(before.ranked(key@), to));
                    assert(entries_needed(before.ranked(key@), sender, to) == 0);
                    if e == LedgerError::OutOfRange {
                        assert(value_of(before.ranked(key@), sender) - amount >= 0);
                        assert(!fits_i32(value_of(before.ranked(key@), to) + amount));
                    }
                    assert(before.users() == start.users());
                    assert(!share_fits(start, key@, sender, to, amount));
                    if delivered@.len() == 0 {
                        Ledger::lemma_unchanged_trans(start, before, *ledger);
                    }
                }
            },
        }
        i += 1;
    }
    proof {
        assert(recipients@.subrange(0, recipients@.len() as int) == recipients@);
    }
    delivered
}

/// Splits `total` evenly among `recipients_count` random members of chat
/// `key` other than `sender`, and sends each share as a transfer of its own.
/// Refused before any change when the share is zero, the sender holds less
/// than `total`, or too few members are found; a share that fails is simply
/// left out of the report.
pub fn fire(
    ledger: &mut Ledger,
    key: &ChatKey,
    sender: u64,
    total: u16,
    recipients_count: u16,
    now: i64,
) -> (r: Result<FireReport, FireError>)
    requires
        old(ledger).wf(),
        recipients_count > 0,
    ensures
        final(ledger).wf(),
        (r == Err::<FireReport, FireError>(FireError::TooSmall)) <==> total / recipients_count == 0,
        r matches Err(FireError::NotEnough { current, required }) ==> current == value_of(old(ledger).ranked(key@), sender)
            && required == total,
        (r matches Err(FireError::NotEnough { .. })) <==> total / recipients_count > 0 && value_of(
            old(ledger).ranked(key@),
            sender,
        ) < total,
        (r matches Err(FireError::NotEnoughUsers { .. })) <==> total / recipients_count > 0 && value_of(
            old(ledger).ranked(key@),
            sender,
        ) >= total && without_user(old(ledger).ranked(key@), Some(sender)).len() < recipients_count,
        r matches Err(FireError::NotEnoughUsers { found, required }) ==> found == without_user(
            old(ledger).ranked(key@),
            Some(sender),
        ).len() && required == recipients_count,
        r is Err ==> final(ledger).unchanged_from(old(ledger)),
        total / recipients_count > 0 && value_of(old(ledger).ranked(key@), sender) >= total && without_user(
            old(ledger).ranked(key@),
            Some(sender),
        ).len() >= recipients_count && (forall|u: u64|
            u != sender && has_user(old(ledger).ranked(key@), u) ==> #[trigger] share_fits(
                *old(ledger),
                key@,
                sender,
                u,
                (total / recipients_count) as u16,
            )) ==> r is Ok,
        r == Err::<FireReport, FireError>(FireError::NoTransfers) ==> exists|picked: Seq<u64>|
            drawn(*old(ledger), key@, sender, recipients_count as int, picked) && #[trigger] picked.filter(
                fits_pred(*old(ledger), key@, sender, (total / recipients_count) as u16),
            ).len() == 0,
        r matches Ok(rep) ==> {
            &&& rep.amount_per_person == total / recipients_count
            &&& exists|picked: Seq<u64>|
                drawn(*old(ledger), key@, sender, recipients_count as int, picked) && #[trigger] fired(
                    *old(ledger),
                    *final(ledger),
                    key@,
                    sender,
                    picked,
                    rep.amount_per_person,
                    rep.delivered@,
                )
            &&& rep.delivered@.len() > 0
            &&& rep.sender_length == value_of(final(ledger).ranked(key@), sender)
            &&& receivers(rep.delivered@).no_duplicates()
            &&& forall|j: int|
                0 <= j < rep.delivered@.len() ==> #[trigger] rep.delivered@[j].0 != sender && has_user(
                    old(ledger).ranked(key@),
                    rep.delivered@[j].0,
                )
        },
{
    proof {
        ledger.lemma_unchanged_refl();
    }
    let per = match amount_per_person(total, recipients_count) {
        Some(p) => p,
        None => return Err(FireError::TooSmall),
    };
    let current = ledger.fetch_value(sender, key);
    if current < total as i32 {
        return Err(FireError::NotEnough { current, required: total });
    }
    let picked = random_members(ledger, key, Some(sender), recipients_count as u64);
    if picked.len() < recipients_count as usize {
        return Err(FireError::NotEnoughUsers { found: picked.len(), required: recipients_count });
    }
    let ghost pool = without_user(ledger.ranked(key@), Some(sender));
    proof {
        ledger.lemma_ranked_well(key@);
    }
    let mut recipients: Vec<u64> = Vec::new();
    let mut i: usize = 0;
    while i < picked.len()
        invariant
            i <= picked@.len(),
            recipients@.len() == i,
            crate::board::ranked_well(ledger.ranked(key@)),
            pool == without_user(ledger.ranked(key@), Some(sender)),
            forall|q: int| 0 <= q < picked@.len() ==> pool.contains(#[trigger] picked@[q]),
            forall|a: int, b: int| 0 <= a < picked@.len() && 0 <= b < picked@.len() && a != b ==> picked@[a] != picked@[b],
            forall|q: int| 0 <= q < i ==> #[trigger] recipients@[q] == picked@[q].user,
        decreases picked@.len() - i,
    {
        recipients.push(picked[i].user);
        i += 1;
    }
    proof {
        assert forall|a: int| 0 <= a < recipients@.len() implies #[trigger] recipients@[a] != sender && has_user(
            ledger.ranked(key@), recipients@[a]) by {
            crate::board::lemma_without_user_member(ledger.ranked(key@), Some(sender), picked@[a]);
        }
        assert forall|a: int, b: int| 0 <= a < recipients@.len() && 0 <= b < recipients@.len() && a != b implies recipients@[a]
            != recipients@[b] by {
            crate::board::lemma_without_user_member(ledger.ranked(key@), Some(sender), picked@[a]);
            crate::board::lemma_without_user_member(ledger.ranked(key@), Some(sender), picked@[b]);
            if recipients@[a] == recipients@[b] {
                crate::board::lemma_same_user_same_entry(ledger.ranked(key@), picked@[a], picked@[b]);
            }
        }
        assert(recipients@.len() * per <= total) by (nonlinear_arith)
            requires
                recipients@.len() == recipients_count,
                per == total / recipients_count,
                recipients_count > 0,
        ;
        assert(has_user(ledger.ranked(key@), sender));
    }
    proof {
        assert(drawn(*old(ledger), key@, sender, recipients_count as int, recipients@));
    }
    let delivered = fire_to(ledger, key, sender, &recipients, per, now);
    if delivered.len() == 0 {
        proof {
            let pred = fits_pred(*old(ledger), key@, sender, per);
            assert(recipients@.filter(pred).len() == 0);
            if forall|u: u64| u != sender && has_user(old(ledger).ranked(key@), u) ==> #[trigger] share_fits(
                *old(ledger),
                key@,
                sender,
                u,
                per,
            ) {
                assert forall|i: int| 0 <= i < recipients@.len() implies pred(#[trigger] recipients@[i]) by {
                    assert(share_fits(*old(ledger), key@, sender, recipients@[i], per));
                }
                lemma_filter_all_pass(recipients@, pred);
            }
        }
        return Err(FireError::NoTransfers);
    }
    let sender_length = ledger.fetch_value(sender, key);
    proof {
        let f = recipients@.filter(fits_pred(*old(ledger), key@, sender, per));
        lemma_filter_no_duplicates(recipients@, fits_pred(*old(ledger), key@, sender, per));
        assert forall|j: int| 0 <= j < delivered@.len() implies #[trigger] delivered@[j].0 != sender && has_user(
            old(ledger).ranked(key@), delivered@[j].0) by {
            assert(receivers(delivered@)[j] == delivered@[j].0);
            assert(f[j] == delivered@[j].0);
            assert(f.contains(delivered@[j].0));
            recipients@.lemma_filter_contains_rev(fits_pred(*old(ledger), key@, sender, per), delivered@[j].0);
            let q = choose|q: int| 0 <= q < recipients@.len() && recipients@[q] == delivered@[j].0;
            assert(recipients@[q] != sender && has_user(old(ledger).ranked(key@), recipients@[q]));
        }
        assert(fired(*old(ledger), *ledger, key@, sender, recipients@, per, delivered@));
        assert(receivers(delivered@) == f);
        assert(receivers(delivered@).no_duplicates());
        assert(drawn(*old(ledger), key@, sender, recipients_count as int, recipients@));
    }
    let rep = FireReport { delivered, amount_per_person: per, sender_length };
    proof {
        assert(rep.amount_per_person == total / recipients_count);
        assert(rep.delivered@.len() > 0);
        assert(rep.sender_length == value_of(ledger.ranked(key@), sender));
        assert(receivers(rep.delivered@).no_duplicates());
        assert(fired(*old(ledger), *ledger, key@, sender, recipients@, rep.amount_per_person, rep.delivered@));
    }
    Ok(rep)
}

/// When exactly one of the recipients cannot take its share, every other
/// recipient gets one, and the sender loses exactly the shares delivered.
pub proof fn lemma_fan_out_one_failure(
    before: Ledger,
    after: Ledger,
    key: (Option<i64>, Seq<char>),
    sender: u64,
    recipients: Seq<u64>,
    amount: u16,
    delivered: Seq<(u64, i32)>,
    failed: int,
)
    requires
        fired(before, after, key, sender, recipients, amount, delivered),
        0 <= failed < recipients.len(),
        !share_fits(before, key, sender, recipients[failed], amount),
        forall|i: int| 0 <= i < recipients.len() && i != failed ==> share_fits(before, key, sender, #[trigger] recipients[i], amount),
    ensures
        delivered.len() == recipients.len() - 1,
        value_of(after.ranked(key), sender) == value_of(before.ranked(key), sender) - (recipients.len() - 1) * amount,
{
    lemma_filter_all_but_one(recipients, fits_pred(before, key, sender, amount), failed);
    assert(receivers(delivered).len() == delivered.len());
}

/// Filtering out exactly one element shortens a sequence by one.
proof fn lemma_filter_all_but_one(s: Seq<u64>, p: spec_fn(u64) -> bool, k: int)
    requires
        0 <= k < s.len(),
        !p(s[k]),
        forall|i: int| 0 <= i < s.len() && i != k ==> p(#[trigger] s[i]),
    ensures
        s.filter(p).len() == s.len() - 1,
    decreases s.len(),
{
    reveal(Seq::filter);
    let d = s.drop_last();
    if k == s.len() - 1 {
        assert forall|i: int| 0 <= i < d.len() implies p(#[trigger] d[i]) by {
            assert(d[i] == s[i]);
        }
        lemma_filter_all_pass(d, p);
    } else {
        assert forall|i: int| 0 <= i < d.len() && i != k implies p(#[trigger] d[i]) by {
            assert(d[i] == s[i]);
        }
        assert(d[k] == s[k]);
        lemma_filter_all_but_one(d, p, k);
        assert(p(s.last()));
    }
}

/// When every element passes, filtering keeps the sequence as it is.
pub proof fn lemma_filter_all_pass(s: Seq<u64>, p: spec_fn(u64) -> bool)
    requires
        forall|i: int| 0 <= i < s.len() ==> p(#[trigger] s[i]),
    ensures
        s.filter(p) == s,
    decreases s.len(),
{
    reveal(Seq::filter);
    if s.len() > 0 {
        let d = s.drop_last();
        assert forall|i: int| 0 <= i < d.len() implies p(#[trigger] d[i]) by {
            assert(d[i] == s[i]);
        }
        lemma_filter_all_pass(d, p);
        assert(p(s[s.len() - 1]));
        assert(d.push(s.last()) == s);
    }
}

/// Filtering a sequence without repeats leaves none.
pub proof fn lemma_filter_no_duplicates(s: Seq<u64>, p: spec_fn(u64) -> bool)
    requires
        s.no_duplicates(),
    ensures
        s.filter(p).no_duplicates(),
    decreases s.len(),
{
    reveal(Seq::filter);
    if s.len() > 0 {
        let d = s.drop_last();
        assert forall|i: int, j: int| 0 <= i < d.len() && 0 <= j < d.len() && i != j implies d[i] != d[j] by {
            assert(d[i] == s[i] && d[j] == s[j]);
        }
        lemma_filter_no_duplicates(d, p);
        let fd = d.filter(p);
        if p(s.last()) {
            assert(!fd.contains(s.last())) by {
                if fd.contains(s.last()) {
                    d.lemma_filter_contains_rev(p, s.last());
                    let k = choose|k: int| 0 <= k < d.len() && d[k] == s.last();
                    assert(s[k] == s[s.len() - 1]);
                }
            }
            let f = fd.push(s.last());
            assert forall|i: int, j: int| 0 <= i < f.len() && 0 <= j < f.len() && i != j implies f[i] != f[j] by {
                if i == fd.len() {
                    assert(fd.contains(f[j]));
                } else if j == fd.len() {
                    assert(fd.contains(f[i]));
                }
            }
        }
    }
}

} // verus!
