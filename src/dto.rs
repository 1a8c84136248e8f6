//! Requests and answers of the external adjustment interface, and the
//! decisions behind them.
use vstd::prelude::*;
use crate::board::{fits_i32, has_user, others_unchanged, value_of};
use crate::chat::ChatKey;
use crate::gate::{recorded, IdempotencyGate};
use crate::ledger::{name_of, shown_position, Ledger, LedgerError};

verus! {

/// An externally triggered change of one member's value.
#[derive(Debug)]
pub struct AdjustRequest {
    pub chat_id: i64,
    pub user_id: u64,
    pub delta: i32,
    pub reason: String,
    pub locale: Option<String>,
    pub silent: Option<bool>,
}

#[derive(Debug, PartialEq, Eq)]
pub enum AdjustResponse {
    Applied { new_length: i32 },
    Skipped { reason: String },
}

impl AdjustResponse {
    pub fn new_applied(new_length: i32) -> (r: Self)
        ensures
            r == (AdjustResponse::Applied { new_length }),
    {
        AdjustResponse::Applied { new_length }
    }

    pub fn new_skipped(reason: String) -> (r: Self)
        ensures
            r == (AdjustResponse::Skipped { reason }),
    {
        AdjustResponse::Skipped { reason }
    }
}

#[derive(Debug, PartialEq, Eq)]
pub enum GetUserResponse {
    Found { chat_id: i64, user_id: u64, name: String, length: i32, pos_in_top: Option<i64> },
    Skipped { reason: String },
}

impl GetUserResponse {
    pub fn new_ok(chat_id: i64, user_id: u64, name: String, length: i32, pos_in_top: Option<i64>) -> (r: Self)
        ensures
            r == (GetUserResponse::Found { chat_id, user_id, name, length, pos_in_top }),
    {
        GetUserResponse::Found { chat_id, user_id, name, length, pos_in_top }
    }

    pub fn new_skipped(reason: String) -> (r: Self)
        ensures
            r == (GetUserResponse::Skipped { reason }),
    {
        GetUserResponse::Skipped { reason }
    }
}

#[derive(Debug)]
pub struct GetTopResponse {
    pub users: Vec<GetUserResponse>,
}

/// The reason given when the member has no entry in the chat.
pub fn not_registered() -> (r: String)
    ensures
        r@ == "user_not_registered"@,
{
    "user_not_registered".to_owned()
}

/// The reason given when the idempotency key was seen within its window.
pub fn duplicate() -> (r: String)
    ensures
        r@ == "duplicate"@,
{
    "duplicate".to_owned()
}

/// Applies an external adjustment: skipped when the member has no entry in
/// the chat, or when `key` was already let through within its window;
/// otherwise the delta is applied and the new value returned.
pub fn adjust(
    ledger: &mut Ledger,
    gate: &mut IdempotencyGate,
    req: &AdjustRequest,
    key: Option<String>,
    now: i64,
    clock: u64,
) -> (r: Result<AdjustResponse, LedgerError>)
    requires
        old(ledger).wf(),
        old(gate).wf(),
    ensures
        final(ledger).wf(),
        final(gate).wf(),
        !has_user(old(ledger).ranked(ChatKey::Id(req.chat_id)@), req.user_id) ==> (r matches Ok(
            AdjustResponse::Skipped { reason },
        ) && reason@ == "user_not_registered"@ && final(ledger).unchanged_from(old(ledger))),
        has_user(old(ledger).ranked(ChatKey::Id(req.chat_id)@), req.user_id) && (key matches Some(k) && !old(
            gate,
        ).admits(k@, clock)) ==> (r matches Ok(AdjustResponse::Skipped { reason }) && reason@ == "duplicate"@
            && final(ledger).unchanged_from(old(ledger))),
        r matches Ok(AdjustResponse::Applied { new_length }) ==> new_length == value_of(
            final(ledger).ranked(ChatKey::Id(req.chat_id)@),
            req.user_id,
        ) && new_length == value_of(old(ledger).ranked(ChatKey::Id(req.chat_id)@), req.user_id) + req.delta,
        has_user(old(ledger).ranked(ChatKey::Id(req.chat_id)@), req.user_id) && (key is None || old(gate).admits(
            key->0@,
            clock,
        )) ==> (r is Ok <==> r matches Ok(AdjustResponse::Applied { .. })),
        r is Err ==> final(ledger).unchanged_from(old(ledger)),
        has_user(old(ledger).ranked(ChatKey::Id(req.chat_id)@), req.user_id) && (key is None || old(gate).admits(
            key->0@,
            clock,
        )) ==> (r is Err <==> !old(ledger).users().contains_key(req.user_id) || !fits_i32(
            value_of(old(ledger).ranked(ChatKey::Id(req.chat_id)@), req.user_id) + req.delta,
        )),
        has_user(old(ledger).ranked(ChatKey::Id(req.chat_id)@), req.user_id) && key is Some ==> recorded(
            *old(gate),
            *final(gate),
            key->0@,
            clock,
        ),
        !(has_user(old(ledger).ranked(ChatKey::Id(req.chat_id)@), req.user_id) && key is Some) ==> *final(gate)
            == *old(gate),
        r matches Ok(AdjustResponse::Applied { .. }) ==> others_unchanged(
            old(ledger).ranked(ChatKey::Id(req.chat_id)@),
            final(ledger).ranked(ChatKey::Id(req.chat_id)@),
            req.user_id,
        ) && final(ledger).same_but_chat(old(ledger), ChatKey::Id(req.chat_id)@),
{
    proof {
        ledger.lemma_unchanged_refl();
    }
    let chat = ChatKey::Id(req.chat_id);
    if !ledger.has_entry(req.user_id, &chat) {
        return Ok(AdjustResponse::new_skipped(not_registered()));
    }
    match key {
        Some(k) => {
            if !gate.admit_key(k, clock) {
                return Ok(AdjustResponse::new_skipped(duplicate()));
            }
        },
        None => {},
    }
    match ledger.apply_delta(&chat, req.user_id, req.delta, now) {
        Ok(g) => Ok(AdjustResponse::new_applied(g.new_length)),
        Err(e) => Err(e),
    }
}

/// Looks up one member of chat `chat_id`: skipped when it has no entry there.
pub fn get_user(ledger: &Ledger, chat_id: i64, user_id: u64) -> (r: GetUserResponse)
    requires
        ledger.wf(),
    ensures
        !has_user(ledger.ranked(ChatKey::Id(chat_id)@), user_id) ==> (r matches GetUserResponse::Skipped { reason }
            && reason@ == "user_not_registered"@),
        has_user(ledger.ranked(ChatKey::Id(chat_id)@), user_id) ==> (r matches GetUserResponse::Found {
            chat_id: c,
            user_id: u,
            name,
            length,
            pos_in_top,
        } && c == chat_id && u == user_id && name@ == name_of(ledger.users(), user_id) && length == value_of(
            ledger.ranked(ChatKey::Id(chat_id)@),
            user_id,
        ) && pos_in_top == shown_position(ledger.ranking_enabled(), ledger.ranked(ChatKey::Id(chat_id)@), user_id)),
{
    let chat = ChatKey::Id(chat_id);
    match ledger.fetch_entry(user_id, &chat) {
        Some(e) => {
            let name = match ledger.get_user(user_id) {
                Some(u) => u.name,
                None => String::new(),
            };
            let pos = ledger.position(user_id, &chat);
            GetUserResponse::new_ok(chat_id, user_id, name, e.value, pos)
        },
        None => GetUserResponse::new_skipped(not_registered()),
    }
}

} // verus!
