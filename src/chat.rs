//! How a caller names a chat.
use vstd::prelude::*;

verus! {

/// A chat is named either by its numeric id or, where the caller only holds
/// an inline-context token, by an opaque chat-instance string.
#[derive(Debug)]
pub enum ChatKey {
    Id(i64),
    Instance(String),
}

impl View for ChatKey {
    /// The id, or the instance string; the two never coincide.
    type V = (Option<i64>, Seq<char>);

    open spec fn view(&self) -> (Option<i64>, Seq<char>) {
        match self {
            ChatKey::Id(id) => (Some(*id), Seq::empty()),
            ChatKey::Instance(s) => (None, s@),
        }
    }
}

impl ChatKey {
    /// Whether the two keys name the same chat.
    pub fn same_as(&self, other: &ChatKey) -> (r: bool)
        ensures
            r == (self@ == other@),
    {
        match (self, other) {
            (ChatKey::Id(a), ChatKey::Id(b)) => *a == *b,
            (ChatKey::Instance(a), ChatKey::Instance(b)) => {
                let r = *a == *b;
                r
            },
            _ => false,
        }
    }

    pub fn duplicate(&self) -> (r: ChatKey)
        ensures
            r@ == self@,
    {
        match self {
            ChatKey::Id(a) => ChatKey::Id(*a),
            ChatKey::Instance(s) => ChatKey::Instance(s.clone()),
        }
    }
}

} // verus!
