use vstd::prelude::*;
use crate::card::Card;

verus! {

/// One outbound notification event. Delivery is a collaborator concern: the
/// engine only records what must be sent, never performs the sending itself.
/// A `Status` event asks the collaborator to build the personalized snapshot
/// for its recipient from the game's read queries.
#[derive(Debug, PartialEq, Eq)]
pub enum WSMsg {
    Status { recipient: String },
    PlayCard { by: String, next: String, card: Card },
    Draw { by: String, next: String, count: usize },
    Finish { player: String },
}

impl Clone for WSMsg {
    fn clone(&self) -> (r: Self)
        ensures
            r == *self,
    {
        match self {
            WSMsg::Status { recipient } => WSMsg::Status { recipient: recipient.clone() },
            WSMsg::PlayCard { by, next, card } => WSMsg::PlayCard {
                by: by.clone(),
                next: next.clone(),
                card: *card,
            },
            WSMsg::Draw { by, next, count } => WSMsg::Draw {
                by: by.clone(),
                next: next.clone(),
                count: *count,
            },
            WSMsg::Finish { player } => WSMsg::Finish { player: player.clone() },
        }
    }
}

/// A notification event addressed to one seated player.
#[derive(Debug, PartialEq, Eq)]
pub struct AddressedWSMsg {
    pub recipient: String,
    pub msg: WSMsg,
}

impl Clone for AddressedWSMsg {
    fn clone(&self) -> (r: Self)
        ensures
            r == *self,
    {
        AddressedWSMsg { recipient: self.recipient.clone(), msg: self.msg.clone() }
    }
}

} // verus!
