use vstd::prelude::*;
use crate::err::CreateStatusError;
use crate::err::PlayCardError;
use crate::err::PlayerDrawError;

verus! {

/// The failures an automated player can run into: a rejected play, a
/// rejected draw, or a status message that could not be built.
#[derive(Debug, Clone, PartialEq, Eq)]
pub enum AiError {
    PlayCardError(PlayCardError),
    DrawCardError(PlayerDrawError),
    CreateStatusError(CreateStatusError),
}

impl AiError {
    /// The text `message` renders for each failure kind.
    pub open spec fn message_spec(&self) -> Seq<char> {
        match self {
            AiError::PlayCardError(_) => "the card could not be played"@,
            AiError::DrawCardError(_) => "drawing cards was refused"@,
            AiError::CreateStatusError(_) => "a status message could not be built"@,
        }
    }

    /// A short human-readable description of the failure.
    pub fn message(&self) -> (r: String)
        ensures
            r@ == self.message_spec(),
            r@.len() > 0,
    {
        let text: &str = match self {
            AiError::PlayCardError(_) => "the card could not be played",
            AiError::DrawCardError(_) => "drawing cards was refused",
            AiError::CreateStatusError(_) => "a status message could not be built",
        };
        proof {
            reveal_strlit("the card could not be played");
            reveal_strlit("drawing cards was refused");
            reveal_strlit("a status message could not be built");
        }
        text.to_owned()
    }
}

impl From<PlayCardError> for AiError {
    fn from(e: PlayCardError) -> (r: Self) {
        AiError::PlayCardError(e)
    }
}

impl vstd::std_specs::convert::FromSpecImpl<PlayCardError> for AiError {
    open spec fn obeys_from_spec() -> bool {
        true
    }

    open spec fn from_spec(e: PlayCardError) -> Self {
        AiError::PlayCardError(e)
    }
}

impl From<CreateStatusError> for AiError {
    fn from(e: CreateStatusError) -> (r: Self) {
        AiError::CreateStatusError(e)
    }
}

impl vstd::std_specs::convert::FromSpecImpl<CreateStatusError> for AiError {
    open spec fn obeys_from_spec() -> bool {
        true
    }

    open spec fn from_spec(e: CreateStatusError) -> Self {
        AiError::CreateStatusError(e)
    }
}

} // verus!
