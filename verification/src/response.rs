use vstd::prelude::*;
use crate::ai::AiError;

verus! {

/// A typed error payload: a machine-readable kind next to a readable text.
#[derive(Debug, Clone, PartialEq, Eq)]
pub struct TypedErrMsg {
    pub type_of_error: String,
    pub message: String,
}

impl TypedErrMsg {
    /// Wraps an engine failure under the given kind.
    pub fn new(type_of_error: &str, error: &AiError) -> (r: TypedErrMsg)
        ensures
            r.type_of_error@ == type_of_error@,
            r.message@ == error.message_spec(),
    {
        TypedErrMsg { type_of_error: type_of_error.to_owned(), message: error.message() }
    }

    /// Builds the payload from a kind and a ready-made text.
    pub fn new_from_scratch(type_of_error: &str, message: String) -> (r: TypedErrMsg)
        ensures
            r.type_of_error@ == type_of_error@,
            r.message == message,
    {
        TypedErrMsg { type_of_error: type_of_error.to_owned(), message }
    }
}

/// A bare error text.
#[derive(Debug, Clone, PartialEq, Eq)]
pub struct ErrMsg {
    pub msg: String,
}

impl ErrMsg {
    pub fn new(message: &str) -> (r: ErrMsg)
        ensures
            r.msg@ == message@,
    {
        ErrMsg { msg: message.to_owned() }
    }

    /// Renders the engine failure's text, as the transport layer shows it.
    pub fn from(err: &AiError) -> (r: ErrMsg)
        ensures
            r.msg@ == err.message_spec(),
    {
        ErrMsg { msg: err.message() }
    }
}

/// The error kinds the draw endpoint reports.
#[derive(Debug, Clone, PartialEq, Eq)]
pub enum TypeOfError {
    GameNotRunning,
    CannotDraw,
}

impl TypeOfError {
    /// The wire spelling of each kind.
    pub open spec fn response_string_spec(&self) -> Seq<char> {
        match self {
            TypeOfError::GameNotRunning => "GAME_NOT_RUNNING"@,
            TypeOfError::CannotDraw => "CANNOT_DRAW"@,
        }
    }

    /// The wire spelling of the kind.
    pub fn into_response_string(&self) -> (r: String)
        ensures
            r@ == self.response_string_spec(),
    {
        let text: &str = match self {
            TypeOfError::GameNotRunning => "GAME_NOT_RUNNING",
            TypeOfError::CannotDraw => "CANNOT_DRAW",
        };
        text.to_owned()
    }
}

/// A typed message body for the draw endpoint.
#[derive(Debug, Clone, PartialEq, Eq)]
pub struct MessageResponseType {
    pub type_of_error: String,
    pub message: String,
}

/// A typed message body for the play endpoint.
#[derive(Debug, Clone, PartialEq, Eq)]
pub struct TypeMessageResponse {
    pub type_of_error: String,
    pub message: String,
}

/// The request body for creating a game.
#[derive(Debug, Clone, PartialEq, Eq)]
pub struct GamePostData {
    pub name: String,
}

/// The response body after creating a game.
#[derive(Debug, Clone, PartialEq, Eq)]
pub struct GameCreateResponse {
    pub game_id: String,
    pub server: String,
    pub token: String,
}

} // verus!
