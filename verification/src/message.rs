//! The wire-level message taxonomy: requests, responses, notifications,
//! errors, and the envelope that carries them.

use vstd::prelude::*;

use crate::board::Player;
use crate::game::{Conclusion, Game, State};

verus! {

/// What a client may ask of the session actor.
#[derive(Debug, PartialEq)]
pub enum Request {
    JoinMatch(Option<Player>),
    GetGameInfo,
    Chat(String),
    PlayTurn(u8),
    Disconnect,
}

/// A successful reply to a request.
#[derive(Debug, PartialEq)]
pub enum Response {
    Ack,
    GameInfo(Game),
    Joined(Option<Player>),
    TurnDone(Game),
    GameConcluded(Conclusion),
}

/// A message pushed to every connection, unsolicited.
#[derive(Debug, PartialEq)]
pub enum Notification {
    Chat { from: String, msg: String },
    ServerInfo(String),
}

/// A typed failure reply to a request.
#[derive(Debug, PartialEq)]
pub enum Error {
    WaitingForHost,
    InvalidTile,
    NotYourTurn,
    NotAllowed,
    MatchInProgress,
    GameConcluded(Conclusion),
    InvalidParam(String),
    InvalidMessage(String),
    ServerError(String),
}

/// The envelope: everything that travels on the wire is one of these.
#[derive(Debug, PartialEq)]
pub enum Message {
    Request(Request),
    Response(Result<Response, Error>),
    Notification(Notification),
}

/// The mathematical shape of a game: the cells and the turn state.
pub struct GameV {
    pub board: Seq<Option<Player>>,
    pub state: State,
}

/// The mathematical shape of a request; chat text is a character sequence.
pub enum RequestV {
    JoinMatch(Option<Player>),
    GetGameInfo,
    Chat(Seq<char>),
    PlayTurn(u8),
    Disconnect,
}

pub enum ResponseV {
    Ack,
    GameInfo(GameV),
    Joined(Option<Player>),
    TurnDone(GameV),
    GameConcluded(Conclusion),
}

pub enum NotificationV {
    Chat { from: Seq<char>, msg: Seq<char> },
    ServerInfo(Seq<char>),
}

pub enum ErrorV {
    WaitingForHost,
    InvalidTile,
    NotYourTurn,
    NotAllowed,
    MatchInProgress,
    GameConcluded(Conclusion),
    InvalidParam(Seq<char>),
    InvalidMessage(Seq<char>),
    ServerError(Seq<char>),
}

pub enum MessageV {
    Request(RequestV),
    Response(Result<ResponseV, ErrorV>),
    Notification(NotificationV),
}

impl View for Game {
    type V = GameV;

    open spec fn view(&self) -> GameV {
        GameV { board: self.board@, state: self.state }
    }
}

impl View for Request {
    type V = RequestV;

    open spec fn view(&self) -> RequestV {
        match self {
            Request::JoinMatch(p) => RequestV::JoinMatch(*p),
            Request::GetGameInfo => RequestV::GetGameInfo,
            Request::Chat(s) => RequestV::Chat(s@),
            Request::PlayTurn(t) => RequestV::PlayTurn(*t),
            Request::Disconnect => RequestV::Disconnect,
        }
    }
}

impl View for Response {
    type V = ResponseV;

    open spec fn view(&self) -> ResponseV {
        match self {
            Response::Ack => ResponseV::Ack,
            Response::GameInfo(g) => ResponseV::GameInfo(g@),
            Response::Joined(p) => ResponseV::Joined(*p),
            Response::TurnDone(g) => ResponseV::TurnDone(g@),
            Response::GameConcluded(c) => ResponseV::GameConcluded(*c),
        }
    }
}

impl View for Notification {
    type V = NotificationV;

    open spec fn view(&self) -> NotificationV {
        match self {
            Notification::Chat { from, msg } => NotificationV::Chat { from: from@, msg: msg@ },
            Notification::ServerInfo(s) => NotificationV::ServerInfo(s@),
        }
    }
}

impl View for Error {
    type V = ErrorV;

    open spec fn view(&self) -> ErrorV {
        match self {
            Error::WaitingForHost => ErrorV::WaitingForHost,
            Error::InvalidTile => ErrorV::InvalidTile,
            Error::NotYourTurn => ErrorV::NotYourTurn,
            Error::NotAllowed => ErrorV::NotAllowed,
            Error::MatchInProgress => ErrorV::MatchInProgress,
            Error::GameConcluded(c) => ErrorV::GameConcluded(*c),
            Error::InvalidParam(s) => ErrorV::InvalidParam(s@),
            Error::InvalidMessage(s) => ErrorV::InvalidMessage(s@),
            Error::ServerError(s) => ErrorV::ServerError(s@),
        }
    }
}

impl View for Message {
    type V = MessageV;

    open spec fn view(&self) -> MessageV {
        match self {
            Message::Request(r) => MessageV::Request(r@),
            Message::Response(Ok(r)) => MessageV::Response(Ok(r@)),
            Message::Response(Err(e)) => MessageV::Response(Err(e@)),
            Message::Notification(n) => MessageV::Notification(n@),
        }
    }
}


impl Clone for Request {
    fn clone(&self) -> (r: Request)
        ensures
            r == *self,
    {
        match self {
            Request::JoinMatch(p) => Request::JoinMatch(*p),
            Request::GetGameInfo => Request::GetGameInfo,
            Request::Chat(s) => Request::Chat(s.clone()),
            Request::PlayTurn(t) => Request::PlayTurn(*t),
            Request::Disconnect => Request::Disconnect,
        }
    }
}

impl Clone for Response {
    fn clone(&self) -> (r: Response)
        ensures
            r == *self,
    {
        match self {
            Response::Ack => Response::Ack,
            Response::GameInfo(g) => Response::GameInfo(*g),
            Response::Joined(p) => Response::Joined(*p),
            Response::TurnDone(g) => Response::TurnDone(*g),
            Response::GameConcluded(c) => Response::GameConcluded(*c),
        }
    }
}

impl Clone for Notification {
    fn clone(&self) -> (r: Notification)
        ensures
            r == *self,
    {
        match self {
            Notification::Chat { from, msg } => Notification::Chat {
                from: from.clone(),
                msg: msg.clone(),
            },
            Notification::ServerInfo(s) => Notification::ServerInfo(s.clone()),
        }
    }
}

impl Clone for Error {
    fn clone(&self) -> (r: Error)
        ensures
            r == *self,
    {
        match self {
            Error::WaitingForHost => Error::WaitingForHost,
            Error::InvalidTile => Error::InvalidTile,
            Error::NotYourTurn => Error::NotYourTurn,
            Error::NotAllowed => Error::NotAllowed,
            Error::MatchInProgress => Error::MatchInProgress,
            Error::GameConcluded(c) => Error::GameConcluded(*c),
            Error::InvalidParam(s) => Error::InvalidParam(s.clone()),
            Error::InvalidMessage(s) => Error::InvalidMessage(s.clone()),
            Error::ServerError(s) => Error::ServerError(s.clone()),
        }
    }
}

impl Clone for Message {
    fn clone(&self) -> (r: Message)
        ensures
            r == *self,
    {
        match self {
            Message::Request(q) => Message::Request(q.clone()),
            Message::Response(Ok(p)) => Message::Response(Ok(p.clone())),
            Message::Response(Err(e)) => Message::Response(Err(e.clone())),
            Message::Notification(n) => Message::Notification(n.clone()),
        }
    }
}

impl From<Request> for Message {
    fn from(value: Request) -> (r: Message) {
        Message::Request(value)
    }
}

impl vstd::std_specs::convert::FromSpecImpl<Request> for Message {
    open spec fn obeys_from_spec() -> bool {
        true
    }

    open spec fn from_spec(value: Request) -> Message {
        Message::Request(value)
    }
}

impl From<Response> for Message {
    fn from(value: Response) -> (r: Message) {
        Message::Response(Ok(value))
    }
}

impl vstd::std_specs::convert::FromSpecImpl<Response> for Message {
    open spec fn obeys_from_spec() -> bool {
        true
    }

    open spec fn from_spec(value: Response) -> Message {
        Message::Response(Ok(value))
    }
}

impl From<Error> for Message {
    fn from(value: Error) -> (r: Message) {
        Message::Response(Err(value))
    }
}

impl vstd::std_specs::convert::FromSpecImpl<Error> for Message {
    open spec fn obeys_from_spec() -> bool {
        true
    }

    open spec fn from_spec(value: Error) -> Message {
        Message::Response(Err(value))
    }
}

impl From<Notification> for Message {
    fn from(value: Notification) -> (r: Message) {
        Message::Notification(value)
    }
}

impl vstd::std_specs::convert::FromSpecImpl<Notification> for Message {
    open spec fn obeys_from_spec() -> bool {
        true
    }

    open spec fn from_spec(value: Notification) -> Message {
        Message::Notification(value)
    }
}

} // verus!
