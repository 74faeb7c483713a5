//! The session actor's state: connection roster, role assignment, and the
//! arbitration of every request against the server-wide phase.
//!
//! All mutation of roster and game state happens through the handlers
//! here, which the actor task calls one event at a time: an accepted
//! socket, a decoded request with its reply slot, or a connection task's
//! completion.  The handlers are pure of I/O: they return the reply owed
//! to the requester and the notification to broadcast, and the caller
//! performs the sends.

use std::collections::HashMap;

use vstd::prelude::*;
use vstd::string::StringExecFns;

use crate::board::{Player, TileId};
use crate::game::{spec_conclusion, Conclusion, Game, State};
use crate::message::{Error, Notification, NotificationV, Request, RequestV, Response};

verus! {

broadcast use vstd::std_specs::hash::group_hash_axioms;

/// Identifies one accepted connection for its lifetime.
pub type ConnectionId = u32;

/// A connection's standing within the current match.
///
/// A role moves `Observer -> Player` or `Host(None) -> Host(Some)` at most
/// once, and never reverts.
#[derive(Debug, PartialEq, Eq, Structural, Clone, Copy)]
pub enum Role {
    Host(Option<Player>),
    Observer,
    Player(Player),
}

impl Role {
    /// The colour this role has claimed, if any.
    pub open spec fn spec_color(self) -> Option<Player> {
        match self {
            Role::Host(c) => c,
            Role::Observer => None,
            Role::Player(p) => Some(p),
        }
    }

    pub fn color(self) -> (r: Option<Player>)
        ensures
            r == self.spec_color(),
    {
        match self {
            Role::Host(c) => c,
            Role::Observer => None,
            Role::Player(p) => Some(p),
        }
    }
}

/// What the registry holds about one connection: its role and the textual
/// peer address it was accepted under.
#[derive(Debug)]
pub struct ConnectionContext {
    pub role: Role,
    pub addr: String,
}

impl ConnectionContext {
    pub fn is_host(&self) -> (r: bool)
        ensures
            r == (self.role is Host),
    {
        matches!(self.role, Role::Host(_))
    }

    /// The colour this connection plays, if it plays.
    pub fn player(&self) -> (r: Option<Player>)
        ensures
            r == self.role.spec_color(),
    {
        self.role.color()
    }
}

/// The server-wide phase gate, strictly forward-moving:
/// `WaitingForHost -> WaitingForPlayers -> Playing`.
#[derive(Debug, PartialEq)]
pub enum SessionState {
    WaitingForHost,
    WaitingForPlayers,
    Playing(Game),
}

/// The arbitration outcome of one event: the reply owed to the requester,
/// if any, and a notification to broadcast to every live connection.
pub struct Outcome {
    pub reply: Option<Result<Response, Error>>,
    pub broadcast: Option<Notification>,
}

/// The chat label a host speaks under once it has a colour.
pub open spec fn spec_host_label(p: Player) -> Seq<char> {
    match p {
        Player::O => "O (host)"@,
        Player::X => "X (host)"@,
    }
}

/// The chat label a connection speaks under: its address for an observer,
/// `host` for a colourless host, and the symbol otherwise.
pub open spec fn spec_chat_label(cx: ConnectionContext) -> Seq<char> {
    match cx.role {
        Role::Observer => cx.addr@,
        Role::Player(p) => p.spec_label(),
        Role::Host(None) => "host"@,
        Role::Host(Some(p)) => spec_host_label(p),
    }
}

/// The colour a joiner is assigned: the opposite of an already-claimed
/// colour whatever was asked; else the requested colour; else `O`.
pub open spec fn spec_join_color(requested: Option<Player>, claimed: Option<Player>) -> Player {
    match claimed {
        Some(p) => p.spec_opposite(),
        None => match requested {
            Some(q) => q,
            None => Player::O,
        },
    }
}

/// Arbitrates one move of a running game.  The checks run in a fixed
/// order: a connection without a colour may not play at all, a concluded
/// game takes no move, out of turn is refused, and an out-of-range or
/// occupied tile is invalid.  A valid move marks the tile and advances the
/// turn state machine.
pub open spec fn spec_play_turn(g: crate::message::GameV, color: Option<Player>, tile: u8) -> Result<
    crate::message::GameV,
    Error,
> {
    match color {
        None => Err(Error::NotAllowed),
        Some(p) => match g.state {
            State::Concluded(c) => Err(Error::GameConcluded(c)),
            State::Playing(turn) => if p != turn {
                Err(Error::NotYourTurn)
            } else if tile >= 9 {
                Err(Error::InvalidTile)
            } else if g.board[tile as int] is Some {
                Err(Error::InvalidTile)
            } else {
                let board2 = g.board.update(tile as int, Some(turn));
                let state2 = match spec_conclusion(board2) {
                    Some(c) => State::Concluded(c),
                    None => State::Playing(turn.spec_opposite()),
                };
                Ok(crate::message::GameV { board: board2, state: state2 })
            },
        },
    }
}

/// The single authoritative owner of roster and game state.
pub struct Session {
    contexts: HashMap<u32, ConnectionContext>,
    state: SessionState,
    next_conn_id: u32,
    host_id: Option<u32>,
    claimed_by: Option<u32>,
}

impl Session {
    /// The roster: every live connection's context by its identifier.
    pub closed spec fn roster(self) -> Map<u32, ConnectionContext> {
        self.contexts@
    }

    /// The server-wide phase.
    pub closed spec fn phase(self) -> SessionState {
        self.state
    }

    /// The identifier the next accepted connection will get.
    pub closed spec fn next_id(self) -> u32 {
        self.next_conn_id
    }

    /// The connection holding the host role, if one does.
    pub closed spec fn spec_host_id(self) -> Option<u32> {
        self.host_id
    }

    /// While waiting for players: the connection that has claimed a
    /// colour, if one has.
    pub closed spec fn spec_claimed_by(self) -> Option<u32> {
        self.claimed_by
    }

    /// The registry's internal consistency: identifiers are never reused,
    /// at most one connection holds the host role, nobody holds a colour
    /// before the host phase ends, and while waiting for players at most
    /// one connection holds a colour — the tracked one.
    pub open spec fn wf(self) -> bool {
        &&& forall|id: u32| #[trigger] self.roster().contains_key(id) ==> id < self.next_id()
        &&& match self.spec_host_id() {
            Some(h) => self.roster().contains_key(h) && self.roster()[h].role is Host && forall|
                id: u32,
            |
                #[trigger] self.roster().contains_key(id) ==> (self.roster()[id].role is Host
                    ==> id == h),
            None => forall|id: u32| #[trigger]
                self.roster().contains_key(id) ==> !(self.roster()[id].role is Host),
        }
        &&& (self.phase() is WaitingForHost ==> forall|id: u32| #[trigger]
            self.roster().contains_key(id) ==> self.roster()[id].role.spec_color() is None)
        &&& (self.phase() is WaitingForPlayers ==> match self.spec_claimed_by() {
            Some(c) => self.roster().contains_key(c) && self.roster()[c].role.spec_color() is Some
                && forall|id: u32| #[trigger]
                self.roster().contains_key(id) ==> (self.roster()[id].role.spec_color() is Some
                    ==> id == c),
            None => forall|id: u32| #[trigger]
                self.roster().contains_key(id) ==> self.roster()[id].role.spec_color() is None,
        })
    }

    /// Nothing about a session changed.
    pub open spec fn unchanged(pre: Session, post: Session) -> bool {
        &&& post.roster() == pre.roster()
        &&& post.phase() == pre.phase()
        &&& post.next_id() == pre.next_id()
        &&& post.spec_host_id() == pre.spec_host_id()
        &&& post.spec_claimed_by() == pre.spec_claimed_by()
    }

    /// A fresh session: empty roster, waiting for its host.
    pub fn new() -> (s: Session)
        ensures
            s.wf(),
            s.roster() == Map::<u32, ConnectionContext>::empty(),
            s.phase() is WaitingForHost,
            s.next_id() == 0,
            s.spec_host_id() is None,
            s.spec_claimed_by() is None,
    {
        Session {
            contexts: HashMap::new(),
            state: SessionState::WaitingForHost,
            next_conn_id: 0,
            host_id: None,
            claimed_by: None,
        }
    }

    /// Registers an accepted connection and assigns its starting role:
    /// the first loopback connection while no host is known becomes the
    /// host candidate, everyone else starts as an observer.
    pub fn handle_new_connection(&mut self, addr: String, loopback: bool) -> (id: u32)
        requires
            old(self).wf(),
            old(self).next_id() < u32::MAX,
        ensures
            final(self).wf(),
            id == old(self).next_id(),
            final(self).next_id() == id + 1,
            final(self).phase() == old(self).phase(),
            final(self).spec_claimed_by() == old(self).spec_claimed_by(),
            ({
                let hosted = loopback && old(self).spec_host_id() is None;
                let role = if hosted {
                    Role::Host(None)
                } else {
                    Role::Observer
                };
                &&& final(self).roster() == old(self).roster().insert(
                    id,
                    ConnectionContext { role, addr },
                )
                &&& final(self).spec_host_id() == (if hosted {
                    Some(id)
                } else {
                    old(self).spec_host_id()
                })
            }),
    {
        let id = self.next_conn_id;
        self.next_conn_id = id + 1;
        let hosted = loopback && self.host_id.is_none();
        let role = if hosted {
            self.host_id = Some(id);
            Role::Host(None)
        } else {
            Role::Observer
        };
        self.contexts.insert(id, ConnectionContext { role, addr });
        id
    }

    /// Removes a departed connection and announces the departure.  If the
    /// departer held a colour while a game was still running, the
    /// remaining player wins by forfeit: the game concludes at once.  The
    /// announcement text is the same either way; the outcome is visible
    /// on the next look at the game.
    pub fn handle_disconnect(&mut self, conn_id: u32) -> (r: Notification)
        requires
            old(self).wf(),
            old(self).roster().contains_key(conn_id),
        ensures
            final(self).wf(),
            final(self).roster() == old(self).roster().remove(conn_id),
            final(self).next_id() == old(self).next_id(),
            r@ == NotificationV::ServerInfo(
                old(self).roster()[conn_id].addr@ + " disconnected"@,
            ),
            final(self).spec_host_id() == (if old(self).spec_host_id() == Some(conn_id) {
                None::<u32>
            } else {
                old(self).spec_host_id()
            }),
            final(self).spec_claimed_by() == (if old(self).spec_claimed_by() == Some(conn_id) {
                None::<u32>
            } else {
                old(self).spec_claimed_by()
            }),
            ({
                let cx = old(self).roster()[conn_id];
                match old(self).phase() {
                    SessionState::Playing(g) => match (cx.role.spec_color(), g.state) {
                        (Some(p), State::Playing(_)) => final(self).phase() matches
                            SessionState::Playing(ng) && ng.board == g.board && ng.state
                            == State::Concluded(Conclusion::Win(p.spec_opposite())),
                        _ => final(self).phase() == old(self).phase(),
                    },
                    _ => final(self).phase() == old(self).phase(),
                }
            }),
    {
        let cx = match self.contexts.remove(&conn_id) {
            Some(cx) => cx,
            None => {
                proof {
                    assert(false);
                }
                vstd::pervasive::unreached()
            },
        };
        match self.host_id {
            Some(h) => if h == conn_id {
                self.host_id = None;
            },
            None => (),
        }
        match self.claimed_by {
            Some(c) => if c == conn_id {
                self.claimed_by = None;
            },
            None => (),
        }
        let departed_color = cx.role.color();
        match (&self.state, departed_color) {
            (SessionState::Playing(g), Some(p)) => {
                match g.state {
                    State::Playing(_) => {
                        let forfeited = Game {
                            board: g.board,
                            state: State::Concluded(Conclusion::Win(p.opposite())),
                        };
                        self.state = SessionState::Playing(forfeited);
                    },
                    State::Concluded(_) => (),
                }
            },
            _ => (),
        }
        let mut text = cx.addr;
        text.append(" disconnected");
        Notification::ServerInfo(text)
    }


    /// Arbitrates one request against the current phase, per the protocol
    /// contract:
    ///
    /// * `Chat` from any registered connection is acknowledged and
    ///   broadcast under the sender's role-derived label.
    /// * `JoinMatch` while waiting for the host lets the host claim a
    ///   colour — the default, `O`, when none is given — and opens the
    ///   match to players; from anyone else it is premature.  While waiting for players, a colourless
    ///   connection is assigned a colour — the opposite of one already
    ///   claimed, whatever was requested — and the second distinct claim
    ///   starts a fresh game with `O` to move.  A connection that already
    ///   holds a colour, or a match already running, refuses the join.
    /// * `GetGameInfo` and `PlayTurn` work only while a game runs;
    ///   while waiting for players they are not allowed, and while
    ///   waiting for the host every request but `Chat` is premature.
    /// * A request from an unknown connection is dropped silently: no
    ///   reply, no broadcast, no change.
    pub fn handle_request(&mut self, conn_id: u32, req: Request) -> (r: Outcome)
        requires
            old(self).wf(),
        ensures
            final(self).wf(),
            final(self).next_id() == old(self).next_id(),
            !old(self).roster().contains_key(conn_id) ==> r.reply is None && r.broadcast is None
                && Session::unchanged(*old(self), *final(self)),
            old(self).roster().contains_key(conn_id) ==> ({
                let cx = old(self).roster()[conn_id];
                match req@ {
                    RequestV::Chat(msg) => {
                        &&& r.reply == Some(Ok::<Response, Error>(Response::Ack))
                        &&& r.broadcast matches Some(n) && n@ == (NotificationV::Chat {
                            from: spec_chat_label(cx),
                            msg: msg,
                        })
                        &&& Session::unchanged(*old(self), *final(self))
                    },
                    RequestV::JoinMatch(want) => match old(self).phase() {
                        SessionState::WaitingForHost => if cx.role is Host {
                            let gained = spec_join_color(want, None);
                            &&& r.reply == Some(
                                Ok::<Response, Error>(Response::Joined(Some(gained))),
                            )
                            &&& r.broadcast is None
                            &&& final(self).roster() == old(self).roster().insert(
                                conn_id,
                                ConnectionContext { role: Role::Host(Some(gained)), addr: cx.addr },
                            )
                            &&& final(self).phase() is WaitingForPlayers
                            &&& final(self).spec_claimed_by() == Some(conn_id)
                            &&& final(self).spec_host_id() == old(self).spec_host_id()
                        } else {
                            &&& r.reply == Some(Err::<Response, Error>(Error::WaitingForHost))
                            &&& r.broadcast is None
                            &&& Session::unchanged(*old(self), *final(self))
                        },
                        SessionState::WaitingForPlayers => if cx.role.spec_color() is None {
                            let claimed_color = match old(self).spec_claimed_by() {
                                Some(c) => old(self).roster()[c].role.spec_color(),
                                None => None::<Player>,
                            };
                            let join_as = spec_join_color(want, claimed_color);
                            let new_role = if cx.role is Host {
                                Role::Host(Some(join_as))
                            } else {
                                Role::Player(join_as)
                            };
                            &&& r.reply == Some(
                                Ok::<Response, Error>(Response::Joined(Some(join_as))),
                            )
                            &&& r.broadcast is None
                            &&& final(self).roster() == old(self).roster().insert(
                                conn_id,
                                ConnectionContext { role: new_role, addr: cx.addr },
                            )
                            &&& final(self).spec_host_id() == old(self).spec_host_id()
                            &&& if old(self).spec_claimed_by() is Some {
                                &&& final(self).phase() matches SessionState::Playing(g)
                                    && g.board@ == Seq::new(9, |i: int| None::<Player>)
                                    && g.state == State::Playing(Player::O)
                                &&& final(self).spec_claimed_by() is None
                            } else {
                                &&& final(self).phase() is WaitingForPlayers
                                &&& final(self).spec_claimed_by() == Some(conn_id)
                            }
                        } else {
                            &&& r.reply matches Some(Err(Error::InvalidParam(t))) && t@
                                == "already joined"@
                            &&& r.broadcast is None
                            &&& Session::unchanged(*old(self), *final(self))
                        },
                        SessionState::Playing(_) => {
                            &&& r.reply == Some(Err::<Response, Error>(Error::MatchInProgress))
                            &&& r.broadcast is None
                            &&& Session::unchanged(*old(self), *final(self))
                        },
                    },
                    RequestV::GetGameInfo => match old(self).phase() {
                        SessionState::Playing(g) => {
                            &&& r.reply == Some(
                                Ok::<Response, Error>(Response::GameInfo(g)),
                            )
                            &&& r.broadcast is None
                            &&& Session::unchanged(*old(self), *final(self))
                        },
                        SessionState::WaitingForHost => {
                            &&& r.reply == Some(Err::<Response, Error>(Error::WaitingForHost))
                            &&& r.broadcast is None
                            &&& Session::unchanged(*old(self), *final(self))
                        },
                        SessionState::WaitingForPlayers => {
                            &&& r.reply == Some(Err::<Response, Error>(Error::NotAllowed))
                            &&& r.broadcast is None
                            &&& Session::unchanged(*old(self), *final(self))
                        },
                    },
                    RequestV::PlayTurn(tile) => match old(self).phase() {
                        SessionState::Playing(g) => {
                            &&& r.broadcast is None
                            &&& final(self).roster() == old(self).roster()
                            &&& final(self).spec_host_id() == old(self).spec_host_id()
                            &&& final(self).spec_claimed_by() == old(self).spec_claimed_by()
                            &&& match spec_play_turn(g@, cx.role.spec_color(), tile) {
                                Ok(g2) => {
                                    &&& final(self).phase() matches SessionState::Playing(ng)
                                        && ng@ == g2
                                    &&& r.reply matches Some(Ok(Response::TurnDone(td))) && td@
                                        == g2
                                },
                                Err(e) => {
                                    &&& final(self).phase() == old(self).phase()
                                    &&& r.reply == Some(Err::<Response, Error>(e))
                                },
                            }
                        },
                        SessionState::WaitingForHost => {
                            &&& r.reply == Some(Err::<Response, Error>(Error::WaitingForHost))
                            &&& r.broadcast is None
                            &&& Session::unchanged(*old(self), *final(self))
                        },
                        SessionState::WaitingForPlayers => {
                            &&& r.reply == Some(Err::<Response, Error>(Error::NotAllowed))
                            &&& r.broadcast is None
                            &&& Session::unchanged(*old(self), *final(self))
                        },
                    },
                    RequestV::Disconnect => {
                        &&& match old(self).phase() {
                            SessionState::WaitingForHost => r.reply == Some(
                                Err::<Response, Error>(Error::WaitingForHost),
                            ),
                            _ => r.reply matches Some(Err(Error::InvalidMessage(t))) && t@
                                == "unhandled request"@,
                        }
                        &&& r.broadcast is None
                        &&& Session::unchanged(*old(self), *final(self))
                    },
                }
            }),
    {
        let (role, addr) = match self.contexts.get(&conn_id) {
            Some(cx) => (cx.role, cx.addr.clone()),
            None => {
                return Outcome { reply: None, broadcast: None };
            },
        };
        match req {
            Request::Chat(msg) => {
                let from = match role {
                    Role::Observer => addr,
                    Role::Player(p) => String::from_str(p.label()),
                    Role::Host(None) => String::from_str("host"),
                    Role::Host(Some(p)) => match p {
                        Player::O => String::from_str("O (host)"),
                        Player::X => String::from_str("X (host)"),
                    },
                };
                Outcome {
                    reply: Some(Ok(Response::Ack)),
                    broadcast: Some(Notification::Chat { from, msg }),
                }
            },
            Request::JoinMatch(want) => match &self.state {
                SessionState::WaitingForHost => {
                    if matches!(role, Role::Host(_)) {
                        let gained = match want {
                            Some(p) => p,
                            None => Player::O,
                        };
                        self.contexts.insert(
                            conn_id,
                            ConnectionContext { role: Role::Host(Some(gained)), addr },
                        );
                        self.state = SessionState::WaitingForPlayers;
                        self.claimed_by = Some(conn_id);
                        Outcome { reply: Some(Ok(Response::Joined(Some(gained)))), broadcast: None }
                    } else {
                        Outcome { reply: Some(Err(Error::WaitingForHost)), broadcast: None }
                    }
                },
                SessionState::WaitingForPlayers => {
                    if role.color().is_none() {
                        let claimed_color: Option<Player> = match self.claimed_by {
                            Some(c) => match self.contexts.get(&c) {
                                Some(cx2) => cx2.player(),
                                None => None,
                            },
                            None => None,
                        };
                        let join_as = match claimed_color {
                            Some(p) => p.opposite(),
                            None => match want {
                                Some(q) => q,
                                None => Player::O,
                            },
                        };
                        let new_role = if matches!(role, Role::Host(_)) {
                            Role::Host(Some(join_as))
                        } else {
                            Role::Player(join_as)
                        };
                        self.contexts.insert(
                            conn_id,
                            ConnectionContext { role: new_role, addr },
                        );
                        if claimed_color.is_some() {
                            self.state = SessionState::Playing(Game::new(Player::O));
                            self.claimed_by = None;
                        } else {
                            self.claimed_by = Some(conn_id);
                        }
                        Outcome {
                            reply: Some(Ok(Response::Joined(Some(join_as)))),
                            broadcast: None,
                        }
                    } else {
                        Outcome {
                            reply: Some(
                                Err(Error::InvalidParam(String::from_str("already joined"))),
                            ),
                            broadcast: None,
                        }
                    }
                },
                SessionState::Playing(_) => Outcome {
                    reply: Some(Err(Error::MatchInProgress)),
                    broadcast: None,
                },
            },
            Request::GetGameInfo => match &self.state {
                SessionState::Playing(g) => Outcome {
                    reply: Some(Ok(Response::GameInfo(*g))),
                    broadcast: None,
                },
                SessionState::WaitingForHost => Outcome {
                    reply: Some(Err(Error::WaitingForHost)),
                    broadcast: None,
                },
                SessionState::WaitingForPlayers => Outcome {
                    reply: Some(Err(Error::NotAllowed)),
                    broadcast: None,
                },
            },
            Request::PlayTurn(tile) => match &self.state {
                SessionState::Playing(g) => {
                    let game = *g;
                    match role.color() {
                        None => Outcome {
                            reply: Some(Err(Error::NotAllowed)),
                            broadcast: None,
                        },
                        Some(p) => match game.state {
                            State::Concluded(c) => Outcome {
                                reply: Some(Err(Error::GameConcluded(c))),
                                broadcast: None,
                            },
                            State::Playing(turn) => {
                                if p != turn {
                                    Outcome {
                                        reply: Some(Err(Error::NotYourTurn)),
                                        broadcast: None,
                                    }
                                } else {
                                    match TileId::from_index(tile) {
                                        None => Outcome {
                                            reply: Some(Err(Error::InvalidTile)),
                                            broadcast: None,
                                        },
                                        Some(t) => {
                                            if !game.is_valid_mark(t) {
                                                Outcome {
                                                    reply: Some(Err(Error::InvalidTile)),
                                                    broadcast: None,
                                                }
                                            } else {
                                                let mut g2 = game;
                                                let _marked = g2.try_mark_tile(t);
                                                g2.next_turn();
                                                self.state = SessionState::Playing(g2);
                                                Outcome {
                                                    reply: Some(Ok(Response::TurnDone(g2))),
                                                    broadcast: None,
                                                }
                                            }
                                        },
                                    }
                                }
                            },
                        },
                    }
                },
                SessionState::WaitingForHost => Outcome {
                    reply: Some(Err(Error::WaitingForHost)),
                    broadcast: None,
                },
                SessionState::WaitingForPlayers => Outcome {
                    reply: Some(Err(Error::NotAllowed)),
                    broadcast: None,
                },
            },
            Request::Disconnect => match &self.state {
                SessionState::WaitingForHost => Outcome {
                    reply: Some(Err(Error::WaitingForHost)),
                    broadcast: None,
                },
                _ => Outcome {
                    reply: Some(
                        Err(Error::InvalidMessage(String::from_str("unhandled request"))),
                    ),
                    broadcast: None,
                },
            },
        }
    }

    /// The identifier the next accepted connection will be given.
    pub fn upcoming_id(&self) -> (r: u32)
        ensures
            r == self.next_id(),
    {
        self.next_conn_id
    }

    /// A look at the current phase, for rendering and tests.
    pub fn phase_ref(&self) -> (r: &SessionState)
        ensures
            *r == self.phase(),
    {
        &self.state
    }

    /// The role a connection currently holds, if it is registered.
    pub fn role_of(&self, conn_id: u32) -> (r: Option<Role>)
        ensures
            match r {
                Some(role) => self.roster().contains_key(conn_id) && role
                    == self.roster()[conn_id].role,
                None => !self.roster().contains_key(conn_id),
            },
    {
        match self.contexts.get(&conn_id) {
            Some(cx) => Some(cx.role),
            None => None,
        }
    }

    /// At most one connection ever holds the host role.
    pub proof fn lemma_at_most_one_host(s: Session, id1: u32, id2: u32)
        requires
            s.wf(),
            s.roster().contains_key(id1),
            s.roster().contains_key(id2),
            s.roster()[id1].role is Host,
            s.roster()[id2].role is Host,
        ensures
            id1 == id2,
    {
    }
}

} // verus!
