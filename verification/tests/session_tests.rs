use tictactoe::board::Player;
use tictactoe::game::{Conclusion, State};
use tictactoe::message::{Error, Notification, Request, Response};
use tictactoe::session::{Role, Session, SessionState};

fn host_and_observer() -> (Session, u32, u32) {
    let mut s = Session::new();
    let host = s.handle_new_connection(String::from("127.0.0.1:5001"), true);
    let obs = s.handle_new_connection(String::from("10.0.0.9:6001"), false);
    (s, host, obs)
}

#[test]
fn first_loopback_connection_is_the_host_candidate() {
    let (s, host, obs) = host_and_observer();
    assert_eq!(s.role_of(host), Some(Role::Host(None)));
    assert_eq!(s.role_of(obs), Some(Role::Observer));
    assert_eq!(s.role_of(99), None);
}

#[test]
fn a_second_loopback_connection_stays_an_observer() {
    let mut s = Session::new();
    let first = s.handle_new_connection(String::from("127.0.0.1:5001"), true);
    let second = s.handle_new_connection(String::from("127.0.0.1:5002"), true);
    assert_eq!(s.role_of(first), Some(Role::Host(None)));
    assert_eq!(s.role_of(second), Some(Role::Observer));
}

/// Host joins as `X`; the second connection asks for no colour and is
/// assigned `O`, the opposite; the session starts playing with `O` first.
#[test]
fn scenario_second_joiner_gets_opposite_colour() {
    let (mut s, host, obs) = host_and_observer();
    let out = s.handle_request(host, Request::JoinMatch(Some(Player::X)));
    assert_eq!(out.reply, Some(Ok(Response::Joined(Some(Player::X)))));
    assert!(matches!(s.phase_ref(), SessionState::WaitingForPlayers));

    let out = s.handle_request(obs, Request::JoinMatch(None));
    assert_eq!(out.reply, Some(Ok(Response::Joined(Some(Player::O)))));
    assert_eq!(s.role_of(host), Some(Role::Host(Some(Player::X))));
    assert_eq!(s.role_of(obs), Some(Role::Player(Player::O)));
    match s.phase_ref() {
        SessionState::Playing(g) => {
            assert_eq!(g.state, State::Playing(Player::O));
            assert_eq!(g.board.mark_count(), 0);
        },
        other => panic!("expected a running game, got {:?}", other),
    }
}

/// A `PlayTurn` request while waiting for players is rejected with
/// `NotAllowed`.
#[test]
fn scenario_play_before_match_is_not_allowed() {
    let (mut s, host, obs) = host_and_observer();
    let out = s.handle_request(host, Request::JoinMatch(Some(Player::O)));
    assert_eq!(out.reply, Some(Ok(Response::Joined(Some(Player::O)))));
    let out = s.handle_request(obs, Request::PlayTurn(0));
    assert_eq!(out.reply, Some(Err(Error::NotAllowed)));
    assert!(matches!(s.phase_ref(), SessionState::WaitingForPlayers));
}

#[test]
fn everything_but_chat_waits_for_the_host() {
    let (mut s, _host, obs) = host_and_observer();
    let out = s.handle_request(obs, Request::JoinMatch(None));
    assert_eq!(out.reply, Some(Err(Error::WaitingForHost)));
    let out = s.handle_request(obs, Request::GetGameInfo);
    assert_eq!(out.reply, Some(Err(Error::WaitingForHost)));
    let out = s.handle_request(obs, Request::PlayTurn(4));
    assert_eq!(out.reply, Some(Err(Error::WaitingForHost)));
}

#[test]
fn chat_is_labelled_by_role() {
    let (mut s, host, obs) = host_and_observer();
    let out = s.handle_request(obs, Request::Chat(String::from("hi")));
    assert_eq!(out.reply, Some(Ok(Response::Ack)));
    assert_eq!(
        out.broadcast,
        Some(Notification::Chat { from: String::from("10.0.0.9:6001"), msg: String::from("hi") })
    );

    let out = s.handle_request(host, Request::Chat(String::from("welcome")));
    assert_eq!(
        out.broadcast,
        Some(Notification::Chat { from: String::from("host"), msg: String::from("welcome") })
    );

    s.handle_request(host, Request::JoinMatch(Some(Player::X)));
    let out = s.handle_request(host, Request::Chat(String::from("ready")));
    assert_eq!(
        out.broadcast,
        Some(Notification::Chat { from: String::from("X (host)"), msg: String::from("ready") })
    );

    s.handle_request(obs, Request::JoinMatch(None));
    let out = s.handle_request(obs, Request::Chat(String::from("go")));
    assert_eq!(
        out.broadcast,
        Some(Notification::Chat { from: String::from("O"), msg: String::from("go") })
    );
}

#[test]
fn joining_twice_is_refused() {
    let (mut s, host, obs) = host_and_observer();
    s.handle_request(host, Request::JoinMatch(Some(Player::O)));
    let out = s.handle_request(host, Request::JoinMatch(Some(Player::X)));
    assert_eq!(out.reply, Some(Err(Error::InvalidParam(String::from("already joined")))));
    let _ = obs;
}

#[test]
fn joining_a_running_match_is_refused() {
    let (mut s, host, obs) = host_and_observer();
    s.handle_request(host, Request::JoinMatch(Some(Player::O)));
    s.handle_request(obs, Request::JoinMatch(None));
    let late = s.handle_new_connection(String::from("10.0.0.10:7001"), false);
    let out = s.handle_request(late, Request::JoinMatch(None));
    assert_eq!(out.reply, Some(Err(Error::MatchInProgress)));
}

#[test]
fn requests_from_unknown_connections_are_dropped() {
    let mut s = Session::new();
    let out = s.handle_request(42, Request::Chat(String::from("anyone?")));
    assert_eq!(out.reply, None);
    assert_eq!(out.broadcast, None);
}

#[test]
fn playing_a_full_exchange() {
    let (mut s, host, obs) = host_and_observer();
    s.handle_request(host, Request::JoinMatch(Some(Player::X)));
    s.handle_request(obs, Request::JoinMatch(None));

    // `O` moves first: the host, who is `X`, must wait its turn.
    let out = s.handle_request(host, Request::PlayTurn(0));
    assert_eq!(out.reply, Some(Err(Error::NotYourTurn)));

    // An observer may not play at all.
    let watcher = s.handle_new_connection(String::from("10.0.0.11:8001"), false);
    let out = s.handle_request(watcher, Request::PlayTurn(0));
    assert_eq!(out.reply, Some(Err(Error::NotAllowed)));

    // An out-of-range tile is invalid.
    let out = s.handle_request(obs, Request::PlayTurn(9));
    assert_eq!(out.reply, Some(Err(Error::InvalidTile)));

    // A good move is reflected back.
    let out = s.handle_request(obs, Request::PlayTurn(4));
    match out.reply {
        Some(Ok(Response::TurnDone(g))) => {
            assert_eq!(g.state, State::Playing(Player::X));
            assert_eq!(g.board.mark_count(), 1);
        },
        other => panic!("expected TurnDone, got {:?}", other),
    }

    // The marked tile is now occupied.
    let out = s.handle_request(host, Request::PlayTurn(4));
    assert_eq!(out.reply, Some(Err(Error::InvalidTile)));

    // O: 4, X: 0, O: 3, X: 1, O: 5 completes the middle row.
    s.handle_request(host, Request::PlayTurn(0));
    s.handle_request(obs, Request::PlayTurn(3));
    s.handle_request(host, Request::PlayTurn(1));
    let out = s.handle_request(obs, Request::PlayTurn(5));
    match out.reply {
        Some(Ok(Response::TurnDone(g))) => {
            assert_eq!(g.state, State::Concluded(Conclusion::Win(Player::O)));
        },
        other => panic!("expected a winning TurnDone, got {:?}", other),
    }

    // No further moves are taken.
    let out = s.handle_request(host, Request::PlayTurn(8));
    assert_eq!(out.reply, Some(Err(Error::GameConcluded(Conclusion::Win(Player::O)))));

    // The snapshot shows the concluded game.
    let out = s.handle_request(watcher, Request::GetGameInfo);
    match out.reply {
        Some(Ok(Response::GameInfo(g))) => {
            assert_eq!(g.state, State::Concluded(Conclusion::Win(Player::O)));
        },
        other => panic!("expected GameInfo, got {:?}", other),
    }
}

#[test]
fn disconnect_is_announced() {
    let (mut s, _host, obs) = host_and_observer();
    let n = s.handle_disconnect(obs);
    assert_eq!(n, Notification::ServerInfo(String::from("10.0.0.9:6001 disconnected")));
    assert_eq!(s.role_of(obs), None);
}

#[test]
fn a_departing_player_forfeits_the_game() {
    let (mut s, host, obs) = host_and_observer();
    s.handle_request(host, Request::JoinMatch(Some(Player::X)));
    s.handle_request(obs, Request::JoinMatch(None));
    let _ = s.handle_disconnect(obs);
    match s.phase_ref() {
        SessionState::Playing(g) => {
            assert_eq!(g.state, State::Concluded(Conclusion::Win(Player::X)));
        },
        other => panic!("expected the forfeited game, got {:?}", other),
    }
}

#[test]
fn a_departing_observer_forfeits_nothing() {
    let (mut s, host, obs) = host_and_observer();
    s.handle_request(host, Request::JoinMatch(Some(Player::X)));
    s.handle_request(obs, Request::JoinMatch(None));
    let watcher = s.handle_new_connection(String::from("10.0.0.11:8001"), false);
    let _ = s.handle_disconnect(watcher);
    match s.phase_ref() {
        SessionState::Playing(g) => {
            assert_eq!(g.state, State::Playing(Player::O));
        },
        other => panic!("expected the game to continue, got {:?}", other),
    }
}

#[test]
fn get_game_info_needs_a_running_game() {
    let (mut s, host, obs) = host_and_observer();
    s.handle_request(host, Request::JoinMatch(None));
    let out = s.handle_request(obs, Request::GetGameInfo);
    assert_eq!(out.reply, Some(Err(Error::NotAllowed)));
}

#[test]
fn a_host_without_a_preference_defaults_to_o() {
    let (mut s, host, obs) = host_and_observer();
    // The host opens the match without asking for a colour: it gets `O`.
    let out = s.handle_request(host, Request::JoinMatch(None));
    assert_eq!(out.reply, Some(Ok(Response::Joined(Some(Player::O)))));
    assert_eq!(s.role_of(host), Some(Role::Host(Some(Player::O))));
    // The second joiner asks for `O` too and gets the opposite anyway.
    let out = s.handle_request(obs, Request::JoinMatch(Some(Player::O)));
    assert_eq!(out.reply, Some(Ok(Response::Joined(Some(Player::X)))));
    match s.phase_ref() {
        SessionState::Playing(g) => assert_eq!(g.state, State::Playing(Player::O)),
        other => panic!("expected a running game, got {:?}", other),
    }
}
