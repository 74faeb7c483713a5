use tictactoe::board::{Board, Player, TileId};
use tictactoe::codec::{decode_message, encode_frame, encode_message};
use tictactoe::game::{Conclusion, Game, State};
use tictactoe::message::{Error, Message, Notification, Request, Response};

fn round_trips(m: Message) {
    let bytes = encode_message(&m);
    let back = decode_message(bytes.as_slice());
    assert_eq!(back, Some(m));
}

fn sample_game() -> Game {
    let mut game = Game::new(Player::O);
    assert!(game.try_mark_tile(TileId::from_index(4).unwrap()));
    game.next_turn();
    assert!(game.try_mark_tile(TileId::from_index(0).unwrap()));
    game.next_turn();
    game
}

#[test]
fn round_trip_requests() {
    round_trips(Message::Request(Request::JoinMatch(None)));
    round_trips(Message::Request(Request::JoinMatch(Some(Player::O))));
    round_trips(Message::Request(Request::JoinMatch(Some(Player::X))));
    round_trips(Message::Request(Request::GetGameInfo));
    round_trips(Message::Request(Request::Chat(String::from("hello there"))));
    round_trips(Message::Request(Request::PlayTurn(0)));
    round_trips(Message::Request(Request::PlayTurn(8)));
    round_trips(Message::Request(Request::PlayTurn(42)));
    round_trips(Message::Request(Request::PlayTurn(255)));
    round_trips(Message::Request(Request::Disconnect));
}

#[test]
fn round_trip_responses() {
    round_trips(Message::Response(Ok(Response::Ack)));
    round_trips(Message::Response(Ok(Response::Joined(None))));
    round_trips(Message::Response(Ok(Response::Joined(Some(Player::X)))));
    round_trips(Message::Response(Ok(Response::GameInfo(sample_game()))));
    round_trips(Message::Response(Ok(Response::TurnDone(sample_game()))));
    round_trips(Message::Response(Ok(Response::GameConcluded(Conclusion::Draw))));
    round_trips(Message::Response(Ok(Response::GameConcluded(Conclusion::Win(Player::O)))));
}

#[test]
fn round_trip_errors() {
    round_trips(Message::Response(Err(Error::WaitingForHost)));
    round_trips(Message::Response(Err(Error::InvalidTile)));
    round_trips(Message::Response(Err(Error::NotYourTurn)));
    round_trips(Message::Response(Err(Error::NotAllowed)));
    round_trips(Message::Response(Err(Error::MatchInProgress)));
    round_trips(Message::Response(Err(Error::GameConcluded(Conclusion::Win(Player::X)))));
    round_trips(Message::Response(Err(Error::InvalidParam(String::from("already joined")))));
    round_trips(Message::Response(Err(Error::InvalidMessage(String::from("bad bytes")))));
    round_trips(Message::Response(Err(Error::ServerError(String::from("oops")))));
}

#[test]
fn round_trip_notifications() {
    round_trips(Message::Notification(Notification::Chat {
        from: String::from("127.0.0.1:4000"),
        msg: String::from("good luck!"),
    }));
    round_trips(Message::Notification(Notification::ServerInfo(String::from("a player left"))));
}

#[test]
fn round_trip_awkward_text() {
    round_trips(Message::Request(Request::Chat(String::from("say \"hi\" to O"))));
    round_trips(Message::Request(Request::Chat(String::from("back\\slash"))));
    round_trips(Message::Request(Request::Chat(String::from("two\nlines"))));
    round_trips(Message::Request(Request::Chat(String::from(""))));
    round_trips(Message::Request(Request::Chat(String::from("smörgåsbord ˚∆˙ 🎲"))));
    round_trips(Message::Notification(Notification::Chat {
        from: String::from("\\\"\n"),
        msg: String::from(","),
    }));
}

#[test]
fn round_trip_concluded_game() {
    let mut board = Board::new();
    board.mark(TileId::from_index(0).unwrap(), Player::O);
    board.mark(TileId::from_index(1).unwrap(), Player::O);
    board.mark(TileId::from_index(2).unwrap(), Player::O);
    let game = Game { board, state: State::Concluded(Conclusion::Win(Player::O)) };
    round_trips(Message::Response(Ok(Response::GameInfo(game))));
}

#[test]
fn encoding_is_the_documented_text() {
    let bytes = encode_message(&Message::Request(Request::PlayTurn(7)));
    assert_eq!(bytes.as_slice(), b"Request(PlayTurn(7))");
    let bytes = encode_message(&Message::Request(Request::JoinMatch(Some(Player::X))));
    assert_eq!(bytes.as_slice(), b"Request(JoinMatch(Some(X)))");
    let bytes = encode_message(&Message::Response(Ok(Response::Ack)));
    assert_eq!(bytes.as_slice(), b"Response(Ok(Ack))");
    let bytes = encode_message(&Message::Request(Request::Chat(String::from("a\"b"))));
    assert_eq!(bytes.as_slice(), b"Request(Chat(\"a\\\"b\"))");
    let fresh = Game::new(Player::O);
    let bytes = encode_message(&Message::Response(Ok(Response::GameInfo(fresh))));
    assert_eq!(
        bytes.as_slice(),
        b"Response(Ok(GameInfo(([None,None,None,None,None,None,None,None,None],Playing(O)))))"
            .as_slice()
    );
}

#[test]
fn frame_ends_with_a_newline() {
    let m = Message::Request(Request::GetGameInfo);
    let framed = encode_frame(&m);
    let plain = encode_message(&m);
    assert_eq!(framed[framed.len() - 1], b'\n');
    assert_eq!(&framed[..framed.len() - 1], plain.as_slice());
}

#[test]
fn decoder_rejects_junk() {
    assert_eq!(decode_message(b"garbage"), None);
    assert_eq!(decode_message(b""), None);
    assert_eq!(decode_message(b"Request(PlayTurn(7)"), None);
    assert_eq!(decode_message(b"Request(PlayTurn(7))x"), None);
    assert_eq!(decode_message(b"Requess(PlayTurn(7))"), None);
}

#[test]
fn decoder_insists_on_canonical_numbers() {
    assert_eq!(
        decode_message(b"Request(PlayTurn(7))"),
        Some(Message::Request(Request::PlayTurn(7)))
    );
    assert_eq!(decode_message(b"Request(PlayTurn(007))"), None);
    assert_eq!(decode_message(b"Request(PlayTurn(256))"), None);
    assert_eq!(decode_message(b"Request(PlayTurn(1000))"), None);
    assert_eq!(
        decode_message(b"Request(PlayTurn(255))"),
        Some(Message::Request(Request::PlayTurn(255)))
    );
}

#[test]
fn decoder_unescapes_text() {
    let got = decode_message(b"Request(Chat(\"a\\nb\"))");
    assert_eq!(got, Some(Message::Request(Request::Chat(String::from("a\nb")))));
    let got = decode_message(b"Request(Chat(\"\\\\\\\"\"))");
    assert_eq!(got, Some(Message::Request(Request::Chat(String::from("\\\"")))));
    assert_eq!(decode_message(b"Request(Chat(\"\\q\"))"), None);
    assert_eq!(decode_message(b"Request(Chat(\"unterminated))"), None);
    assert_eq!(decode_message(b"Request(Chat(\"\xff\xfe\"))"), None);
}

#[test]
fn a_decoded_message_re_encodes_to_its_own_bytes() {
    for line in [
        b"Request(PlayTurn(7))".as_slice(),
        b"Response(Ok(GameConcluded(Win(X))))".as_slice(),
        b"Notification(Chat(\"p\",\"q\"))".as_slice(),
        b"Response(Err(InvalidParam(\"already joined\")))".as_slice(),
    ] {
        let m = decode_message(line).expect("these lines are canonical");
        assert_eq!(encode_message(&m).as_slice(), line);
    }
}
