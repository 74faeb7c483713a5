use tictactoe::board::Player;
use tictactoe::codec::encode_frame;
use tictactoe::connection::{Receiver, Step};
use tictactoe::message::{Message, Request};

#[test]
fn a_whole_frame_yields_one_message() {
    let m = Message::Request(Request::PlayTurn(4));
    let mut rx = Receiver::new();
    rx.feed(encode_frame(&m).as_slice());
    assert_eq!(rx.try_next(), Step::Msg(m));
    assert_eq!(rx.try_next(), Step::NeedMore);
    assert!(rx.is_empty());
}

/// One and a half messages arrive in one read, the remainder in a second:
/// exactly one message comes out of the first, then the second, in order.
#[test]
fn scenario_split_reads_keep_order() {
    let m1 = Message::Request(Request::Chat(String::from("first")));
    let m2 = Message::Request(Request::Chat(String::from("second")));
    let f1 = encode_frame(&m1);
    let f2 = encode_frame(&m2);
    let half = f2.len() / 2;

    let mut first_read = f1.clone();
    first_read.extend_from_slice(&f2[..half]);

    let mut rx = Receiver::new();
    rx.feed(first_read.as_slice());
    assert_eq!(rx.try_next(), Step::Msg(m1));
    assert_eq!(rx.try_next(), Step::NeedMore);
    assert!(!rx.is_empty());

    rx.feed(&f2[half..]);
    assert_eq!(rx.try_next(), Step::Msg(m2));
    assert_eq!(rx.try_next(), Step::NeedMore);
    assert!(rx.is_empty());
}

#[test]
fn bytes_without_a_newline_wait() {
    let mut rx = Receiver::new();
    rx.feed(b"Request(GetGameInfo)");
    assert_eq!(rx.try_next(), Step::NeedMore);
    assert!(!rx.is_empty());
    rx.feed(b"\n");
    assert_eq!(rx.try_next(), Step::Msg(Message::Request(Request::GetGameInfo)));
}

#[test]
fn a_malformed_line_discards_the_buffer() {
    let mut rx = Receiver::new();
    rx.feed(b"total garbage\nRequest(GetGameInfo)\n");
    assert_eq!(rx.try_next(), Step::Malformed);
    // The buffer was discarded whole, trailing good bytes included.
    assert!(rx.is_empty());
    assert_eq!(rx.try_next(), Step::NeedMore);
    // The connection lives on: later frames still decode.
    rx.feed(encode_frame(&Message::Request(Request::Disconnect)).as_slice());
    assert_eq!(rx.try_next(), Step::Msg(Message::Request(Request::Disconnect)));
}

#[test]
fn two_frames_in_one_read_come_out_in_order() {
    let m1 = Message::Request(Request::JoinMatch(Some(Player::O)));
    let m2 = Message::Request(Request::PlayTurn(0));
    let mut both = encode_frame(&m1);
    both.extend_from_slice(encode_frame(&m2).as_slice());
    let mut rx = Receiver::new();
    rx.feed(both.as_slice());
    assert_eq!(rx.try_next(), Step::Msg(m1));
    assert_eq!(rx.try_next(), Step::Msg(m2));
    assert_eq!(rx.try_next(), Step::NeedMore);
}

#[test]
fn an_empty_line_is_malformed() {
    let mut rx = Receiver::new();
    rx.feed(b"\n");
    assert_eq!(rx.try_next(), Step::Malformed);
}

#[test]
fn chat_text_with_escapes_survives_framing() {
    let m = Message::Request(Request::Chat(String::from("line one\nline \"two\" \\ done")));
    let mut rx = Receiver::new();
    rx.feed(encode_frame(&m).as_slice());
    assert_eq!(rx.try_next(), Step::Msg(m));
}
