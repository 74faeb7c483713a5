//! The wire codec: a line-oriented, self-describing textual record format.
//!
//! Every message is one complete textual value followed by a newline.  The
//! grammar is fixed here from scratch: each enum variant is written as its
//! name, payloads in parentheses, board cells as a bracketed comma-separated
//! list, text in double quotes with `\\"`, `\\\\` and `\\n` escapes, and tile
//! numbers in decimal.  Encoding is canonical and the decoder accepts
//! exactly the canonical form, so a decoded message re-encodes to the very
//! bytes it came from, and every encoded message decodes back to itself.

use vstd::prelude::*;

use crate::board::Player;
use crate::game::{Conclusion, State};
use crate::message::{
    Error, ErrorV, GameV, Message, MessageV, Notification, NotificationV, Request, RequestV,
    Response, ResponseV,
};

verus! {


/// Byte values of the punctuation that the grammar uses.
pub const QUOTE: u8 = 34;

pub const BACKSLASH: u8 = 92;

pub const NEWLINE: u8 = 10;

pub const LPAREN: u8 = 40;

pub const RPAREN: u8 = 41;

pub const COMMA: u8 = 44;

pub const LBRACKET: u8 = 91;

pub const RBRACKET: u8 = 93;

pub const ESCAPED_N: u8 = 110;

pub const DIGIT_ZERO: u8 = 48;

pub const DIGIT_NINE: u8 = 57;

/// The single byte `b` stands at position `i`.
pub open spec fn byte_at(s: Seq<u8>, i: int, b: u8) -> bool {
    0 <= i < s.len() && s[i] == b
}

/// `pat` occurs in `s` starting at position `i`.
pub open spec fn at(s: Seq<u8>, i: int, pat: Seq<u8>) -> bool {
    &&& 0 <= i
    &&& i + pat.len() <= s.len()
    &&& forall|k: int| 0 <= k < pat.len() ==> s[i + k] == pat[k]
}

/// Splitting an occurrence of a concatenation into its two halves.
proof fn lemma_at_concat(s: Seq<u8>, i: int, a: Seq<u8>, b: Seq<u8>)
    requires
        at(s, i, a + b),
    ensures
        at(s, i, a),
        at(s, i + a.len(), b),
{
    assert forall|k: int| 0 <= k < a.len() implies s[i + k] == a[k] by {
        assert(s[i + k] == (a + b)[k]);
    }
    assert forall|k: int| 0 <= k < b.len() implies s[i + a.len() + k] == b[k] by {
        assert(s[i + a.len() + k] == (a + b)[a.len() + k]);
    }
}

/// A one-byte occurrence is a byte.
proof fn lemma_at_single(s: Seq<u8>, i: int, b: u8)
    requires
        at(s, i, seq![b]),
    ensures
        byte_at(s, i, b),
{
    assert(s[i + 0] == seq![b][0]);
}

/// Reads `pat` at position `i`, returning the position just after it.
fn eat(s: &[u8], i: usize, pat: &Vec<u8>) -> (r: Option<usize>)
    requires
        i <= s@.len(),
    ensures
        match r {
            Some(j) => at(s@, i as int, pat@) && j as int == i + pat@.len() && j <= s@.len(),
            None => !at(s@, i as int, pat@),
        },
{
    if s.len() - i < pat.len() {
        return None;
    }
    let mut k: usize = 0;
    while k < pat.len()
        invariant
            i + pat@.len() <= s@.len(),
            s@.len() <= usize::MAX,
            k <= pat@.len(),
            forall|t: int| 0 <= t < k ==> s@[i + t] == pat@[t],
        decreases pat@.len() - k,
    {
        if s[i + k] != pat[k] {
            return None;
        }
        k = k + 1;
    }
    Some(i + pat.len())
}

/// The tag `None`.
pub open spec fn tag_none() -> Seq<u8> {
    seq![78, 111, 110, 101]
}

fn tag_none_bytes() -> (v: Vec<u8>)
    ensures
        v@ == tag_none(),
{
    let mut v: Vec<u8> = Vec::new();
    v.push(78);
    v.push(111);
    v.push(110);
    v.push(101);
    proof {
        assert(v@ =~= tag_none());
    }
    v
}

/// The tag `Some(`.
pub open spec fn tag_some() -> Seq<u8> {
    seq![83, 111, 109, 101, 40]
}

fn tag_some_bytes() -> (v: Vec<u8>)
    ensures
        v@ == tag_some(),
{
    let mut v: Vec<u8> = Vec::new();
    v.push(83);
    v.push(111);
    v.push(109);
    v.push(101);
    v.push(40);
    proof {
        assert(v@ =~= tag_some());
    }
    v
}

/// The tag `Win(`.
pub open spec fn tag_win() -> Seq<u8> {
    seq![87, 105, 110, 40]
}

fn tag_win_bytes() -> (v: Vec<u8>)
    ensures
        v@ == tag_win(),
{
    let mut v: Vec<u8> = Vec::new();
    v.push(87);
    v.push(105);
    v.push(110);
    v.push(40);
    proof {
        assert(v@ =~= tag_win());
    }
    v
}

/// The tag `Draw`.
pub open spec fn tag_draw() -> Seq<u8> {
    seq![68, 114, 97, 119]
}

fn tag_draw_bytes() -> (v: Vec<u8>)
    ensures
        v@ == tag_draw(),
{
    let mut v: Vec<u8> = Vec::new();
    v.push(68);
    v.push(114);
    v.push(97);
    v.push(119);
    proof {
        assert(v@ =~= tag_draw());
    }
    v
}

/// The tag `Playing(`.
pub open spec fn tag_playing() -> Seq<u8> {
    seq![80, 108, 97, 121, 105, 110, 103, 40]
}

fn tag_playing_bytes() -> (v: Vec<u8>)
    ensures
        v@ == tag_playing(),
{
    let mut v: Vec<u8> = Vec::new();
    v.push(80);
    v.push(108);
    v.push(97);
    v.push(121);
    v.push(105);
    v.push(110);
    v.push(103);
    v.push(40);
    proof {
        assert(v@ =~= tag_playing());
    }
    v
}

/// The tag `Concluded(`.
pub open spec fn tag_concluded() -> Seq<u8> {
    seq![67, 111, 110, 99, 108, 117, 100, 101, 100, 40]
}

fn tag_concluded_bytes() -> (v: Vec<u8>)
    ensures
        v@ == tag_concluded(),
{
    let mut v: Vec<u8> = Vec::new();
    v.push(67);
    v.push(111);
    v.push(110);
    v.push(99);
    v.push(108);
    v.push(117);
    v.push(100);
    v.push(101);
    v.push(100);
    v.push(40);
    proof {
        assert(v@ =~= tag_concluded());
    }
    v
}

/// The tag `Request(`.
pub open spec fn tag_request() -> Seq<u8> {
    seq![82, 101, 113, 117, 101, 115, 116, 40]
}

fn tag_request_bytes() -> (v: Vec<u8>)
    ensures
        v@ == tag_request(),
{
    let mut v: Vec<u8> = Vec::new();
    v.push(82);
    v.push(101);
    v.push(113);
    v.push(117);
    v.push(101);
    v.push(115);
    v.push(116);
    v.push(40);
    proof {
        assert(v@ =~= tag_request());
    }
    v
}

/// The tag `Response(`.
pub open spec fn tag_response() -> Seq<u8> {
    seq![82, 101, 115, 112, 111, 110, 115, 101, 40]
}

fn tag_response_bytes() -> (v: Vec<u8>)
    ensures
        v@ == tag_response(),
{
    let mut v: Vec<u8> = Vec::new();
    v.push(82);
    v.push(101);
    v.push(115);
    v.push(112);
    v.push(111);
    v.push(110);
    v.push(115);
    v.push(101);
    v.push(40);
    proof {
        assert(v@ =~= tag_response());
    }
    v
}

/// The tag `Notification(`.
pub open spec fn tag_notification() -> Seq<u8> {
    seq![78, 111, 116, 105, 102, 105, 99, 97, 116, 105, 111, 110, 40]
}

fn tag_notification_bytes() -> (v: Vec<u8>)
    ensures
        v@ == tag_notification(),
{
    let mut v: Vec<u8> = Vec::new();
    v.push(78);
    v.push(111);
    v.push(116);
    v.push(105);
    v.push(102);
    v.push(105);
    v.push(99);
    v.push(97);
    v.push(116);
    v.push(105);
    v.push(111);
    v.push(110);
    v.push(40);
    proof {
        assert(v@ =~= tag_notification());
    }
    v
}

/// The tag `Ok(`.
pub open spec fn tag_ok() -> Seq<u8> {
    seq![79, 107, 40]
}

fn tag_ok_bytes() -> (v: Vec<u8>)
    ensures
        v@ == tag_ok(),
{
    let mut v: Vec<u8> = Vec::new();
    v.push(79);
    v.push(107);
    v.push(40);
    proof {
        assert(v@ =~= tag_ok());
    }
    v
}

/// The tag `Err(`.
pub open spec fn tag_err() -> Seq<u8> {
    seq![69, 114, 114, 40]
}

fn tag_err_bytes() -> (v: Vec<u8>)
    ensures
        v@ == tag_err(),
{
    let mut v: Vec<u8> = Vec::new();
    v.push(69);
    v.push(114);
    v.push(114);
    v.push(40);
    proof {
        assert(v@ =~= tag_err());
    }
    v
}

/// The tag `JoinMatch(`.
pub open spec fn tag_join_match() -> Seq<u8> {
    seq![74, 111, 105, 110, 77, 97, 116, 99, 104, 40]
}

fn tag_join_match_bytes() -> (v: Vec<u8>)
    ensures
        v@ == tag_join_match(),
{
    let mut v: Vec<u8> = Vec::new();
    v.push(74);
    v.push(111);
    v.push(105);
    v.push(110);
    v.push(77);
    v.push(97);
    v.push(116);
    v.push(99);
    v.push(104);
    v.push(40);
    proof {
        assert(v@ =~= tag_join_match());
    }
    v
}

/// The tag `GetGameInfo`.
pub open spec fn tag_get_game_info() -> Seq<u8> {
    seq![71, 101, 116, 71, 97, 109, 101, 73, 110, 102, 111]
}

fn tag_get_game_info_bytes() -> (v: Vec<u8>)
    ensures
        v@ == tag_get_game_info(),
{
    let mut v: Vec<u8> = Vec::new();
    v.push(71);
    v.push(101);
    v.push(116);
    v.push(71);
    v.push(97);
    v.push(109);
    v.push(101);
    v.push(73);
    v.push(110);
    v.push(102);
    v.push(111);
    proof {
        assert(v@ =~= tag_get_game_info());
    }
    v
}

/// The tag `Chat(`.
pub open spec fn tag_chat() -> Seq<u8> {
    seq![67, 104, 97, 116, 40]
}

fn tag_chat_bytes() -> (v: Vec<u8>)
    ensures
        v@ == tag_chat(),
{
    let mut v: Vec<u8> = Vec::new();
    v.push(67);
    v.push(104);
    v.push(97);
    v.push(116);
    v.push(40);
    proof {
        assert(v@ =~= tag_chat());
    }
    v
}

/// The tag `PlayTurn(`.
pub open spec fn tag_play_turn() -> Seq<u8> {
    seq![80, 108, 97, 121, 84, 117, 114, 110, 40]
}

fn tag_play_turn_bytes() -> (v: Vec<u8>)
    ensures
        v@ == tag_play_turn(),
{
    let mut v: Vec<u8> = Vec::new();
    v.push(80);
    v.push(108);
    v.push(97);
    v.push(121);
    v.push(84);
    v.push(117);
    v.push(114);
    v.push(110);
    v.push(40);
    proof {
        assert(v@ =~= tag_play_turn());
    }
    v
}

/// The tag `Disconnect`.
pub open spec fn tag_disconnect() -> Seq<u8> {
    seq![68, 105, 115, 99, 111, 110, 110, 101, 99, 116]
}

fn tag_disconnect_bytes() -> (v: Vec<u8>)
    ensures
        v@ == tag_disconnect(),
{
    let mut v: Vec<u8> = Vec::new();
    v.push(68);
    v.push(105);
    v.push(115);
    v.push(99);
    v.push(111);
    v.push(110);
    v.push(110);
    v.push(101);
    v.push(99);
    v.push(116);
    proof {
        assert(v@ =~= tag_disconnect());
    }
    v
}

/// The tag `Ack`.
pub open spec fn tag_ack() -> Seq<u8> {
    seq![65, 99, 107]
}

fn tag_ack_bytes() -> (v: Vec<u8>)
    ensures
        v@ == tag_ack(),
{
    let mut v: Vec<u8> = Vec::new();
    v.push(65);
    v.push(99);
    v.push(107);
    proof {
        assert(v@ =~= tag_ack());
    }
    v
}

/// The tag `GameInfo(`.
pub open spec fn tag_game_info() -> Seq<u8> {
    seq![71, 97, 109, 101, 73, 110, 102, 111, 40]
}

fn tag_game_info_bytes() -> (v: Vec<u8>)
    ensures
        v@ == tag_game_info(),
{
    let mut v: Vec<u8> = Vec::new();
    v.push(71);
    v.push(97);
    v.push(109);
    v.push(101);
    v.push(73);
    v.push(110);
    v.push(102);
    v.push(111);
    v.push(40);
    proof {
        assert(v@ =~= tag_game_info());
    }
    v
}

/// The tag `Joined(`.
pub open spec fn tag_joined() -> Seq<u8> {
    seq![74, 111, 105, 110, 101, 100, 40]
}

fn tag_joined_bytes() -> (v: Vec<u8>)
    ensures
        v@ == tag_joined(),
{
    let mut v: Vec<u8> = Vec::new();
    v.push(74);
    v.push(111);
    v.push(105);
    v.push(110);
    v.push(101);
    v.push(100);
    v.push(40);
    proof {
        assert(v@ =~= tag_joined());
    }
    v
}

/// The tag `TurnDone(`.
pub open spec fn tag_turn_done() -> Seq<u8> {
    seq![84, 117, 114, 110, 68, 111, 110, 101, 40]
}

fn tag_turn_done_bytes() -> (v: Vec<u8>)
    ensures
        v@ == tag_turn_done(),
{
    let mut v: Vec<u8> = Vec::new();
    v.push(84);
    v.push(117);
    v.push(114);
    v.push(110);
    v.push(68);
    v.push(111);
    v.push(110);
    v.push(101);
    v.push(40);
    proof {
        assert(v@ =~= tag_turn_done());
    }
    v
}

/// The tag `GameConcluded(`.
pub open spec fn tag_game_concluded() -> Seq<u8> {
    seq![71, 97, 109, 101, 67, 111, 110, 99, 108, 117, 100, 101, 100, 40]
}

fn tag_game_concluded_bytes() -> (v: Vec<u8>)
    ensures
        v@ == tag_game_concluded(),
{
    let mut v: Vec<u8> = Vec::new();
    v.push(71);
    v.push(97);
    v.push(109);
    v.push(101);
    v.push(67);
    v.push(111);
    v.push(110);
    v.push(99);
    v.push(108);
    v.push(117);
    v.push(100);
    v.push(101);
    v.push(100);
    v.push(40);
    proof {
        assert(v@ =~= tag_game_concluded());
    }
    v
}

/// The tag `WaitingForHost`.
pub open spec fn tag_waiting_for_host() -> Seq<u8> {
    seq![87, 97, 105, 116, 105, 110, 103, 70, 111, 114, 72, 111, 115, 116]
}

fn tag_waiting_for_host_bytes() -> (v: Vec<u8>)
    ensures
        v@ == tag_waiting_for_host(),
{
    let mut v: Vec<u8> = Vec::new();
    v.push(87);
    v.push(97);
    v.push(105);
    v.push(116);
    v.push(105);
    v.push(110);
    v.push(103);
    v.push(70);
    v.push(111);
    v.push(114);
    v.push(72);
    v.push(111);
    v.push(115);
    v.push(116);
    proof {
        assert(v@ =~= tag_waiting_for_host());
    }
    v
}

/// The tag `InvalidTile`.
pub open spec fn tag_invalid_tile() -> Seq<u8> {
    seq![73, 110, 118, 97, 108, 105, 100, 84, 105, 108, 101]
}

fn tag_invalid_tile_bytes() -> (v: Vec<u8>)
    ensures
        v@ == tag_invalid_tile(),
{
    let mut v: Vec<u8> = Vec::new();
    v.push(73);
    v.push(110);
    v.push(118);
    v.push(97);
    v.push(108);
    v.push(105);
    v.push(100);
    v.push(84);
    v.push(105);
    v.push(108);
    v.push(101);
    proof {
        assert(v@ =~= tag_invalid_tile());
    }
    v
}

/// The tag `NotYourTurn`.
pub open spec fn tag_not_your_turn() -> Seq<u8> {
    seq![78, 111, 116, 89, 111, 117, 114, 84, 117, 114, 110]
}

fn tag_not_your_turn_bytes() -> (v: Vec<u8>)
    ensures
        v@ == tag_not_your_turn(),
{
    let mut v: Vec<u8> = Vec::new();
    v.push(78);
    v.push(111);
    v.push(116);
    v.push(89);
    v.push(111);
    v.push(117);
    v.push(114);
    v.push(84);
    v.push(117);
    v.push(114);
    v.push(110);
    proof {
        assert(v@ =~= tag_not_your_turn());
    }
    v
}

/// The tag `NotAllowed`.
pub open spec fn tag_not_allowed() -> Seq<u8> {
    seq![78, 111, 116, 65, 108, 108, 111, 119, 101, 100]
}

fn tag_not_allowed_bytes() -> (v: Vec<u8>)
    ensures
        v@ == tag_not_allowed(),
{
    let mut v: Vec<u8> = Vec::new();
    v.push(78);
    v.push(111);
    v.push(116);
    v.push(65);
    v.push(108);
    v.push(108);
    v.push(111);
    v.push(119);
    v.push(101);
    v.push(100);
    proof {
        assert(v@ =~= tag_not_allowed());
    }
    v
}

/// The tag `MatchInProgress`.
pub open spec fn tag_match_in_progress() -> Seq<u8> {
    seq![77, 97, 116, 99, 104, 73, 110, 80, 114, 111, 103, 114, 101, 115, 115]
}

fn tag_match_in_progress_bytes() -> (v: Vec<u8>)
    ensures
        v@ == tag_match_in_progress(),
{
    let mut v: Vec<u8> = Vec::new();
    v.push(77);
    v.push(97);
    v.push(116);
    v.push(99);
    v.push(104);
    v.push(73);
    v.push(110);
    v.push(80);
    v.push(114);
    v.push(111);
    v.push(103);
    v.push(114);
    v.push(101);
    v.push(115);
    v.push(115);
    proof {
        assert(v@ =~= tag_match_in_progress());
    }
    v
}

/// The tag `InvalidParam(`.
pub open spec fn tag_invalid_param() -> Seq<u8> {
    seq![73, 110, 118, 97, 108, 105, 100, 80, 97, 114, 97, 109, 40]
}

fn tag_invalid_param_bytes() -> (v: Vec<u8>)
    ensures
        v@ == tag_invalid_param(),
{
    let mut v: Vec<u8> = Vec::new();
    v.push(73);
    v.push(110);
    v.push(118);
    v.push(97);
    v.push(108);
    v.push(105);
    v.push(100);
    v.push(80);
    v.push(97);
    v.push(114);
    v.push(97);
    v.push(109);
    v.push(40);
    proof {
        assert(v@ =~= tag_invalid_param());
    }
    v
}

/// The tag `InvalidMessage(`.
pub open spec fn tag_invalid_message() -> Seq<u8> {
    seq![73, 110, 118, 97, 108, 105, 100, 77, 101, 115, 115, 97, 103, 101, 40]
}

fn tag_invalid_message_bytes() -> (v: Vec<u8>)
    ensures
        v@ == tag_invalid_message(),
{
    let mut v: Vec<u8> = Vec::new();
    v.push(73);
    v.push(110);
    v.push(118);
    v.push(97);
    v.push(108);
    v.push(105);
    v.push(100);
    v.push(77);
    v.push(101);
    v.push(115);
    v.push(115);
    v.push(97);
    v.push(103);
    v.push(101);
    v.push(40);
    proof {
        assert(v@ =~= tag_invalid_message());
    }
    v
}

/// The tag `ServerError(`.
pub open spec fn tag_server_error() -> Seq<u8> {
    seq![83, 101, 114, 118, 101, 114, 69, 114, 114, 111, 114, 40]
}

fn tag_server_error_bytes() -> (v: Vec<u8>)
    ensures
        v@ == tag_server_error(),
{
    let mut v: Vec<u8> = Vec::new();
    v.push(83);
    v.push(101);
    v.push(114);
    v.push(118);
    v.push(101);
    v.push(114);
    v.push(69);
    v.push(114);
    v.push(114);
    v.push(111);
    v.push(114);
    v.push(40);
    proof {
        assert(v@ =~= tag_server_error());
    }
    v
}

/// The tag `ServerInfo(`.
pub open spec fn tag_server_info() -> Seq<u8> {
    seq![83, 101, 114, 118, 101, 114, 73, 110, 102, 111, 40]
}

fn tag_server_info_bytes() -> (v: Vec<u8>)
    ensures
        v@ == tag_server_info(),
{
    let mut v: Vec<u8> = Vec::new();
    v.push(83);
    v.push(101);
    v.push(114);
    v.push(118);
    v.push(101);
    v.push(114);
    v.push(73);
    v.push(110);
    v.push(102);
    v.push(111);
    v.push(40);
    proof {
        assert(v@ =~= tag_server_info());
    }
    v
}

// ----- players and options -----

/// The encoding of a player: its symbol.
pub open spec fn enc_player(p: Player) -> Seq<u8> {
    match p {
        Player::O => seq![79],
        Player::X => seq![88],
    }
}

pub open spec fn p_player(s: Seq<u8>, i: int) -> Option<(Player, int)> {
    if 0 <= i < s.len() && s[i] == 79 {
        Some((Player::O, i + 1))
    } else if 0 <= i < s.len() && s[i] == 88 {
        Some((Player::X, i + 1))
    } else {
        None
    }
}

proof fn lemma_p_player(p: Player, s: Seq<u8>, i: int)
    requires
        at(s, i, enc_player(p)),
    ensures
        p_player(s, i) == Some((p, i + enc_player(p).len())),
{
    assert(s[i + 0] == enc_player(p)[0]);
}

fn e_player(p: Player, out: &mut Vec<u8>)
    ensures
        final(out)@ == old(out)@ + enc_player(p),
{
    match p {
        Player::O => out.push(79),
        Player::X => out.push(88),
    }
    proof {
        assert(out@ =~= old(out)@ + enc_player(p));
    }
}

fn d_player(s: &[u8], i: usize) -> (r: Option<(Player, usize)>)
    requires
        i <= s@.len(),
    ensures
        match r {
            Some((v, j)) => p_player(s@, i as int) == Some((v, j as int)) && i < j <= s@.len(),
            None => p_player(s@, i as int) is None,
        },
{
    if i < s.len() {
        let c = s[i];
        if c == 79 {
            Some((Player::O, i + 1))
        } else if c == 88 {
            Some((Player::X, i + 1))
        } else {
            None
        }
    } else {
        None
    }
}

/// The encoding of an optional player, as `None` or `Some(_)`.
pub open spec fn enc_opt_player(v: Option<Player>) -> Seq<u8> {
    match v {
        None => tag_none(),
        Some(p) => tag_some() + enc_player(p) + seq![RPAREN],
    }
}

pub open spec fn p_opt_player(s: Seq<u8>, i: int) -> Option<(Option<Player>, int)> {
    if at(s, i, tag_none()) {
        Some((None, i + tag_none().len()))
    } else if at(s, i, tag_some()) {
        match p_player(s, i + tag_some().len()) {
            Some((p, j)) => if byte_at(s, j, RPAREN) {
                Some((Some(p), j + 1))
            } else {
                None
            },
            None => None,
        }
    } else {
        None
    }
}

proof fn lemma_p_opt_player(v: Option<Player>, s: Seq<u8>, i: int)
    requires
        at(s, i, enc_opt_player(v)),
    ensures
        p_opt_player(s, i) == Some((v, i + enc_opt_player(v).len())),
{
    match v {
        None => {
            assert(s[i + 0] == tag_none()[0]);
        },
        Some(p) => {
            lemma_at_concat(s, i, tag_some() + enc_player(p), seq![RPAREN]);
            lemma_at_single(s, i + (tag_some() + enc_player(p)).len(), RPAREN);
            lemma_at_concat(s, i, tag_some(), enc_player(p));
            lemma_p_player(p, s, i + tag_some().len());
            assert(s[i + 0] == tag_some()[0]);
            assert(!at(s, i, tag_none()));
        },
    }
}

fn d_opt_player(s: &[u8], i: usize) -> (r: Option<(Option<Player>, usize)>)
    requires
        i <= s@.len(),
    ensures
        match r {
            Some((v, j)) => p_opt_player(s@, i as int) == Some((v, j as int)) && i <= j
                <= s@.len(),
            None => p_opt_player(s@, i as int) is None,
        },
{
    let t_none = tag_none_bytes();
    let t_some = tag_some_bytes();
    if let Some(j) = eat(s, i, &t_none) {
        return Some((None, j));
    }
    if let Some(j) = eat(s, i, &t_some) {
        match d_player(s, j) {
            Some((p, j2)) => {
                if j2 < s.len() && s[j2] == RPAREN {
                    return Some((Some(p), j2 + 1));
                }
                return None;
            },
            None => {
                return None;
            },
        }
    }
    None
}

fn e_opt_player(v: Option<Player>, out: &mut Vec<u8>)
    ensures
        final(out)@ == old(out)@ + enc_opt_player(v),
{
    match v {
        None => {
            let t = tag_none_bytes();
            out.extend_from_slice(t.as_slice());
            proof {
                assert(out@ =~= old(out)@ + enc_opt_player(v));
            }
        },
        Some(p) => {
            let t = tag_some_bytes();
            out.extend_from_slice(t.as_slice());
            e_player(p, out);
            out.push(RPAREN);
            proof {
                assert(out@ =~= old(out)@ + enc_opt_player(v));
            }
        },
    }
}

// ----- conclusions and game states -----

/// The encoding of a conclusion, as `Win(_)` or `Draw`.
pub open spec fn enc_conclusion(c: Conclusion) -> Seq<u8> {
    match c {
        Conclusion::Win(p) => tag_win() + enc_player(p) + seq![RPAREN],
        Conclusion::Draw => tag_draw(),
    }
}

pub open spec fn p_conclusion(s: Seq<u8>, i: int) -> Option<(Conclusion, int)> {
    if at(s, i, tag_draw()) {
        Some((Conclusion::Draw, i + tag_draw().len()))
    } else if at(s, i, tag_win()) {
        match p_player(s, i + tag_win().len()) {
            Some((p, j)) => if byte_at(s, j, RPAREN) {
                Some((Conclusion::Win(p), j + 1))
            } else {
                None
            },
            None => None,
        }
    } else {
        None
    }
}

proof fn lemma_p_conclusion(c: Conclusion, s: Seq<u8>, i: int)
    requires
        at(s, i, enc_conclusion(c)),
    ensures
        p_conclusion(s, i) == Some((c, i + enc_conclusion(c).len())),
{
    match c {
        Conclusion::Draw => {
            assert(s[i + 0] == tag_draw()[0]);
        },
        Conclusion::Win(p) => {
            lemma_at_concat(s, i, tag_win() + enc_player(p), seq![RPAREN]);
            lemma_at_single(s, i + (tag_win() + enc_player(p)).len(), RPAREN);
            lemma_at_concat(s, i, tag_win(), enc_player(p));
            lemma_p_player(p, s, i + tag_win().len());
            assert(s[i + 0] == tag_win()[0]);
            assert(!at(s, i, tag_draw()));
        },
    }
}

fn d_conclusion(s: &[u8], i: usize) -> (r: Option<(Conclusion, usize)>)
    requires
        i <= s@.len(),
    ensures
        match r {
            Some((v, j)) => p_conclusion(s@, i as int) == Some((v, j as int)) && i <= j
                <= s@.len(),
            None => p_conclusion(s@, i as int) is None,
        },
{
    let t_draw = tag_draw_bytes();
    let t_win = tag_win_bytes();
    if let Some(j) = eat(s, i, &t_draw) {
        return Some((Conclusion::Draw, j));
    }
    if let Some(j) = eat(s, i, &t_win) {
        match d_player(s, j) {
            Some((p, j2)) => {
                if j2 < s.len() && s[j2] == RPAREN {
                    return Some((Conclusion::Win(p), j2 + 1));
                }
                return None;
            },
            None => {
                return None;
            },
        }
    }
    None
}

fn e_conclusion(c: Conclusion, out: &mut Vec<u8>)
    ensures
        final(out)@ == old(out)@ + enc_conclusion(c),
{
    match c {
        Conclusion::Draw => {
            let t = tag_draw_bytes();
            out.extend_from_slice(t.as_slice());
            proof {
                assert(out@ =~= old(out)@ + enc_conclusion(c));
            }
        },
        Conclusion::Win(p) => {
            let t = tag_win_bytes();
            out.extend_from_slice(t.as_slice());
            e_player(p, out);
            out.push(RPAREN);
            proof {
                assert(out@ =~= old(out)@ + enc_conclusion(c));
            }
        },
    }
}

/// The encoding of a turn state, as `Playing(_)` or `Concluded(_)`.
pub open spec fn enc_state(st: State) -> Seq<u8> {
    match st {
        State::Playing(p) => tag_playing() + enc_player(p) + seq![RPAREN],
        State::Concluded(c) => tag_concluded() + enc_conclusion(c) + seq![RPAREN],
    }
}

pub open spec fn p_state(s: Seq<u8>, i: int) -> Option<(State, int)> {
    if at(s, i, tag_playing()) {
        match p_player(s, i + tag_playing().len()) {
            Some((p, j)) => if byte_at(s, j, RPAREN) {
                Some((State::Playing(p), j + 1))
            } else {
                None
            },
            None => None,
        }
    } else if at(s, i, tag_concluded()) {
        match p_conclusion(s, i + tag_concluded().len()) {
            Some((c, j)) => if byte_at(s, j, RPAREN) {
                Some((State::Concluded(c), j + 1))
            } else {
                None
            },
            None => None,
        }
    } else {
        None
    }
}

proof fn lemma_p_state(st: State, s: Seq<u8>, i: int)
    requires
        at(s, i, enc_state(st)),
    ensures
        p_state(s, i) == Some((st, i + enc_state(st).len())),
{
    match st {
        State::Playing(p) => {
            lemma_at_concat(s, i, tag_playing() + enc_player(p), seq![RPAREN]);
            lemma_at_single(s, i + (tag_playing() + enc_player(p)).len(), RPAREN);
            lemma_at_concat(s, i, tag_playing(), enc_player(p));
            lemma_p_player(p, s, i + tag_playing().len());
            assert(s[i + 0] == tag_playing()[0]);
        },
        State::Concluded(c) => {
            lemma_at_concat(s, i, tag_concluded() + enc_conclusion(c), seq![RPAREN]);
            lemma_at_single(s, i + (tag_concluded() + enc_conclusion(c)).len(), RPAREN);
            lemma_at_concat(s, i, tag_concluded(), enc_conclusion(c));
            lemma_p_conclusion(c, s, i + tag_concluded().len());
            assert(s[i + 0] == tag_concluded()[0]);
            assert(!at(s, i, tag_playing()));
        },
    }
}

fn d_state(s: &[u8], i: usize) -> (r: Option<(State, usize)>)
    requires
        i <= s@.len(),
    ensures
        match r {
            Some((v, j)) => p_state(s@, i as int) == Some((v, j as int)) && i <= j <= s@.len(),
            None => p_state(s@, i as int) is None,
        },
{
    let t_playing = tag_playing_bytes();
    let t_concluded = tag_concluded_bytes();
    if let Some(j) = eat(s, i, &t_playing) {
        match d_player(s, j) {
            Some((p, j2)) => {
                if j2 < s.len() && s[j2] == RPAREN {
                    return Some((State::Playing(p), j2 + 1));
                }
                return None;
            },
            None => {
                return None;
            },
        }
    }
    if let Some(j) = eat(s, i, &t_concluded) {
        match d_conclusion(s, j) {
            Some((c, j2)) => {
                if j2 < s.len() && s[j2] == RPAREN {
                    return Some((State::Concluded(c), j2 + 1));
                }
                return None;
            },
            None => {
                return None;
            },
        }
    }
    None
}

fn e_state(st: State, out: &mut Vec<u8>)
    ensures
        final(out)@ == old(out)@ + enc_state(st),
{
    match st {
        State::Playing(p) => {
            let t = tag_playing_bytes();
            out.extend_from_slice(t.as_slice());
            e_player(p, out);
            out.push(RPAREN);
            proof {
                assert(out@ =~= old(out)@ + enc_state(st));
            }
        },
        State::Concluded(c) => {
            let t = tag_concluded_bytes();
            out.extend_from_slice(t.as_slice());
            e_conclusion(c, out);
            out.push(RPAREN);
            proof {
                assert(out@ =~= old(out)@ + enc_state(st));
            }
        },
    }
}

// ----- decimal numbers -----

/// The byte at `i` is a decimal digit.
pub open spec fn spec_digit(s: Seq<u8>, i: int) -> bool {
    0 <= i < s.len() && DIGIT_ZERO <= s[i] <= DIGIT_NINE
}

/// The canonical decimal encoding of a tile number: no leading zeros.
pub open spec fn enc_u8(n: u8) -> Seq<u8> {
    if n < 10 {
        seq![(DIGIT_ZERO + n) as u8]
    } else if n < 100 {
        seq![(DIGIT_ZERO + n / 10) as u8, (DIGIT_ZERO + n % 10) as u8]
    } else {
        seq![(DIGIT_ZERO + n / 100) as u8, (DIGIT_ZERO + (n / 10) % 10) as u8, (DIGIT_ZERO + n % 10) as u8]
    }
}

pub open spec fn p_u8(s: Seq<u8>, i: int) -> Option<(u8, int)> {
    if !spec_digit(s, i) {
        None
    } else if !spec_digit(s, i + 1) {
        Some(((s[i] - DIGIT_ZERO) as u8, i + 1))
    } else if s[i] == DIGIT_ZERO {
        None
    } else if !spec_digit(s, i + 2) {
        Some((((s[i] - DIGIT_ZERO) * 10 + (s[i + 1] - DIGIT_ZERO)) as u8, i + 2))
    } else if spec_digit(s, i + 3) {
        None
    } else if (s[i] - DIGIT_ZERO) * 100 + (s[i + 1] - DIGIT_ZERO) * 10 + (s[i + 2] - DIGIT_ZERO) > 255 {
        None
    } else {
        Some((((s[i] - DIGIT_ZERO) * 100 + (s[i + 1] - DIGIT_ZERO) * 10 + (s[i + 2] - DIGIT_ZERO)) as u8, i + 3))
    }
}

proof fn lemma_p_u8(n: u8, s: Seq<u8>, i: int)
    requires
        at(s, i, enc_u8(n)),
        !spec_digit(s, i + enc_u8(n).len()),
    ensures
        p_u8(s, i) == Some((n, i + enc_u8(n).len())),
{
    if n < 10 {
        assert(s[i + 0] == enc_u8(n)[0]);
    } else if n < 100 {
        assert(s[i + 0] == enc_u8(n)[0]);
        assert(s[i + 1] == enc_u8(n)[1]);
    } else {
        assert(s[i + 0] == enc_u8(n)[0]);
        assert(s[i + 1] == enc_u8(n)[1]);
        assert(s[i + 2] == enc_u8(n)[2]);
    }
}

fn d_u8(s: &[u8], i: usize) -> (r: Option<(u8, usize)>)
    requires
        i <= s@.len(),
    ensures
        match r {
            Some((v, j)) => p_u8(s@, i as int) == Some((v, j as int)) && i <= j <= s@.len(),
            None => p_u8(s@, i as int) is None,
        },
{
    if !(i < s.len() && DIGIT_ZERO <= s[i] && s[i] <= DIGIT_NINE) {
        return None;
    }
    let d0 = s[i] - DIGIT_ZERO;
    if !(i + 1 < s.len() && DIGIT_ZERO <= s[i + 1] && s[i + 1] <= DIGIT_NINE) {
        return Some((d0, i + 1));
    }
    if d0 == 0 {
        return None;
    }
    let d1 = s[i + 1] - DIGIT_ZERO;
    if !(i + 2 < s.len() && DIGIT_ZERO <= s[i + 2] && s[i + 2] <= DIGIT_NINE) {
        return Some((d0 * 10 + d1, i + 2));
    }
    let d2 = s[i + 2] - DIGIT_ZERO;
    if i + 3 < s.len() && DIGIT_ZERO <= s[i + 3] && s[i + 3] <= DIGIT_NINE {
        return None;
    }
    let total: u32 = (d0 as u32) * 100 + (d1 as u32) * 10 + (d2 as u32);
    if total > 255 {
        return None;
    }
    Some((total as u8, i + 3))
}

fn e_u8(n: u8, out: &mut Vec<u8>)
    ensures
        final(out)@ == old(out)@ + enc_u8(n),
{
    if n < 10 {
        out.push(DIGIT_ZERO + n);
    } else if n < 100 {
        out.push(DIGIT_ZERO + n / 10);
        out.push(DIGIT_ZERO + n % 10);
    } else {
        out.push(DIGIT_ZERO + n / 100);
        out.push(DIGIT_ZERO + (n / 10) % 10);
        out.push(DIGIT_ZERO + n % 10);
    }
    proof {
        assert(out@ =~= old(out)@ + enc_u8(n));
    }
}


// ----- quoted, escaped text -----

/// The escape of one byte: quote, backslash and newline get a backslash
/// escape, every other byte stands for itself.  Multi-byte UTF-8 sequences
/// pass through unchanged, since all their bytes are 128 or above.
pub open spec fn esc_byte(x: u8) -> Seq<u8> {
    if x == QUOTE {
        seq![BACKSLASH, QUOTE]
    } else if x == BACKSLASH {
        seq![BACKSLASH, BACKSLASH]
    } else if x == NEWLINE {
        seq![BACKSLASH, ESCAPED_N]
    } else {
        seq![x]
    }
}

/// The escape of a byte sequence, byte for byte.
pub open spec fn esc(b: Seq<u8>) -> Seq<u8>
    decreases b.len(),
{
    if b.len() == 0 {
        Seq::empty()
    } else {
        esc_byte(b[0]) + esc(b.drop_first())
    }
}

/// Escaping distributes over appending one byte.
proof fn lemma_esc_snoc(b: Seq<u8>, x: u8)
    ensures
        esc(b.push(x)) == esc(b) + esc_byte(x),
    decreases b.len(),
{
    if b.len() == 0 {
        reveal_with_fuel(esc, 3);
        assert(b.push(x)[0] == x);
        assert(b.push(x).drop_first() =~= Seq::<u8>::empty());
        assert(esc(b.push(x)) =~= esc(b) + esc_byte(x));
    } else {
        assert(b.push(x)[0] == b[0]);
        assert(b.push(x).drop_first() =~= b.drop_first().push(x));
        lemma_esc_snoc(b.drop_first(), x);
        assert(esc(b.push(x)) =~= esc(b) + esc_byte(x));
    }
}

/// The encoding of text: its UTF-8 bytes, escaped, between double quotes.
pub open spec fn enc_str(t: Seq<char>) -> Seq<u8> {
    seq![QUOTE] + esc(vstd::utf8::encode_utf8(t)) + seq![QUOTE]
}

/// Reads escaped bytes up to an unescaped closing quote, returning the
/// unescaped bytes and the position just after the quote.
pub open spec fn p_str_bytes(s: Seq<u8>, i: int) -> Option<(Seq<u8>, int)>
    decreases s.len() - i,
{
    if i < 0 || i >= s.len() {
        None
    } else if s[i] == QUOTE {
        Some((Seq::empty(), i + 1))
    } else if s[i] == BACKSLASH {
        if i + 1 < s.len() {
            let e = s[i + 1];
            let unescaped = if e == QUOTE || e == BACKSLASH {
                Some(e)
            } else if e == ESCAPED_N {
                Some(NEWLINE)
            } else {
                None
            };
            match unescaped {
                Some(x) => match p_str_bytes(s, i + 2) {
                    Some((rest, j)) => Some((seq![x] + rest, j)),
                    None => None,
                },
                None => None,
            }
        } else {
            None
        }
    } else if s[i] == NEWLINE {
        None
    } else {
        match p_str_bytes(s, i + 1) {
            Some((rest, j)) => Some((seq![s[i]] + rest, j)),
            None => None,
        }
    }
}

proof fn lemma_p_str_bytes(b: Seq<u8>, s: Seq<u8>, i: int)
    requires
        at(s, i, esc(b) + seq![QUOTE]),
    ensures
        p_str_bytes(s, i) == Some((b, i + esc(b).len() + 1)),
    decreases b.len(),
{
    if b.len() == 0 {
        assert(esc(b) + seq![QUOTE] =~= seq![QUOTE]);
        lemma_at_single(s, i, QUOTE);
    } else {
        let x = b[0];
        let rest = b.drop_first();
        assert(esc(b) + seq![QUOTE] =~= esc_byte(x) + (esc(rest) + seq![QUOTE]));
        lemma_at_concat(s, i, esc_byte(x), esc(rest) + seq![QUOTE]);
        lemma_p_str_bytes(rest, s, i + esc_byte(x).len());
        assert(seq![x] + rest =~= b);
        if x == QUOTE || x == BACKSLASH {
            assert(s[i + 0] == esc_byte(x)[0]);
            assert(s[i + 1] == esc_byte(x)[1]);
        } else if x == NEWLINE {
            assert(s[i + 0] == esc_byte(x)[0]);
            assert(s[i + 1] == esc_byte(x)[1]);
        } else {
            assert(s[i + 0] == esc_byte(x)[0]);
        }
    }
}

/// Reads a quoted string, returning its text.
pub open spec fn p_str(s: Seq<u8>, i: int) -> Option<(Seq<char>, int)> {
    if byte_at(s, i, QUOTE) {
        match p_str_bytes(s, i + 1) {
            Some((u, j)) => if vstd::utf8::valid_utf8(u) {
                Some((vstd::utf8::decode_utf8(u), j))
            } else {
                None
            },
            None => None,
        }
    } else {
        None
    }
}

proof fn lemma_p_str(t: Seq<char>, s: Seq<u8>, i: int)
    requires
        at(s, i, enc_str(t)),
    ensures
        p_str(s, i) == Some((t, i + enc_str(t).len())),
{
    let u = vstd::utf8::encode_utf8(t);
    assert(enc_str(t) =~= seq![QUOTE] + (esc(u) + seq![QUOTE]));
    lemma_at_concat(s, i, seq![QUOTE], esc(u) + seq![QUOTE]);
    lemma_at_single(s, i, QUOTE);
    lemma_p_str_bytes(u, s, i + 1);
    vstd::utf8::encode_utf8_valid_utf8(t);
    vstd::utf8::encode_utf8_decode_utf8(t);
}

/// Relies on `String::from_utf8`: it accepts exactly valid UTF-8 input,
/// and the accepted string's byte encoding is the input itself.
#[verifier::external_body]
fn bytes_to_string(v: Vec<u8>) -> (r: Option<String>)
    ensures
        match r {
            Some(t) => vstd::utf8::valid_utf8(v@) && vstd::utf8::encode_utf8(t@) == v@,
            None => !vstd::utf8::valid_utf8(v@),
        },
{
    match String::from_utf8(v) {
        Ok(t) => Some(t),
        Err(_) => None,
    }
}

fn e_str(t: &str, out: &mut Vec<u8>)
    ensures
        final(out)@ == old(out)@ + enc_str(t@),
{
    out.push(QUOTE);
    let ghost base: Seq<u8> = out@;
    let bytes = t.as_bytes();
    proof {
        assert(bytes@ == vstd::utf8::encode_utf8(t@));
    }
    let mut k: usize = 0;
    while k < bytes.len()
        invariant
            k <= bytes@.len(),
            out@ == base + esc(bytes@.take(k as int)),
        decreases bytes@.len() - k,
    {
        let x = bytes[k];
        proof {
            lemma_esc_snoc(bytes@.take(k as int), x);
            assert(bytes@.take(k + 1) =~= bytes@.take(k as int).push(x));
        }
        if x == QUOTE {
            out.push(BACKSLASH);
            out.push(QUOTE);
        } else if x == BACKSLASH {
            out.push(BACKSLASH);
            out.push(BACKSLASH);
        } else if x == NEWLINE {
            out.push(BACKSLASH);
            out.push(ESCAPED_N);
        } else {
            out.push(x);
        }
        proof {
            assert(out@ =~= base + esc(bytes@.take(k + 1)));
        }
        k = k + 1;
    }
    proof {
        assert(bytes@.take(bytes@.len() as int) =~= bytes@);
    }
    out.push(QUOTE);
    proof {
        assert(out@ =~= old(out)@ + enc_str(t@));
    }
}

fn d_str(s: &[u8], i: usize) -> (r: Option<(String, usize)>)
    requires
        i <= s@.len(),
    ensures
        match r {
            Some((t, j)) => p_str(s@, i as int) == Some((t@, j as int)) && i <= j <= s@.len(),
            None => p_str(s@, i as int) is None,
        },
{
    if !(i < s.len() && s[i] == QUOTE) {
        return None;
    }
    let mut u: Vec<u8> = Vec::new();
    let mut k: usize = i + 1;
    loop
        invariant
            i + 1 <= k <= s@.len(),
            s@.len() <= usize::MAX,
            byte_at(s@, i as int, QUOTE),
            match p_str_bytes(s@, k as int) {
                Some((rest, j)) => p_str_bytes(s@, i + 1) == Some((u@ + rest, j)),
                None => p_str_bytes(s@, i + 1) is None,
            },
        decreases s@.len() - k,
    {
        if k >= s.len() {
            return None;
        }
        let c = s[k];
        if c == QUOTE {
            proof {
                assert(u@ + Seq::<u8>::empty() =~= u@);
            }
            let ghost ubytes = u@;
            match bytes_to_string(u) {
                Some(t) => {
                    proof {
                        vstd::utf8::encode_utf8_decode_utf8(t@);
                    }
                    return Some((t, k + 1));
                },
                None => {
                    return None;
                },
            }
        }
        if c == BACKSLASH {
            if k + 1 >= s.len() {
                return None;
            }
            let e = s[k + 1];
            let ghost uold = u@;
            if e == QUOTE || e == BACKSLASH {
                u.push(e);
                proof {
                    match p_str_bytes(s@, k + 2) {
                        Some((rest, j)) => {
                            assert(uold + (seq![e] + rest) =~= u@ + rest);
                        },
                        None => (),
                    }
                }
            } else if e == ESCAPED_N {
                u.push(NEWLINE);
                proof {
                    match p_str_bytes(s@, k + 2) {
                        Some((rest, j)) => {
                            assert(uold + (seq![NEWLINE] + rest) =~= u@ + rest);
                        },
                        None => (),
                    }
                }
            } else {
                return None;
            }
            k = k + 2;
        } else if c == NEWLINE {
            return None;
        } else {
            let ghost uold = u@;
            u.push(c);
            proof {
                match p_str_bytes(s@, k + 1) {
                    Some((rest, j)) => {
                        assert(uold + (seq![c] + rest) =~= u@ + rest);
                    },
                    None => (),
                }
            }
            k = k + 1;
        }
    }
}


// ----- boards and games -----

/// The encoding of a row of cells, comma-separated.
pub open spec fn enc_cells(b: Seq<Option<Player>>) -> Seq<u8>
    decreases b.len(),
{
    if b.len() == 0 {
        Seq::empty()
    } else if b.len() == 1 {
        enc_opt_player(b[0])
    } else {
        enc_opt_player(b[0]) + seq![COMMA] + enc_cells(b.drop_first())
    }
}

/// Reads exactly `k` comma-separated cells.
pub open spec fn p_cells(s: Seq<u8>, i: int, k: nat) -> Option<(Seq<Option<Player>>, int)>
    decreases k,
{
    if k == 0 {
        Some((Seq::empty(), i))
    } else {
        match p_opt_player(s, i) {
            Some((c, j)) => if k == 1 {
                Some((seq![c], j))
            } else if byte_at(s, j, COMMA) {
                match p_cells(s, j + 1, (k - 1) as nat) {
                    Some((rest, j2)) => Some((seq![c] + rest, j2)),
                    None => None,
                }
            } else {
                None
            },
            None => None,
        }
    }
}

proof fn lemma_p_cells(b: Seq<Option<Player>>, s: Seq<u8>, i: int)
    requires
        at(s, i, enc_cells(b)),
        b.len() >= 1,
    ensures
        p_cells(s, i, b.len() as nat) == Some((b, i + enc_cells(b).len())),
    decreases b.len(),
{
    if b.len() == 1 {
        lemma_p_opt_player(b[0], s, i);
        assert(seq![b[0]] =~= b);
    } else {
        let head = enc_opt_player(b[0]);
        let tail = enc_cells(b.drop_first());
        assert(enc_cells(b) =~= head + (seq![COMMA] + tail));
        lemma_at_concat(s, i, head, seq![COMMA] + tail);
        lemma_at_concat(s, i + head.len(), seq![COMMA], tail);
        lemma_at_single(s, i + head.len(), COMMA);
        lemma_p_opt_player(b[0], s, i);
        lemma_p_cells(b.drop_first(), s, i + head.len() + 1);
        assert(seq![b[0]] + b.drop_first() =~= b);
    }
}

fn d_cells(s: &[u8], i: usize, k: usize) -> (r: Option<(Vec<Option<Player>>, usize)>)
    requires
        i <= s@.len(),
    ensures
        match r {
            Some((v, j)) => p_cells(s@, i as int, k as nat) == Some((v@, j as int)) && i <= j
                <= s@.len() && v@.len() == k,
            None => p_cells(s@, i as int, k as nat) is None,
        },
    decreases k,
{
    if k == 0 {
        let v: Vec<Option<Player>> = Vec::new();
        proof {
            assert(v@ =~= Seq::<Option<Player>>::empty());
        }
        return Some((v, i));
    }
    match d_opt_player(s, i) {
        None => None,
        Some((c, j)) => {
            if k == 1 {
                let mut v: Vec<Option<Player>> = Vec::new();
                v.push(c);
                proof {
                    assert(v@ =~= seq![c]);
                }
                return Some((v, j));
            }
            if j < s.len() && s[j] == COMMA {
                match d_cells(s, j + 1, k - 1) {
                    Some((mut rest, j2)) => {
                        rest.insert(0, c);
                        proof {
                            assert(rest@ =~= seq![c] + rest@.drop_first());
                        }
                        Some((rest, j2))
                    },
                    None => None,
                }
            } else {
                None
            }
        },
    }
}

/// The encoding of a board: its nine cells, bracketed.
pub open spec fn enc_board(b: Seq<Option<Player>>) -> Seq<u8> {
    seq![LBRACKET] + enc_cells(b) + seq![RBRACKET]
}

pub open spec fn p_board(s: Seq<u8>, i: int) -> Option<(Seq<Option<Player>>, int)> {
    if byte_at(s, i, LBRACKET) {
        match p_cells(s, i + 1, 9) {
            Some((cells, j)) => if byte_at(s, j, RBRACKET) {
                Some((cells, j + 1))
            } else {
                None
            },
            None => None,
        }
    } else {
        None
    }
}

proof fn lemma_p_board(b: Seq<Option<Player>>, s: Seq<u8>, i: int)
    requires
        at(s, i, enc_board(b)),
        b.len() == 9,
    ensures
        p_board(s, i) == Some((b, i + enc_board(b).len())),
{
    assert(enc_board(b) =~= seq![LBRACKET] + (enc_cells(b) + seq![RBRACKET]));
    lemma_at_concat(s, i, seq![LBRACKET], enc_cells(b) + seq![RBRACKET]);
    lemma_at_single(s, i, LBRACKET);
    lemma_at_concat(s, i + 1, enc_cells(b), seq![RBRACKET]);
    lemma_at_single(s, i + 1 + enc_cells(b).len(), RBRACKET);
    lemma_p_cells(b, s, i + 1);
}

fn d_board(s: &[u8], i: usize) -> (r: Option<(crate::board::Board, usize)>)
    requires
        i <= s@.len(),
    ensures
        match r {
            Some((b, j)) => p_board(s@, i as int) == Some((b@, j as int)) && i <= j <= s@.len(),
            None => p_board(s@, i as int) is None,
        },
{
    if !(i < s.len() && s[i] == LBRACKET) {
        return None;
    }
    match d_cells(s, i + 1, 9) {
        Some((cells, j)) => {
            if j < s.len() && s[j] == RBRACKET {
                let b = crate::board::Board::from_cells(&cells);
                Some((b, j + 1))
            } else {
                None
            }
        },
        None => None,
    }
}

/// Appending one more cell appends a comma and that cell's encoding.
proof fn lemma_enc_cells_snoc(b: Seq<Option<Player>>, c: Option<Player>)
    requires
        b.len() >= 1,
    ensures
        enc_cells(b.push(c)) == enc_cells(b) + seq![COMMA] + enc_opt_player(c),
    decreases b.len(),
{
    if b.len() == 1 {
        reveal_with_fuel(enc_cells, 3);
        assert(b.push(c)[0] == b[0]);
        assert(b.push(c).drop_first() =~= seq![c]);
        assert(enc_cells(b.push(c)) =~= enc_cells(b) + seq![COMMA] + enc_opt_player(c));
    } else {
        assert(b.push(c)[0] == b[0]);
        assert(b.push(c).drop_first() =~= b.drop_first().push(c));
        lemma_enc_cells_snoc(b.drop_first(), c);
        assert(enc_cells(b.push(c)) =~= enc_cells(b) + seq![COMMA] + enc_opt_player(c));
    }
}

fn e_board(b: &crate::board::Board, out: &mut Vec<u8>)
    ensures
        final(out)@ == old(out)@ + enc_board(b@),
{
    proof {
        b.lemma_len();
    }
    out.push(LBRACKET);
    let ghost base: Seq<u8> = out@;
    e_opt_player(b.cell(0), out);
    proof {
        assert(b@.take(1)[0] == b@[0]);
        assert(out@ =~= base + enc_cells(b@.take(1)));
    }
    let mut idx: usize = 1;
    while idx < 9
        invariant
            1 <= idx <= 9,
            b@.len() == 9,
            out@ == base + enc_cells(b@.take(idx as int)),
        decreases 9 - idx,
    {
        out.push(COMMA);
        e_opt_player(b.cell(idx), out);
        proof {
            lemma_enc_cells_snoc(b@.take(idx as int), b@[idx as int]);
            assert(b@.take(idx + 1) =~= b@.take(idx as int).push(b@[idx as int]));
            assert(out@ =~= base + enc_cells(b@.take(idx + 1)));
        }
        idx = idx + 1;
    }
    proof {
        assert(b@.take(9) =~= b@);
    }
    out.push(RBRACKET);
    proof {
        assert(out@ =~= old(out)@ + enc_board(b@));
    }
}

/// The encoding of a game: its board and its state, parenthesised.
pub open spec fn enc_game(g: GameV) -> Seq<u8> {
    seq![LPAREN] + enc_board(g.board) + seq![COMMA] + enc_state(g.state) + seq![RPAREN]
}

pub open spec fn p_game(s: Seq<u8>, i: int) -> Option<(GameV, int)> {
    if byte_at(s, i, LPAREN) {
        match p_board(s, i + 1) {
            Some((b, j)) => if byte_at(s, j, COMMA) {
                match p_state(s, j + 1) {
                    Some((st, j2)) => if byte_at(s, j2, RPAREN) {
                        Some((GameV { board: b, state: st }, j2 + 1))
                    } else {
                        None
                    },
                    None => None,
                }
            } else {
                None
            },
            None => None,
        }
    } else {
        None
    }
}

proof fn lemma_p_game(g: GameV, s: Seq<u8>, i: int)
    requires
        at(s, i, enc_game(g)),
        g.board.len() == 9,
    ensures
        p_game(s, i) == Some((g, i + enc_game(g).len())),
{
    let b = enc_board(g.board);
    let st = enc_state(g.state);
    assert(enc_game(g) =~= seq![LPAREN] + (b + (seq![COMMA] + (st + seq![RPAREN]))));
    lemma_at_concat(s, i, seq![LPAREN], b + (seq![COMMA] + (st + seq![RPAREN])));
    lemma_at_single(s, i, LPAREN);
    lemma_at_concat(s, i + 1, b, seq![COMMA] + (st + seq![RPAREN]));
    lemma_at_concat(s, i + 1 + b.len(), seq![COMMA], st + seq![RPAREN]);
    lemma_at_single(s, i + 1 + b.len(), COMMA);
    lemma_at_concat(s, i + 1 + b.len() + 1, st, seq![RPAREN]);
    lemma_at_single(s, i + 1 + b.len() + 1 + st.len(), RPAREN);
    lemma_p_board(g.board, s, i + 1);
    lemma_p_state(g.state, s, i + 1 + b.len() + 1);
}

fn d_game(s: &[u8], i: usize) -> (r: Option<(crate::game::Game, usize)>)
    requires
        i <= s@.len(),
    ensures
        match r {
            Some((g, j)) => p_game(s@, i as int) == Some((g@, j as int)) && i <= j <= s@.len(),
            None => p_game(s@, i as int) is None,
        },
{
    if !(i < s.len() && s[i] == LPAREN) {
        return None;
    }
    match d_board(s, i + 1) {
        Some((b, j)) => {
            if !(j < s.len() && s[j] == COMMA) {
                return None;
            }
            match d_state(s, j + 1) {
                Some((st, j2)) => {
                    if j2 < s.len() && s[j2] == RPAREN {
                        Some((crate::game::Game { board: b, state: st }, j2 + 1))
                    } else {
                        None
                    }
                },
                None => None,
            }
        },
        None => None,
    }
}

fn e_game(g: &crate::game::Game, out: &mut Vec<u8>)
    ensures
        final(out)@ == old(out)@ + enc_game(g@),
{
    out.push(LPAREN);
    e_board(&g.board, out);
    out.push(COMMA);
    e_state(g.state, out);
    out.push(RPAREN);
    proof {
        assert(out@ =~= old(out)@ + enc_game(g@));
    }
}


// ----- requests, responses, errors, notifications -----

/// The encoding of a request: the variant name around its payload.
pub open spec fn enc_request(v: RequestV) -> Seq<u8> {
    match v {
        RequestV::JoinMatch(x) => tag_join_match() + enc_opt_player(x) + seq![RPAREN],
        RequestV::GetGameInfo => tag_get_game_info(),
        RequestV::Chat(x) => tag_chat() + enc_str(x) + seq![RPAREN],
        RequestV::PlayTurn(x) => tag_play_turn() + enc_u8(x) + seq![RPAREN],
        RequestV::Disconnect => tag_disconnect(),
    }
}

pub open spec fn p_request(s: Seq<u8>, i: int) -> Option<(RequestV, int)> {
    if at(s, i, tag_join_match()) {
        match p_opt_player(s, i + tag_join_match().len()) {
            Some((x, j)) => if byte_at(s, j, RPAREN) {
                Some((RequestV::JoinMatch(x), j + 1))
            } else {
                None
            },
            None => None,
        }
    } else if at(s, i, tag_get_game_info()) {
        Some((RequestV::GetGameInfo, i + tag_get_game_info().len()))
    } else if at(s, i, tag_chat()) {
        match p_str(s, i + tag_chat().len()) {
            Some((x, j)) => if byte_at(s, j, RPAREN) {
                Some((RequestV::Chat(x), j + 1))
            } else {
                None
            },
            None => None,
        }
    } else if at(s, i, tag_play_turn()) {
        match p_u8(s, i + tag_play_turn().len()) {
            Some((x, j)) => if byte_at(s, j, RPAREN) {
                Some((RequestV::PlayTurn(x), j + 1))
            } else {
                None
            },
            None => None,
        }
    } else if at(s, i, tag_disconnect()) {
        Some((RequestV::Disconnect, i + tag_disconnect().len()))
    } else {
        None
    }
}

#[verifier::rlimit(100)]
proof fn lemma_p_request(v: RequestV, s: Seq<u8>, i: int)
    requires
        at(s, i, enc_request(v)),
    ensures
        p_request(s, i) == Some((v, i + enc_request(v).len())),
{
    match v {
        RequestV::JoinMatch(x) => {
            assert(enc_request(v) =~= tag_join_match() + (enc_opt_player(x) + seq![RPAREN]));
            lemma_at_concat(s, i, tag_join_match(), enc_opt_player(x) + seq![RPAREN]);
            lemma_at_concat(s, i + tag_join_match().len(), enc_opt_player(x), seq![RPAREN]);
            lemma_at_single(s, i + tag_join_match().len() + enc_opt_player(x).len(), RPAREN);
            lemma_p_opt_player(x, s, i + tag_join_match().len());
        },
        RequestV::GetGameInfo => {
            assert(s[i + 0] == tag_get_game_info()[0]);
            assert(!at(s, i, tag_join_match()));
        },
        RequestV::Chat(x) => {
            assert(enc_request(v) =~= tag_chat() + (enc_str(x) + seq![RPAREN]));
            lemma_at_concat(s, i, tag_chat(), enc_str(x) + seq![RPAREN]);
            lemma_at_concat(s, i + tag_chat().len(), enc_str(x), seq![RPAREN]);
            lemma_at_single(s, i + tag_chat().len() + enc_str(x).len(), RPAREN);
            assert(s[i + 0] == tag_chat()[0]);
            assert(!at(s, i, tag_join_match()));
            assert(!at(s, i, tag_get_game_info()));
            lemma_p_str(x, s, i + tag_chat().len());
        },
        RequestV::PlayTurn(x) => {
            assert(enc_request(v) =~= tag_play_turn() + (enc_u8(x) + seq![RPAREN]));
            lemma_at_concat(s, i, tag_play_turn(), enc_u8(x) + seq![RPAREN]);
            lemma_at_concat(s, i + tag_play_turn().len(), enc_u8(x), seq![RPAREN]);
            lemma_at_single(s, i + tag_play_turn().len() + enc_u8(x).len(), RPAREN);
            assert(s[i + 0] == tag_play_turn()[0]);
            assert(!at(s, i, tag_join_match()));
            assert(!at(s, i, tag_get_game_info()));
            assert(!at(s, i, tag_chat()));
            lemma_p_u8(x, s, i + tag_play_turn().len());
        },
        RequestV::Disconnect => {
            assert(s[i + 0] == tag_disconnect()[0]);
            assert(!at(s, i, tag_join_match()));
            assert(!at(s, i, tag_get_game_info()));
            assert(!at(s, i, tag_chat()));
            assert(!at(s, i, tag_play_turn()));
        },
    }
}

/// Games on the wire carry all nine cells.
pub open spec fn wf_game_v(g: GameV) -> bool {
    g.board.len() == 9
}

pub open spec fn wf_response_v(v: ResponseV) -> bool {
    match v {
        ResponseV::GameInfo(g) => wf_game_v(g),
        ResponseV::TurnDone(g) => wf_game_v(g),
        _ => true,
    }
}

/// The encoding of a successful reply.
pub open spec fn enc_response(v: ResponseV) -> Seq<u8> {
    match v {
        ResponseV::Ack => tag_ack(),
        ResponseV::GameConcluded(x) => tag_game_concluded() + enc_conclusion(x) + seq![RPAREN],
        ResponseV::GameInfo(x) => tag_game_info() + enc_game(x) + seq![RPAREN],
        ResponseV::Joined(x) => tag_joined() + enc_opt_player(x) + seq![RPAREN],
        ResponseV::TurnDone(x) => tag_turn_done() + enc_game(x) + seq![RPAREN],
    }
}

pub open spec fn p_response(s: Seq<u8>, i: int) -> Option<(ResponseV, int)> {
    if at(s, i, tag_ack()) {
        Some((ResponseV::Ack, i + tag_ack().len()))
    } else if at(s, i, tag_game_concluded()) {
        match p_conclusion(s, i + tag_game_concluded().len()) {
            Some((x, j)) => if byte_at(s, j, RPAREN) {
                Some((ResponseV::GameConcluded(x), j + 1))
            } else {
                None
            },
            None => None,
        }
    } else if at(s, i, tag_game_info()) {
        match p_game(s, i + tag_game_info().len()) {
            Some((x, j)) => if byte_at(s, j, RPAREN) {
                Some((ResponseV::GameInfo(x), j + 1))
            } else {
                None
            },
            None => None,
        }
    } else if at(s, i, tag_joined()) {
        match p_opt_player(s, i + tag_joined().len()) {
            Some((x, j)) => if byte_at(s, j, RPAREN) {
                Some((ResponseV::Joined(x), j + 1))
            } else {
                None
            },
            None => None,
        }
    } else if at(s, i, tag_turn_done()) {
        match p_game(s, i + tag_turn_done().len()) {
            Some((x, j)) => if byte_at(s, j, RPAREN) {
                Some((ResponseV::TurnDone(x), j + 1))
            } else {
                None
            },
            None => None,
        }
    } else {
        None
    }
}

#[verifier::rlimit(100)]
proof fn lemma_p_response(v: ResponseV, s: Seq<u8>, i: int)
    requires
        at(s, i, enc_response(v)),
        wf_response_v(v),
    ensures
        p_response(s, i) == Some((v, i + enc_response(v).len())),
{
    match v {
        ResponseV::Ack => (),
        ResponseV::GameConcluded(x) => {
            assert(enc_response(v) =~= tag_game_concluded() + (enc_conclusion(x) + seq![RPAREN]));
            lemma_at_concat(s, i, tag_game_concluded(), enc_conclusion(x) + seq![RPAREN]);
            lemma_at_concat(s, i + tag_game_concluded().len(), enc_conclusion(x), seq![RPAREN]);
            lemma_at_single(s, i + tag_game_concluded().len() + enc_conclusion(x).len(), RPAREN);
            assert(s[i + 0] == tag_game_concluded()[0]);
            assert(!at(s, i, tag_ack()));
            lemma_p_conclusion(x, s, i + tag_game_concluded().len());
        },
        ResponseV::GameInfo(x) => {
            assert(enc_response(v) =~= tag_game_info() + (enc_game(x) + seq![RPAREN]));
            lemma_at_concat(s, i, tag_game_info(), enc_game(x) + seq![RPAREN]);
            lemma_at_concat(s, i + tag_game_info().len(), enc_game(x), seq![RPAREN]);
            lemma_at_single(s, i + tag_game_info().len() + enc_game(x).len(), RPAREN);
            assert(s[i + 0] == tag_game_info()[0]);
            assert(s[i + 4] == tag_game_info()[4]);
            assert(!at(s, i, tag_ack()));
            assert(!at(s, i, tag_game_concluded()));
            lemma_p_game(x, s, i + tag_game_info().len());
        },
        ResponseV::Joined(x) => {
            assert(enc_response(v) =~= tag_joined() + (enc_opt_player(x) + seq![RPAREN]));
            lemma_at_concat(s, i, tag_joined(), enc_opt_player(x) + seq![RPAREN]);
            lemma_at_concat(s, i + tag_joined().len(), enc_opt_player(x), seq![RPAREN]);
            lemma_at_single(s, i + tag_joined().len() + enc_opt_player(x).len(), RPAREN);
            assert(s[i + 0] == tag_joined()[0]);
            assert(!at(s, i, tag_ack()));
            assert(!at(s, i, tag_game_concluded()));
            assert(!at(s, i, tag_game_info()));
            lemma_p_opt_player(x, s, i + tag_joined().len());
        },
        ResponseV::TurnDone(x) => {
            assert(enc_response(v) =~= tag_turn_done() + (enc_game(x) + seq![RPAREN]));
            lemma_at_concat(s, i, tag_turn_done(), enc_game(x) + seq![RPAREN]);
            lemma_at_concat(s, i + tag_turn_done().len(), enc_game(x), seq![RPAREN]);
            lemma_at_single(s, i + tag_turn_done().len() + enc_game(x).len(), RPAREN);
            assert(s[i + 0] == tag_turn_done()[0]);
            assert(!at(s, i, tag_ack()));
            assert(!at(s, i, tag_game_concluded()));
            assert(!at(s, i, tag_game_info()));
            assert(!at(s, i, tag_joined()));
            lemma_p_game(x, s, i + tag_turn_done().len());
        },
    }
}

/// The encoding of a failure reply.
pub open spec fn enc_error(v: ErrorV) -> Seq<u8> {
    match v {
        ErrorV::WaitingForHost => tag_waiting_for_host(),
        ErrorV::InvalidTile => tag_invalid_tile(),
        ErrorV::NotYourTurn => tag_not_your_turn(),
        ErrorV::NotAllowed => tag_not_allowed(),
        ErrorV::MatchInProgress => tag_match_in_progress(),
        ErrorV::GameConcluded(x) => tag_game_concluded() + enc_conclusion(x) + seq![RPAREN],
        ErrorV::InvalidParam(x) => tag_invalid_param() + enc_str(x) + seq![RPAREN],
        ErrorV::InvalidMessage(x) => tag_invalid_message() + enc_str(x) + seq![RPAREN],
        ErrorV::ServerError(x) => tag_server_error() + enc_str(x) + seq![RPAREN],
    }
}

pub open spec fn p_error(s: Seq<u8>, i: int) -> Option<(ErrorV, int)> {
    if at(s, i, tag_waiting_for_host()) {
        Some((ErrorV::WaitingForHost, i + tag_waiting_for_host().len()))
    } else if at(s, i, tag_invalid_tile()) {
        Some((ErrorV::InvalidTile, i + tag_invalid_tile().len()))
    } else if at(s, i, tag_not_your_turn()) {
        Some((ErrorV::NotYourTurn, i + tag_not_your_turn().len()))
    } else if at(s, i, tag_not_allowed()) {
        Some((ErrorV::NotAllowed, i + tag_not_allowed().len()))
    } else if at(s, i, tag_match_in_progress()) {
        Some((ErrorV::MatchInProgress, i + tag_match_in_progress().len()))
    } else if at(s, i, tag_game_concluded()) {
        match p_conclusion(s, i + tag_game_concluded().len()) {
            Some((x, j)) => if byte_at(s, j, RPAREN) {
                Some((ErrorV::GameConcluded(x), j + 1))
            } else {
                None
            },
            None => None,
        }
    } else if at(s, i, tag_invalid_param()) {
        match p_str(s, i + tag_invalid_param().len()) {
            Some((x, j)) => if byte_at(s, j, RPAREN) {
                Some((ErrorV::InvalidParam(x), j + 1))
            } else {
                None
            },
            None => None,
        }
    } else if at(s, i, tag_invalid_message()) {
        match p_str(s, i + tag_invalid_message().len()) {
            Some((x, j)) => if byte_at(s, j, RPAREN) {
                Some((ErrorV::InvalidMessage(x), j + 1))
            } else {
                None
            },
            None => None,
        }
    } else if at(s, i, tag_server_error()) {
        match p_str(s, i + tag_server_error().len()) {
            Some((x, j)) => if byte_at(s, j, RPAREN) {
                Some((ErrorV::ServerError(x), j + 1))
            } else {
                None
            },
            None => None,
        }
    } else {
        None
    }
}

#[verifier::rlimit(100)]
proof fn lemma_p_error(v: ErrorV, s: Seq<u8>, i: int)
    requires
        at(s, i, enc_error(v)),
    ensures
        p_error(s, i) == Some((v, i + enc_error(v).len())),
{
    match v {
        ErrorV::WaitingForHost => (),
        ErrorV::InvalidTile => {
            assert(s[i + 0] == tag_invalid_tile()[0]);
            assert(!at(s, i, tag_waiting_for_host()));
        },
        ErrorV::NotYourTurn => {
            assert(s[i + 0] == tag_not_your_turn()[0]);
            assert(!at(s, i, tag_waiting_for_host()));
            assert(!at(s, i, tag_invalid_tile()));
        },
        ErrorV::NotAllowed => {
            assert(s[i + 0] == tag_not_allowed()[0]);
            assert(s[i + 3] == tag_not_allowed()[3]);
            assert(!at(s, i, tag_waiting_for_host()));
            assert(!at(s, i, tag_invalid_tile()));
            assert(!at(s, i, tag_not_your_turn()));
        },
        ErrorV::MatchInProgress => {
            assert(s[i + 0] == tag_match_in_progress()[0]);
            assert(!at(s, i, tag_waiting_for_host()));
            assert(!at(s, i, tag_invalid_tile()));
            assert(!at(s, i, tag_not_your_turn()));
            assert(!at(s, i, tag_not_allowed()));
        },
        ErrorV::GameConcluded(x) => {
            assert(enc_error(v) =~= tag_game_concluded() + (enc_conclusion(x) + seq![RPAREN]));
            lemma_at_concat(s, i, tag_game_concluded(), enc_conclusion(x) + seq![RPAREN]);
            lemma_at_concat(s, i + tag_game_concluded().len(), enc_conclusion(x), seq![RPAREN]);
            lemma_at_single(s, i + tag_game_concluded().len() + enc_conclusion(x).len(), RPAREN);
            assert(s[i + 0] == tag_game_concluded()[0]);
            assert(!at(s, i, tag_waiting_for_host()));
            assert(!at(s, i, tag_invalid_tile()));
            assert(!at(s, i, tag_not_your_turn()));
            assert(!at(s, i, tag_not_allowed()));
            assert(!at(s, i, tag_match_in_progress()));
            lemma_p_conclusion(x, s, i + tag_game_concluded().len());
        },
        ErrorV::InvalidParam(x) => {
            assert(enc_error(v) =~= tag_invalid_param() + (enc_str(x) + seq![RPAREN]));
            lemma_at_concat(s, i, tag_invalid_param(), enc_str(x) + seq![RPAREN]);
            lemma_at_concat(s, i + tag_invalid_param().len(), enc_str(x), seq![RPAREN]);
            lemma_at_single(s, i + tag_invalid_param().len() + enc_str(x).len(), RPAREN);
            assert(s[i + 0] == tag_invalid_param()[0]);
            assert(s[i + 7] == tag_invalid_param()[7]);
            assert(!at(s, i, tag_waiting_for_host()));
            assert(!at(s, i, tag_invalid_tile()));
            assert(!at(s, i, tag_not_your_turn()));
            assert(!at(s, i, tag_not_allowed()));
            assert(!at(s, i, tag_match_in_progress()));
            assert(!at(s, i, tag_game_concluded()));
            lemma_p_str(x, s, i + tag_invalid_param().len());
        },
        ErrorV::InvalidMessage(x) => {
            assert(enc_error(v) =~= tag_invalid_message() + (enc_str(x) + seq![RPAREN]));
            lemma_at_concat(s, i, tag_invalid_message(), enc_str(x) + seq![RPAREN]);
            lemma_at_concat(s, i + tag_invalid_message().len(), enc_str(x), seq![RPAREN]);
            lemma_at_single(s, i + tag_invalid_message().len() + enc_str(x).len(), RPAREN);
            assert(s[i + 0] == tag_invalid_message()[0]);
            assert(s[i + 7] == tag_invalid_message()[7]);
            assert(!at(s, i, tag_waiting_for_host()));
            assert(!at(s, i, tag_invalid_tile()));
            assert(!at(s, i, tag_not_your_turn()));
            assert(!at(s, i, tag_not_allowed()));
            assert(!at(s, i, tag_match_in_progress()));
            assert(!at(s, i, tag_game_concluded()));
            assert(!at(s, i, tag_invalid_param()));
            lemma_p_str(x, s, i + tag_invalid_message().len());
        },
        ErrorV::ServerError(x) => {
            assert(enc_error(v) =~= tag_server_error() + (enc_str(x) + seq![RPAREN]));
            lemma_at_concat(s, i, tag_server_error(), enc_str(x) + seq![RPAREN]);
            lemma_at_concat(s, i + tag_server_error().len(), enc_str(x), seq![RPAREN]);
            lemma_at_single(s, i + tag_server_error().len() + enc_str(x).len(), RPAREN);
            assert(s[i + 0] == tag_server_error()[0]);
            assert(!at(s, i, tag_waiting_for_host()));
            assert(!at(s, i, tag_invalid_tile()));
            assert(!at(s, i, tag_not_your_turn()));
            assert(!at(s, i, tag_not_allowed()));
            assert(!at(s, i, tag_match_in_progress()));
            assert(!at(s, i, tag_game_concluded()));
            assert(!at(s, i, tag_invalid_param()));
            assert(!at(s, i, tag_invalid_message()));
            lemma_p_str(x, s, i + tag_server_error().len());
        },
    }
}

/// The encoding of an unsolicited notification.
pub open spec fn enc_notification(v: NotificationV) -> Seq<u8> {
    match v {
        NotificationV::Chat { from, msg } => tag_chat() + enc_str(from) + seq![COMMA] + enc_str(msg) + seq![RPAREN],
        NotificationV::ServerInfo(x) => tag_server_info() + enc_str(x) + seq![RPAREN],
    }
}

pub open spec fn p_notification(s: Seq<u8>, i: int) -> Option<(NotificationV, int)> {
    if at(s, i, tag_chat()) {
        match p_str(s, i + tag_chat().len()) {
            Some((from, j)) => if byte_at(s, j, COMMA) {
                match p_str(s, j + 1) {
                    Some((msg, j2)) => if byte_at(s, j2, RPAREN) {
                        Some((NotificationV::Chat { from, msg }, j2 + 1))
                    } else {
                        None
                    },
                    None => None,
                }
            } else {
                None
            },
            None => None,
        }
    } else if at(s, i, tag_server_info()) {
        match p_str(s, i + tag_server_info().len()) {
            Some((x, j)) => if byte_at(s, j, RPAREN) {
                Some((NotificationV::ServerInfo(x), j + 1))
            } else {
                None
            },
            None => None,
        }
    } else {
        None
    }
}

#[verifier::rlimit(100)]
proof fn lemma_p_notification(v: NotificationV, s: Seq<u8>, i: int)
    requires
        at(s, i, enc_notification(v)),
    ensures
        p_notification(s, i) == Some((v, i + enc_notification(v).len())),
{
    match v {
        NotificationV::Chat { from, msg } => {
            assert(enc_notification(v) =~= tag_chat() + (enc_str(from) + (seq![COMMA] + (enc_str(msg) + seq![RPAREN]))));
            lemma_at_concat(s, i, tag_chat(), enc_str(from) + (seq![COMMA] + (enc_str(msg) + seq![RPAREN])));
            let j0 = i + tag_chat().len();
            lemma_at_concat(s, j0, enc_str(from), seq![COMMA] + (enc_str(msg) + seq![RPAREN]));
            let j1 = j0 + enc_str(from).len();
            lemma_at_concat(s, j1, seq![COMMA], enc_str(msg) + seq![RPAREN]);
            lemma_at_single(s, j1, COMMA);
            lemma_at_concat(s, j1 + 1, enc_str(msg), seq![RPAREN]);
            lemma_at_single(s, j1 + 1 + enc_str(msg).len(), RPAREN);
            lemma_p_str(from, s, i + tag_chat().len());
            lemma_p_str(msg, s, i + tag_chat().len() + enc_str(from).len() + 1);
        },
        NotificationV::ServerInfo(x) => {
            assert(enc_notification(v) =~= tag_server_info() + (enc_str(x) + seq![RPAREN]));
            lemma_at_concat(s, i, tag_server_info(), enc_str(x) + seq![RPAREN]);
            lemma_at_concat(s, i + tag_server_info().len(), enc_str(x), seq![RPAREN]);
            lemma_at_single(s, i + tag_server_info().len() + enc_str(x).len(), RPAREN);
            assert(s[i + 0] == tag_server_info()[0]);
            assert(!at(s, i, tag_chat()));
            lemma_p_str(x, s, i + tag_server_info().len());
        },
    }
}

// ----- the reply result and the envelope -----

/// The mathematical shape of a reply: success or typed failure.
pub open spec fn result_v(r: Result<Response, Error>) -> Result<ResponseV, ErrorV> {
    match r {
        Ok(p) => Ok(p@),
        Err(e) => Err(e@),
    }
}

/// The encoding of a reply result, as `Ok(_)` or `Err(_)`.
pub open spec fn enc_result(v: Result<ResponseV, ErrorV>) -> Seq<u8> {
    match v {
        Ok(p) => tag_ok() + enc_response(p) + seq![RPAREN],
        Err(e) => tag_err() + enc_error(e) + seq![RPAREN],
    }
}

pub open spec fn p_result(s: Seq<u8>, i: int) -> Option<(Result<ResponseV, ErrorV>, int)> {
    if at(s, i, tag_ok()) {
        match p_response(s, i + tag_ok().len()) {
            Some((x, j)) => if byte_at(s, j, RPAREN) {
                Some((Ok(x), j + 1))
            } else {
                None
            },
            None => None,
        }
    } else if at(s, i, tag_err()) {
        match p_error(s, i + tag_err().len()) {
            Some((x, j)) => if byte_at(s, j, RPAREN) {
                Some((Err(x), j + 1))
            } else {
                None
            },
            None => None,
        }
    } else {
        None
    }
}

pub open spec fn wf_result_v(v: Result<ResponseV, ErrorV>) -> bool {
    match v {
        Ok(p) => wf_response_v(p),
        Err(_) => true,
    }
}

#[verifier::rlimit(100)]
proof fn lemma_p_result(v: Result<ResponseV, ErrorV>, s: Seq<u8>, i: int)
    requires
        at(s, i, enc_result(v)),
        wf_result_v(v),
    ensures
        p_result(s, i) == Some((v, i + enc_result(v).len())),
{
    match v {
        Ok(x) => {
            assert(enc_result(v) =~= tag_ok() + (enc_response(x) + seq![RPAREN]));
            lemma_at_concat(s, i, tag_ok(), enc_response(x) + seq![RPAREN]);
            lemma_at_concat(s, i + tag_ok().len(), enc_response(x), seq![RPAREN]);
            lemma_at_single(s, i + tag_ok().len() + enc_response(x).len(), RPAREN);
            lemma_p_response(x, s, i + tag_ok().len());
        },
        Err(x) => {
            assert(enc_result(v) =~= tag_err() + (enc_error(x) + seq![RPAREN]));
            lemma_at_concat(s, i, tag_err(), enc_error(x) + seq![RPAREN]);
            lemma_at_concat(s, i + tag_err().len(), enc_error(x), seq![RPAREN]);
            lemma_at_single(s, i + tag_err().len() + enc_error(x).len(), RPAREN);
            assert(s[i + 0] == tag_err()[0]);
            assert(!at(s, i, tag_ok()));
            lemma_p_error(x, s, i + tag_err().len());
        },
    }
}

/// The encoding of an envelope: what travels on one line of the wire.
pub open spec fn enc_message(v: MessageV) -> Seq<u8> {
    match v {
        MessageV::Request(q) => tag_request() + enc_request(q) + seq![RPAREN],
        MessageV::Response(r) => tag_response() + enc_result(r) + seq![RPAREN],
        MessageV::Notification(n) => tag_notification() + enc_notification(n) + seq![RPAREN],
    }
}

pub open spec fn p_message(s: Seq<u8>, i: int) -> Option<(MessageV, int)> {
    if at(s, i, tag_request()) {
        match p_request(s, i + tag_request().len()) {
            Some((x, j)) => if byte_at(s, j, RPAREN) {
                Some((MessageV::Request(x), j + 1))
            } else {
                None
            },
            None => None,
        }
    } else if at(s, i, tag_response()) {
        match p_result(s, i + tag_response().len()) {
            Some((x, j)) => if byte_at(s, j, RPAREN) {
                Some((MessageV::Response(x), j + 1))
            } else {
                None
            },
            None => None,
        }
    } else if at(s, i, tag_notification()) {
        match p_notification(s, i + tag_notification().len()) {
            Some((x, j)) => if byte_at(s, j, RPAREN) {
                Some((MessageV::Notification(x), j + 1))
            } else {
                None
            },
            None => None,
        }
    } else {
        None
    }
}

/// Messages whose games carry all nine cells; every `Message` value built
/// from a real `Board` satisfies this.
pub open spec fn wf_message_v(v: MessageV) -> bool {
    match v {
        MessageV::Response(r) => wf_result_v(r),
        _ => true,
    }
}

#[verifier::rlimit(100)]
proof fn lemma_p_message(v: MessageV, s: Seq<u8>, i: int)
    requires
        at(s, i, enc_message(v)),
        wf_message_v(v),
    ensures
        p_message(s, i) == Some((v, i + enc_message(v).len())),
{
    match v {
        MessageV::Request(x) => {
            assert(enc_message(v) =~= tag_request() + (enc_request(x) + seq![RPAREN]));
            lemma_at_concat(s, i, tag_request(), enc_request(x) + seq![RPAREN]);
            lemma_at_concat(s, i + tag_request().len(), enc_request(x), seq![RPAREN]);
            lemma_at_single(s, i + tag_request().len() + enc_request(x).len(), RPAREN);
            lemma_p_request(x, s, i + tag_request().len());
        },
        MessageV::Response(x) => {
            assert(enc_message(v) =~= tag_response() + (enc_result(x) + seq![RPAREN]));
            lemma_at_concat(s, i, tag_response(), enc_result(x) + seq![RPAREN]);
            lemma_at_concat(s, i + tag_response().len(), enc_result(x), seq![RPAREN]);
            lemma_at_single(s, i + tag_response().len() + enc_result(x).len(), RPAREN);
            assert(s[i + 2] == tag_response()[2]);
            assert(!at(s, i, tag_request()));
            lemma_p_result(x, s, i + tag_response().len());
        },
        MessageV::Notification(x) => {
            assert(enc_message(v) =~= tag_notification() + (enc_notification(x) + seq![RPAREN]));
            lemma_at_concat(s, i, tag_notification(), enc_notification(x) + seq![RPAREN]);
            lemma_at_concat(s, i + tag_notification().len(), enc_notification(x), seq![RPAREN]);
            lemma_at_single(s, i + tag_notification().len() + enc_notification(x).len(), RPAREN);
            assert(s[i + 0] == tag_notification()[0]);
            assert(!at(s, i, tag_request()));
            assert(!at(s, i, tag_response()));
            lemma_p_notification(x, s, i + tag_notification().len());
        },
    }
}

fn e_request(q: &Request, out: &mut Vec<u8>)
    ensures
        final(out)@ == old(out)@ + enc_request(q@),
{
    match q {
        Request::JoinMatch(x) => {
            let t = tag_join_match_bytes();
            out.extend_from_slice(t.as_slice());
            e_opt_player(*x, out);
            out.push(RPAREN);
            proof {
                assert(out@ =~= old(out)@ + enc_request(q@));
            }
        },
        Request::GetGameInfo => {
            let t = tag_get_game_info_bytes();
            out.extend_from_slice(t.as_slice());
            proof {
                assert(out@ =~= old(out)@ + enc_request(q@));
            }
        },
        Request::Chat(x) => {
            let t = tag_chat_bytes();
            out.extend_from_slice(t.as_slice());
            e_str(x.as_str(), out);
            out.push(RPAREN);
            proof {
                assert(out@ =~= old(out)@ + enc_request(q@));
            }
        },
        Request::PlayTurn(x) => {
            let t = tag_play_turn_bytes();
            out.extend_from_slice(t.as_slice());
            e_u8(*x, out);
            out.push(RPAREN);
            proof {
                assert(out@ =~= old(out)@ + enc_request(q@));
            }
        },
        Request::Disconnect => {
            let t = tag_disconnect_bytes();
            out.extend_from_slice(t.as_slice());
            proof {
                assert(out@ =~= old(out)@ + enc_request(q@));
            }
        },
    }
}

fn d_request(s: &[u8], i: usize) -> (r: Option<(Request, usize)>)
    requires
        i <= s@.len(),
    ensures
        match r {
            Some((q, j)) => p_request(s@, i as int) == Some((q@, j as int)) && i <= j <= s@.len(),
            None => p_request(s@, i as int) is None,
        },
{
    let t_join = tag_join_match_bytes();
    if let Some(j) = eat(s, i, &t_join) {
        match d_opt_player(s, j) {
            Some((x, j2)) => {
                if j2 < s.len() && s[j2] == RPAREN {
                    return Some((Request::JoinMatch(x), j2 + 1));
                }
                return None;
            },
            None => {
                return None;
            },
        }
    }
    let t_info = tag_get_game_info_bytes();
    if let Some(j) = eat(s, i, &t_info) {
        return Some((Request::GetGameInfo, j));
    }
    let t_chat = tag_chat_bytes();
    if let Some(j) = eat(s, i, &t_chat) {
        match d_str(s, j) {
            Some((x, j2)) => {
                if j2 < s.len() && s[j2] == RPAREN {
                    return Some((Request::Chat(x), j2 + 1));
                }
                return None;
            },
            None => {
                return None;
            },
        }
    }
    let t_turn = tag_play_turn_bytes();
    if let Some(j) = eat(s, i, &t_turn) {
        match d_u8(s, j) {
            Some((x, j2)) => {
                if j2 < s.len() && s[j2] == RPAREN {
                    return Some((Request::PlayTurn(x), j2 + 1));
                }
                return None;
            },
            None => {
                return None;
            },
        }
    }
    let t_disc = tag_disconnect_bytes();
    if let Some(j) = eat(s, i, &t_disc) {
        return Some((Request::Disconnect, j));
    }
    None
}

fn e_response(p: &Response, out: &mut Vec<u8>)
    ensures
        final(out)@ == old(out)@ + enc_response(p@),
{
    match p {
        Response::Ack => {
            let t = tag_ack_bytes();
            out.extend_from_slice(t.as_slice());
            proof {
                assert(out@ =~= old(out)@ + enc_response(p@));
            }
        },
        Response::GameConcluded(x) => {
            let t = tag_game_concluded_bytes();
            out.extend_from_slice(t.as_slice());
            e_conclusion(*x, out);
            out.push(RPAREN);
            proof {
                assert(out@ =~= old(out)@ + enc_response(p@));
            }
        },
        Response::GameInfo(x) => {
            let t = tag_game_info_bytes();
            out.extend_from_slice(t.as_slice());
            e_game(x, out);
            out.push(RPAREN);
            proof {
                assert(out@ =~= old(out)@ + enc_response(p@));
            }
        },
        Response::Joined(x) => {
            let t = tag_joined_bytes();
            out.extend_from_slice(t.as_slice());
            e_opt_player(*x, out);
            out.push(RPAREN);
            proof {
                assert(out@ =~= old(out)@ + enc_response(p@));
            }
        },
        Response::TurnDone(x) => {
            let t = tag_turn_done_bytes();
            out.extend_from_slice(t.as_slice());
            e_game(x, out);
            out.push(RPAREN);
            proof {
                assert(out@ =~= old(out)@ + enc_response(p@));
            }
        },
    }
}

fn d_response(s: &[u8], i: usize) -> (r: Option<(Response, usize)>)
    requires
        i <= s@.len(),
    ensures
        match r {
            Some((p, j)) => p_response(s@, i as int) == Some((p@, j as int)) && i <= j
                <= s@.len(),
            None => p_response(s@, i as int) is None,
        },
{
    let t_ack = tag_ack_bytes();
    if let Some(j) = eat(s, i, &t_ack) {
        return Some((Response::Ack, j));
    }
    let t_gc = tag_game_concluded_bytes();
    if let Some(j) = eat(s, i, &t_gc) {
        match d_conclusion(s, j) {
            Some((x, j2)) => {
                if j2 < s.len() && s[j2] == RPAREN {
                    return Some((Response::GameConcluded(x), j2 + 1));
                }
                return None;
            },
            None => {
                return None;
            },
        }
    }
    let t_gi = tag_game_info_bytes();
    if let Some(j) = eat(s, i, &t_gi) {
        match d_game(s, j) {
            Some((x, j2)) => {
                if j2 < s.len() && s[j2] == RPAREN {
                    return Some((Response::GameInfo(x), j2 + 1));
                }
                return None;
            },
            None => {
                return None;
            },
        }
    }
    let t_joined = tag_joined_bytes();
    if let Some(j) = eat(s, i, &t_joined) {
        match d_opt_player(s, j) {
            Some((x, j2)) => {
                if j2 < s.len() && s[j2] == RPAREN {
                    return Some((Response::Joined(x), j2 + 1));
                }
                return None;
            },
            None => {
                return None;
            },
        }
    }
    let t_td = tag_turn_done_bytes();
    if let Some(j) = eat(s, i, &t_td) {
        match d_game(s, j) {
            Some((x, j2)) => {
                if j2 < s.len() && s[j2] == RPAREN {
                    return Some((Response::TurnDone(x), j2 + 1));
                }
                return None;
            },
            None => {
                return None;
            },
        }
    }
    None
}

fn e_error(e: &Error, out: &mut Vec<u8>)
    ensures
        final(out)@ == old(out)@ + enc_error(e@),
{
    match e {
        Error::WaitingForHost => {
            let t = tag_waiting_for_host_bytes();
            out.extend_from_slice(t.as_slice());
            proof {
                assert(out@ =~= old(out)@ + enc_error(e@));
            }
        },
        Error::InvalidTile => {
            let t = tag_invalid_tile_bytes();
            out.extend_from_slice(t.as_slice());
            proof {
                assert(out@ =~= old(out)@ + enc_error(e@));
            }
        },
        Error::NotYourTurn => {
            let t = tag_not_your_turn_bytes();
            out.extend_from_slice(t.as_slice());
            proof {
                assert(out@ =~= old(out)@ + enc_error(e@));
            }
        },
        Error::NotAllowed => {
            let t = tag_not_allowed_bytes();
            out.extend_from_slice(t.as_slice());
            proof {
                assert(out@ =~= old(out)@ + enc_error(e@));
            }
        },
        Error::MatchInProgress => {
            let t = tag_match_in_progress_bytes();
            out.extend_from_slice(t.as_slice());
            proof {
                assert(out@ =~= old(out)@ + enc_error(e@));
            }
        },
        Error::GameConcluded(x) => {
            let t = tag_game_concluded_bytes();
            out.extend_from_slice(t.as_slice());
            e_conclusion(*x, out);
            out.push(RPAREN);
            proof {
                assert(out@ =~= old(out)@ + enc_error(e@));
            }
        },
        Error::InvalidParam(x) => {
            let t = tag_invalid_param_bytes();
            out.extend_from_slice(t.as_slice());
            e_str(x.as_str(), out);
            out.push(RPAREN);
            proof {
                assert(out@ =~= old(out)@ + enc_error(e@));
            }
        },
        Error::InvalidMessage(x) => {
            let t = tag_invalid_message_bytes();
            out.extend_from_slice(t.as_slice());
            e_str(x.as_str(), out);
            out.push(RPAREN);
            proof {
                assert(out@ =~= old(out)@ + enc_error(e@));
            }
        },
        Error::ServerError(x) => {
            let t = tag_server_error_bytes();
            out.extend_from_slice(t.as_slice());
            e_str(x.as_str(), out);
            out.push(RPAREN);
            proof {
                assert(out@ =~= old(out)@ + enc_error(e@));
            }
        },
    }
}

fn d_error(s: &[u8], i: usize) -> (r: Option<(Error, usize)>)
    requires
        i <= s@.len(),
    ensures
        match r {
            Some((e, j)) => p_error(s@, i as int) == Some((e@, j as int)) && i <= j <= s@.len(),
            None => p_error(s@, i as int) is None,
        },
{
    let t_wfh = tag_waiting_for_host_bytes();
    if let Some(j) = eat(s, i, &t_wfh) {
        return Some((Error::WaitingForHost, j));
    }
    let t_it = tag_invalid_tile_bytes();
    if let Some(j) = eat(s, i, &t_it) {
        return Some((Error::InvalidTile, j));
    }
    let t_nyt = tag_not_your_turn_bytes();
    if let Some(j) = eat(s, i, &t_nyt) {
        return Some((Error::NotYourTurn, j));
    }
    let t_na = tag_not_allowed_bytes();
    if let Some(j) = eat(s, i, &t_na) {
        return Some((Error::NotAllowed, j));
    }
    let t_mip = tag_match_in_progress_bytes();
    if let Some(j) = eat(s, i, &t_mip) {
        return Some((Error::MatchInProgress, j));
    }
    let t_gc = tag_game_concluded_bytes();
    if let Some(j) = eat(s, i, &t_gc) {
        match d_conclusion(s, j) {
            Some((x, j2)) => {
                if j2 < s.len() && s[j2] == RPAREN {
                    return Some((Error::GameConcluded(x), j2 + 1));
                }
                return None;
            },
            None => {
                return None;
            },
        }
    }
    let t_ip = tag_invalid_param_bytes();
    if let Some(j) = eat(s, i, &t_ip) {
        match d_str(s, j) {
            Some((x, j2)) => {
                if j2 < s.len() && s[j2] == RPAREN {
                    return Some((Error::InvalidParam(x), j2 + 1));
                }
                return None;
            },
            None => {
                return None;
            },
        }
    }
    let t_im = tag_invalid_message_bytes();
    if let Some(j) = eat(s, i, &t_im) {
        match d_str(s, j) {
            Some((x, j2)) => {
                if j2 < s.len() && s[j2] == RPAREN {
                    return Some((Error::InvalidMessage(x), j2 + 1));
                }
                return None;
            },
            None => {
                return None;
            },
        }
    }
    let t_se = tag_server_error_bytes();
    if let Some(j) = eat(s, i, &t_se) {
        match d_str(s, j) {
            Some((x, j2)) => {
                if j2 < s.len() && s[j2] == RPAREN {
                    return Some((Error::ServerError(x), j2 + 1));
                }
                return None;
            },
            None => {
                return None;
            },
        }
    }
    None
}

fn e_notification(n: &Notification, out: &mut Vec<u8>)
    ensures
        final(out)@ == old(out)@ + enc_notification(n@),
{
    match n {
        Notification::Chat { from, msg } => {
            let t = tag_chat_bytes();
            out.extend_from_slice(t.as_slice());
            e_str(from.as_str(), out);
            out.push(COMMA);
            e_str(msg.as_str(), out);
            out.push(RPAREN);
            proof {
                assert(out@ =~= old(out)@ + enc_notification(n@));
            }
        },
        Notification::ServerInfo(x) => {
            let t = tag_server_info_bytes();
            out.extend_from_slice(t.as_slice());
            e_str(x.as_str(), out);
            out.push(RPAREN);
            proof {
                assert(out@ =~= old(out)@ + enc_notification(n@));
            }
        },
    }
}

fn d_notification(s: &[u8], i: usize) -> (r: Option<(Notification, usize)>)
    requires
        i <= s@.len(),
    ensures
        match r {
            Some((n, j)) => p_notification(s@, i as int) == Some((n@, j as int)) && i <= j
                <= s@.len(),
            None => p_notification(s@, i as int) is None,
        },
{
    let t_chat = tag_chat_bytes();
    if let Some(j) = eat(s, i, &t_chat) {
        match d_str(s, j) {
            Some((from, j2)) => {
                if !(j2 < s.len() && s[j2] == COMMA) {
                    return None;
                }
                match d_str(s, j2 + 1) {
                    Some((msg, j3)) => {
                        if j3 < s.len() && s[j3] == RPAREN {
                            return Some((Notification::Chat { from, msg }, j3 + 1));
                        }
                        return None;
                    },
                    None => {
                        return None;
                    },
                }
            },
            None => {
                return None;
            },
        }
    }
    let t_si = tag_server_info_bytes();
    if let Some(j) = eat(s, i, &t_si) {
        match d_str(s, j) {
            Some((x, j2)) => {
                if j2 < s.len() && s[j2] == RPAREN {
                    return Some((Notification::ServerInfo(x), j2 + 1));
                }
                return None;
            },
            None => {
                return None;
            },
        }
    }
    None
}

fn e_result(v: &Result<Response, Error>, out: &mut Vec<u8>)
    ensures
        final(out)@ == old(out)@ + enc_result(result_v(*v)),
{
    match v {
        Ok(p) => {
            let t = tag_ok_bytes();
            out.extend_from_slice(t.as_slice());
            e_response(p, out);
            out.push(RPAREN);
            proof {
                assert(out@ =~= old(out)@ + enc_result(result_v(*v)));
            }
        },
        Err(e) => {
            let t = tag_err_bytes();
            out.extend_from_slice(t.as_slice());
            e_error(e, out);
            out.push(RPAREN);
            proof {
                assert(out@ =~= old(out)@ + enc_result(result_v(*v)));
            }
        },
    }
}

fn d_result(s: &[u8], i: usize) -> (r: Option<(Result<Response, Error>, usize)>)
    requires
        i <= s@.len(),
    ensures
        match r {
            Some((v, j)) => p_result(s@, i as int) == Some((result_v(v), j as int)) && i <= j
                <= s@.len(),
            None => p_result(s@, i as int) is None,
        },
{
    let t_ok = tag_ok_bytes();
    if let Some(j) = eat(s, i, &t_ok) {
        match d_response(s, j) {
            Some((x, j2)) => {
                if j2 < s.len() && s[j2] == RPAREN {
                    return Some((Ok(x), j2 + 1));
                }
                return None;
            },
            None => {
                return None;
            },
        }
    }
    let t_err = tag_err_bytes();
    if let Some(j) = eat(s, i, &t_err) {
        match d_error(s, j) {
            Some((x, j2)) => {
                if j2 < s.len() && s[j2] == RPAREN {
                    return Some((Err(x), j2 + 1));
                }
                return None;
            },
            None => {
                return None;
            },
        }
    }
    None
}

fn e_message(m: &Message, out: &mut Vec<u8>)
    ensures
        final(out)@ == old(out)@ + enc_message(m@),
{
    match m {
        Message::Request(q) => {
            let t = tag_request_bytes();
            out.extend_from_slice(t.as_slice());
            e_request(q, out);
            out.push(RPAREN);
            proof {
                assert(out@ =~= old(out)@ + enc_message(m@));
            }
        },
        Message::Response(r) => {
            let t = tag_response_bytes();
            out.extend_from_slice(t.as_slice());
            e_result(r, out);
            out.push(RPAREN);
            proof {
                assert(m@ == MessageV::Response(result_v(*r)));
                assert(out@ =~= old(out)@ + enc_message(m@));
            }
        },
        Message::Notification(n) => {
            let t = tag_notification_bytes();
            out.extend_from_slice(t.as_slice());
            e_notification(n, out);
            out.push(RPAREN);
            proof {
                assert(out@ =~= old(out)@ + enc_message(m@));
            }
        },
    }
}

fn d_message(s: &[u8], i: usize) -> (r: Option<(Message, usize)>)
    requires
        i <= s@.len(),
    ensures
        match r {
            Some((m, j)) => p_message(s@, i as int) == Some((m@, j as int)) && i <= j
                <= s@.len(),
            None => p_message(s@, i as int) is None,
        },
{
    let t_req = tag_request_bytes();
    if let Some(j) = eat(s, i, &t_req) {
        match d_request(s, j) {
            Some((x, j2)) => {
                if j2 < s.len() && s[j2] == RPAREN {
                    return Some((Message::Request(x), j2 + 1));
                }
                return None;
            },
            None => {
                return None;
            },
        }
    }
    let t_rsp = tag_response_bytes();
    if let Some(j) = eat(s, i, &t_rsp) {
        match d_result(s, j) {
            Some((x, j2)) => {
                if j2 < s.len() && s[j2] == RPAREN {
                    let r = Message::Response(x);
                    proof {
                        assert(r@ == MessageV::Response(p_result(s@, j as int)->Some_0.0));
                    }
                    return Some((r, j2 + 1));
                }
                return None;
            },
            None => {
                return None;
            },
        }
    }
    let t_not = tag_notification_bytes();
    if let Some(j) = eat(s, i, &t_not) {
        match d_notification(s, j) {
            Some((x, j2)) => {
                if j2 < s.len() && s[j2] == RPAREN {
                    return Some((Message::Notification(x), j2 + 1));
                }
                return None;
            },
            None => {
                return None;
            },
        }
    }
    None
}

// ----- the public face of the codec -----

/// What a whole line of the wire means: the message it encodes, if it is
/// exactly one canonical encoding.
pub open spec fn dec_message(t: Seq<u8>) -> Option<MessageV> {
    match p_message(t, 0) {
        Some((m, j)) => if j == t.len() {
            Some(m)
        } else {
            None
        },
        None => None,
    }
}

/// Encodes one message, without the trailing newline.
pub fn encode_message(m: &Message) -> (r: Vec<u8>)
    ensures
        r@ == enc_message(m@),
{
    let mut out: Vec<u8> = Vec::new();
    e_message(m, &mut out);
    proof {
        assert(out@ =~= enc_message(m@));
    }
    out
}

/// Encodes one message as a complete frame: its bytes and a newline.
pub fn encode_frame(m: &Message) -> (r: Vec<u8>)
    ensures
        r@ == enc_message(m@) + seq![NEWLINE],
{
    let mut out = encode_message(m);
    out.push(NEWLINE);
    proof {
        assert(out@ =~= enc_message(m@) + seq![NEWLINE]);
    }
    out
}

/// Decodes one line, without its newline.  Succeeds exactly when the line
/// is the canonical encoding of one message, and returns that message.
pub fn decode_message(line: &[u8]) -> (r: Option<Message>)
    ensures
        match r {
            Some(m) => dec_message(line@) == Some(m@),
            None => dec_message(line@) is None,
        },
{
    match d_message(line, 0) {
        Some((m, j)) => {
            if j == line.len() {
                Some(m)
            } else {
                None
            }
        },
        None => None,
    }
}

/// Round trip: every message decodes back from its own encoding.
pub proof fn lemma_round_trip(m: MessageV)
    requires
        wf_message_v(m),
    ensures
        dec_message(enc_message(m)) == Some(m),
{
    let s = enc_message(m);
    assert(at(s, 0, s));
    lemma_p_message(m, s, 0);
}


// ----- encoded messages never contain a newline -----

/// No byte of `s` is a newline: such a sequence survives line framing.
pub open spec fn no_newline(s: Seq<u8>) -> bool {
    forall|k: int| 0 <= k < s.len() ==> s[k] != NEWLINE
}

proof fn lemma_no_newline_concat(a: Seq<u8>, b: Seq<u8>)
    requires
        no_newline(a),
        no_newline(b),
    ensures
        no_newline(a + b),
{
    assert forall|k: int| 0 <= k < (a + b).len() implies (a + b)[k] != NEWLINE by {
        if k < a.len() {
            assert((a + b)[k] == a[k]);
        } else {
            assert((a + b)[k] == b[k - a.len()]);
        }
    }
}

proof fn lemma_no_nl_esc(b: Seq<u8>)
    ensures
        no_newline(esc(b)),
    decreases b.len(),
{
    if b.len() == 0 {
    } else {
        lemma_no_nl_esc(b.drop_first());
        assert(no_newline(esc_byte(b[0])));
        lemma_no_newline_concat(esc_byte(b[0]), esc(b.drop_first()));
    }
}

proof fn lemma_no_nl_str(t: Seq<char>)
    ensures
        no_newline(enc_str(t)),
{
    let u = vstd::utf8::encode_utf8(t);
    lemma_no_nl_esc(u);
    lemma_no_newline_concat(seq![QUOTE], esc(u));
    lemma_no_newline_concat(seq![QUOTE] + esc(u), seq![QUOTE]);
}

proof fn lemma_no_nl_opt_player(v: Option<Player>)
    ensures
        no_newline(enc_opt_player(v)),
{
    match v {
        None => {
            assert(no_newline(tag_none()));
        },
        Some(p) => {
            assert(no_newline(tag_some() + enc_player(p) + seq![RPAREN]));
        },
    }
}

proof fn lemma_no_nl_conclusion(c: Conclusion)
    ensures
        no_newline(enc_conclusion(c)),
{
}

proof fn lemma_no_nl_state(st: State)
    ensures
        no_newline(enc_state(st)),
{
}

proof fn lemma_no_nl_u8(n: u8)
    ensures
        no_newline(enc_u8(n)),
{
}

proof fn lemma_no_nl_cells(b: Seq<Option<Player>>)
    ensures
        no_newline(enc_cells(b)),
    decreases b.len(),
{
    if b.len() == 0 {
    } else if b.len() == 1 {
        lemma_no_nl_opt_player(b[0]);
    } else {
        lemma_no_nl_opt_player(b[0]);
        lemma_no_nl_cells(b.drop_first());
        lemma_no_newline_concat(enc_opt_player(b[0]), seq![COMMA]);
        lemma_no_newline_concat(enc_opt_player(b[0]) + seq![COMMA], enc_cells(b.drop_first()));
    }
}

proof fn lemma_no_nl_board(b: Seq<Option<Player>>)
    ensures
        no_newline(enc_board(b)),
{
    lemma_no_nl_cells(b);
    lemma_no_newline_concat(seq![LBRACKET], enc_cells(b));
    lemma_no_newline_concat(seq![LBRACKET] + enc_cells(b), seq![RBRACKET]);
}

proof fn lemma_no_nl_game(g: GameV)
    ensures
        no_newline(enc_game(g)),
{
    lemma_no_nl_board(g.board);
    lemma_no_nl_state(g.state);
    lemma_no_newline_concat(seq![LPAREN], enc_board(g.board));
    lemma_no_newline_concat(seq![LPAREN] + enc_board(g.board), seq![COMMA]);
    lemma_no_newline_concat(seq![LPAREN] + enc_board(g.board) + seq![COMMA], enc_state(g.state));
    lemma_no_newline_concat(
        seq![LPAREN] + enc_board(g.board) + seq![COMMA] + enc_state(g.state),
        seq![RPAREN],
    );
}

proof fn lemma_no_nl_request(q: RequestV)
    ensures
        no_newline(enc_request(q)),
{
    match q {
        RequestV::JoinMatch(x) => {
            lemma_no_nl_opt_player(x);
            lemma_no_newline_concat(tag_join_match(), enc_opt_player(x));
            lemma_no_newline_concat(tag_join_match() + enc_opt_player(x), seq![RPAREN]);
        },
        RequestV::GetGameInfo => (),
        RequestV::Chat(t) => {
            lemma_no_nl_str(t);
            lemma_no_newline_concat(tag_chat(), enc_str(t));
            lemma_no_newline_concat(tag_chat() + enc_str(t), seq![RPAREN]);
        },
        RequestV::PlayTurn(n) => {
            lemma_no_nl_u8(n);
            lemma_no_newline_concat(tag_play_turn(), enc_u8(n));
            lemma_no_newline_concat(tag_play_turn() + enc_u8(n), seq![RPAREN]);
        },
        RequestV::Disconnect => (),
    }
}

proof fn lemma_no_nl_response(p: ResponseV)
    ensures
        no_newline(enc_response(p)),
{
    match p {
        ResponseV::Ack => (),
        ResponseV::GameConcluded(c) => {
            lemma_no_nl_conclusion(c);
            lemma_no_newline_concat(tag_game_concluded(), enc_conclusion(c));
            lemma_no_newline_concat(tag_game_concluded() + enc_conclusion(c), seq![RPAREN]);
        },
        ResponseV::GameInfo(g) => {
            lemma_no_nl_game(g);
            lemma_no_newline_concat(tag_game_info(), enc_game(g));
            lemma_no_newline_concat(tag_game_info() + enc_game(g), seq![RPAREN]);
        },
        ResponseV::Joined(x) => {
            lemma_no_nl_opt_player(x);
            lemma_no_newline_concat(tag_joined(), enc_opt_player(x));
            lemma_no_newline_concat(tag_joined() + enc_opt_player(x), seq![RPAREN]);
        },
        ResponseV::TurnDone(g) => {
            lemma_no_nl_game(g);
            lemma_no_newline_concat(tag_turn_done(), enc_game(g));
            lemma_no_newline_concat(tag_turn_done() + enc_game(g), seq![RPAREN]);
        },
    }
}

proof fn lemma_no_nl_error(e: ErrorV)
    ensures
        no_newline(enc_error(e)),
{
    match e {
        ErrorV::WaitingForHost => (),
        ErrorV::InvalidTile => (),
        ErrorV::NotYourTurn => (),
        ErrorV::NotAllowed => (),
        ErrorV::MatchInProgress => (),
        ErrorV::GameConcluded(c) => {
            lemma_no_nl_conclusion(c);
            lemma_no_newline_concat(tag_game_concluded(), enc_conclusion(c));
            lemma_no_newline_concat(tag_game_concluded() + enc_conclusion(c), seq![RPAREN]);
        },
        ErrorV::InvalidParam(t) => {
            lemma_no_nl_str(t);
            lemma_no_newline_concat(tag_invalid_param(), enc_str(t));
            lemma_no_newline_concat(tag_invalid_param() + enc_str(t), seq![RPAREN]);
        },
        ErrorV::InvalidMessage(t) => {
            lemma_no_nl_str(t);
            lemma_no_newline_concat(tag_invalid_message(), enc_str(t));
            lemma_no_newline_concat(tag_invalid_message() + enc_str(t), seq![RPAREN]);
        },
        ErrorV::ServerError(t) => {
            lemma_no_nl_str(t);
            lemma_no_newline_concat(tag_server_error(), enc_str(t));
            lemma_no_newline_concat(tag_server_error() + enc_str(t), seq![RPAREN]);
        },
    }
}

proof fn lemma_no_nl_notification(n: NotificationV)
    ensures
        no_newline(enc_notification(n)),
{
    match n {
        NotificationV::Chat { from, msg } => {
            lemma_no_nl_str(from);
            lemma_no_nl_str(msg);
            lemma_no_newline_concat(tag_chat(), enc_str(from));
            lemma_no_newline_concat(tag_chat() + enc_str(from), seq![COMMA]);
            lemma_no_newline_concat(tag_chat() + enc_str(from) + seq![COMMA], enc_str(msg));
            lemma_no_newline_concat(
                tag_chat() + enc_str(from) + seq![COMMA] + enc_str(msg),
                seq![RPAREN],
            );
        },
        NotificationV::ServerInfo(t) => {
            lemma_no_nl_str(t);
            lemma_no_newline_concat(tag_server_info(), enc_str(t));
            lemma_no_newline_concat(tag_server_info() + enc_str(t), seq![RPAREN]);
        },
    }
}

/// An encoded message holds no newline byte: the trailing newline of a
/// frame is the only one, so line framing carves frames exactly.
pub proof fn lemma_enc_message_no_newline(m: MessageV)
    ensures
        no_newline(enc_message(m)),
{
    match m {
        MessageV::Request(q) => {
            lemma_no_nl_request(q);
            lemma_no_newline_concat(tag_request(), enc_request(q));
            lemma_no_newline_concat(tag_request() + enc_request(q), seq![RPAREN]);
        },
        MessageV::Response(r) => {
            match r {
                Ok(p) => {
                    lemma_no_nl_response(p);
                    lemma_no_newline_concat(tag_ok(), enc_response(p));
                    lemma_no_newline_concat(tag_ok() + enc_response(p), seq![RPAREN]);
                },
                Err(e) => {
                    lemma_no_nl_error(e);
                    lemma_no_newline_concat(tag_err(), enc_error(e));
                    lemma_no_newline_concat(tag_err() + enc_error(e), seq![RPAREN]);
                },
            }
            lemma_no_newline_concat(tag_response(), enc_result(r));
            lemma_no_newline_concat(tag_response() + enc_result(r), seq![RPAREN]);
        },
        MessageV::Notification(n) => {
            lemma_no_nl_notification(n);
            lemma_no_newline_concat(tag_notification(), enc_notification(n));
            lemma_no_newline_concat(tag_notification() + enc_notification(n), seq![RPAREN]);
        },
    }
}


// ----- the decoder accepts only canonical encodings -----

/// Joining two adjacent occurrences into their concatenation.
proof fn lemma_at_join(s: Seq<u8>, i: int, a: Seq<u8>, b: Seq<u8>)
    requires
        at(s, i, a),
        at(s, i + a.len(), b),
    ensures
        at(s, i, a + b),
{
    assert forall|k: int| 0 <= k < (a + b).len() implies s[i + k] == (a + b)[k] by {
        if k < a.len() {
            assert((a + b)[k] == a[k]);
        } else {
            assert((a + b)[k] == b[k - a.len()]);
            assert(s[i + a.len() + (k - a.len())] == b[k - a.len()]);
        }
    }
}

/// A byte is a one-byte occurrence.
proof fn lemma_single_at(s: Seq<u8>, i: int, b: u8)
    requires
        byte_at(s, i, b),
    ensures
        at(s, i, seq![b]),
{
    assert forall|k: int| 0 <= k < 1 implies s[i + k] == seq![b][k] by {
        assert(s[i + 0] == b);
    }
}

proof fn lemma_sound_player(s: Seq<u8>, i: int)
    ensures
        match p_player(s, i) {
            Some((v, j)) => j == i + enc_player(v).len() && at(s, i, enc_player(v)),
            None => true,
        },
{
    match p_player(s, i) {
        Some((v, j)) => {
            lemma_single_at(s, i, s[i]);
            assert(enc_player(v) =~= seq![s[i]]);
        },
        None => (),
    }
}

proof fn lemma_sound_opt_player(s: Seq<u8>, i: int)
    ensures
        match p_opt_player(s, i) {
            Some((v, j)) => j == i + enc_opt_player(v).len() && at(s, i, enc_opt_player(v)),
            None => true,
        },
{
    if at(s, i, tag_none()) {
    } else if at(s, i, tag_some()) {
        lemma_sound_player(s, i + tag_some().len());
        match p_player(s, i + tag_some().len()) {
            Some((p, j)) => {
                if byte_at(s, j, RPAREN) {
                    lemma_single_at(s, j, RPAREN);
                    lemma_at_join(s, i, tag_some(), enc_player(p));
                    lemma_at_join(s, i, tag_some() + enc_player(p), seq![RPAREN]);
                }
            },
            None => (),
        }
    }
}

proof fn lemma_sound_conclusion(s: Seq<u8>, i: int)
    ensures
        match p_conclusion(s, i) {
            Some((v, j)) => j == i + enc_conclusion(v).len() && at(s, i, enc_conclusion(v)),
            None => true,
        },
{
    if at(s, i, tag_draw()) {
    } else if at(s, i, tag_win()) {
        lemma_sound_player(s, i + tag_win().len());
        match p_player(s, i + tag_win().len()) {
            Some((p, j)) => {
                if byte_at(s, j, RPAREN) {
                    lemma_single_at(s, j, RPAREN);
                    lemma_at_join(s, i, tag_win(), enc_player(p));
                    lemma_at_join(s, i, tag_win() + enc_player(p), seq![RPAREN]);
                }
            },
            None => (),
        }
    }
}

proof fn lemma_sound_state(s: Seq<u8>, i: int)
    ensures
        match p_state(s, i) {
            Some((v, j)) => j == i + enc_state(v).len() && at(s, i, enc_state(v)),
            None => true,
        },
{
    if at(s, i, tag_playing()) {
        lemma_sound_player(s, i + tag_playing().len());
        match p_player(s, i + tag_playing().len()) {
            Some((p, j)) => {
                if byte_at(s, j, RPAREN) {
                    lemma_single_at(s, j, RPAREN);
                    lemma_at_join(s, i, tag_playing(), enc_player(p));
                    lemma_at_join(s, i, tag_playing() + enc_player(p), seq![RPAREN]);
                }
            },
            None => (),
        }
    } else if at(s, i, tag_concluded()) {
        lemma_sound_conclusion(s, i + tag_concluded().len());
        match p_conclusion(s, i + tag_concluded().len()) {
            Some((c, j)) => {
                if byte_at(s, j, RPAREN) {
                    lemma_single_at(s, j, RPAREN);
                    lemma_at_join(s, i, tag_concluded(), enc_conclusion(c));
                    lemma_at_join(s, i, tag_concluded() + enc_conclusion(c), seq![RPAREN]);
                }
            },
            None => (),
        }
    }
}

proof fn lemma_sound_u8(s: Seq<u8>, i: int)
    ensures
        match p_u8(s, i) {
            Some((v, j)) => j == i + enc_u8(v).len() && at(s, i, enc_u8(v)),
            None => true,
        },
{
    match p_u8(s, i) {
        Some((v, j)) => {
            if !spec_digit(s, i + 1) {
                assert(enc_u8(v) =~= seq![s[i]]);
                lemma_single_at(s, i, s[i]);
            } else if !spec_digit(s, i + 2) {
                assert(enc_u8(v) =~= seq![s[i], s[i + 1]]);
                assert forall|k: int| 0 <= k < 2 implies s[i + k] == enc_u8(v)[k] by {}
            } else {
                assert(enc_u8(v) =~= seq![s[i], s[i + 1], s[i + 2]]);
                assert forall|k: int| 0 <= k < 3 implies s[i + k] == enc_u8(v)[k] by {}
            }
        },
        None => (),
    }
}


proof fn lemma_sound_str_bytes(s: Seq<u8>, i: int)
    ensures
        match p_str_bytes(s, i) {
            Some((u, j)) => j == i + esc(u).len() + 1 && at(s, i, esc(u) + seq![QUOTE]),
            None => true,
        },
    decreases s.len() - i,
{
    match p_str_bytes(s, i) {
        Some((u, j)) => {
            if s[i] == QUOTE {
                assert(esc(u) + seq![QUOTE] =~= seq![QUOTE]);
                lemma_single_at(s, i, QUOTE);
            } else if s[i] == BACKSLASH {
                let e = s[i + 1];
                let x: u8 = if e == QUOTE || e == BACKSLASH {
                    e
                } else {
                    NEWLINE
                };
                lemma_sound_str_bytes(s, i + 2);
                match p_str_bytes(s, i + 2) {
                    Some((rest, j2)) => {
                        assert(u =~= seq![x] + rest);
                        assert(u[0] == x);
                        assert(u.drop_first() =~= rest);
                        assert(esc_byte(x) =~= seq![s[i], s[i + 1]]);
                        assert forall|k: int| 0 <= k < 2 implies s[i + k] == esc_byte(x)[k] by {}
                        assert(at(s, i, esc_byte(x)));
                        lemma_at_join(s, i, esc_byte(x), esc(rest) + seq![QUOTE]);
                        assert(esc(u) + seq![QUOTE] =~= esc_byte(x) + (esc(rest) + seq![QUOTE]));
                    },
                    None => (),
                }
            } else {
                let x = s[i];
                lemma_sound_str_bytes(s, i + 1);
                match p_str_bytes(s, i + 1) {
                    Some((rest, j2)) => {
                        assert(u =~= seq![x] + rest);
                        assert(u[0] == x);
                        assert(u.drop_first() =~= rest);
                        assert(esc_byte(x) =~= seq![x]);
                        lemma_single_at(s, i, x);
                        lemma_at_join(s, i, esc_byte(x), esc(rest) + seq![QUOTE]);
                        assert(esc(u) + seq![QUOTE] =~= esc_byte(x) + (esc(rest) + seq![QUOTE]));
                    },
                    None => (),
                }
            }
        },
        None => (),
    }
}

proof fn lemma_sound_str(s: Seq<u8>, i: int)
    ensures
        match p_str(s, i) {
            Some((t, j)) => j == i + enc_str(t).len() && at(s, i, enc_str(t)),
            None => true,
        },
{
    if byte_at(s, i, QUOTE) {
        lemma_sound_str_bytes(s, i + 1);
        match p_str_bytes(s, i + 1) {
            Some((u, j)) => {
                if vstd::utf8::valid_utf8(u) {
                    vstd::utf8::decode_utf8_encode_utf8(u);
                    let t = vstd::utf8::decode_utf8(u);
                    assert(vstd::utf8::encode_utf8(t) == u);
                    lemma_single_at(s, i, QUOTE);
                    lemma_at_join(s, i, seq![QUOTE], esc(u) + seq![QUOTE]);
                    assert(enc_str(t) =~= seq![QUOTE] + (esc(u) + seq![QUOTE]));
                }
            },
            None => (),
        }
    }
}

proof fn lemma_sound_cells(s: Seq<u8>, i: int, k: nat)
    ensures
        match p_cells(s, i, k) {
            Some((cells, j)) => cells.len() == k && (k >= 1 ==> j == i + enc_cells(cells).len()
                && at(s, i, enc_cells(cells))),
            None => true,
        },
    decreases k,
{
    if k == 0 {
    } else {
        lemma_sound_opt_player(s, i);
        match p_opt_player(s, i) {
            Some((c, j)) => {
                if k == 1 {
                    assert(enc_cells(seq![c]) == enc_opt_player(c));
                } else if byte_at(s, j, COMMA) {
                    lemma_sound_cells(s, j + 1, (k - 1) as nat);
                    match p_cells(s, j + 1, (k - 1) as nat) {
                        Some((rest, j2)) => {
                            let cells = seq![c] + rest;
                            assert(cells[0] == c);
                            assert(cells.drop_first() =~= rest);
                            lemma_single_at(s, j, COMMA);
                            lemma_at_join(s, i, enc_opt_player(c), seq![COMMA]);
                            lemma_at_join(
                                s,
                                i,
                                enc_opt_player(c) + seq![COMMA],
                                enc_cells(rest),
                            );
                            assert(enc_cells(cells) =~= enc_opt_player(c) + seq![COMMA]
                                + enc_cells(rest));
                        },
                        None => (),
                    }
                }
            },
            None => (),
        }
    }
}

proof fn lemma_sound_board(s: Seq<u8>, i: int)
    ensures
        match p_board(s, i) {
            Some((b, j)) => b.len() == 9 && j == i + enc_board(b).len() && at(s, i, enc_board(b)),
            None => true,
        },
{
    if byte_at(s, i, LBRACKET) {
        lemma_sound_cells(s, i + 1, 9);
        match p_cells(s, i + 1, 9) {
            Some((cells, j)) => {
                if byte_at(s, j, RBRACKET) {
                    lemma_single_at(s, i, LBRACKET);
                    lemma_single_at(s, j, RBRACKET);
                    lemma_at_join(s, i, seq![LBRACKET], enc_cells(cells));
                    lemma_at_join(s, i, seq![LBRACKET] + enc_cells(cells), seq![RBRACKET]);
                }
            },
            None => (),
        }
    }
}

proof fn lemma_sound_game(s: Seq<u8>, i: int)
    ensures
        match p_game(s, i) {
            Some((g, j)) => wf_game_v(g) && j == i + enc_game(g).len() && at(s, i, enc_game(g)),
            None => true,
        },
{
    if byte_at(s, i, LPAREN) {
        lemma_sound_board(s, i + 1);
        match p_board(s, i + 1) {
            Some((b, j)) => {
                if byte_at(s, j, COMMA) {
                    lemma_sound_state(s, j + 1);
                    match p_state(s, j + 1) {
                        Some((st, j2)) => {
                            if byte_at(s, j2, RPAREN) {
                                lemma_single_at(s, i, LPAREN);
                                lemma_single_at(s, j, COMMA);
                                lemma_single_at(s, j2, RPAREN);
                                lemma_at_join(s, i, seq![LPAREN], enc_board(b));
                                lemma_at_join(s, i, seq![LPAREN] + enc_board(b), seq![COMMA]);
                                lemma_at_join(
                                    s,
                                    i,
                                    seq![LPAREN] + enc_board(b) + seq![COMMA],
                                    enc_state(st),
                                );
                                lemma_at_join(
                                    s,
                                    i,
                                    seq![LPAREN] + enc_board(b) + seq![COMMA] + enc_state(st),
                                    seq![RPAREN],
                                );
                            }
                        },
                        None => (),
                    }
                }
            },
            None => (),
        }
    }
}


proof fn lemma_sound_request(s: Seq<u8>, i: int)
    ensures
        match p_request(s, i) {
            Some((v, j)) => j == i + enc_request(v).len() && at(s, i, enc_request(v)),
            None => true,
        },
{
    if at(s, i, tag_join_match()) {
        lemma_sound_opt_player(s, i + tag_join_match().len());
        match p_opt_player(s, i + tag_join_match().len()) {
            Some((x, j)) => {
                if byte_at(s, j, RPAREN) {
                    lemma_single_at(s, j, RPAREN);
                    lemma_at_join(s, i, tag_join_match(), enc_opt_player(x));
                    lemma_at_join(s, i, tag_join_match() + enc_opt_player(x), seq![RPAREN]);
                }
            },
            None => (),
        }
    } else if at(s, i, tag_get_game_info()) {
    } else if at(s, i, tag_chat()) {
        lemma_sound_str(s, i + tag_chat().len());
        match p_str(s, i + tag_chat().len()) {
            Some((x, j)) => {
                if byte_at(s, j, RPAREN) {
                    lemma_single_at(s, j, RPAREN);
                    lemma_at_join(s, i, tag_chat(), enc_str(x));
                    lemma_at_join(s, i, tag_chat() + enc_str(x), seq![RPAREN]);
                }
            },
            None => (),
        }
    } else if at(s, i, tag_play_turn()) {
        lemma_sound_u8(s, i + tag_play_turn().len());
        match p_u8(s, i + tag_play_turn().len()) {
            Some((x, j)) => {
                if byte_at(s, j, RPAREN) {
                    lemma_single_at(s, j, RPAREN);
                    lemma_at_join(s, i, tag_play_turn(), enc_u8(x));
                    lemma_at_join(s, i, tag_play_turn() + enc_u8(x), seq![RPAREN]);
                }
            },
            None => (),
        }
    } else if at(s, i, tag_disconnect()) {
    }
}

proof fn lemma_sound_response(s: Seq<u8>, i: int)
    ensures
        match p_response(s, i) {
            Some((v, j)) => j == i + enc_response(v).len() && at(s, i, enc_response(v)) && wf_response_v(v),
            None => true,
        },
{
    if at(s, i, tag_ack()) {
    } else if at(s, i, tag_game_concluded()) {
        lemma_sound_conclusion(s, i + tag_game_concluded().len());
        match p_conclusion(s, i + tag_game_concluded().len()) {
            Some((x, j)) => {
                if byte_at(s, j, RPAREN) {
                    lemma_single_at(s, j, RPAREN);
                    lemma_at_join(s, i, tag_game_concluded(), enc_conclusion(x));
                    lemma_at_join(s, i, tag_game_concluded() + enc_conclusion(x), seq![RPAREN]);
                }
            },
            None => (),
        }
    } else if at(s, i, tag_game_info()) {
        lemma_sound_game(s, i + tag_game_info().len());
        match p_game(s, i + tag_game_info().len()) {
            Some((x, j)) => {
                if byte_at(s, j, RPAREN) {
                    lemma_single_at(s, j, RPAREN);
                    lemma_at_join(s, i, tag_game_info(), enc_game(x));
                    lemma_at_join(s, i, tag_game_info() + enc_game(x), seq![RPAREN]);
                }
            },
            None => (),
        }
    } else if at(s, i, tag_joined()) {
        lemma_sound_opt_player(s, i + tag_joined().len());
        match p_opt_player(s, i + tag_joined().len()) {
            Some((x, j)) => {
                if byte_at(s, j, RPAREN) {
                    lemma_single_at(s, j, RPAREN);
                    lemma_at_join(s, i, tag_joined(), enc_opt_player(x));
                    lemma_at_join(s, i, tag_joined() + enc_opt_player(x), seq![RPAREN]);
                }
            },
            None => (),
        }
    } else if at(s, i, tag_turn_done()) {
        lemma_sound_game(s, i + tag_turn_done().len());
        match p_game(s, i + tag_turn_done().len()) {
            Some((x, j)) => {
                if byte_at(s, j, RPAREN) {
                    lemma_single_at(s, j, RPAREN);
                    lemma_at_join(s, i, tag_turn_done(), enc_game(x));
                    lemma_at_join(s, i, tag_turn_done() + enc_game(x), seq![RPAREN]);
                }
            },
            None => (),
        }
    }
}

proof fn lemma_sound_error(s: Seq<u8>, i: int)
    ensures
        match p_error(s, i) {
            Some((v, j)) => j == i + enc_error(v).len() && at(s, i, enc_error(v)),
            None => true,
        },
{
    if at(s, i, tag_waiting_for_host()) {
    } else if at(s, i, tag_invalid_tile()) {
    } else if at(s, i, tag_not_your_turn()) {
    } else if at(s, i, tag_not_allowed()) {
    } else if at(s, i, tag_match_in_progress()) {
    } else if at(s, i, tag_game_concluded()) {
        lemma_sound_conclusion(s, i + tag_game_concluded().len());
        match p_conclusion(s, i + tag_game_concluded().len()) {
            Some((x, j)) => {
                if byte_at(s, j, RPAREN) {
                    lemma_single_at(s, j, RPAREN);
                    lemma_at_join(s, i, tag_game_concluded(), enc_conclusion(x));
                    lemma_at_join(s, i, tag_game_concluded() + enc_conclusion(x), seq![RPAREN]);
                }
            },
            None => (),
        }
    } else if at(s, i, tag_invalid_param()) {
        lemma_sound_str(s, i + tag_invalid_param().len());
        match p_str(s, i + tag_invalid_param().len()) {
            Some((x, j)) => {
                if byte_at(s, j, RPAREN) {
                    lemma_single_at(s, j, RPAREN);
                    lemma_at_join(s, i, tag_invalid_param(), enc_str(x));
                    lemma_at_join(s, i, tag_invalid_param() + enc_str(x), seq![RPAREN]);
                }
            },
            None => (),
        }
    } else if at(s, i, tag_invalid_message()) {
        lemma_sound_str(s, i + tag_invalid_message().len());
        match p_str(s, i + tag_invalid_message().len()) {
            Some((x, j)) => {
                if byte_at(s, j, RPAREN) {
                    lemma_single_at(s, j, RPAREN);
                    lemma_at_join(s, i, tag_invalid_message(), enc_str(x));
                    lemma_at_join(s, i, tag_invalid_message() + enc_str(x), seq![RPAREN]);
                }
            },
            None => (),
        }
    } else if at(s, i, tag_server_error()) {
        lemma_sound_str(s, i + tag_server_error().len());
        match p_str(s, i + tag_server_error().len()) {
            Some((x, j)) => {
                if byte_at(s, j, RPAREN) {
                    lemma_single_at(s, j, RPAREN);
                    lemma_at_join(s, i, tag_server_error(), enc_str(x));
                    lemma_at_join(s, i, tag_server_error() + enc_str(x), seq![RPAREN]);
                }
            },
            None => (),
        }
    }
}
proof fn lemma_sound_notification(s: Seq<u8>, i: int)
    ensures
        match p_notification(s, i) {
            Some((v, j)) => j == i + enc_notification(v).len() && at(s, i, enc_notification(v)),
            None => true,
        },
{
    if at(s, i, tag_chat()) {
        lemma_sound_str(s, i + tag_chat().len());
        match p_str(s, i + tag_chat().len()) {
            Some((from, j)) => {
                if byte_at(s, j, COMMA) {
                    lemma_sound_str(s, j + 1);
                    match p_str(s, j + 1) {
                        Some((msg, j2)) => {
                            if byte_at(s, j2, RPAREN) {
                                lemma_single_at(s, j, COMMA);
                                lemma_single_at(s, j2, RPAREN);
                                lemma_at_join(s, i, tag_chat(), enc_str(from));
                                lemma_at_join(s, i, tag_chat() + enc_str(from), seq![COMMA]);
                                lemma_at_join(
                                    s,
                                    i,
                                    tag_chat() + enc_str(from) + seq![COMMA],
                                    enc_str(msg),
                                );
                                lemma_at_join(
                                    s,
                                    i,
                                    tag_chat() + enc_str(from) + seq![COMMA] + enc_str(msg),
                                    seq![RPAREN],
                                );
                            }
                        },
                        None => (),
                    }
                }
            },
            None => (),
        }
    } else if at(s, i, tag_server_info()) {
        lemma_sound_str(s, i + tag_server_info().len());
        match p_str(s, i + tag_server_info().len()) {
            Some((x, j)) => {
                if byte_at(s, j, RPAREN) {
                    lemma_single_at(s, j, RPAREN);
                    lemma_at_join(s, i, tag_server_info(), enc_str(x));
                    lemma_at_join(s, i, tag_server_info() + enc_str(x), seq![RPAREN]);
                }
            },
            None => (),
        }
    }
}

proof fn lemma_sound_result(s: Seq<u8>, i: int)
    ensures
        match p_result(s, i) {
            Some((v, j)) => j == i + enc_result(v).len() && at(s, i, enc_result(v))
                && wf_result_v(v),
            None => true,
        },
{
    if at(s, i, tag_ok()) {
        lemma_sound_response(s, i + tag_ok().len());
        match p_response(s, i + tag_ok().len()) {
            Some((x, j)) => {
                if byte_at(s, j, RPAREN) {
                    lemma_single_at(s, j, RPAREN);
                    lemma_at_join(s, i, tag_ok(), enc_response(x));
                    lemma_at_join(s, i, tag_ok() + enc_response(x), seq![RPAREN]);
                }
            },
            None => (),
        }
    } else if at(s, i, tag_err()) {
        lemma_sound_error(s, i + tag_err().len());
        match p_error(s, i + tag_err().len()) {
            Some((x, j)) => {
                if byte_at(s, j, RPAREN) {
                    lemma_single_at(s, j, RPAREN);
                    lemma_at_join(s, i, tag_err(), enc_error(x));
                    lemma_at_join(s, i, tag_err() + enc_error(x), seq![RPAREN]);
                }
            },
            None => (),
        }
    }
}

proof fn lemma_sound_message(s: Seq<u8>, i: int)
    ensures
        match p_message(s, i) {
            Some((v, j)) => j == i + enc_message(v).len() && at(s, i, enc_message(v))
                && wf_message_v(v),
            None => true,
        },
{
    if at(s, i, tag_request()) {
        lemma_sound_request(s, i + tag_request().len());
        match p_request(s, i + tag_request().len()) {
            Some((x, j)) => {
                if byte_at(s, j, RPAREN) {
                    lemma_single_at(s, j, RPAREN);
                    lemma_at_join(s, i, tag_request(), enc_request(x));
                    lemma_at_join(s, i, tag_request() + enc_request(x), seq![RPAREN]);
                }
            },
            None => (),
        }
    } else if at(s, i, tag_response()) {
        lemma_sound_result(s, i + tag_response().len());
        match p_result(s, i + tag_response().len()) {
            Some((x, j)) => {
                if byte_at(s, j, RPAREN) {
                    lemma_single_at(s, j, RPAREN);
                    lemma_at_join(s, i, tag_response(), enc_result(x));
                    lemma_at_join(s, i, tag_response() + enc_result(x), seq![RPAREN]);
                }
            },
            None => (),
        }
    } else if at(s, i, tag_notification()) {
        lemma_sound_notification(s, i + tag_notification().len());
        match p_notification(s, i + tag_notification().len()) {
            Some((x, j)) => {
                if byte_at(s, j, RPAREN) {
                    lemma_single_at(s, j, RPAREN);
                    lemma_at_join(s, i, tag_notification(), enc_notification(x));
                    lemma_at_join(s, i, tag_notification() + enc_notification(x), seq![RPAREN]);
                }
            },
            None => (),
        }
    }
}

/// The converse round trip: the decoder accepts only canonical
/// encodings, so a decoded message re-encodes to the very bytes it came
/// from.  Together with [`lemma_round_trip`] this pins the wire format:
/// encoding and decoding are mutually inverse bijections between
/// messages and the lines of the wire.
pub proof fn lemma_decode_sound(t: Seq<u8>)
    ensures
        match dec_message(t) {
            Some(m) => t == enc_message(m) && wf_message_v(m),
            None => true,
        },
{
    lemma_sound_message(t, 0);
    match p_message(t, 0) {
        Some((m, j)) => {
            if j == t.len() {
                assert(t =~= enc_message(m));
            }
        },
        None => (),
    }
}

} // verus!







