//! Byte-stream framing: turning a sequence of reads into a sequence of
//! decoded messages, one per newline-terminated line.
//!
//! The receiver accumulates whatever the transport hands it and yields at
//! most one message per step, in arrival order.  A complete line that is
//! not a canonical message encoding is malformed: the buffer is discarded
//! and receiving continues, so one bad message never tears the connection
//! down.  End-of-stream with an empty buffer is a clean close; with
//! buffered bytes it is a peer reset — both are the caller's call to make
//! via [`Receiver::is_empty`].

use vstd::prelude::*;

use crate::codec::{
    dec_message, decode_message, enc_message, lemma_enc_message_no_newline, lemma_round_trip,
    wf_message_v, NEWLINE,
};
use crate::message::{Message, MessageV, Request};

verus! {

/// The position of the first newline byte at or after `i`, if any.
pub open spec fn find_newline(s: Seq<u8>, i: int) -> Option<int>
    decreases s.len() - i,
{
    if i < 0 || i >= s.len() {
        None
    } else if s[i] == NEWLINE {
        Some(i)
    } else {
        find_newline(s, i + 1)
    }
}

proof fn lemma_find_newline_found(s: Seq<u8>, i: int, k: int)
    requires
        0 <= i <= k < s.len(),
        s[k] == NEWLINE,
        forall|t: int| i <= t < k ==> s[t] != NEWLINE,
    ensures
        find_newline(s, i) == Some(k),
    decreases k - i,
{
    if i < k {
        lemma_find_newline_found(s, i + 1, k);
    }
}

proof fn lemma_find_newline_none(s: Seq<u8>, i: int)
    requires
        0 <= i,
        forall|t: int| i <= t < s.len() ==> s[t] != NEWLINE,
    ensures
        find_newline(s, i) is None,
    decreases s.len() - i,
{
    if i < s.len() {
        lemma_find_newline_none(s, i + 1);
    }
}

/// What one framing step yields.
#[derive(Debug, PartialEq)]
pub enum Step {
    /// No complete line is buffered yet: read more bytes and try again.
    NeedMore,
    /// One complete line decoded to a message.
    Msg(Message),
    /// A complete line that is no message; the buffer was discarded.
    Malformed,
}

/// The receiving half of a connection: an accumulation buffer over a
/// duplex byte stream, with no knowledge of game semantics.
pub struct Receiver {
    buf: Vec<u8>,
}

impl View for Receiver {
    type V = Seq<u8>;

    closed spec fn view(&self) -> Seq<u8> {
        self.buf@
    }
}

impl Receiver {
    pub fn new() -> (r: Receiver)
        ensures
            r@ == Seq::<u8>::empty(),
    {
        Receiver { buf: Vec::new() }
    }

    /// Appends one read's worth of bytes from the transport.
    pub fn feed(&mut self, chunk: &[u8])
        ensures
            final(self)@ == old(self)@ + chunk@,
    {
        self.buf.extend_from_slice(chunk);
    }

    /// True iff nothing is buffered.  At end-of-stream an empty buffer
    /// means a clean close, a non-empty one a peer reset.
    pub fn is_empty(&self) -> (r: bool)
        ensures
            r == (self@.len() == 0),
    {
        self.buf.is_empty()
    }

    /// Takes one message off the front of the buffer, if a complete line
    /// is there: the bytes before the first newline are decoded and
    /// consumed; a malformed line discards the whole buffer.
    pub fn try_next(&mut self) -> (r: Step)
        ensures
            match find_newline(old(self)@, 0) {
                None => r is NeedMore && final(self)@ == old(self)@,
                Some(k) => match dec_message(old(self)@.take(k)) {
                    Some(mv) => {
                        &&& r matches Step::Msg(m) && m@ == mv
                        &&& final(self)@ == old(self)@.skip(k + 1)
                    },
                    None => r is Malformed && final(self)@ == Seq::<u8>::empty(),
                },
            },
    {
        let n = self.buf.len();
        let mut k: usize = 0;
        let mut found = false;
        while k < n && !found
            invariant
                n == self@.len(),
                k <= n,
                forall|t: int| 0 <= t < k ==> self@[t] != NEWLINE,
                found ==> k < n && self@[k as int] == NEWLINE,
                self@ == old(self)@,
            decreases n - k + if found {
                0int
            } else {
                1int
            },
        {
            if self.buf[k] == NEWLINE {
                found = true;
            } else {
                k = k + 1;
            }
        }
        if !found {
            proof {
                lemma_find_newline_none(self@, 0);
            }
            return Step::NeedMore;
        }
        proof {
            lemma_find_newline_found(self@, 0, k as int);
        }
        let mut line: Vec<u8> = Vec::new();
        let mut t: usize = 0;
        while t < k
            invariant
                t <= k,
                k < self@.len(),
                line@ == self@.take(t as int),
                self@ == old(self)@,
            decreases k - t,
        {
            proof {
                assert(self@.take(t + 1) =~= self@.take(t as int).push(self@[t as int]));
            }
            line.push(self.buf[t]);
            t = t + 1;
        }
        match decode_message(line.as_slice()) {
            Some(m) => {
                let rest = self.buf.split_off(k + 1);
                self.buf = rest;
                Step::Msg(m)
            },
            None => {
                self.buf.clear();
                Step::Malformed
            },
        }
    }
}

/// What the connection task does with one receive outcome: a clean close
/// or a `Disconnect` request ends the task; any other request travels on
/// to the actor with a reply slot.
pub enum Disposition {
    Stop,
    Forward(Request),
}

pub fn recv_disposition(msg: Option<Request>) -> (r: Disposition)
    ensures
        match msg {
            None => r is Stop,
            Some(req) => if req is Disconnect {
                r is Stop
            } else {
                r matches Disposition::Forward(q) && q == req
            },
        },
{
    match msg {
        None => Disposition::Stop,
        Some(Request::Disconnect) => Disposition::Stop,
        Some(req) => Disposition::Forward(req),
    }
}

/// Framing and codec compose: with one whole frame at the front of the
/// buffer, the first newline ends exactly that frame, the line before it
/// decodes to the framed message, and the bytes after it are untouched.
/// One framing step on such a buffer therefore yields exactly that
/// message and keeps the remainder, in order.
pub proof fn lemma_frame_round_trip(m: MessageV, rest: Seq<u8>)
    requires
        wf_message_v(m),
    ensures
        ({
            let buf = enc_message(m) + seq![NEWLINE] + rest;
            let end = enc_message(m).len() as int;
            &&& find_newline(buf, 0) == Some(end)
            &&& dec_message(buf.take(end)) == Some(m)
            &&& buf.skip(end + 1) == rest
        }),
{
    let e = enc_message(m);
    let buf = e + seq![NEWLINE] + rest;
    let end = e.len() as int;
    lemma_enc_message_no_newline(m);
    assert(buf[end] == NEWLINE) by {
        assert((e + seq![NEWLINE])[end] == NEWLINE);
        assert(buf[end] == (e + seq![NEWLINE])[end]);
    }
    assert forall|t: int| 0 <= t < end implies buf[t] != NEWLINE by {
        assert(buf[t] == e[t]);
    }
    lemma_find_newline_found(buf, 0, end);
    assert(buf.take(end) =~= e);
    lemma_round_trip(m);
    assert(buf.skip(end + 1) =~= rest);
}

} // verus!
