//! Session server for two-player tic-tac-toe with observers and chat.
//!
//! The crate is organised leaves-first: `board` holds the 3x3 grid value
//! types, `game` the turn state machine and conclusion check, `message`
//! the wire-level message taxonomy, `codec` the line-oriented textual
//! encoding of messages, `connection` the byte-stream framing, and
//! `session` the single-owner actor state that assigns roles and
//! arbitrates every request.

pub mod board;
pub mod codec;
pub mod connection;
pub mod game;
pub mod message;
pub mod session;
