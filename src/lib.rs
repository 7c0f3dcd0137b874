//! A Minesweeper game engine with a server-side session state machine,
//! a compact binary message codec and the client-side view of a board.
pub mod board;
pub mod client;
pub mod protocol;
pub mod session;
pub mod zip;
