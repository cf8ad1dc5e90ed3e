//! A multiplayer minesweeper server library.
//!
//! The board engine (bomb placement, adjacency counting, flood-fill reveal,
//! flag/deflag, win detection), the line-oriented command protocol and the
//! session bookkeeping are verified; the network transports live outside the
//! library and only hand plain values in and out.

pub mod board;
pub mod protocol;
pub mod session;
