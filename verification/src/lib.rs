//! Opening-book construction for recorded othello games.
//!
//! The library builds a move-prefix tree from fixed 64-byte game records,
//! folding board-symmetric variants into one branch and keeping an exact
//! running total of outcome differentials per node, and serializes the
//! finished tree into a pointer-linked binary block format.

pub mod canon;
pub mod opening;
pub mod tree;
