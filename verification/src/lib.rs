//! Verified core of an overlay that marks the zombies of a running
//! Plants vs. Zombies game: pointer-chain resolution inside the game's
//! memory, the zombie table scan and its liveness filter, the UTF-16 text
//! handling used to find the game, and the overlay window's decisions.
//! Every read of the game's memory and every window-system call is made by
//! the caller; the types here say which read comes next and what to do with
//! what it returned.

pub mod chain;
pub mod scan;
pub mod wide;
pub mod locate;
pub mod window;
