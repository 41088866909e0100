//! Serving a crate registry's index as a read-only Git repository:
//! pkt-line framing, Git objects and their hashes, packfiles, the
//! synthesised index tree and the protocol v2 request state machine.

pub mod pktline;
pub mod object;
pub mod packfile;
pub mod index;
pub mod protocol;
pub mod session;
pub mod api;
