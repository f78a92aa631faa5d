//! A minimal non-blocking TCP transport core: length-prefixed packet framing,
//! per-connection byte buffers, client and server engine state machines, and
//! multi-recipient send routing.
//!
//! The engines here are deliberately free of sockets: they hold the buffers,
//! queues, connection table and event list, and expose small steps (feed read
//! bytes, extract packets, pop outgoing frames, finish a tick) that a reactor
//! loop drives against real sockets.

pub mod buffer;
pub mod client;
pub mod crypto;
pub mod error;
pub mod packet;
pub mod server;

pub use client::{Client, ClientEvent};
pub use error::Error;
pub use server::{Connection, Server, ServerEvent};

use vstd::prelude::*;

verus! {

/// An opaque identifier for one live connection: a small integer, unique for
/// the connection's lifetime (the server allocates them from a monotonically
/// increasing counter and never reuses one).
#[derive(Clone, Copy, PartialEq, Eq, Structural, Debug, Hash)]
pub struct Token(pub usize);

/// Selects which connections a server-side send is fanned out to.
/// Unknown tokens in any selector are silently ignored.
pub enum PacketRecipient {
    /// Every current connection.
    All,
    /// Exactly one connection; a silent no-op if the token is absent.
    Single(Token),
    /// Every connection except one.
    Exclude(Token),
    /// Every connection whose token is not in the given set.
    ExcludeMany(Vec<Token>),
    /// Only the connections whose tokens are in the given set.
    Include(Vec<Token>),
}

/// Whether a send addressed to `recipient` is delivered to the connection
/// holding `token`.
pub open spec fn recipient_matches(recipient: PacketRecipient, token: Token) -> bool {
    match recipient {
        PacketRecipient::All => true,
        PacketRecipient::Single(t) => t == token,
        PacketRecipient::Exclude(t) => t != token,
        PacketRecipient::ExcludeMany(ts) => !ts@.contains(token),
        PacketRecipient::Include(ts) => ts@.contains(token),
    }
}

} // verus!
