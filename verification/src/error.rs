use vstd::prelude::*;

verus! {

/// The failure taxonomy of the transport.
///
/// `WouldBlock`-style conditions are never surfaced through this type: a read
/// or write that cannot make progress is absorbed by the caller's tick loop.
#[derive(Clone, Copy, PartialEq, Eq, Structural, Debug)]
pub enum Error {
    /// A socket-level failure that is not a would-block condition.
    Io,
    /// A failure reported by the RSA helper.
    OpenSsl,
    /// A failure reported by the password-hashing helper.
    Bcrypt,
    /// A write could not be completed.
    FailedToSendBytes,
    /// The socket multiplexer refused a registration.
    FailedToRegisterForEvents,
    /// An oversized or malformed packet header, or a body that cannot be
    /// (de)serialized.
    InvalidData,
    /// A kick named a token that is not in the connection table.
    ConnectionNotFound,
}

} // verus!
