use vstd::prelude::*;

verus! {

/// What can go wrong in the replication layer.
#[derive(Clone, PartialEq, Eq, Debug)]
pub enum Error {
    /// A frame body could not be encoded or decoded; the stream is no longer trusted.
    Cbor(String),
    /// The transport failed (anything but would-block).
    Io(String),
    /// A replicated object with this id is already registered.
    DuplicateNetworkEntity,
    /// A handshake would give two connected peers the same id.
    DuplicateActor,
    /// Every id a generator could hand out is taken.
    OutOfIds,
}

} // verus!
