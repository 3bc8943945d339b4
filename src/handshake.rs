use vstd::prelude::*;
use crate::ids::ActorId;

verus! {

/// The one message each side sends before a connection enters its steady state.
#[derive(Clone, Copy, PartialEq, Eq, Structural, Debug)]
pub enum Handshake {
    /// Assigns identities to both ends: the sender's own, and the one the receiver is to adopt.
    Override { sender_actor_id: ActorId, receiver_actor_id: ActorId },
    /// No opinion.
    NoOverride,
}

/// The local peer's identity after a handshake in which it received `received`.
pub open spec fn resolved_local_id(own: ActorId, received: Handshake) -> ActorId {
    match received {
        Handshake::Override { receiver_actor_id, .. } => receiver_actor_id,
        Handshake::NoOverride => own,
    }
}

/// The remote peer's identity after a handshake in which the local side sent `sent` and
/// received `received`; `minted` is the fresh id the local side makes when neither assigns one.
pub open spec fn resolved_remote_id(sent: Handshake, received: Handshake, minted: ActorId) -> ActorId {
    match received {
        Handshake::Override { sender_actor_id, .. } => sender_actor_id,
        Handshake::NoOverride => match sent {
            Handshake::Override { receiver_actor_id, .. } => receiver_actor_id,
            Handshake::NoOverride => minted,
        },
    }
}

/// Whether the local side has to mint a fresh id for the remote peer.
pub open spec fn mints_remote_id(sent: Handshake, received: Handshake) -> bool {
    sent is NoOverride && received is NoOverride
}

/// The identity the local side adopts from `received`, if it assigns one.
pub fn local_id_override(received: &Handshake) -> (r: Option<ActorId>)
    ensures
        r == (match *received {
            Handshake::Override { receiver_actor_id, .. } => Some(receiver_actor_id),
            Handshake::NoOverride => None,
        }),
{
    match received {
        Handshake::Override { receiver_actor_id, .. } => Some(*receiver_actor_id),
        Handshake::NoOverride => None,
    }
}

/// The remote peer's identity that the handshake fixes, or `None` when the local side must mint one.
pub fn remote_id_override(sent: &Handshake, received: &Handshake) -> (r: Option<ActorId>)
    ensures
        r is None <==> mints_remote_id(*sent, *received),
        r matches Some(id) ==> forall|minted: ActorId| resolved_remote_id(*sent, *received, minted) == id,
{
    match received {
        Handshake::Override { sender_actor_id, .. } => Some(*sender_actor_id),
        Handshake::NoOverride => match sent {
            Handshake::Override { receiver_actor_id, .. } => Some(*receiver_actor_id),
            Handshake::NoOverride => None,
        },
    }
}

/// Handshake convergence: when one peer sends `Override` naming itself truthfully and the other
/// sends `NoOverride`, each peer's view of itself is the other's view of it, whichever of the two
/// sends the `Override`.
pub proof fn lemma_handshake_agreement(
    initiator_own: ActorId,
    responder_own: ActorId,
    assigned: ActorId,
    initiator_minted: ActorId,
    responder_minted: ActorId,
)
    ensures
        ({
            let sent_by_initiator = Handshake::Override {
                sender_actor_id: initiator_own,
                receiver_actor_id: assigned,
            };
            let sent_by_responder = Handshake::NoOverride;
            &&& resolved_local_id(initiator_own, sent_by_responder) == resolved_remote_id(
                sent_by_responder,
                sent_by_initiator,
                responder_minted,
            )
            &&& resolved_local_id(responder_own, sent_by_initiator) == resolved_remote_id(
                sent_by_initiator,
                sent_by_responder,
                initiator_minted,
            )
            &&& resolved_local_id(responder_own, sent_by_initiator) == assigned
            &&& resolved_local_id(initiator_own, sent_by_responder) == initiator_own
        }),
        ({
            let sent_by_responder = Handshake::Override {
                sender_actor_id: responder_own,
                receiver_actor_id: assigned,
            };
            let sent_by_initiator = Handshake::NoOverride;
            &&& resolved_local_id(responder_own, sent_by_initiator) == resolved_remote_id(
                sent_by_initiator,
                sent_by_responder,
                initiator_minted,
            )
            &&& resolved_local_id(initiator_own, sent_by_responder) == resolved_remote_id(
                sent_by_responder,
                sent_by_initiator,
                responder_minted,
            )
            &&& resolved_local_id(initiator_own, sent_by_responder) == assigned
        }),
{
}

} // verus!
