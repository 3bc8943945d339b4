use vstd::prelude::*;

verus! {

/// Locally scoped handle of one connection; allocated monotonically and never transmitted.
#[derive(Clone, Copy, PartialEq, Eq, Structural, Hash, Debug)]
pub struct ConnectionId(pub u64);

/// Identity of one peer for the lifetime of a session.
#[derive(Clone, Copy, PartialEq, Eq, Structural, Hash, Debug)]
pub struct ActorId(pub u64);

/// 128-bit tag of a peer role, shared by every peer of that role.
#[derive(Clone, Copy, PartialEq, Eq, Structural, Hash, Debug)]
pub struct ActorTy(pub u128);

/// A type that carries a network-wide 128-bit type tag.
pub trait NetworkTypeUuid {
    spec fn spec_uuid() -> u128;

    fn uuid() -> (r: u128)
        ensures
            r == Self::spec_uuid(),
    ;
}

/// The coordinating role.
pub struct Server;

/// The participant role.
pub struct Client;

pub const SERVER_UUID: u128 = 481231321231324654321324;

pub const CLIENT_UUID: u128 = 1213214233146531133716878546;

impl NetworkTypeUuid for Server {
    open spec fn spec_uuid() -> u128 {
        SERVER_UUID
    }

    fn uuid() -> (r: u128) {
        SERVER_UUID
    }
}

impl NetworkTypeUuid for Client {
    open spec fn spec_uuid() -> u128 {
        CLIENT_UUID
    }

    fn uuid() -> (r: u128) {
        CLIENT_UUID
    }
}

impl ActorTy {
    /// The role tag of `T`.
    pub fn new<T: NetworkTypeUuid>() -> (r: ActorTy)
        ensures
            r.0 == T::spec_uuid(),
    {
        ActorTy(T::uuid())
    }

    /// Whether this tag is the one of `T`.
    pub fn is<T: NetworkTypeUuid>(&self) -> (r: bool)
        ensures
            r == (self.0 == T::spec_uuid()),
    {
        self.0 == T::uuid()
    }
}

/// "Who should receive this": a predicate over the known peers.
#[derive(Clone, Copy, PartialEq, Eq, Structural, Debug)]
pub enum NetworkTarget {
    ActorId(ActorId),
    ActorTy(ActorTy),
    All,
}

/// The addressable identity of one peer.
#[derive(Clone, Copy, PartialEq, Eq, Structural, Debug)]
pub struct Actor {
    pub id: ActorId,
    pub ty: ActorTy,
}

/// Whether a peer with this id and role is selected by `target`.
pub open spec fn targets(target: NetworkTarget, id: ActorId, ty: ActorTy) -> bool {
    match target {
        NetworkTarget::All => true,
        NetworkTarget::ActorId(a) => a == id,
        NetworkTarget::ActorTy(t) => t == ty,
    }
}

impl Actor {
    pub fn new(id: ActorId, ty: ActorTy) -> (r: Actor)
        ensures
            r.id == id,
            r.ty == ty,
    {
        Actor { id, ty }
    }

    pub open spec fn spec_targeted_by(self, target: NetworkTarget) -> bool {
        targets(target, self.id, self.ty)
    }

    /// Whether `network_target` selects this peer.
    pub fn targeted_by(&self, network_target: &NetworkTarget) -> (r: bool)
        ensures
            r == self.spec_targeted_by(*network_target),
    {
        match network_target {
            NetworkTarget::All => true,
            NetworkTarget::ActorId(actor_id) => self.id == *actor_id,
            NetworkTarget::ActorTy(actor_ty) => self.ty == *actor_ty,
        }
    }

    pub fn id(&self) -> (r: ActorId)
        ensures
            r == self.id,
    {
        self.id
    }

    pub fn ty(&self) -> (r: ActorTy)
        ensures
            r == self.ty,
    {
        self.ty
    }
}

} // verus!
