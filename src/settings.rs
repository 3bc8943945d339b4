use vstd::prelude::*;
use crate::ids::{ActorTy, NetworkTarget, CLIENT_UUID, SERVER_UUID};

verus! {

/// The role of the local peer and what follows from it.
pub struct NetworkSettings {
    /// The local peer's role.
    pub actor_ty: ActorTy,
    /// The role given to every peer that connects.
    pub connection_ty: ActorTy,
    /// The audiences attribute updates are sent to.
    pub sync_components_with: Vec<NetworkTarget>,
}

impl NetworkSettings {
    /// The coordinator: its peers are participants, and attribute updates go to all of them.
    pub fn server() -> (r: NetworkSettings)
        ensures
            r.actor_ty == ActorTy(SERVER_UUID),
            r.connection_ty == ActorTy(CLIENT_UUID),
            r.sync_components_with@ == seq![NetworkTarget::ActorTy(ActorTy(CLIENT_UUID))],
    {
        let mut sync_components_with: Vec<NetworkTarget> = Vec::new();
        sync_components_with.push(NetworkTarget::ActorTy(ActorTy(CLIENT_UUID)));
        assert(sync_components_with@ =~= seq![NetworkTarget::ActorTy(ActorTy(CLIENT_UUID))]);
        NetworkSettings {
            actor_ty: ActorTy(SERVER_UUID),
            connection_ty: ActorTy(CLIENT_UUID),
            sync_components_with,
        }
    }

    /// A participant: its one peer is the coordinator, and attribute updates go to it.
    pub fn client() -> (r: NetworkSettings)
        ensures
            r.actor_ty == ActorTy(CLIENT_UUID),
            r.connection_ty == ActorTy(SERVER_UUID),
            r.sync_components_with@ == seq![NetworkTarget::ActorTy(ActorTy(SERVER_UUID))],
    {
        let mut sync_components_with: Vec<NetworkTarget> = Vec::new();
        sync_components_with.push(NetworkTarget::ActorTy(ActorTy(SERVER_UUID)));
        assert(sync_components_with@ =~= seq![NetworkTarget::ActorTy(ActorTy(SERVER_UUID))]);
        NetworkSettings {
            actor_ty: ActorTy(CLIENT_UUID),
            connection_ty: ActorTy(SERVER_UUID),
            sync_components_with,
        }
    }
}

} // verus!
