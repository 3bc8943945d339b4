use vstd::prelude::*;
use crate::connection_manager::{ConnectionManager, batch_for};
use crate::ids::{ConnectionId, NetworkTarget};
use crate::message::{NetworkHandle, Payload, PayloadView, payload_views, spawned_payloads};
use crate::network_entity::NetworkEntityRegistry;
use crate::spawnable::SpawnManager;

verus! {

/// The send step: queued new objects get their ids and are registered, then everything queued
/// is routed, the local peer's share into its loopback queue; the batches for remote peers are
/// returned for the transport, one per connection that has any.
pub fn sending_system(
    connection_manager: &mut ConnectionManager,
    network_handle: &mut NetworkHandle,
    network_entity_registry: &mut NetworkEntityRegistry,
    spawn_manager: &mut SpawnManager,
) -> (r: Vec<(ConnectionId, Vec<Payload>)>)
    requires
        old(connection_manager).wf(),
        old(network_entity_registry).wf(),
        old(spawn_manager).wf(),
    ensures
        final(connection_manager).wf(),
        final(network_entity_registry).wf(),
        final(spawn_manager).wf(),
        final(connection_manager)@ == old(connection_manager)@,
        final(connection_manager).local_actor() == old(connection_manager).local_actor(),
        final(network_handle).outbox() == Seq::<(NetworkTarget, PayloadView)>::empty(),
        ({
            let q = old(network_handle).spawn_queue();
            let n = match old(network_entity_registry).spec_next() {
                Some(n) => n,
                None => 0,
            };
            let sent = old(network_handle).outbox() + spawned_payloads(q, n);
            ((old(network_entity_registry).spec_next() is Some) && (n + q.len() <= u64::MAX)) ==> {
                &&& final(network_handle).spawn_queue() == Seq::<(NetworkTarget, Seq<u8>)>::empty()
                &&& final(network_entity_registry).spec_next() == Some((n + q.len()) as u64)
                &&& final(connection_manager).loopback() == old(connection_manager).loopback() + batch_for(
                    sent,
                    old(connection_manager).local_actor(),
                )
                &&& forall|k: int|
                    0 <= k < r@.len() ==> old(connection_manager)@.contains_key(#[trigger] r@[k].0) && r@[k].0
                        != ConnectionId(0) && payload_views(r@[k].1@) == batch_for(sent, old(connection_manager)@[r@[k].0])
                        && r@[k].1@.len() > 0
                &&& forall|c: ConnectionId|
                    #[trigger] old(connection_manager)@.contains_key(c) && c != ConnectionId(0) && batch_for(
                        sent,
                        old(connection_manager)@[c],
                    ).len() > 0 ==> exists|k: int| 0 <= k < r@.len() && #[trigger] r@[k].0 == c
            }
        }),
        forall|k1: int, k2: int|
            0 <= k1 < r@.len() && 0 <= k2 < r@.len() && k1 != k2 ==> #[trigger] r@[k1].0 != #[trigger] r@[k2].0,
{
    network_handle.convert_spawn_messages(network_entity_registry, spawn_manager, connection_manager);
    let payloads = network_handle.clear_payloads();
    connection_manager.send(payloads)
}

} // verus!
