use network::communication::sending_system;
use network::component_sync::{
    component_sync_connect_system, component_sync_marking_system, component_sync_receiving_system,
    component_sync_sending_system, ComponentSync, ComponentSyncs, SyncedComponent, UpdateRejection,
};
use network::connection_manager::{ConnectionEvent, ConnectionManager};
use network::error::Error;
use network::handshake::Handshake;
use network::ids::{Actor, ActorId, ActorTy, ConnectionId, NetworkTarget, CLIENT_UUID, SERVER_UUID};
use network::message::{Message, NetworkHandle, Payload};
use network::network_entity::{Entity, NetworkEntity, NetworkEntityRegistry};
use network::settings::NetworkSettings;
use network::spawnable::{spawn_detection_system, spawn_system, SpawnContext, SpawnManager};

const TRANSFORM: u128 = 65786718953123561420596132;

fn server_ty() -> ActorTy {
    ActorTy(SERVER_UUID)
}

fn client_ty() -> ActorTy {
    ActorTy(CLIENT_UUID)
}

fn accept(manager: &mut ConnectionManager) -> ConnectionId {
    let local = manager.get_local_actor().id;
    let assigned = manager.generate_actor_id().unwrap();
    let sent = Handshake::Override { sender_actor_id: local, receiver_actor_id: assigned };
    match manager.add_connection(client_ty(), &sent, &Handshake::NoOverride) {
        Ok(ConnectionEvent::Connected { connection_id, .. }) => connection_id,
        other => panic!("expected a connection, got {:?}", other),
    }
}

fn spawn_payload(id: u64) -> Payload {
    Payload::Spawn { network_entity: NetworkEntity(id), data: vec![id as u8] }
}

fn sends(handle: &mut NetworkHandle) -> Vec<(NetworkTarget, u64)> {
    handle
        .clear_payloads()
        .into_iter()
        .map(|(t, p)| match p {
            Payload::Spawn { network_entity, .. } => (t, network_entity.0),
            Payload::ComponentUpdate { target_entity, .. } => (t, target_entity.0),
        })
        .collect()
}

fn update(target: u64, uuid: u128, data: Vec<u8>, sender: Actor, receiver: Actor) -> Message {
    Message {
        payload: Payload::ComponentUpdate { target_entity: NetworkEntity(target), network_type_uuid: uuid, data },
        sender,
        receiver,
    }
}

#[test]
fn duplicate_network_entity_is_refused() {
    let mut registry = NetworkEntityRegistry::new();
    assert_eq!(registry.insert(NetworkEntity(3), Entity(10)), Ok(()));
    assert_eq!(registry.insert(NetworkEntity(3), Entity(11)), Err(Error::DuplicateNetworkEntity));
    assert_eq!(registry.get(&NetworkEntity(3)), Some(Entity(10)));
    assert_eq!(registry.get(&NetworkEntity(4)), None);
}

#[test]
fn generator_stays_above_inserted_ids() {
    let mut registry = NetworkEntityRegistry::new();
    assert_eq!(registry.generate_network_entity(), Some(NetworkEntity(0)));
    assert_eq!(registry.insert(NetworkEntity(9), Entity(1)), Ok(()));
    assert_eq!(registry.generate_network_entity(), Some(NetworkEntity(10)));
    assert_eq!(registry.insert(NetworkEntity(4), Entity(2)), Ok(()));
    assert_eq!(registry.generate_network_entity(), Some(NetworkEntity(11)));
}

#[test]
fn generator_runs_out_at_the_largest_id() {
    let mut registry = NetworkEntityRegistry::new();
    assert_eq!(registry.insert(NetworkEntity(u64::MAX), Entity(1)), Ok(()));
    assert_eq!(registry.generate_network_entity(), None);
}

#[test]
fn detection_repairs_every_gap_once() {
    let mut manager = ConnectionManager::new(server_ty());
    let c1 = accept(&mut manager);
    let c2 = accept(&mut manager);
    let mut spawns = SpawnManager::new();
    spawns.register_spawn(NetworkEntity(1), NetworkTarget::All, spawn_payload(1));
    spawns.register_spawn(NetworkEntity(2), NetworkTarget::ActorId(ActorId(2)), spawn_payload(2));
    spawns.confirm_spawn(ConnectionId(0), NetworkEntity(1));
    spawns.confirm_spawn(c1, NetworkEntity(1));
    let mut handle = NetworkHandle::new();
    let repaired = spawn_detection_system(&manager, &mut spawns, &mut handle);
    assert_eq!(repaired.len(), 2);
    assert!(repaired.contains(&(c2, NetworkEntity(1))));
    assert!(repaired.contains(&(c2, NetworkEntity(2))));
    let mut sent = sends(&mut handle);
    sent.sort_by_key(|s| s.1);
    assert_eq!(sent, vec![(NetworkTarget::ActorId(ActorId(2)), 1), (NetworkTarget::ActorId(ActorId(2)), 2)]);
    let again = spawn_detection_system(&manager, &mut spawns, &mut handle);
    assert!(again.is_empty());
    assert!(sends(&mut handle).is_empty());
    assert!(spawns.get_not_spawned(c1).iter().any(|s| s.0 == NetworkEntity(2)));
}

#[test]
fn late_joiner_gets_existing_objects() {
    let mut manager = ConnectionManager::new(server_ty());
    let mut spawns = SpawnManager::new();
    let mut handle = NetworkHandle::new();
    spawns.register_spawn(NetworkEntity(5), NetworkTarget::ActorTy(client_ty()), spawn_payload(5));
    assert!(spawn_detection_system(&manager, &mut spawns, &mut handle).is_empty());
    let c = accept(&mut manager);
    let repaired = spawn_detection_system(&manager, &mut spawns, &mut handle);
    assert_eq!(repaired, vec![(c, NetworkEntity(5))]);
    assert!(spawns.get_not_spawned(c).is_empty());
}

#[test]
fn untracked_connection_has_nothing_pending() {
    let mut spawns = SpawnManager::new();
    spawns.register_spawn(NetworkEntity(1), NetworkTarget::All, spawn_payload(1));
    assert!(spawns.get_not_spawned(ConnectionId(4)).is_empty());
    spawns.confirm_spawn(ConnectionId(4), NetworkEntity(8));
    let pending = spawns.get_not_spawned(ConnectionId(4));
    assert_eq!(pending.len(), 1);
    assert_eq!(pending[0].0, NetworkEntity(1));
    assert_eq!(pending[0].1, NetworkTarget::All);
}

#[test]
fn queued_spawns_get_fresh_ids_and_current_audience() {
    let mut manager = ConnectionManager::new(server_ty());
    let c1 = accept(&mut manager);
    let mut registry = NetworkEntityRegistry::new();
    let mut spawns = SpawnManager::new();
    let mut handle = NetworkHandle::new();
    handle.spawn(NetworkTarget::All, vec![1, 2]);
    handle.spawn(NetworkTarget::ActorId(ActorId(0)), vec![3]);
    handle.convert_spawn_messages(&mut registry, &mut spawns, &manager);
    assert_eq!(sends(&mut handle), vec![(NetworkTarget::All, 0), (NetworkTarget::ActorId(ActorId(0)), 1)]);
    assert!(spawns.get_not_spawned(c1).iter().any(|s| s.0 == NetworkEntity(1)));
    assert!(!spawns.get_not_spawned(c1).iter().any(|s| s.0 == NetworkEntity(0)));
    assert!(spawns.get_not_spawned(ConnectionId(0)).is_empty());
    assert_eq!(registry.generate_network_entity(), Some(NetworkEntity(2)));
    assert!(spawn_detection_system(&manager, &mut spawns, &mut handle).is_empty());
}

#[test]
fn coordinator_spawn_reaches_late_participant() {
    let mut a = ConnectionManager::new(server_ty());
    let mut a_spawns = SpawnManager::new();
    let mut a_handle = NetworkHandle::new();
    a_spawns.register_spawn(NetworkEntity(7), NetworkTarget::All, spawn_payload(7));
    a_spawns.confirm_spawn(ConnectionId(0), NetworkEntity(7));

    let mut b = ConnectionManager::new(client_ty());
    let assigned = a.generate_actor_id().unwrap();
    let from_a = Handshake::Override { sender_actor_id: a.get_local_actor().id, receiver_actor_id: assigned };
    let b_on_a = match a.add_connection(client_ty(), &from_a, &Handshake::NoOverride) {
        Ok(ConnectionEvent::Connected { connection_id, .. }) => connection_id,
        other => panic!("expected a connection, got {:?}", other),
    };
    let a_on_b = match b.add_connection(server_ty(), &Handshake::NoOverride, &from_a) {
        Ok(ConnectionEvent::Connected { connection_id, .. }) => connection_id,
        other => panic!("expected a connection, got {:?}", other),
    };

    let repaired = spawn_detection_system(&a, &mut a_spawns, &mut a_handle);
    assert_eq!(repaired, vec![(b_on_a, NetworkEntity(7))]);
    let outbound = a.send(a_handle.clear_payloads());
    assert_eq!(outbound.len(), 1);
    assert_eq!(outbound[0].0, b_on_a);
    assert_eq!(outbound[0].1.len(), 1);

    let (_, batch) = outbound.into_iter().next().unwrap();
    let messages = b.receive(vec![(a_on_b, batch)]);
    let requests = spawn_system(&messages);
    assert_eq!(requests.len(), 1);
    assert_eq!(requests[0].network_entity, NetworkEntity(7));
    assert_eq!(requests[0].context, SpawnContext::new(b.get_local_actor(), Actor::new(ActorId(0), server_ty())));
    assert_eq!(requests[0].context.local_id(), ActorId(1));
    assert_eq!(requests[0].context.sender_ty(), server_ty());
    let mut b_registry = NetworkEntityRegistry::new();
    assert_eq!(b_registry.insert(requests[0].network_entity, Entity(100)), Ok(()));
    assert_eq!(b_registry.get(&NetworkEntity(7)), Some(Entity(100)));
    assert!(spawn_detection_system(&a, &mut a_spawns, &mut a_handle).is_empty());
}

fn tile_syncs(owner: NetworkTarget) -> (ComponentSyncs, NetworkEntityRegistry) {
    let mut registry = NetworkEntityRegistry::new();
    registry.insert(NetworkEntity(3), Entity(30)).unwrap();
    let mut syncs = ComponentSyncs::new(TRANSFORM);
    syncs.attach(SyncedComponent {
        entity: Entity(30),
        network_entity: NetworkEntity(3),
        sync: ComponentSync::new(owner),
        value: vec![1, 1],
    });
    (syncs, registry)
}

#[test]
fn update_from_a_non_owner_is_discarded() {
    let (mut syncs, registry) = tile_syncs(NetworkTarget::ActorTy(server_ty()));
    let local = Actor::new(ActorId(0), server_ty());
    let participant = Actor::new(ActorId(4), client_ty());
    let messages = vec![update(3, TRANSFORM, vec![9, 9, 9], participant, local)];
    let rejected = component_sync_receiving_system(&mut syncs, &registry, &messages);
    assert_eq!(syncs.value(Entity(30)), Some(vec![1, 1]));
    assert_eq!(
        rejected,
        vec![UpdateRejection::UnauthorizedSender { network_entity: NetworkEntity(3), sender: participant }]
    );
}

#[test]
fn update_from_an_owner_replaces_the_value() {
    let (mut syncs, registry) = tile_syncs(NetworkTarget::ActorTy(server_ty()));
    let local = Actor::new(ActorId(1), client_ty());
    let coordinator = Actor::new(ActorId(0), server_ty());
    let messages = vec![
        update(3, TRANSFORM, vec![5], coordinator, local),
        update(3, TRANSFORM, vec![6, 6], coordinator, local),
    ];
    let rejected = component_sync_receiving_system(&mut syncs, &registry, &messages);
    assert_eq!(syncs.value(Entity(30)), Some(vec![6, 6]));
    assert!(rejected.is_empty());
}

#[test]
fn update_for_another_type_or_unknown_object_is_ignored() {
    let (mut syncs, registry) = tile_syncs(NetworkTarget::All);
    let local = Actor::new(ActorId(1), client_ty());
    let peer = Actor::new(ActorId(0), server_ty());
    let messages = vec![update(3, TRANSFORM + 1, vec![7], peer, local), update(8, TRANSFORM, vec![8], peer, local)];
    let rejected = component_sync_receiving_system(&mut syncs, &registry, &messages);
    assert_eq!(syncs.value(Entity(30)), Some(vec![1, 1]));
    assert_eq!(syncs.value(Entity(31)), None);
    assert_eq!(rejected, vec![UpdateRejection::UnknownNetworkEntity(NetworkEntity(8))]);
}

#[test]
fn only_the_owner_sends_and_the_flag_clears() {
    let settings = NetworkSettings::server();
    let (mut syncs, _) = tile_syncs(NetworkTarget::ActorTy(server_ty()));
    let mut handle = NetworkHandle::new();
    let server = Actor::new(ActorId(0), server_ty());
    component_sync_sending_system(&mut syncs, &mut handle, server, &settings.sync_components_with);
    assert_eq!(sends(&mut handle), vec![(NetworkTarget::ActorTy(client_ty()), 3)]);
    component_sync_sending_system(&mut syncs, &mut handle, server, &settings.sync_components_with);
    assert!(sends(&mut handle).is_empty());

    let (mut other, _) = tile_syncs(NetworkTarget::ActorTy(server_ty()));
    let client = Actor::new(ActorId(1), client_ty());
    component_sync_sending_system(&mut other, &mut handle, client, &settings.sync_components_with);
    assert!(sends(&mut handle).is_empty());
    component_sync_sending_system(&mut other, &mut handle, server, &settings.sync_components_with);
    assert!(sends(&mut handle).is_empty());
}

#[test]
fn connecting_peer_forces_a_resend() {
    let settings = NetworkSettings::server();
    let (mut syncs, _) = tile_syncs(NetworkTarget::All);
    let mut handle = NetworkHandle::new();
    let server = Actor::new(ActorId(0), server_ty());
    component_sync_sending_system(&mut syncs, &mut handle, server, &settings.sync_components_with);
    assert_eq!(sends(&mut handle).len(), 1);
    component_sync_connect_system(&mut syncs, &Vec::new());
    component_sync_sending_system(&mut syncs, &mut handle, server, &settings.sync_components_with);
    assert!(sends(&mut handle).is_empty());
    let events = vec![ConnectionEvent::Connected { actor: Actor::new(ActorId(1), client_ty()), connection_id: ConnectionId(1) }];
    component_sync_connect_system(&mut syncs, &events);
    component_sync_sending_system(&mut syncs, &mut handle, server, &settings.sync_components_with);
    assert_eq!(sends(&mut handle).len(), 1);
}

#[test]
fn local_change_marks_for_sending() {
    let settings = NetworkSettings::client();
    let (mut syncs, _) = tile_syncs(NetworkTarget::All);
    let mut handle = NetworkHandle::new();
    let client = Actor::new(ActorId(1), client_ty());
    component_sync_sending_system(&mut syncs, &mut handle, client, &settings.sync_components_with);
    assert_eq!(sends(&mut handle), vec![(NetworkTarget::ActorTy(server_ty()), 3)]);
    component_sync_marking_system(&mut syncs, &vec![Entity(99)]);
    component_sync_sending_system(&mut syncs, &mut handle, client, &settings.sync_components_with);
    assert!(sends(&mut handle).is_empty());
    component_sync_marking_system(&mut syncs, &vec![Entity(30)]);
    component_sync_sending_system(&mut syncs, &mut handle, client, &settings.sync_components_with);
    assert_eq!(sends(&mut handle).len(), 1);
    syncs.set_local_value(Entity(30), &vec![4, 4]);
    component_sync_sending_system(&mut syncs, &mut handle, client, &settings.sync_components_with);
    match &handle.clear_payloads()[0].1 {
        Payload::ComponentUpdate { data, network_type_uuid, .. } => {
            assert_eq!(data, &vec![4u8, 4]);
            assert_eq!(*network_type_uuid, TRANSFORM);
        }
        Payload::Spawn { .. } => panic!("expected an update"),
    }
}

#[test]
fn component_sync_constructors() {
    assert_eq!(ComponentSync::id(ActorId(3)).ownership, NetworkTarget::ActorId(ActorId(3)));
    assert_eq!(ComponentSync::ty(server_ty()).ownership, NetworkTarget::ActorTy(server_ty()));
    assert_eq!(ComponentSync::all().ownership, NetworkTarget::All);
    let mut sync = ComponentSync::all();
    sync.should_sync = false;
    sync.sync();
    assert!(sync.should_sync);
}

#[test]
fn settings_by_role() {
    let server = NetworkSettings::server();
    assert_eq!(server.actor_ty, server_ty());
    assert_eq!(server.connection_ty, client_ty());
    let client = NetworkSettings::client();
    assert_eq!(client.actor_ty, client_ty());
    assert_eq!(client.sync_components_with, vec![NetworkTarget::ActorTy(server_ty())]);
}

#[test]
fn send_step_converts_spawns_and_routes_everything() {
    let mut manager = ConnectionManager::new(server_ty());
    let c1 = accept(&mut manager);
    let mut registry = NetworkEntityRegistry::new();
    let mut spawns = SpawnManager::new();
    let mut handle = NetworkHandle::new();
    handle.spawn(NetworkTarget::All, vec![1]);
    handle.sync_component(NetworkTarget::ActorId(ActorId(1)), NetworkEntity(9), TRANSFORM, vec![2]);
    let outbound = sending_system(&mut manager, &mut handle, &mut registry, &mut spawns);
    assert_eq!(outbound.len(), 1);
    assert_eq!(outbound[0].0, c1);
    assert_eq!(outbound[0].1.len(), 2);
    assert!(matches!(outbound[0].1[0], Payload::ComponentUpdate { .. }));
    assert!(matches!(outbound[0].1[1], Payload::Spawn { network_entity: NetworkEntity(0), .. }));
    assert!(handle.clear_payloads().is_empty());
    let local = manager.receive(Vec::new());
    assert_eq!(local.len(), 1);
    assert!(spawn_detection_system(&manager, &mut spawns, &mut handle).is_empty());
}
