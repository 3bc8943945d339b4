use network::connection_manager::{disconnect_handler_system, ConnectionEvent, ConnectionManager};
use network::error::Error;
use network::framing::encode_frames;
use network::handshake::Handshake;
use network::ids::{Actor, ActorId, ActorTy, Client, ConnectionId, NetworkTarget, Server, CLIENT_UUID, SERVER_UUID};
use network::message::Payload;
use network::network_entity::NetworkEntity;

fn server_ty() -> ActorTy {
    ActorTy(SERVER_UUID)
}

fn client_ty() -> ActorTy {
    ActorTy(CLIENT_UUID)
}

fn connected(event: Result<ConnectionEvent, Error>) -> (Actor, ConnectionId) {
    match event {
        Ok(ConnectionEvent::Connected { actor, connection_id }) => (actor, connection_id),
        other => panic!("expected a connection, got {:?}", other),
    }
}

fn spawn_payload(id: u64, data: Vec<u8>) -> Payload {
    Payload::Spawn { network_entity: NetworkEntity(id), data }
}

/// A coordinator with two participants connected, ids 1 and 2.
fn server_with_two_clients() -> ConnectionManager {
    let mut manager = ConnectionManager::new(server_ty());
    for _ in 0..2 {
        let local = manager.get_local_actor().id;
        let assigned = manager.generate_actor_id().unwrap();
        let sent = Handshake::Override { sender_actor_id: local, receiver_actor_id: assigned };
        connected(manager.add_connection(client_ty(), &sent, &Handshake::NoOverride));
    }
    manager
}

#[test]
fn role_tags_tell_roles_apart() {
    assert_eq!(ActorTy::new::<Server>(), server_ty());
    assert!(ActorTy::new::<Client>().is::<Client>());
    assert!(!ActorTy::new::<Client>().is::<Server>());
}

#[test]
fn actor_targeting() {
    let actor = Actor::new(ActorId(4), client_ty());
    assert!(actor.targeted_by(&NetworkTarget::All));
    assert!(actor.targeted_by(&NetworkTarget::ActorId(ActorId(4))));
    assert!(!actor.targeted_by(&NetworkTarget::ActorId(ActorId(5))));
    assert!(actor.targeted_by(&NetworkTarget::ActorTy(client_ty())));
    assert!(!actor.targeted_by(&NetworkTarget::ActorTy(server_ty())));
}

#[test]
fn new_manager_holds_only_the_local_peer() {
    let manager = ConnectionManager::new(server_ty());
    assert_eq!(manager.get_local_actor(), Actor::new(ActorId(0), server_ty()));
    assert_eq!(manager.connections(), vec![(ConnectionId(0), Actor::new(ActorId(0), server_ty()))]);
}

#[test]
fn handshake_when_the_acceptor_overrides() {
    let mut server = ConnectionManager::new(server_ty());
    let mut client = ConnectionManager::new(client_ty());
    let assigned = server.generate_actor_id().unwrap();
    let from_server = Handshake::Override {
        sender_actor_id: server.get_local_actor().id,
        receiver_actor_id: assigned,
    };
    let from_client = Handshake::NoOverride;
    let (client_seen_by_server, _) = connected(server.add_connection(client_ty(), &from_server, &from_client));
    let (server_seen_by_client, _) = connected(client.add_connection(server_ty(), &from_client, &from_server));
    assert_eq!(client_seen_by_server.id, ActorId(1));
    assert_eq!(client.get_local_actor().id, ActorId(1));
    assert_eq!(server_seen_by_client.id, server.get_local_actor().id);
    assert_eq!(client.get_local_actor().id, client_seen_by_server.id);
}

#[test]
fn handshake_when_the_dialer_overrides() {
    let mut acceptor = ConnectionManager::new(server_ty());
    let mut dialer = ConnectionManager::new(client_ty());
    let from_dialer = Handshake::Override { sender_actor_id: ActorId(0), receiver_actor_id: ActorId(7) };
    let from_acceptor = Handshake::NoOverride;
    let (dialer_seen, _) = connected(acceptor.add_connection(client_ty(), &from_acceptor, &from_dialer));
    let (acceptor_seen, _) = connected(dialer.add_connection(server_ty(), &from_dialer, &from_acceptor));
    assert_eq!(acceptor.get_local_actor().id, ActorId(7));
    assert_eq!(acceptor_seen.id, ActorId(7));
    assert_eq!(dialer_seen.id, ActorId(0));
    assert_eq!(dialer.get_local_actor().id, ActorId(0));
}

#[test]
fn handshake_without_overrides_mints_an_id() {
    let mut manager = ConnectionManager::new(server_ty());
    let (actor, connection_id) =
        connected(manager.add_connection(client_ty(), &Handshake::NoOverride, &Handshake::NoOverride));
    assert_eq!(actor.id, ActorId(1));
    assert_eq!(connection_id, ConnectionId(1));
    assert_eq!(manager.generate_actor_id(), Some(ActorId(2)));
}

#[test]
fn handshake_refused_when_ids_collide() {
    let mut manager = server_with_two_clients();
    let sent = Handshake::Override { sender_actor_id: ActorId(0), receiver_actor_id: ActorId(2) };
    let before = manager.connections();
    let result = manager.add_connection(client_ty(), &sent, &Handshake::NoOverride);
    assert!(matches!(result, Err(Error::DuplicateActor)));
    assert_eq!(manager.connections(), before);
    let own = Handshake::Override { sender_actor_id: ActorId(0), receiver_actor_id: ActorId(0) };
    let result = manager.add_connection(client_ty(), &own, &Handshake::NoOverride);
    assert!(matches!(result, Err(Error::DuplicateActor)));
}

#[test]
fn targeting_all_selects_every_connection() {
    let manager = server_with_two_clients();
    let ids = manager.get_targeted_connection_ids(&NetworkTarget::All);
    assert_eq!(ids, vec![ConnectionId(0), ConnectionId(1), ConnectionId(2)]);
    let actors = manager.get_targeted_actor_ids(&NetworkTarget::All);
    assert_eq!(actors, vec![ActorId(0), ActorId(1), ActorId(2)]);
}

#[test]
fn targeting_one_actor_selects_one_or_none() {
    let manager = server_with_two_clients();
    assert_eq!(manager.get_targeted_connection_ids(&NetworkTarget::ActorId(ActorId(2))), vec![ConnectionId(2)]);
    assert!(manager.get_targeted_connection_ids(&NetworkTarget::ActorId(ActorId(9))).is_empty());
    assert_eq!(manager.get_targeted_actor_ids(&NetworkTarget::ActorId(ActorId(1))), vec![ActorId(1)]);
}

#[test]
fn targeting_a_role_selects_its_peers() {
    let manager = server_with_two_clients();
    assert_eq!(
        manager.get_targeted_connection_ids(&NetworkTarget::ActorTy(client_ty())),
        vec![ConnectionId(1), ConnectionId(2)]
    );
    assert_eq!(manager.get_targeted_connection_ids(&NetworkTarget::ActorTy(server_ty())), vec![ConnectionId(0)]);
    assert!(manager.get_targeted_connection_ids(&NetworkTarget::ActorTy(ActorTy(5))).is_empty());
}

#[test]
fn send_groups_payloads_per_connection() {
    let mut manager = server_with_two_clients();
    let outbound = manager.send(vec![
        (NetworkTarget::All, spawn_payload(1, vec![1])),
        (NetworkTarget::ActorId(ActorId(2)), spawn_payload(2, vec![2])),
        (NetworkTarget::ActorTy(client_ty()), spawn_payload(3, vec![3])),
        (NetworkTarget::ActorId(ActorId(0)), spawn_payload(4, vec![4])),
    ]);
    assert_eq!(outbound.len(), 2);
    let (c1, batch1) = &outbound[0];
    let (c2, batch2) = &outbound[1];
    assert_eq!(*c1, ConnectionId(1));
    assert_eq!(*c2, ConnectionId(2));
    let ids = |batch: &Vec<Payload>| -> Vec<u64> {
        batch
            .iter()
            .map(|p| match p {
                Payload::Spawn { network_entity, .. } => network_entity.0,
                Payload::ComponentUpdate { .. } => u64::MAX,
            })
            .collect()
    };
    assert_eq!(ids(batch1), vec![1, 3]);
    assert_eq!(ids(batch2), vec![1, 2, 3]);
    let messages = manager.receive(Vec::new());
    let local: Vec<u64> = messages
        .iter()
        .map(|m| match &m.payload {
            Payload::Spawn { network_entity, .. } => network_entity.0,
            Payload::ComponentUpdate { .. } => u64::MAX,
        })
        .collect();
    assert_eq!(local, vec![1, 4]);
    assert!(messages.iter().all(|m| m.sender.id == ActorId(0) && m.receiver.id == ActorId(0)));
    assert!(manager.receive(Vec::new()).is_empty());
}

#[test]
fn send_with_no_audience_sends_nothing() {
    let mut manager = server_with_two_clients();
    let outbound = manager.send(vec![(NetworkTarget::ActorId(ActorId(9)), spawn_payload(1, vec![]))]);
    assert!(outbound.is_empty());
    assert!(manager.receive(Vec::new()).is_empty());
}

#[test]
fn receive_stamps_sender_and_receiver() {
    let mut manager = server_with_two_clients();
    let messages = manager.receive(vec![
        (ConnectionId(2), vec![spawn_payload(5, vec![5])]),
        (ConnectionId(8), vec![spawn_payload(6, vec![6])]),
    ]);
    assert_eq!(messages.len(), 1);
    assert_eq!(messages[0].sender, Actor::new(ActorId(2), client_ty()));
    assert_eq!(messages[0].receiver, Actor::new(ActorId(0), server_ty()));
}

#[test]
fn receive_bytes_returns_whole_frames_only() {
    let mut manager = server_with_two_clients();
    let bytes = encode_frames(&vec![vec![1u8, 2], vec![3u8]]);
    let first = manager.receive_bytes(ConnectionId(1), &bytes[..12]).unwrap();
    assert_eq!(first, vec![vec![1u8, 2]]);
    let second = manager.receive_bytes(ConnectionId(1), &bytes[12..]).unwrap();
    assert_eq!(second, vec![vec![3u8]]);
    assert!(manager.receive_bytes(ConnectionId(0), &bytes).is_none());
    assert!(manager.receive_bytes(ConnectionId(9), &bytes).is_none());
}

#[test]
fn failure_event_names_the_peer() {
    let manager = server_with_two_clients();
    match manager.failure_event(ConnectionId(1), Error::Io(String::from("reset"))) {
        Some(ConnectionEvent::Disconnected { actor, connection_id, cause }) => {
            assert_eq!(actor.id, ActorId(1));
            assert_eq!(connection_id, ConnectionId(1));
            assert_eq!(cause, Error::Io(String::from("reset")));
        }
        other => panic!("expected a disconnection, got {:?}", other),
    }
    assert!(manager.failure_event(ConnectionId(7), Error::Cbor(String::from("bad"))).is_none());
}

#[test]
fn remove_deletes_a_remote_peer_but_never_the_local_one() {
    let mut manager = server_with_two_clients();
    manager.remove(ActorId(1));
    assert_eq!(manager.get_actor(ConnectionId(1)), None);
    assert_eq!(manager.get_connection_id(&ActorId(1)), None);
    assert_eq!(manager.get_connection_id(&ActorId(2)), Some(ConnectionId(2)));
    manager.remove(ActorId(0));
    assert_eq!(manager.get_actor(ConnectionId(0)), Some(Actor::new(ActorId(0), server_ty())));
}

#[test]
fn disconnect_handler_removes_reported_peers() {
    let mut manager = server_with_two_clients();
    let events = vec![
        ConnectionEvent::Connected { actor: Actor::new(ActorId(1), client_ty()), connection_id: ConnectionId(1) },
        ConnectionEvent::Disconnected {
            actor: Actor::new(ActorId(2), client_ty()),
            connection_id: ConnectionId(2),
            cause: Error::Io(String::from("closed")),
        },
    ];
    disconnect_handler_system(&mut manager, &events);
    assert_eq!(
        manager.connections(),
        vec![(ConnectionId(0), Actor::new(ActorId(0), server_ty())), (ConnectionId(1), Actor::new(ActorId(1), client_ty()))]
    );
}

#[test]
fn local_id_rewrite_refuses_a_taken_id() {
    let mut manager = server_with_two_clients();
    assert_eq!(manager.set_local_actor_id(ActorId(2)), Err(Error::DuplicateActor));
    assert_eq!(manager.get_local_actor().id, ActorId(0));
    assert_eq!(manager.set_local_actor_id(ActorId(40)), Ok(()));
    assert_eq!(manager.get_connection_id(&ActorId(40)), Some(ConnectionId(0)));
    assert_eq!(manager.get_connection_id(&ActorId(0)), None);
}

#[test]
fn connection_ids_are_never_reused() {
    let mut manager = server_with_two_clients();
    manager.remove(ActorId(2));
    let (_, id) = connected(manager.add_connection(client_ty(), &Handshake::NoOverride, &Handshake::NoOverride));
    assert_eq!(id, ConnectionId(3));
}

#[test]
fn refused_handshake_still_uses_up_the_minted_id() {
    let mut manager = ConnectionManager::new(server_ty());
    assert_eq!(manager.set_local_actor_id(ActorId(1)), Ok(()));
    let result = manager.add_connection(client_ty(), &Handshake::NoOverride, &Handshake::NoOverride);
    assert!(matches!(result, Err(Error::DuplicateActor)));
    assert_eq!(manager.generate_actor_id(), Some(ActorId(2)));
    let (actor, id) = connected(manager.add_connection(client_ty(), &Handshake::NoOverride, &Handshake::NoOverride));
    assert_eq!(actor.id, ActorId(3));
    assert_eq!(id, ConnectionId(1));
}
