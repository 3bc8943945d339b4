use vstd::prelude::*;
use crate::connection_manager::ConnectionManager;
use crate::ids::{Actor, ConnectionId, NetworkTarget};
use crate::network_entity::{NetworkEntity, NetworkEntityRegistry};
use crate::spawnable::{SpawnManager, delivered_to};

verus! {

/// One replicated fact.
#[derive(Clone, Debug)]
pub enum Payload {
    /// New value of one attribute of one replicated object.
    ComponentUpdate { target_entity: NetworkEntity, network_type_uuid: u128, data: Vec<u8> },
    /// Creation of one replicated object.
    Spawn { network_entity: NetworkEntity, data: Vec<u8> },
}

/// A payload with its bytes as a sequence.
pub enum PayloadView {
    ComponentUpdate { target_entity: NetworkEntity, network_type_uuid: u128, data: Seq<u8> },
    Spawn { network_entity: NetworkEntity, data: Seq<u8> },
}

impl View for Payload {
    type V = PayloadView;

    open spec fn view(&self) -> PayloadView {
        match self {
            Payload::ComponentUpdate { target_entity, network_type_uuid, data } => {
                PayloadView::ComponentUpdate {
                    target_entity: *target_entity,
                    network_type_uuid: *network_type_uuid,
                    data: data@,
                }
            },
            Payload::Spawn { network_entity, data } => PayloadView::Spawn {
                network_entity: *network_entity,
                data: data@,
            },
        }
    }
}

/// Copies `v`.
pub fn copy_bytes(v: &Vec<u8>) -> (r: Vec<u8>)
    ensures
        r@ == v@,
{
    let mut r: Vec<u8> = Vec::new();
    let mut i: usize = 0;
    while i < v.len()
        invariant
            i <= v.len(),
            r@ == v@.take(i as int),
        decreases v.len() - i,
    {
        r.push(v[i]);
        i = i + 1;
        assert(r@ =~= v@.take(i as int));
    }
    assert(v@.take(i as int) =~= v@);
    r
}

impl Payload {
    /// A copy of this payload.
    pub fn duplicate(&self) -> (r: Payload)
        ensures
            r@ == self@,
    {
        match self {
            Payload::ComponentUpdate { target_entity, network_type_uuid, data } => {
                Payload::ComponentUpdate {
                    target_entity: *target_entity,
                    network_type_uuid: *network_type_uuid,
                    data: copy_bytes(data),
                }
            },
            Payload::Spawn { network_entity, data } => Payload::Spawn {
                network_entity: *network_entity,
                data: copy_bytes(data),
            },
        }
    }
}

/// A payload with its provenance, made on receipt.
#[derive(Clone, Debug)]
pub struct Message {
    pub payload: Payload,
    pub sender: Actor,
    pub receiver: Actor,
}

/// A message with its payload's bytes as a sequence.
pub struct MessageView {
    pub payload: PayloadView,
    pub sender: Actor,
    pub receiver: Actor,
}

impl View for Message {
    type V = MessageView;

    open spec fn view(&self) -> MessageView {
        MessageView { payload: self.payload@, sender: self.sender, receiver: self.receiver }
    }
}

/// The views of `s`, in order.
pub open spec fn payload_views(s: Seq<Payload>) -> Seq<PayloadView> {
    s.map_values(|p: Payload| p@)
}

/// The views of `s`, in order.
pub open spec fn message_views(s: Seq<Message>) -> Seq<MessageView> {
    s.map_values(|m: Message| m@)
}

/// The views of `s`, in order, each with its target.
pub open spec fn targeted_views(s: Seq<(NetworkTarget, Payload)>) -> Seq<(NetworkTarget, PayloadView)> {
    s.map_values(|e: (NetworkTarget, Payload)| (e.0, e.1@))
}

/// Once the generator has handed out `cur`, it stands just above it.
spec fn reg_next_after(next: Option<u64>, cur: u64) -> bool {
    cur < u64::MAX ==> next == Some((cur + 1) as u64)
}

/// The payloads that `queue` becomes when its objects get the ids from `first` on, in order.
pub open spec fn spawned_payloads(queue: Seq<(NetworkTarget, Seq<u8>)>, first: u64) -> Seq<(NetworkTarget, PayloadView)> {
    Seq::new(
        queue.len(),
        |k: int|
            (
                queue[k].0,
                PayloadView::Spawn { network_entity: NetworkEntity((first + k) as u64), data: queue[k].1 },
            ),
    )
}

/// `spawnables` with the objects of `queue` registered under the ids from `first` on.
pub open spec fn registered(
    spawnables: Map<NetworkEntity, (NetworkTarget, PayloadView)>,
    queue: Seq<(NetworkTarget, Seq<u8>)>,
    first: u64,
) -> Map<NetworkEntity, (NetworkTarget, PayloadView)>
    decreases queue.len(),
{
    if queue.len() == 0 {
        spawnables
    } else {
        let k = queue.len() - 1;
        registered(spawnables, queue.drop_last(), first).insert(
            NetworkEntity((first + k) as u64),
            spawned_payloads(queue, first)[k],
        )
    }
}

/// `delivered` with each object of `queue` recorded for every connection of `actors` in its audience.
pub open spec fn confirmed(
    delivered: Map<ConnectionId, Set<NetworkEntity>>,
    queue: Seq<(NetworkTarget, Seq<u8>)>,
    first: u64,
    actors: Map<ConnectionId, Actor>,
) -> Map<ConnectionId, Set<NetworkEntity>>
    decreases queue.len(),
{
    if queue.len() == 0 {
        delivered
    } else {
        let prev = confirmed(delivered, queue.drop_last(), first, actors);
        let e = NetworkEntity((first + queue.len() - 1) as u64);
        let t = queue.last().0;
        Map::new(
            |c: ConnectionId| prev.contains_key(c) || (actors.contains_key(c) && actors[c].spec_targeted_by(t)),
            |c: ConnectionId|
                if actors.contains_key(c) && actors[c].spec_targeted_by(t) {
                    delivered_to(prev, c).insert(e)
                } else {
                    prev[c]
                },
        )
    }
}

/// The outbound side for the systems of one tick: targeted payloads waiting for the send step,
/// and descriptors of new replicated objects waiting for an id.
pub struct NetworkHandle {
    payloads: Vec<(NetworkTarget, Payload)>,
    spawn_messages: Vec<(NetworkTarget, Vec<u8>)>,
}

/// The descriptors of `s` as sequences, each with its audience.
pub open spec fn spawn_views(s: Seq<(NetworkTarget, Vec<u8>)>) -> Seq<(NetworkTarget, Seq<u8>)> {
    s.map_values(|e: (NetworkTarget, Vec<u8>)| (e.0, e.1@))
}

impl NetworkHandle {
    /// Targeted payloads queued for the send step, in order.
    pub closed spec fn outbox(&self) -> Seq<(NetworkTarget, PayloadView)> {
        targeted_views(self.payloads@)
    }

    /// Descriptors of new replicated objects with their audience, in order.
    pub closed spec fn spawn_queue(&self) -> Seq<(NetworkTarget, Seq<u8>)> {
        spawn_views(self.spawn_messages@)
    }

    pub fn new() -> (r: NetworkHandle)
        ensures
            r.outbox() == Seq::<(NetworkTarget, PayloadView)>::empty(),
            r.spawn_queue() == Seq::<(NetworkTarget, Seq<u8>)>::empty(),
    {
        let r = NetworkHandle { payloads: Vec::new(), spawn_messages: Vec::new() };
        assert(r.outbox() =~= Seq::<(NetworkTarget, PayloadView)>::empty());
        assert(r.spawn_queue() =~= Seq::<(NetworkTarget, Seq<u8>)>::empty());
        r
    }

    /// Queues a new replicated object for `target`; `data` is its encoded descriptor. It gets
    /// its network id in the send step.
    pub fn spawn(&mut self, target: NetworkTarget, data: Vec<u8>)
        ensures
            final(self).spawn_queue() == old(self).spawn_queue().push((target, data@)),
            final(self).outbox() == old(self).outbox(),
    {
        self.spawn_messages.push((target, data));
        assert(self.spawn_queue() =~= old(self).spawn_queue().push((target, data@)));
    }

    /// Queues the new value of one attribute of `target_entity` for `target`.
    pub fn sync_component(
        &mut self,
        target: NetworkTarget,
        target_entity: NetworkEntity,
        network_type_uuid: u128,
        data: Vec<u8>,
    )
        ensures
            final(self).outbox() == old(self).outbox().push(
                (target, PayloadView::ComponentUpdate { target_entity, network_type_uuid, data: data@ }),
            ),
            final(self).spawn_queue() == old(self).spawn_queue(),
    {
        self.add_payload(target, Payload::ComponentUpdate { target_entity, network_type_uuid, data });
    }

    /// Queues `payload` for `target`.
    pub fn add_payload(&mut self, target: NetworkTarget, payload: Payload)
        ensures
            final(self).outbox() == old(self).outbox().push((target, payload@)),
            final(self).spawn_queue() == old(self).spawn_queue(),
    {
        self.payloads.push((target, payload));
        assert(self.outbox() =~= old(self).outbox().push((target, payload@)));
    }

    /// Gives each queued new object the next network id, registers it with its audience and
    /// spawn payload, records it as delivered to every connection its audience selects now, and
    /// queues its spawn payload for that audience. All are converted when the registry has ids
    /// for all of them.
    pub fn convert_spawn_messages(
        &mut self,
        network_entity_registry: &mut NetworkEntityRegistry,
        spawn_manager: &mut SpawnManager,
        connection_manager: &ConnectionManager,
    )
        requires
            old(network_entity_registry).wf(),
            old(spawn_manager).wf(),
            connection_manager.wf(),
        ensures
            final(network_entity_registry).wf(),
            final(spawn_manager).wf(),
            final(network_entity_registry)@ == old(network_entity_registry)@,
            ({
                let q = old(self).spawn_queue();
                let n = match old(network_entity_registry).spec_next() {
                    Some(n) => n,
                    None => 0,
                };
                ((old(network_entity_registry).spec_next() is Some) && (n + q.len() <= u64::MAX)) ==> {
                &&& final(self).spawn_queue() == Seq::<(NetworkTarget, Seq<u8>)>::empty()
                &&& final(network_entity_registry).spec_next() == Some((n + q.len()) as u64)
                &&& final(self).outbox() == old(self).outbox() + spawned_payloads(q, n)
                &&& final(spawn_manager).spawnables() == registered(old(spawn_manager).spawnables(), q, n)
                &&& final(spawn_manager).delivered() == confirmed(old(spawn_manager).delivered(), q, n, connection_manager@)
                }
            }),
    {
        let ghost q = old(self).spawn_queue();
        let ghost first = old(network_entity_registry).spec_next();
        let ghost n = match first {
            Some(n) => n,
            None => 0,
        };
        let ghost fits = (first is Some) && (n + q.len() <= u64::MAX);
        let mut queue: Vec<(NetworkTarget, Vec<u8>)> = Vec::new();
        std::mem::swap(&mut self.spawn_messages, &mut queue);
        proof {
            assert(spawn_views(queue@) == q);
            assert(self.spawn_queue() =~= Seq::<(NetworkTarget, Seq<u8>)>::empty());
            assert(q.take(0) =~= Seq::<(NetworkTarget, Seq<u8>)>::empty());
            if first is Some {
                assert(spawned_payloads(q.take(0), n) =~= Seq::<(NetworkTarget, PayloadView)>::empty());
                assert(old(self).outbox() + spawned_payloads(q.take(0), n) =~= old(self).outbox());
            }
        }
        let mut k: usize = 0;
        while k < queue.len()
            invariant
                network_entity_registry.wf(),
                spawn_manager.wf(),
                connection_manager.wf(),
                network_entity_registry@ == old(network_entity_registry)@,
                k <= queue@.len(),
                spawn_views(queue@) == q,
                first == old(network_entity_registry).spec_next(),
                q == old(self).spawn_queue(),
                n == (match first {
                    Some(n) => n,
                    None => 0,
                }),
                fits == ((first is Some) && (n + q.len() <= u64::MAX)),
                fits ==> network_entity_registry.spec_next() == Some((n + k) as u64),
                fits ==> self.spawn_queue() == Seq::<(NetworkTarget, Seq<u8>)>::empty(),
                fits ==> self.outbox() == old(self).outbox() + spawned_payloads(q.take(k as int), n),
                fits ==> spawn_manager.spawnables() == registered(old(spawn_manager).spawnables(), q.take(k as int), n),
                fits ==> spawn_manager.delivered() == confirmed(old(spawn_manager).delivered(), q.take(k as int), n, connection_manager@),
            decreases queue.len() - k,
        {
            let network_entity = match network_entity_registry.generate_network_entity() {
                Some(e) => e,
                None => {
                    proof {
                        assert(!fits);
                    }
                    let mut j: usize = k;
                    while j < queue.len()
                        invariant
                            k <= j <= queue@.len(),
                            !fits,
                                    first == old(network_entity_registry).spec_next(),
                                    q == old(self).spawn_queue(),
                                    n == (match first {
                                        Some(n) => n,
                                        None => 0,
                                    }),
                                    fits == ((first is Some) && (n + q.len() <= u64::MAX)),
                            network_entity_registry.wf(),
                            spawn_manager.wf(),
                            network_entity_registry@ == old(network_entity_registry)@,
                        decreases queue.len() - j,
                    {
                        let data = copy_bytes(&queue[j].1);
                        self.spawn_messages.push((queue[j].0, data));
                        j = j + 1;
                    }
                    return;
                },
            };
            proof {
                assert(queue@.len() == q.len());
                if fits {
                    assert(n + k < u64::MAX);
                    assert(reg_next_after(network_entity_registry.spec_next(), (n + k) as u64));
                }
            }
            let ghost reg_next = network_entity_registry.spec_next();
            let ghost ob0 = self.outbox();
            let ghost sq0 = self.spawn_queue();
            let target = queue[k].0;
            let data = copy_bytes(&queue[k].1);
            let payload = Payload::Spawn { network_entity, data };
            let ghost sp0 = spawn_manager.spawnables();
            let ghost d0 = spawn_manager.delivered();
            spawn_manager.register_spawn(network_entity, target, payload.duplicate());
            let ids = connection_manager.get_targeted_connection_ids(&target);
            let mut j: usize = 0;
            while j < ids.len()
                invariant
                    spawn_manager.wf(),
                    spawn_manager.spawnables() == sp0.insert(network_entity, (target, payload@)),
                    j <= ids@.len(),
                    spawn_manager.delivered() == Map::new(
                        |c: ConnectionId| d0.contains_key(c) || ids@.take(j as int).contains(c),
                        |c: ConnectionId|
                            if ids@.take(j as int).contains(c) {
                                delivered_to(d0, c).insert(network_entity)
                            } else {
                                d0[c]
                            },
                    ),
                    ids@.no_duplicates(),
                    network_entity_registry.wf(),
                    network_entity_registry@ == old(network_entity_registry)@,
                    network_entity_registry.spec_next() == reg_next,
                    self.outbox() == ob0,
                    self.spawn_queue() == sq0,
                decreases ids.len() - j,
            {
                spawn_manager.confirm_spawn(ids[j], network_entity);
                proof {
                    let t0 = ids@.take(j as int);
                    let t1 = ids@.take(j + 1);
                    assert(t1 =~= t0.push(ids@[j as int]));
                    assert forall|c: ConnectionId| t1.contains(c) == (t0.contains(c) || c == ids@[j as int]) by {
                        if t1.contains(c) {
                            let x = choose|x: int| 0 <= x < t1.len() && t1[x] == c;
                            if x < j {
                                assert(t0[x] == c);
                            }
                        }
                        if t0.contains(c) {
                            let x = choose|x: int| 0 <= x < t0.len() && t0[x] == c;
                            assert(t1[x] == c);
                        }
                        if c == ids@[j as int] {
                            assert(t1[j as int] == c);
                        }
                    }
                    assert(!t0.contains(ids@[j as int])) by {
                        if t0.contains(ids@[j as int]) {
                            let x = choose|x: int| 0 <= x < t0.len() && t0[x] == ids@[j as int];
                            assert(ids@[x] == ids@[j as int]);
                        }
                    }
                    assert(spawn_manager.delivered() =~= Map::new(
                        |c: ConnectionId| d0.contains_key(c) || t1.contains(c),
                        |c: ConnectionId|
                            if t1.contains(c) {
                                delivered_to(d0, c).insert(network_entity)
                            } else {
                                d0[c]
                            },
                    ));
                }
                j = j + 1;
            }
            let ghost pv = payload@;
            self.add_payload(target, payload);
            proof {
                assert(ids@.take(j as int) =~= ids@);
                if fits {
                    let qk = q.take(k as int);
                    let qk1 = q.take(k + 1);
                    assert(qk1.drop_last() =~= qk);
                    assert(qk1.len() == k + 1);
                    assert(network_entity == NetworkEntity((n + k) as u64));
                    assert(q[k as int] == (target, data@));
                    assert(spawned_payloads(qk1, n) =~= spawned_payloads(qk, n).push((target, pv)));
                    assert(spawned_payloads(qk1, n)[k as int] == (target, pv));
                    assert(self.outbox() =~= old(self).outbox() + spawned_payloads(qk1, n));
                    assert(spawn_manager.spawnables() == registered(old(spawn_manager).spawnables(), qk1, n));
                    assert(qk1.last() == (target, data@));
                    let cm = connection_manager@;
                    assert forall|c: ConnectionId| ids@.contains(c) == (cm.contains_key(c) && cm[c].spec_targeted_by(target)) by {}
                    assert(NetworkEntity((n + qk1.len() - 1) as u64) == network_entity);
                    assert(confirmed(old(spawn_manager).delivered(), qk1, n, cm) == Map::new(
                        |c: ConnectionId| d0.contains_key(c) || (cm.contains_key(c) && cm[c].spec_targeted_by(target)),
                        |c: ConnectionId|
                            if cm.contains_key(c) && cm[c].spec_targeted_by(target) {
                                delivered_to(d0, c).insert(network_entity)
                            } else {
                                d0[c]
                            },
                    ));
                    assert(spawn_manager.delivered() =~= confirmed(old(spawn_manager).delivered(), qk1, n, connection_manager@));
                }
            }
            k = k + 1;
        }
        proof {
            assert(q.take(k as int) =~= q);
            assert(queue@.len() == q.len());
        }
    }

    /// Takes out every queued payload, in order.
    pub fn clear_payloads(&mut self) -> (r: Vec<(NetworkTarget, Payload)>)
        ensures
            targeted_views(r@) == old(self).outbox(),
            final(self).outbox() == Seq::<(NetworkTarget, PayloadView)>::empty(),
            final(self).spawn_queue() == old(self).spawn_queue(),
    {
        let mut r: Vec<(NetworkTarget, Payload)> = Vec::new();
        std::mem::swap(&mut self.payloads, &mut r);
        assert(self.outbox() =~= Seq::<(NetworkTarget, PayloadView)>::empty());
        r
    }
}

} // verus!
