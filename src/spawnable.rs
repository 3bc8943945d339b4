use vstd::prelude::*;
use crate::connection_manager::ConnectionManager;
use crate::ids::{Actor, ActorId, ActorTy, ConnectionId, NetworkTarget};
use crate::message::{Message, MessageView, NetworkHandle, Payload, PayloadView, message_views};
use crate::network_entity::NetworkEntity;
use crate::table::{keys_unique, has_key, map_of, lemma_map_of_contains, lemma_map_of_index, lemma_map_of_push, lemma_map_of_update};

verus! {

/// The objects a connection is recorded to have received: none when it is not tracked yet.
pub open spec fn delivered_to(
    delivered: Map<ConnectionId, Set<NetworkEntity>>,
    c: ConnectionId,
) -> Set<NetworkEntity> {
    if delivered.contains_key(c) {
        delivered[c]
    } else {
        Set::empty()
    }
}

/// The registered objects whose audience includes `actor`.
pub open spec fn audience(
    spawnables: Map<NetworkEntity, (NetworkTarget, PayloadView)>,
    actor: Actor,
) -> Set<NetworkEntity> {
    Set::new(|e: NetworkEntity| spawnables.contains_key(e) && actor.spec_targeted_by(spawnables[e].0))
}

/// The (connection, object) pairs where the object's audience includes the connection's peer
/// and the connection is not recorded to have it.
pub open spec fn deficit(
    spawnables: Map<NetworkEntity, (NetworkTarget, PayloadView)>,
    actors: Map<ConnectionId, Actor>,
    delivered: Map<ConnectionId, Set<NetworkEntity>>,
) -> Set<(ConnectionId, NetworkEntity)> {
    Set::new(
        |p: (ConnectionId, NetworkEntity)|
            actors.contains_key(p.0) && audience(spawnables, actors[p.0]).contains(p.1)
                && !delivered_to(delivered, p.0).contains(p.1),
    )
}

/// The delivered sets after one detection step: every connection is tracked and has every
/// object of its audience.
pub open spec fn after_detection(
    spawnables: Map<NetworkEntity, (NetworkTarget, PayloadView)>,
    actors: Map<ConnectionId, Actor>,
    delivered: Map<ConnectionId, Set<NetworkEntity>>,
) -> Map<ConnectionId, Set<NetworkEntity>> {
    Map::new(
        |c: ConnectionId| delivered.contains_key(c) || actors.contains_key(c),
        |c: ConnectionId|
            if actors.contains_key(c) {
                delivered_to(delivered, c).union(audience(spawnables, actors[c]))
            } else {
                delivered[c]
            },
    )
}

/// Spawn convergence: after one detection step no (object, connection) pair of any audience is
/// left without delivery, a second step with nothing changed repairs nothing and changes nothing,
/// and no pair repaired was delivered before.
pub proof fn lemma_detection_converges(
    spawnables: Map<NetworkEntity, (NetworkTarget, PayloadView)>,
    actors: Map<ConnectionId, Actor>,
    delivered: Map<ConnectionId, Set<NetworkEntity>>,
)
    ensures
        deficit(spawnables, actors, after_detection(spawnables, actors, delivered)) == Set::<
            (ConnectionId, NetworkEntity),
        >::empty(),
        after_detection(spawnables, actors, after_detection(spawnables, actors, delivered))
            == after_detection(spawnables, actors, delivered),
        forall|c: ConnectionId, e: NetworkEntity|
            #[trigger] actors.contains_key(c) && #[trigger] audience(spawnables, actors[c]).contains(e)
                ==> delivered_to(after_detection(spawnables, actors, delivered), c).contains(e),
        forall|p: (ConnectionId, NetworkEntity)|
            #[trigger] deficit(spawnables, actors, delivered).contains(p) ==> !delivered_to(delivered, p.0).contains(p.1),
{
    let once = after_detection(spawnables, actors, delivered);
    assert(deficit(spawnables, actors, once) =~= Set::<(ConnectionId, NetworkEntity)>::empty());
    let twice = after_detection(spawnables, actors, once);
    assert forall|c: ConnectionId| #[trigger] twice.contains_key(c) implies twice[c] == once[c] by {
        if actors.contains_key(c) {
            assert(twice[c] =~= once[c]);
        }
    }
    assert(twice =~= once);
}

/// The sends a detection step makes for the repaired pairs `repaired`, in order: each object's
/// spawn payload, addressed to the one peer that lacks it.
pub open spec fn repair_sends(
    repaired: Seq<(ConnectionId, NetworkEntity)>,
    spawnables: Map<NetworkEntity, (NetworkTarget, PayloadView)>,
    actors: Map<ConnectionId, Actor>,
) -> Seq<(NetworkTarget, PayloadView)> {
    repaired.map_values(
        |p: (ConnectionId, NetworkEntity)| (NetworkTarget::ActorId(actors[p.0].id), spawnables[p.1].1),
    )
}

spec fn spawnable_entries(s: Seq<(NetworkEntity, (NetworkTarget, Payload))>) -> Seq<
    (NetworkEntity, (NetworkTarget, PayloadView)),
> {
    s.map_values(|e: (NetworkEntity, (NetworkTarget, Payload))| (e.0, (e.1.0, e.1.1@)))
}

/// The objects `v` holds.
pub open spec fn set_of(v: Seq<NetworkEntity>) -> Set<NetworkEntity> {
    Set::new(|e: NetworkEntity| v.contains(e))
}

spec fn delivered_entries(s: Seq<(ConnectionId, Vec<NetworkEntity>)>) -> Seq<(ConnectionId, Set<NetworkEntity>)> {
    s.map_values(|e: (ConnectionId, Vec<NetworkEntity>)| (e.0, set_of(e.1@)))
}

spec fn found_before(
    sp: Seq<(NetworkEntity, (NetworkTarget, PayloadView))>,
    j: int,
    item: (NetworkEntity, NetworkTarget, Payload),
) -> bool {
    exists|m: int| 0 <= m < j && #[trigger] sp[m].0 == item.0 && sp[m].1 == (item.1, item.2@)
}

spec fn repaired_before(
    sp: Seq<(NetworkEntity, (NetworkTarget, PayloadView))>,
    j: int,
    actor: Actor,
    item: (NetworkEntity, Payload),
) -> bool {
    exists|m: int|
        0 <= m < j && #[trigger] sp[m].0 == item.0 && actor.spec_targeted_by(sp[m].1.0) && sp[m].1.1
            == item.1@
}

spec fn targeted_before(
    sp: Seq<(NetworkEntity, (NetworkTarget, PayloadView))>,
    j: int,
    actor: Actor,
) -> Set<NetworkEntity> {
    Set::new(|e: NetworkEntity| exists|m: int| 0 <= m < j && #[trigger] sp[m].0 == e && actor.spec_targeted_by(sp[m].1.0))
}

/// Whether `v` holds `e`.
pub fn contains_entity(v: &Vec<NetworkEntity>, e: NetworkEntity) -> (r: bool)
    ensures
        r == v@.contains(e),
{
    let mut i: usize = 0;
    while i < v.len()
        invariant
            i <= v@.len(),
            forall|j: int| 0 <= j < i ==> v@[j] != e,
        decreases v.len() - i,
    {
        if v[i] == e {
            return true;
        }
        i = i + 1;
    }
    false
}

/// Tracks each replicated object with its audience and spawn payload, and for each connection
/// the objects it has received.
pub struct SpawnManager {
    spawnables: Vec<(NetworkEntity, (NetworkTarget, Payload))>,
    connections: Vec<(ConnectionId, Vec<NetworkEntity>)>,
}

impl SpawnManager {
    /// Each registered object's audience and spawn payload.
    pub closed spec fn spawnables(&self) -> Map<NetworkEntity, (NetworkTarget, PayloadView)> {
        map_of(spawnable_entries(self.spawnables@))
    }

    /// The objects each tracked connection has received.
    pub closed spec fn delivered(&self) -> Map<ConnectionId, Set<NetworkEntity>> {
        map_of(delivered_entries(self.connections@))
    }

    pub closed spec fn wf(&self) -> bool {
        &&& keys_unique(spawnable_entries(self.spawnables@))
        &&& keys_unique(delivered_entries(self.connections@))
    }

    pub fn new() -> (r: SpawnManager)
        ensures
            r.wf(),
            r.spawnables() == Map::<NetworkEntity, (NetworkTarget, PayloadView)>::empty(),
            r.delivered() == Map::<ConnectionId, Set<NetworkEntity>>::empty(),
    {
        let r = SpawnManager { spawnables: Vec::new(), connections: Vec::new() };
        assert(spawnable_entries(r.spawnables@) =~= Seq::empty());
        assert(delivered_entries(r.connections@) =~= Seq::empty());
        r
    }

    fn spawnable_index(&self, network_entity: NetworkEntity) -> (r: Option<usize>)
        requires
            self.wf(),
        ensures
            r matches Some(i) ==> i < self.spawnables@.len() && self.spawnables@[i as int].0 == network_entity,
            r is None ==> !self.spawnables().contains_key(network_entity),
    {
        let mut i: usize = 0;
        while i < self.spawnables.len()
            invariant
                i <= self.spawnables@.len(),
                forall|j: int| 0 <= j < i ==> #[trigger] self.spawnables@[j].0 != network_entity,
            decreases self.spawnables.len() - i,
        {
            if self.spawnables[i].0 == network_entity {
                return Some(i);
            }
            i = i + 1;
        }
        proof {
            let e = spawnable_entries(self.spawnables@);
            lemma_map_of_contains(e, network_entity);
            if has_key(e, network_entity) {
                let j = choose|j: int| 0 <= j < e.len() && #[trigger] e[j].0 == network_entity;
                assert(self.spawnables@[j].0 == network_entity);
            }
        }
        None
    }

    fn connection_index(&self, connection_id: ConnectionId) -> (r: Option<usize>)
        requires
            self.wf(),
        ensures
            r matches Some(i) ==> i < self.connections@.len() && self.connections@[i as int].0 == connection_id,
            r is None ==> !self.delivered().contains_key(connection_id),
    {
        let mut i: usize = 0;
        while i < self.connections.len()
            invariant
                i <= self.connections@.len(),
                forall|j: int| 0 <= j < i ==> #[trigger] self.connections@[j].0 != connection_id,
            decreases self.connections.len() - i,
        {
            if self.connections[i].0 == connection_id {
                return Some(i);
            }
            i = i + 1;
        }
        proof {
            let e = delivered_entries(self.connections@);
            lemma_map_of_contains(e, connection_id);
            if has_key(e, connection_id) {
                let j = choose|j: int| 0 <= j < e.len() && #[trigger] e[j].0 == connection_id;
                assert(self.connections@[j].0 == connection_id);
            }
        }
        None
    }

    /// Records a replicated object with its audience and spawn payload; sends nothing.
    pub fn register_spawn(&mut self, network_entity: NetworkEntity, target: NetworkTarget, payload: Payload)
        requires
            old(self).wf(),
        ensures
            final(self).wf(),
            final(self).spawnables() == old(self).spawnables().insert(network_entity, (target, payload@)),
            final(self).delivered() == old(self).delivered(),
    {
        let ghost s0 = self.spawnables@;
        let ghost v = (target, payload@);
        match self.spawnable_index(network_entity) {
            Some(i) => {
                self.spawnables.set(i, (network_entity, (target, payload)));
                proof {
                    assert(spawnable_entries(self.spawnables@) =~= spawnable_entries(s0).update(
                        i as int,
                        (spawnable_entries(s0)[i as int].0, v),
                    ));
                    lemma_map_of_update(spawnable_entries(s0), i as int, v);
                }
            },
            None => {
                proof {
                    lemma_map_of_contains(spawnable_entries(s0), network_entity);
                    lemma_map_of_push(spawnable_entries(s0), network_entity, v);
                }
                self.spawnables.push((network_entity, (target, payload)));
                proof {
                    assert(spawnable_entries(self.spawnables@) =~= spawnable_entries(s0).push((network_entity, v)));
                }
            },
        }
    }

    /// Records that `connection_id` has `network_entity`; tracks the connection if it was not.
    pub fn confirm_spawn(&mut self, connection_id: ConnectionId, network_entity: NetworkEntity)
        requires
            old(self).wf(),
        ensures
            final(self).wf(),
            final(self).spawnables() == old(self).spawnables(),
            final(self).delivered() == old(self).delivered().insert(
                connection_id,
                delivered_to(old(self).delivered(), connection_id).insert(network_entity),
            ),
    {
        let ghost s0 = self.connections@;
        match self.connection_index(connection_id) {
            Some(i) => {
                proof {
                    lemma_map_of_index(delivered_entries(s0), i as int);
                }
                let ghost old_set = set_of(s0[i as int].1@);
                let present = contains_entity(&self.connections[i].1, network_entity);
                if !present {
                    self.connections[i].1.push(network_entity);
                }
                proof {
                    let old_v = s0[i as int].1@;
                    let new_v = self.connections@[i as int].1@;
                    let new_set = set_of(new_v);
                    if !present {
                        assert(new_v == old_v.push(network_entity));
                        assert forall|x: NetworkEntity| new_set.contains(x) == old_set.insert(network_entity).contains(x) by {
                            if old_v.contains(x) {
                                let k = choose|k: int| 0 <= k < old_v.len() && old_v[k] == x;
                                assert(new_v[k] == x);
                            }
                            if new_v.contains(x) {
                                let k = choose|k: int| 0 <= k < new_v.len() && new_v[k] == x;
                                if k < old_v.len() {
                                    assert(old_v[k] == x);
                                }
                            }
                            if x == network_entity {
                                assert(new_v[old_v.len() as int] == x);
                            }
                        }
                    } else {
                        assert(old_set.contains(network_entity));
                    }
                    assert(new_set =~= old_set.insert(network_entity));
                    assert(delivered_entries(self.connections@) =~= delivered_entries(s0).update(
                        i as int,
                        (connection_id, new_set),
                    ));
                    lemma_map_of_update(delivered_entries(s0), i as int, new_set);
                }
            },
            None => {
                let mut v: Vec<NetworkEntity> = Vec::new();
                v.push(network_entity);
                proof {
                    lemma_map_of_contains(delivered_entries(s0), connection_id);
                    lemma_map_of_push(delivered_entries(s0), connection_id, set_of(v@));
                    assert(set_of(v@) =~= Set::<NetworkEntity>::empty().insert(network_entity)) by {
                        assert(v@[0] == network_entity);
                    }
                }
                self.connections.push((connection_id, v));
                proof {
                    assert(delivered_entries(self.connections@) =~= delivered_entries(s0).push(
                        (connection_id, set_of(v@)),
                    ));
                }
            },
        }
    }

    /// The registered objects that a tracked connection has not received, each with its
    /// audience and spawn payload; nothing for a connection that is not tracked.
    pub fn get_not_spawned(&self, connection_id: ConnectionId) -> (r: Vec<(NetworkEntity, NetworkTarget, Payload)>)
        requires
            self.wf(),
        ensures
            !self.delivered().contains_key(connection_id) ==> r@.len() == 0,
            forall|k1: int, k2: int| 0 <= k1 < r@.len() && 0 <= k2 < r@.len() && k1 != k2 ==> #[trigger] r@[k1].0 != #[trigger] r@[k2].0,
            forall|k: int| 0 <= k < r@.len() ==> self.spawnables().contains_key(#[trigger] r@[k].0)
                && self.spawnables()[r@[k].0] == (r@[k].1, r@[k].2@),
            self.delivered().contains_key(connection_id) ==> forall|e: NetworkEntity|
                #[trigger] self.spawnables().contains_key(e) && !self.delivered()[connection_id].contains(e)
                    <==> exists|k: int| 0 <= k < r@.len() && #[trigger] r@[k].0 == e,
    {
        let mut r: Vec<(NetworkEntity, NetworkTarget, Payload)> = Vec::new();
        let ci = match self.connection_index(connection_id) {
            Some(i) => i,
            None => {
                return r;
            },
        };
        let ghost sp = spawnable_entries(self.spawnables@);
        let ghost have = set_of(self.connections@[ci as int].1@);
        proof {
            lemma_map_of_index(delivered_entries(self.connections@), ci as int);
        }
        let mut j: usize = 0;
        while j < self.spawnables.len()
            invariant
                self.wf(),
                ci < self.connections@.len(),
                have == set_of(self.connections@[ci as int].1@),
                sp == spawnable_entries(self.spawnables@),
                j <= self.spawnables@.len(),
                forall|k: int| 0 <= k < r@.len() ==> found_before(sp, j as int, #[trigger] r@[k]),
                forall|m: int| 0 <= m < j && !have.contains(sp[m].0) ==> exists|k: int| 0 <= k < r@.len() && #[trigger] r@[k].0 == #[trigger] sp[m].0,
                forall|k: int| 0 <= k < r@.len() ==> !have.contains(#[trigger] r@[k].0),
                forall|k1: int, k2: int| 0 <= k1 < r@.len() && 0 <= k2 < r@.len() && k1 != k2 ==> #[trigger] r@[k1].0 != #[trigger] r@[k2].0,
            decreases self.spawnables.len() - j,
        {
            let ghost r0 = r@;
            let e = self.spawnables[j].0;
            if !contains_entity(&self.connections[ci].1, e) {
                proof {
                    assert forall|k: int| 0 <= k < r0.len() implies r0[k].0 != e by {
                        assert(found_before(sp, j as int, r0[k]));
                        let m = choose|m: int| 0 <= m < j && #[trigger] sp[m].0 == r0[k].0 && sp[m].1 == (r0[k].1, r0[k].2@);
                        assert(sp[m].0 != sp[j as int].0);
                    }
                }
                let t = self.spawnables[j].1.0;
                let p = self.spawnables[j].1.1.duplicate();
                r.push((e, t, p));
            }
            proof {
                assert forall|k: int| 0 <= k < r@.len() implies found_before(sp, j + 1, #[trigger] r@[k]) by {
                    if k < r0.len() {
                        assert(r@[k] == r0[k]);
                        assert(found_before(sp, j as int, r0[k]));
                        let m = choose|m: int| 0 <= m < j && #[trigger] sp[m].0 == r0[k].0 && sp[m].1 == (r0[k].1, r0[k].2@);
                        assert(0 <= m < j + 1);
                    } else {
                        assert(sp[j as int].0 == r@[k].0);
                    }
                }
                assert forall|m: int| 0 <= m < j + 1 && !have.contains(sp[m].0) implies exists|k: int| 0 <= k < r@.len() && #[trigger] r@[k].0 == #[trigger] sp[m].0 by {
                    if m < j {
                        let k = choose|k: int| 0 <= k < r0.len() && #[trigger] r0[k].0 == sp[m].0;
                        assert(r@[k] == r0[k]);
                    } else {
                        assert(r@[r@.len() - 1].0 == sp[m].0);
                    }
                }
                assert forall|k: int| 0 <= k < r@.len() implies !have.contains(#[trigger] r@[k].0) by {
                    if k < r0.len() {
                        assert(r@[k] == r0[k]);
                    }
                }
            }
            j = j + 1;
        }
        proof {
            assert forall|k: int| 0 <= k < r@.len() implies self.spawnables().contains_key(#[trigger] r@[k].0)
                && self.spawnables()[r@[k].0] == (r@[k].1, r@[k].2@) by {
                assert(found_before(sp, j as int, r@[k]));
                let m = choose|m: int| 0 <= m < j && #[trigger] sp[m].0 == r@[k].0 && sp[m].1 == (r@[k].1, r@[k].2@);
                lemma_map_of_index(sp, m);
            }
            assert forall|e: NetworkEntity|
                #[trigger] self.spawnables().contains_key(e) && !self.delivered()[connection_id].contains(e)
                    <==> exists|k: int| 0 <= k < r@.len() && #[trigger] r@[k].0 == e by {
                if self.spawnables().contains_key(e) && !self.delivered()[connection_id].contains(e) {
                    lemma_map_of_contains(sp, e);
                    let m = choose|m: int| 0 <= m < sp.len() && #[trigger] sp[m].0 == e;
                    assert(!have.contains(sp[m].0));
                }
                if exists|k: int| 0 <= k < r@.len() && #[trigger] r@[k].0 == e {
                    let k = choose|k: int| 0 <= k < r@.len() && #[trigger] r@[k].0 == e;
                    assert(found_before(sp, j as int, r@[k]));
                    let m = choose|m: int| 0 <= m < j && #[trigger] sp[m].0 == r@[k].0 && sp[m].1 == (r@[k].1, r@[k].2@);
                    lemma_map_of_index(sp, m);
                }
            }
        }
        r
    }

    /// Tracks `connection_id` if it was not, and records as delivered to it every registered
    /// object whose audience includes `actor`; returns those it lacked, with their spawn payloads.
    pub fn deliver_missing(&mut self, connection_id: ConnectionId, actor: Actor) -> (r: Vec<(NetworkEntity, Payload)>)
        requires
            old(self).wf(),
        ensures
            final(self).wf(),
            final(self).spawnables() == old(self).spawnables(),
            final(self).delivered() == old(self).delivered().insert(
                connection_id,
                delivered_to(old(self).delivered(), connection_id).union(audience(old(self).spawnables(), actor)),
            ),
            forall|k1: int, k2: int| 0 <= k1 < r@.len() && 0 <= k2 < r@.len() && k1 != k2 ==> #[trigger] r@[k1].0 != #[trigger] r@[k2].0,
            forall|k: int| 0 <= k < r@.len() ==> audience(old(self).spawnables(), actor).contains(#[trigger] r@[k].0)
                && !delivered_to(old(self).delivered(), connection_id).contains(r@[k].0)
                && r@[k].1@ == old(self).spawnables()[r@[k].0].1,
            forall|e: NetworkEntity|
                #[trigger] audience(old(self).spawnables(), actor).contains(e) && !delivered_to(old(self).delivered(), connection_id).contains(e)
                    ==> exists|k: int| 0 <= k < r@.len() && #[trigger] r@[k].0 == e,
    {
        let ghost d_old = old(self).delivered();
        let ghost d0 = delivered_to(d_old, connection_id);
        let ghost sp = spawnable_entries(self.spawnables@);
        let ci = match self.connection_index(connection_id) {
            Some(i) => {
                proof {
                    lemma_map_of_index(delivered_entries(self.connections@), i as int);
                }
                i
            },
            None => {
                let ghost s0 = self.connections@;
                proof {
                    lemma_map_of_contains(delivered_entries(s0), connection_id);
                    lemma_map_of_push(delivered_entries(s0), connection_id, Set::<NetworkEntity>::empty());
                }
                self.connections.push((connection_id, Vec::new()));
                proof {
                    assert(set_of(Seq::<NetworkEntity>::empty()) =~= Set::<NetworkEntity>::empty());
                    assert(delivered_entries(self.connections@) =~= delivered_entries(s0).push((connection_id, Set::<NetworkEntity>::empty())));
                    assert(self.connections@[s0.len() as int].0 == connection_id);
                }
                self.connections.len() - 1
            },
        };
        let ghost s1 = self.connections@;
        let ghost d1 = self.delivered();
        proof {
            lemma_map_of_index(delivered_entries(s1), ci as int);
            assert(set_of(s1[ci as int].1@) == d0);
            assert(d1 == d_old.insert(connection_id, d0)) by {
                assert(d1 =~= d_old.insert(connection_id, d0));
            }
        }
        let mut v: Vec<NetworkEntity> = Vec::new();
        std::mem::swap(&mut self.connections[ci].1, &mut v);
        proof {
            let cur = self.connections@;
            assert(cur.len() == s1.len());
            assert forall|m: int| 0 <= m < s1.len() implies (#[trigger] cur[m]).0 == s1[m].0 by {}
            assert forall|a: int, b: int|
                0 <= a < cur.len() && 0 <= b < cur.len() && a != b implies #[trigger] delivered_entries(cur)[a].0
                != #[trigger] delivered_entries(cur)[b].0 by {
                assert(delivered_entries(s1)[a].0 != delivered_entries(s1)[b].0);
            }
            assert(v@ == s1[ci as int].1@);
            assert(set_of(v@) =~= d0.union(targeted_before(sp, 0, actor)));
        }
        let mut r: Vec<(NetworkEntity, Payload)> = Vec::new();
        let mut j: usize = 0;
        while j < self.spawnables.len()
            invariant
                self.wf(),
                sp == spawnable_entries(self.spawnables@),
                self.spawnables() == old(self).spawnables(),
                j <= self.spawnables@.len(),
                ci < self.connections@.len(),
                self.connections@.len() == s1.len(),
                forall|m: int| 0 <= m < s1.len() ==> (#[trigger] self.connections@[m]).0 == s1[m].0,
                forall|m: int| 0 <= m < s1.len() && m != ci ==> #[trigger] self.connections@[m] == s1[m],
                set_of(v@) == d0.union(targeted_before(sp, j as int, actor)),
                forall|k: int| 0 <= k < r@.len() ==> repaired_before(sp, j as int, actor, #[trigger] r@[k]),
                forall|k: int| 0 <= k < r@.len() ==> !d0.contains(#[trigger] r@[k].0),
                forall|m: int| 0 <= m < j && actor.spec_targeted_by(sp[m].1.0) && !d0.contains(sp[m].0)
                    ==> exists|k: int| 0 <= k < r@.len() && #[trigger] r@[k].0 == #[trigger] sp[m].0,
                forall|k1: int, k2: int| 0 <= k1 < r@.len() && 0 <= k2 < r@.len() && k1 != k2 ==> #[trigger] r@[k1].0 != #[trigger] r@[k2].0,
            decreases self.spawnables.len() - j,
        {
            let ghost r0 = r@;
            let ghost v0 = v@;
            let e = self.spawnables[j].0;
            let selected = actor.targeted_by(&self.spawnables[j].1.0);
            proof {
                assert(sp[j as int].0 == e);
                assert(sp[j as int].1.0 == self.spawnables@[j as int].1.0);
            }
            let present = contains_entity(&v, e);
            proof {
                if !present {
                    assert(!set_of(v@).contains(e));
                }
            }
            if selected && !present {
                proof {
                    assert forall|k: int| 0 <= k < r0.len() implies r0[k].0 != e by {
                        assert(repaired_before(sp, j as int, actor, r0[k]));
                        let m = choose|m: int| 0 <= m < j && #[trigger] sp[m].0 == r0[k].0 && actor.spec_targeted_by(sp[m].1.0) && sp[m].1.1 == r0[k].1@;
                        assert(sp[m].0 != sp[j as int].0);
                    }
                    assert(!d0.contains(e));
                }
                v.push(e);
                let p = self.spawnables[j].1.1.duplicate();
                r.push((e, p));
                proof {
                    assert forall|x: NetworkEntity| set_of(v@).contains(x) == set_of(v0).insert(e).contains(x) by {
                        if v0.contains(x) {
                            let k = choose|k: int| 0 <= k < v0.len() && v0[k] == x;
                            assert(v@[k] == x);
                        }
                        if v@.contains(x) {
                            let k = choose|k: int| 0 <= k < v@.len() && v@[k] == x;
                            if k < v0.len() {
                                assert(v0[k] == x);
                            }
                        }
                        if x == e {
                            assert(v@[v0.len() as int] == x);
                        }
                    }
                    assert(set_of(v@) =~= set_of(v0).insert(e));
                }
            }
            proof {
                assert forall|x: NetworkEntity| targeted_before(sp, j + 1, actor).contains(x) == (targeted_before(sp, j as int, actor).contains(x)
                    || (x == e && selected)) by {
                    if targeted_before(sp, j + 1, actor).contains(x) {
                        let m = choose|m: int| 0 <= m < j + 1 && #[trigger] sp[m].0 == x && actor.spec_targeted_by(sp[m].1.0);
                        if m < j {
                            assert(targeted_before(sp, j as int, actor).contains(x));
                        }
                    }
                    if targeted_before(sp, j as int, actor).contains(x) {
                        let m = choose|m: int| 0 <= m < j && #[trigger] sp[m].0 == x && actor.spec_targeted_by(sp[m].1.0);
                        assert(0 <= m < j + 1);
                    }
                    if x == e && selected {
                        assert(sp[j as int].0 == x);
                    }
                }
                assert(set_of(v@) =~= d0.union(targeted_before(sp, j + 1, actor)));
                assert forall|k: int| 0 <= k < r@.len() implies repaired_before(sp, j + 1, actor, #[trigger] r@[k]) by {
                    if k < r0.len() {
                        assert(r@[k] == r0[k]);
                        assert(repaired_before(sp, j as int, actor, r0[k]));
                        let m = choose|m: int| 0 <= m < j && #[trigger] sp[m].0 == r0[k].0 && actor.spec_targeted_by(sp[m].1.0) && sp[m].1.1 == r0[k].1@;
                        assert(0 <= m < j + 1);
                    } else {
                        assert(sp[j as int].0 == r@[k].0);
                    }
                }
                assert forall|k: int| 0 <= k < r@.len() implies !d0.contains(#[trigger] r@[k].0) by {
                    if k < r0.len() {
                        assert(r@[k] == r0[k]);
                    }
                }
                assert forall|m: int| 0 <= m < j + 1 && actor.spec_targeted_by(sp[m].1.0) && !d0.contains(sp[m].0)
                    implies exists|k: int| 0 <= k < r@.len() && #[trigger] r@[k].0 == #[trigger] sp[m].0 by {
                    if m < j {
                        let k = choose|k: int| 0 <= k < r0.len() && #[trigger] r0[k].0 == sp[m].0;
                        assert(r@[k] == r0[k]);
                    } else if v0.contains(e) {
                        assert(set_of(v0).contains(e));
                        assert(targeted_before(sp, j as int, actor).contains(e));
                        let m2 = choose|m2: int| 0 <= m2 < j && #[trigger] sp[m2].0 == e && actor.spec_targeted_by(sp[m2].1.0);
                        assert(sp[m2].0 != sp[j as int].0);
                    } else {
                        assert(r@[r@.len() - 1].0 == sp[m].0);
                    }
                }
            }
            j = j + 1;
        }
        self.connections.set(ci, (connection_id, v));
        proof {
            let s2 = self.connections@;
            let full = d0.union(audience(old(self).spawnables(), actor));
            assert forall|x: NetworkEntity| targeted_before(sp, j as int, actor).contains(x) == audience(old(self).spawnables(), actor).contains(x) by {
                lemma_map_of_contains(sp, x);
                if targeted_before(sp, j as int, actor).contains(x) {
                    let m = choose|m: int| 0 <= m < j && #[trigger] sp[m].0 == x && actor.spec_targeted_by(sp[m].1.0);
                    lemma_map_of_index(sp, m);
                }
                if audience(old(self).spawnables(), actor).contains(x) {
                    let m = choose|m: int| 0 <= m < sp.len() && #[trigger] sp[m].0 == x;
                    lemma_map_of_index(sp, m);
                }
            }
            assert(set_of(v@) =~= full);
            assert(delivered_entries(s2) =~= delivered_entries(s1).update(ci as int, (connection_id, full)));
            lemma_map_of_update(delivered_entries(s1), ci as int, full);
            assert(self.delivered() =~= d_old.insert(connection_id, full));
            assert forall|k: int| 0 <= k < r@.len() implies audience(old(self).spawnables(), actor).contains(#[trigger] r@[k].0)
                && !d0.contains(r@[k].0) && r@[k].1@ == old(self).spawnables()[r@[k].0].1 by {
                assert(repaired_before(sp, j as int, actor, r@[k]));
                let m = choose|m: int| 0 <= m < j && #[trigger] sp[m].0 == r@[k].0 && actor.spec_targeted_by(sp[m].1.0) && sp[m].1.1 == r@[k].1@;
                lemma_map_of_index(sp, m);
            }
            assert forall|e: NetworkEntity|
                #[trigger] audience(old(self).spawnables(), actor).contains(e) && !d0.contains(e)
                    implies exists|k: int| 0 <= k < r@.len() && #[trigger] r@[k].0 == e by {
                assert(targeted_before(sp, j as int, actor).contains(e));
                let m = choose|m: int| 0 <= m < j && #[trigger] sp[m].0 == e && actor.spec_targeted_by(sp[m].1.0);
                assert(exists|k: int| 0 <= k < r@.len() && #[trigger] r@[k].0 == #[trigger] sp[m].0);
            }
        }
        r
    }
}

proof fn lemma_detection_step(
    sp: Map<NetworkEntity, (NetworkTarget, PayloadView)>,
    m: Map<ConnectionId, Actor>,
    d: Map<ConnectionId, Set<NetworkEntity>>,
    c: ConnectionId,
    a: Actor,
)
    requires
        !m.contains_key(c),
    ensures
        delivered_to(after_detection(sp, m, d), c) == delivered_to(d, c),
        after_detection(sp, m.insert(c, a), d) == after_detection(sp, m, d).insert(
            c,
            delivered_to(d, c).union(audience(sp, a)),
        ),
        forall|p: (ConnectionId, NetworkEntity)|
            #[trigger] deficit(sp, m.insert(c, a), d).contains(p) <==> deficit(sp, m, d).contains(p) || (p.0 == c
                && audience(sp, a).contains(p.1) && !delivered_to(d, c).contains(p.1)),
{
    assert(after_detection(sp, m.insert(c, a), d) =~= after_detection(sp, m, d).insert(
        c,
        delivered_to(d, c).union(audience(sp, a)),
    ));
}

/// The detection step: compares every connection with every registered object, and for each
/// connection whose peer is in an object's audience but has not received it, queues the object's
/// spawn payload for that one peer and records it as delivered. Connections seen for the first
/// time are tracked from here on. Returns the (connection, object) pairs it repaired.
pub fn spawn_detection_system(
    connection_manager: &ConnectionManager,
    spawn_manager: &mut SpawnManager,
    network_handle: &mut NetworkHandle,
) -> (r: Vec<(ConnectionId, NetworkEntity)>)
    requires
        connection_manager.wf(),
        old(spawn_manager).wf(),
    ensures
        final(spawn_manager).wf(),
        final(spawn_manager).spawnables() == old(spawn_manager).spawnables(),
        final(spawn_manager).delivered() == after_detection(
            old(spawn_manager).spawnables(),
            connection_manager@,
            old(spawn_manager).delivered(),
        ),
        r@.no_duplicates(),
        forall|p: (ConnectionId, NetworkEntity)|
            #[trigger] r@.contains(p) <==> deficit(
                old(spawn_manager).spawnables(),
                connection_manager@,
                old(spawn_manager).delivered(),
            ).contains(p),
        final(network_handle).outbox() == old(network_handle).outbox() + repair_sends(
            r@,
            old(spawn_manager).spawnables(),
            connection_manager@,
        ),
        final(network_handle).spawn_queue() == old(network_handle).spawn_queue(),
{
    let ghost sp = old(spawn_manager).spawnables();
    let ghost d = old(spawn_manager).delivered();
    let ghost cm = connection_manager@;
    let conns = connection_manager.connections();
    let mut r: Vec<(ConnectionId, NetworkEntity)> = Vec::new();
    proof {
        assert(conns@.take(0) =~= Seq::<(ConnectionId, Actor)>::empty());
        assert(map_of(Seq::<(ConnectionId, Actor)>::empty()) == Map::<ConnectionId, Actor>::empty());
        assert(after_detection(sp, Map::<ConnectionId, Actor>::empty(), d) =~= d);
        assert(repair_sends(r@, sp, cm) =~= Seq::<(NetworkTarget, PayloadView)>::empty());
        assert(old(network_handle).outbox() + repair_sends(r@, sp, cm) =~= old(network_handle).outbox());
    }
    let mut i: usize = 0;
    while i < conns.len()
        invariant
            spawn_manager.wf(),
            spawn_manager.spawnables() == sp,
            keys_unique(conns@),
            map_of(conns@) == cm,
            i <= conns@.len(),
            spawn_manager.delivered() == after_detection(sp, map_of(conns@.take(i as int)), d),
            r@.no_duplicates(),
            forall|p: (ConnectionId, NetworkEntity)|
                #[trigger] r@.contains(p) <==> deficit(sp, map_of(conns@.take(i as int)), d).contains(p),
            network_handle.outbox() == old(network_handle).outbox() + repair_sends(r@, sp, cm),
            network_handle.spawn_queue() == old(network_handle).spawn_queue(),
        decreases conns.len() - i,
    {
        let c = conns[i].0;
        let a = conns[i].1;
        let ghost m = map_of(conns@.take(i as int));
        proof {
            assert(conns@.take(i + 1).drop_last() =~= conns@.take(i as int));
            assert(conns@.take(i + 1).last() == (c, a));
            lemma_map_of_contains(conns@.take(i as int), c);
            if has_key(conns@.take(i as int), c) {
                let j = choose|j: int| 0 <= j < conns@.take(i as int).len() && #[trigger] conns@.take(i as int)[j].0 == c;
                assert(conns@[j].0 == conns@[i as int].0);
            }
            lemma_detection_step(sp, m, d, c, a);
            lemma_map_of_index(conns@, i as int);
        }
        let got = spawn_manager.deliver_missing(c, a);
        let ghost r_i = r@;
        let mut k: usize = 0;
        while k < got.len()
            invariant
                k <= got@.len(),
                r@.len() == r_i.len() + k,
                forall|q: int| 0 <= q < r_i.len() ==> #[trigger] r@[q] == r_i[q],
                forall|q: int| 0 <= q < k ==> #[trigger] r@[r_i.len() + q] == (c, got@[q].0),
                network_handle.outbox() == old(network_handle).outbox() + repair_sends(r@, sp, cm),
                network_handle.spawn_queue() == old(network_handle).spawn_queue(),
                cm.contains_key(c) && cm[c] == a,
                forall|q: int| 0 <= q < got@.len() ==> (#[trigger] got@[q]).1@ == sp[got@[q].0].1,
            decreases got.len() - k,
        {
            let ghost r0 = r@;
            let payload = got[k].1.duplicate();
            r.push((c, got[k].0));
            network_handle.add_payload(NetworkTarget::ActorId(a.id), payload);
            proof {
                assert(got@[k as int].1@ == sp[got@[k as int].0].1);
                assert(repair_sends(r@, sp, cm) =~= repair_sends(r0, sp, cm).push((NetworkTarget::ActorId(cm[c].id), sp[got@[k as int].0].1)));
                assert(r@[r_i.len() + k] == (c, got@[k as int].0));
                assert forall|q: int| 0 <= q < r_i.len() implies #[trigger] r@[q] == r_i[q] by {
                    assert(r@[q] == r0[q]);
                }
                assert forall|q: int| 0 <= q < k + 1 implies #[trigger] r@[r_i.len() + q] == (c, got@[q].0) by {
                    if q < k {
                        assert(r@[r_i.len() + q] == r0[r_i.len() + q]);
                    }
                }
            }
            k = k + 1;
        }
        proof {
            let m2 = map_of(conns@.take(i + 1));
            assert(m2 == m.insert(c, a));
            assert forall|p: (ConnectionId, NetworkEntity)| #[trigger] r@.contains(p) <==> deficit(sp, m2, d).contains(p) by {
                if r@.contains(p) {
                    let q = choose|q: int| 0 <= q < r@.len() && r@[q] == p;
                    if q < r_i.len() {
                        assert(r_i[q] == p);
                        assert(r_i.contains(p));
                    } else {
                        let q2 = q - r_i.len();
                        assert(r@[r_i.len() + q2] == (c, got@[q2].0));
                        assert(audience(sp, a).contains(got@[q2].0));
                    }
                }
                if deficit(sp, m2, d).contains(p) {
                    if deficit(sp, m, d).contains(p) {
                        assert(r_i.contains(p));
                        let q = choose|q: int| 0 <= q < r_i.len() && r_i[q] == p;
                        assert(r@[q] == p);
                    } else {
                        assert(p.0 == c && audience(sp, a).contains(p.1) && !delivered_to(d, c).contains(p.1));
                        let q = choose|q: int| 0 <= q < got@.len() && #[trigger] got@[q].0 == p.1;
                        assert(r@[r_i.len() + q] == (c, got@[q].0));
                    }
                }
            }
            assert forall|q1: int, q2: int| 0 <= q1 < r@.len() && 0 <= q2 < r@.len() && q1 != q2 implies r@[q1] != r@[q2] by {
                if q1 < r_i.len() && q2 < r_i.len() {
                    assert(r_i[q1] != r_i[q2]);
                } else if q1 >= r_i.len() && q2 >= r_i.len() {
                    assert(r@[r_i.len() + (q1 - r_i.len())] == (c, got@[q1 - r_i.len()].0));
                    assert(r@[r_i.len() + (q2 - r_i.len())] == (c, got@[q2 - r_i.len()].0));
                    assert(got@[q1 - r_i.len()].0 != got@[q2 - r_i.len()].0);
                } else {
                    let (old_q, new_q) = if q1 < r_i.len() { (q1, q2) } else { (q2, q1) };
                    assert(r_i.contains(r_i[old_q]));
                    assert(deficit(sp, m, d).contains(r_i[old_q]));
                    assert(r@[r_i.len() + (new_q - r_i.len())] == (c, got@[new_q - r_i.len()].0));
                    assert(r_i[old_q].0 != c);
                }
            }
        }
        i = i + 1;
    }
    proof {
        assert(conns@.take(i as int) =~= conns@);
    }
    r
}

/// Who is spawning a received object: the local peer, and the peer the spawn came from.
#[derive(Clone, Copy, PartialEq, Eq, Structural, Debug)]
pub struct SpawnContext {
    pub local: Actor,
    pub sender: Actor,
}

impl SpawnContext {
    pub fn new(local: Actor, sender: Actor) -> (r: SpawnContext)
        ensures
            r == (SpawnContext { local, sender }),
    {
        SpawnContext { local, sender }
    }

    pub fn local_id(&self) -> (r: ActorId)
        ensures
            r == self.local.id,
    {
        self.local.id
    }

    pub fn local_ty(&self) -> (r: ActorTy)
        ensures
            r == self.local.ty,
    {
        self.local.ty
    }

    pub fn sender_id(&self) -> (r: ActorId)
        ensures
            r == self.sender.id,
    {
        self.sender.id
    }

    pub fn sender_ty(&self) -> (r: ActorTy)
        ensures
            r == self.sender.ty,
    {
        self.sender.ty
    }
}

/// One received spawn, to be handed to the spawn-application callback: the object's network id,
/// who spawns it, and its encoded descriptor.
pub struct SpawnRequest {
    pub network_entity: NetworkEntity,
    pub context: SpawnContext,
    pub data: Vec<u8>,
}

/// The spawn requests of `s`, in order, with their descriptors as sequences.
pub open spec fn request_views(s: Seq<SpawnRequest>) -> Seq<(NetworkEntity, SpawnContext, Seq<u8>)> {
    s.map_values(|r: SpawnRequest| (r.network_entity, r.context, r.data@))
}

/// The spawns among `ms`, in order, each with its context.
pub open spec fn spawn_requests(ms: Seq<MessageView>) -> Seq<(NetworkEntity, SpawnContext, Seq<u8>)>
    decreases ms.len(),
{
    if ms.len() == 0 {
        seq![]
    } else {
        let rest = spawn_requests(ms.drop_last());
        let m = ms.last();
        match m.payload {
            PayloadView::Spawn { network_entity, data } => rest.push(
                (network_entity, SpawnContext { local: m.receiver, sender: m.sender }, data),
            ),
            PayloadView::ComponentUpdate { .. } => rest,
        }
    }
}

/// Receive side of spawning: picks out every spawn among `messages`, in order, with its context.
pub fn spawn_system(messages: &Vec<Message>) -> (r: Vec<SpawnRequest>)
    ensures
        request_views(r@) == spawn_requests(message_views(messages@)),
{
    let ghost mv = message_views(messages@);
    let mut r: Vec<SpawnRequest> = Vec::new();
    let mut k: usize = 0;
    while k < messages.len()
        invariant
            k <= messages@.len(),
            mv == message_views(messages@),
            request_views(r@) == spawn_requests(mv.take(k as int)),
        decreases messages.len() - k,
    {
        proof {
            assert(mv.take(k + 1).drop_last() =~= mv.take(k as int));
            assert(mv.take(k + 1).last() == messages@[k as int]@);
        }
        let ghost r0 = r@;
        let m = &messages[k];
        match &m.payload {
            Payload::Spawn { network_entity, data } => {
                let req = SpawnRequest {
                    network_entity: *network_entity,
                    context: SpawnContext { local: m.receiver, sender: m.sender },
                    data: crate::message::copy_bytes(data),
                };
                r.push(req);
                proof {
                    assert(request_views(r@) =~= request_views(r0).push((req.network_entity, req.context, req.data@)));
                }
            },
            Payload::ComponentUpdate { .. } => {},
        }
        k = k + 1;
    }
    assert(mv.take(k as int) =~= mv);
    r
}

} // verus!
