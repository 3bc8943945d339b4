use vstd::prelude::*;
use crate::error::Error;
use crate::table::{keys_unique, has_key, map_of, lemma_map_of_contains, lemma_map_of_index, lemma_map_of_push};

verus! {

/// Network-wide id of a replicated object, the same on every peer.
#[derive(Clone, Copy, PartialEq, Eq, Structural, Hash, Debug)]
pub struct NetworkEntity(pub u64);

/// Process-private handle of a local object, owned by the game-state store.
#[derive(Clone, Copy, PartialEq, Eq, Structural, Hash, Debug)]
pub struct Entity(pub u64);

/// The registry's map after an insertion of `entity` under `network_entity`: unchanged when the id
/// is taken.
pub open spec fn after_insert(
    m: Map<NetworkEntity, Entity>,
    network_entity: NetworkEntity,
    entity: Entity,
) -> Map<NetworkEntity, Entity> {
    if m.contains_key(network_entity) {
        m
    } else {
        m.insert(network_entity, entity)
    }
}

/// Where the generator stands after `network_entity` is registered: just above it when it was
/// not below already; no id is left once the largest is registered.
pub open spec fn next_after_insert(next: Option<u64>, network_entity: NetworkEntity) -> Option<u64> {
    match next {
        Some(n) => if network_entity.0 < n {
            Some(n)
        } else if network_entity.0 == u64::MAX {
            None
        } else {
            Some((network_entity.0 + 1) as u64)
        },
        None => None,
    }
}

/// Two insertions under one network id: the second is refused and the first mapping stays.
pub proof fn lemma_duplicate_insert_refused(
    m: Map<NetworkEntity, Entity>,
    network_entity: NetworkEntity,
    first: Entity,
    second: Entity,
)
    requires
        !m.contains_key(network_entity),
    ensures
        after_insert(m, network_entity, first).contains_key(network_entity),
        after_insert(after_insert(m, network_entity, first), network_entity, second) == after_insert(
            m,
            network_entity,
            first,
        ),
        after_insert(after_insert(m, network_entity, first), network_entity, second)[network_entity]
            == first,
{
}

/// Maps network ids of replicated objects to local handles, and hands out fresh network ids.
pub struct NetworkEntityRegistry {
    network_entities: Vec<(NetworkEntity, Entity)>,
    next_network_entity: NetworkEntity,
    exhausted: bool,
}

impl NetworkEntityRegistry {
    /// Which local handle each registered network id stands for.
    pub closed spec fn view(&self) -> Map<NetworkEntity, Entity> {
        map_of(self.network_entities@)
    }

    /// The id that the generator hands out next, unless every id is taken.
    pub closed spec fn spec_next(&self) -> Option<u64> {
        if self.exhausted {
            None
        } else {
            Some(self.next_network_entity.0)
        }
    }

    pub closed spec fn wf(&self) -> bool {
        &&& keys_unique(self.network_entities@)
        &&& forall|i: int|
            0 <= i < self.network_entities@.len() && !self.exhausted ==> #[trigger] self.network_entities@[i].0.0
                < self.next_network_entity.0
    }

    /// The generator never hands out an id that is registered.
    pub proof fn lemma_next_is_free(&self)
        requires
            self.wf(),
        ensures
            self.spec_next() matches Some(n) ==> !self@.contains_key(NetworkEntity(n)),
    {
        if !self.exhausted {
            lemma_map_of_contains(self.network_entities@, NetworkEntity(self.next_network_entity.0));
            if has_key(self.network_entities@, NetworkEntity(self.next_network_entity.0)) {
                let i = choose|i: int|
                    0 <= i < self.network_entities@.len() && #[trigger] self.network_entities@[i].0
                        == NetworkEntity(self.next_network_entity.0);
                assert(self.network_entities@[i].0.0 < self.next_network_entity.0);
            }
        }
    }

    pub fn new() -> (r: NetworkEntityRegistry)
        ensures
            r.wf(),
            r@ == Map::<NetworkEntity, Entity>::empty(),
            r.spec_next() == Some(0u64),
    {
        NetworkEntityRegistry {
            network_entities: Vec::new(),
            next_network_entity: NetworkEntity(0),
            exhausted: false,
        }
    }

    fn find(&self, network_entity: &NetworkEntity) -> (r: Option<usize>)
        requires
            self.wf(),
        ensures
            r matches Some(i) ==> i < self.network_entities@.len()
                && self.network_entities@[i as int].0 == *network_entity,
            r is None ==> !self@.contains_key(*network_entity),
    {
        let mut i: usize = 0;
        while i < self.network_entities.len()
            invariant
                i <= self.network_entities@.len(),
                forall|j: int| 0 <= j < i ==> #[trigger] self.network_entities@[j].0 != *network_entity,
            decreases self.network_entities.len() - i,
        {
            if self.network_entities[i].0 == *network_entity {
                return Some(i);
            }
            i = i + 1;
        }
        proof {
            lemma_map_of_contains(self.network_entities@, *network_entity);
        }
        None
    }

    /// The local handle registered under `network_entity`.
    pub fn get(&self, network_entity: &NetworkEntity) -> (r: Option<Entity>)
        requires
            self.wf(),
        ensures
            r == (if self@.contains_key(*network_entity) {
                Some(self@[*network_entity])
            } else {
                None
            }),
    {
        match self.find(network_entity) {
            Some(i) => {
                proof {
                    lemma_map_of_index(self.network_entities@, i as int);
                }
                Some(self.network_entities[i].1)
            },
            None => None,
        }
    }

    /// A network id that no registered object has; `None` once every id is taken.
    pub fn generate_network_entity(&mut self) -> (r: Option<NetworkEntity>)
        requires
            old(self).wf(),
        ensures
            final(self).wf(),
            final(self)@ == old(self)@,
            r == (match old(self).spec_next() {
                Some(n) => Some(NetworkEntity(n)),
                None => None,
            }),
            r matches Some(e) ==> !old(self)@.contains_key(e),
            old(self).spec_next() matches Some(n) ==> final(self).spec_next() == (if n == u64::MAX {
                None
            } else {
                Some((n + 1) as u64)
            }),
            old(self).spec_next() is None ==> final(self).spec_next() is None,
    {
        proof {
            self.lemma_next_is_free();
        }
        if self.exhausted {
            return None;
        }
        let entity = self.next_network_entity;
        if self.next_network_entity.0 == u64::MAX {
            self.exhausted = true;
        } else {
            self.next_network_entity = NetworkEntity(self.next_network_entity.0 + 1);
        }
        Some(entity)
    }

    /// Registers `entity` under `network_entity`, unless that id is registered already; the
    /// generator then stays above it.
    pub fn insert(&mut self, network_entity: NetworkEntity, entity: Entity) -> (r: Result<(), Error>)
        requires
            old(self).wf(),
        ensures
            final(self).wf(),
            final(self)@ == after_insert(old(self)@, network_entity, entity),
            r is Ok <==> !old(self)@.contains_key(network_entity),
            r is Err ==> r == Err::<(), Error>(Error::DuplicateNetworkEntity) && final(self).spec_next()
                == old(self).spec_next(),
            r is Ok ==> final(self).spec_next() == next_after_insert(old(self).spec_next(), network_entity),
            final(self).spec_next() matches Some(n) ==> network_entity.0 < n,
    {
        match self.find(&network_entity) {
            Some(i) => {
                proof {
                    lemma_map_of_index(self.network_entities@, i as int);
                }
                if !self.exhausted {
                    assert(self.network_entities@[i as int].0.0 < self.next_network_entity.0);
                }
                Err(Error::DuplicateNetworkEntity)
            },
            None => {
                proof {
                    lemma_map_of_contains(self.network_entities@, network_entity);
                    lemma_map_of_push(self.network_entities@, network_entity, entity);
                }
                self.network_entities.push((network_entity, entity));
                if !self.exhausted && network_entity.0 >= self.next_network_entity.0 {
                    if network_entity.0 == u64::MAX {
                        self.exhausted = true;
                    } else {
                        self.next_network_entity = NetworkEntity(network_entity.0 + 1);
                    }
                }
                Ok(())
            },
        }
    }
}

} // verus!
