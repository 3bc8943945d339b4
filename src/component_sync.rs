use vstd::prelude::*;
use crate::connection_manager::ConnectionEvent;
use crate::ids::{Actor, ActorId, ActorTy, NetworkTarget};
use crate::message::{Message, MessageView, NetworkHandle, Payload, PayloadView, message_views};
use crate::network_entity::{Entity, NetworkEntity, NetworkEntityRegistry};

verus! {

/// Replication state of one attribute of one object: whether it is to be sent, and which
/// peers may originate its value.
#[derive(Clone, Copy, PartialEq, Eq, Structural, Debug)]
pub struct ComponentSync {
    pub should_sync: bool,
    pub ownership: NetworkTarget,
}

impl ComponentSync {
    /// Owned by the peers `network_target` selects; to be sent at the next send step.
    pub fn new(network_target: NetworkTarget) -> (r: ComponentSync)
        ensures
            r == (ComponentSync { should_sync: true, ownership: network_target }),
    {
        ComponentSync { should_sync: true, ownership: network_target }
    }

    /// Owned by the one peer with id `actor_id`.
    pub fn id(actor_id: ActorId) -> (r: ComponentSync)
        ensures
            r == (ComponentSync { should_sync: true, ownership: NetworkTarget::ActorId(actor_id) }),
    {
        Self::new(NetworkTarget::ActorId(actor_id))
    }

    /// Owned by every peer of role `actor_ty`.
    pub fn ty(actor_ty: ActorTy) -> (r: ComponentSync)
        ensures
            r == (ComponentSync { should_sync: true, ownership: NetworkTarget::ActorTy(actor_ty) }),
    {
        Self::new(NetworkTarget::ActorTy(actor_ty))
    }

    /// Owned by every peer.
    pub fn all() -> (r: ComponentSync)
        ensures
            r == (ComponentSync { should_sync: true, ownership: NetworkTarget::All }),
    {
        Self::new(NetworkTarget::All)
    }

    /// Marks the attribute to be sent at the next send step.
    pub fn sync(&mut self)
        ensures
            *final(self) == (ComponentSync { should_sync: true, ownership: old(self).ownership }),
    {
        self.should_sync = true;
    }
}

/// One object's copy of the attribute: its handles, its replication state and its encoded value.
pub struct SyncedComponent {
    pub entity: Entity,
    pub network_entity: NetworkEntity,
    pub sync: ComponentSync,
    pub value: Vec<u8>,
}

/// A copy of the attribute with its value as a sequence.
pub struct SyncedView {
    pub entity: Entity,
    pub network_entity: NetworkEntity,
    pub sync: ComponentSync,
    pub value: Seq<u8>,
}

impl View for SyncedComponent {
    type V = SyncedView;

    open spec fn view(&self) -> SyncedView {
        SyncedView {
            entity: self.entity,
            network_entity: self.network_entity,
            sync: self.sync,
            value: self.value@,
        }
    }
}

/// Whether `m` is an update of this attribute type for the object of `x`, from a peer that owns it.
pub open spec fn update_applies(
    x: SyncedView,
    registry: Map<NetworkEntity, Entity>,
    network_type_uuid: u128,
    m: MessageView,
) -> bool {
    match m.payload {
        PayloadView::ComponentUpdate { target_entity, network_type_uuid: u, .. } => u == network_type_uuid
            && registry.contains_key(target_entity) && registry[target_entity] == x.entity
            && m.sender.spec_targeted_by(x.sync.ownership),
        PayloadView::Spawn { .. } => false,
    }
}

/// The bytes an update carries.
pub open spec fn update_data(m: MessageView) -> Seq<u8> {
    match m.payload {
        PayloadView::ComponentUpdate { data, .. } => data,
        PayloadView::Spawn { data, .. } => data,
    }
}

/// The attribute copies after receiving `m`: the copy it applies to takes its bytes whole,
/// every other stays as it was.
pub open spec fn receive_one(
    table: Seq<SyncedView>,
    registry: Map<NetworkEntity, Entity>,
    network_type_uuid: u128,
    m: MessageView,
) -> Seq<SyncedView> {
    table.map_values(
        |x: SyncedView|
            if update_applies(x, registry, network_type_uuid, m) {
                SyncedView { value: update_data(m), ..x }
            } else {
                x
            },
    )
}

/// The attribute copies after receiving `ms`, in order.
pub open spec fn receive_all(
    table: Seq<SyncedView>,
    registry: Map<NetworkEntity, Entity>,
    network_type_uuid: u128,
    ms: Seq<MessageView>,
) -> Seq<SyncedView>
    decreases ms.len(),
{
    if ms.len() == 0 {
        table
    } else {
        receive_one(receive_all(table, registry, network_type_uuid, ms.drop_last()), registry, network_type_uuid, ms.last())
    }
}

/// Ownership gate: an update from a peer outside the attribute's ownership changes nothing,
/// whatever it carries; one from an owner, for a known object of this attribute type, replaces
/// the value whole.
pub proof fn lemma_ownership_gate(
    table: Seq<SyncedView>,
    registry: Map<NetworkEntity, Entity>,
    network_type_uuid: u128,
    m: MessageView,
    i: int,
)
    requires
        0 <= i < table.len(),
    ensures
        !m.sender.spec_targeted_by(table[i].sync.ownership) ==> receive_one(table, registry, network_type_uuid, m)[i]
            == table[i],
        (m.payload matches PayloadView::ComponentUpdate { target_entity, network_type_uuid: u, data } && u
            == network_type_uuid && registry.contains_key(target_entity) && registry[target_entity]
            == table[i].entity && m.sender.spec_targeted_by(table[i].sync.ownership)) ==> receive_one(
            table,
            registry,
            network_type_uuid,
            m,
        )[i].value == update_data(m),
        receive_one(table, registry, network_type_uuid, m).len() == table.len(),
{
}

/// Why an update of this attribute type was discarded.
#[derive(Clone, Copy, PartialEq, Eq, Structural, Debug)]
pub enum UpdateRejection {
    /// No local object is registered under the update's network id.
    UnknownNetworkEntity(NetworkEntity),
    /// The sender is not among the owners of the attribute on that object.
    UnauthorizedSender { network_entity: NetworkEntity, sender: Actor },
}

/// Some copy among the first `i` of `t` is on `e` and not owned by `sender`.
pub open spec fn denied_before(t: Seq<SyncedView>, i: int, e: Entity, sender: Actor) -> bool {
    exists|j: int| 0 <= j < i && (#[trigger] t[j]).entity == e && !sender.spec_targeted_by(t[j].sync.ownership)
}

/// Why `m` is discarded when it reaches the copies `table`, if it is an update of this attribute
/// type that is discarded.
pub open spec fn rejection(
    table: Seq<SyncedView>,
    registry: Map<NetworkEntity, Entity>,
    network_type_uuid: u128,
    m: MessageView,
) -> Option<UpdateRejection> {
    match m.payload {
        PayloadView::ComponentUpdate { target_entity, network_type_uuid: u, .. } => if u != network_type_uuid {
            None
        } else if !registry.contains_key(target_entity) {
            Some(UpdateRejection::UnknownNetworkEntity(target_entity))
        } else if denied_before(table, table.len() as int, registry[target_entity], m.sender) {
            Some(UpdateRejection::UnauthorizedSender { network_entity: target_entity, sender: m.sender })
        } else {
            None
        },
        PayloadView::Spawn { .. } => None,
    }
}

/// The rejections that receiving `ms`, in order, into the copies `table` reports, in order.
pub open spec fn rejections(
    table: Seq<SyncedView>,
    registry: Map<NetworkEntity, Entity>,
    network_type_uuid: u128,
    ms: Seq<MessageView>,
) -> Seq<UpdateRejection>
    decreases ms.len(),
{
    if ms.len() == 0 {
        seq![]
    } else {
        let prev = rejections(table, registry, network_type_uuid, ms.drop_last());
        match rejection(receive_all(table, registry, network_type_uuid, ms.drop_last()), registry, network_type_uuid, ms.last()) {
            Some(x) => prev.push(x),
            None => prev,
        }
    }
}

/// The updates a send step queues for the copies of `table`, in order: for each copy marked to
/// be sent and owned by `local`, one update per target of `targets`.
pub open spec fn sync_sends(
    table: Seq<SyncedView>,
    local: Actor,
    network_type_uuid: u128,
    targets: Seq<NetworkTarget>,
) -> Seq<(NetworkTarget, PayloadView)>
    decreases table.len(),
{
    if table.len() == 0 {
        seq![]
    } else {
        let x = table.last();
        let rest = sync_sends(table.drop_last(), local, network_type_uuid, targets);
        if x.sync.should_sync && local.spec_targeted_by(x.sync.ownership) {
            rest + targets.map_values(
                |t: NetworkTarget|
                    (t, PayloadView::ComponentUpdate {
                        target_entity: x.network_entity,
                        network_type_uuid,
                        data: x.value,
                    }),
            )
        } else {
            rest
        }
    }
}

/// `table` with every copy's send flag set to `flag`.
pub open spec fn with_sync_flag(table: Seq<SyncedView>, flag: bool) -> Seq<SyncedView> {
    table.map_values(|x: SyncedView| SyncedView { sync: ComponentSync { should_sync: flag, ..x.sync }, ..x })
}

/// The copies of one attribute type on the local objects that replicate it.
pub struct ComponentSyncs {
    network_type_uuid: u128,
    components: Vec<SyncedComponent>,
}

/// The views of `s`, in order.
pub open spec fn synced_views(s: Seq<SyncedComponent>) -> Seq<SyncedView> {
    s.map_values(|x: SyncedComponent| x@)
}

impl ComponentSyncs {
    /// The tag of the attribute type.
    pub closed spec fn spec_network_type_uuid(&self) -> u128 {
        self.network_type_uuid
    }

    /// The copies, in the order they were attached.
    pub closed spec fn view(&self) -> Seq<SyncedView> {
        synced_views(self.components@)
    }

    pub fn new(network_type_uuid: u128) -> (r: ComponentSyncs)
        ensures
            r@ == Seq::<SyncedView>::empty(),
            r.spec_network_type_uuid() == network_type_uuid,
    {
        let r = ComponentSyncs { network_type_uuid, components: Vec::new() };
        assert(r@ =~= Seq::<SyncedView>::empty());
        r
    }

    pub fn network_type_uuid(&self) -> (r: u128)
        ensures
            r == self.spec_network_type_uuid(),
    {
        self.network_type_uuid
    }

    /// Attaches the attribute, with its replication state and encoded value, to an object.
    pub fn attach(&mut self, component: SyncedComponent)
        ensures
            final(self)@ == old(self)@.push(component@),
            final(self).spec_network_type_uuid() == old(self).spec_network_type_uuid(),
    {
        self.components.push(component);
        assert(self@ =~= old(self)@.push(component@));
    }

    /// The encoded value of the attribute on `entity`, if it has it.
    pub fn value(&self, entity: Entity) -> (r: Option<Vec<u8>>)
        ensures
            r matches Some(v) ==> exists|i: int| 0 <= i < self@.len() && self@[i].entity == entity && #[trigger] self@[i].value == v@,
            r is None ==> forall|i: int| 0 <= i < self@.len() ==> #[trigger] self@[i].entity != entity,
    {
        let mut i: usize = 0;
        while i < self.components.len()
            invariant
                i <= self@.len(),
                self@.len() == self.components@.len(),
                forall|j: int| 0 <= j < i ==> #[trigger] self@[j].entity != entity,
            decreases self.components.len() - i,
        {
            if self.components[i].entity == entity {
                let v = crate::message::copy_bytes(&self.components[i].value);
                assert(self@[i as int].value == v@);
                return Some(v);
            }
            i = i + 1;
        }
        None
    }

    /// Takes a new local value for the attribute on `entity` and marks it to be sent.
    pub fn set_local_value(&mut self, entity: Entity, value: &Vec<u8>)
        ensures
            final(self).spec_network_type_uuid() == old(self).spec_network_type_uuid(),
            final(self)@ == old(self)@.map_values(
                |x: SyncedView|
                    if x.entity == entity {
                        SyncedView { value: value@, sync: ComponentSync { should_sync: true, ..x.sync }, ..x }
                    } else {
                        x
                    },
            ),
    {
        let ghost t0 = old(self)@;
        let mut i: usize = 0;
        while i < self.components.len()
            invariant
                i <= self.components@.len(),
                self@.len() == t0.len(),
                self@.len() == self.components@.len(),
                self.network_type_uuid == old(self).network_type_uuid,
                forall|j: int| 0 <= j < i ==> #[trigger] self@[j] == (if t0[j].entity == entity {
                    SyncedView { value: value@, sync: ComponentSync { should_sync: true, ..t0[j].sync }, ..t0[j] }
                } else {
                    t0[j]
                }),
                forall|j: int| i <= j < t0.len() ==> #[trigger] self@[j] == t0[j],
            decreases self.components.len() - i,
        {
            assert(self@[i as int] == self.components@[i as int]@);
            if self.components[i].entity == entity {
                let c = &self.components[i];
                let x = SyncedComponent {
                    entity: c.entity,
                    network_entity: c.network_entity,
                    sync: ComponentSync { should_sync: true, ownership: c.sync.ownership },
                    value: crate::message::copy_bytes(value),
                };
                self.replace_at(i, x);
            }
            i = i + 1;
        }
        assert(self@ =~= t0.map_values(
            |x: SyncedView|
                if x.entity == entity {
                    SyncedView { value: value@, sync: ComponentSync { should_sync: true, ..x.sync }, ..x }
                } else {
                    x
                },
        ));
    }

    fn replace_at(&mut self, i: usize, x: SyncedComponent)
        requires
            i < old(self).components@.len(),
        ensures
            final(self)@ == old(self)@.update(i as int, x@),
            final(self).components@ == old(self).components@.update(i as int, x),
            final(self).spec_network_type_uuid() == old(self).spec_network_type_uuid(),
    {
        self.components.set(i, x);
        assert(self@ =~= old(self)@.update(i as int, x@));
    }

    /// A copy of the entry at `i` with its flag set to `flag`.
    fn flagged(&self, i: usize, flag: bool) -> (r: SyncedComponent)
        requires
            i < self.components@.len(),
        ensures
            r@ == (SyncedView { sync: ComponentSync { should_sync: flag, ..self@[i as int].sync }, ..self@[i as int] }),
    {
        let c = &self.components[i];
        SyncedComponent {
            entity: c.entity,
            network_entity: c.network_entity,
            sync: ComponentSync { should_sync: flag, ownership: c.sync.ownership },
            value: crate::message::copy_bytes(&c.value),
        }
    }

    fn set_all_flags(&mut self, flag: bool)
        ensures
            final(self)@ == with_sync_flag(old(self)@, flag),
            final(self).spec_network_type_uuid() == old(self).spec_network_type_uuid(),
    {
        let ghost t0 = old(self)@;
        let mut i: usize = 0;
        while i < self.components.len()
            invariant
                i <= self.components@.len(),
                self@.len() == t0.len(),
                self@.len() == self.components@.len(),
                self.network_type_uuid == old(self).network_type_uuid,
                forall|j: int| 0 <= j < i ==> #[trigger] self@[j] == with_sync_flag(t0, flag)[j],
                forall|j: int| i <= j < t0.len() ==> #[trigger] self@[j] == t0[j],
            decreases self.components.len() - i,
        {
            let x = self.flagged(i, flag);
            self.replace_at(i, x);
            i = i + 1;
        }
        assert(self@ =~= with_sync_flag(t0, flag));
    }
}

/// Receive path: applies, in order, each update of `messages` for this attribute type that comes
/// from an owner of the attribute on a known object; every other is discarded. Returns, in order,
/// why each update of this type for an unknown object or from a non-owner was discarded.
pub fn component_sync_receiving_system(
    syncs: &mut ComponentSyncs,
    network_entity_registry: &NetworkEntityRegistry,
    messages: &Vec<Message>,
) -> (r: Vec<UpdateRejection>)
    requires
        network_entity_registry.wf(),
    ensures
        r@ == rejections(
            old(syncs)@,
            network_entity_registry@,
            old(syncs).spec_network_type_uuid(),
            message_views(messages@),
        ),
        final(syncs)@ == receive_all(
            old(syncs)@,
            network_entity_registry@,
            old(syncs).spec_network_type_uuid(),
            message_views(messages@),
        ),
        final(syncs).spec_network_type_uuid() == old(syncs).spec_network_type_uuid(),
{
    let ghost uuid = syncs.spec_network_type_uuid();
    let ghost reg = network_entity_registry@;
    let ghost mv = message_views(messages@);
    let mut rejected: Vec<UpdateRejection> = Vec::new();
    let mut k: usize = 0;
    while k < messages.len()
        invariant
            rejected@ == rejections(old(syncs)@, reg, uuid, mv.take(k as int)),
            network_entity_registry.wf(),
            reg == network_entity_registry@,
            mv == message_views(messages@),
            uuid == syncs.spec_network_type_uuid(),
            uuid == old(syncs).spec_network_type_uuid(),
            k <= messages@.len(),
            syncs@ == receive_all(old(syncs)@, reg, uuid, mv.take(k as int)),
        decreases messages.len() - k,
    {
        proof {
            assert(mv.take(k + 1).drop_last() =~= mv.take(k as int));
            assert(mv.take(k + 1).last() == messages@[k as int]@);
        }
        let ghost t0 = syncs@;
        let m = &messages[k];
        match &m.payload {
            Payload::ComponentUpdate { target_entity, network_type_uuid, data } => {
                if *network_type_uuid == syncs.network_type_uuid {
                    match network_entity_registry.get(target_entity) {
                        Some(entity) => {
                            assert(m@.payload == PayloadView::ComponentUpdate {
                                target_entity: *target_entity,
                                network_type_uuid: *network_type_uuid,
                                data: data@,
                            });
                            let mut denied = false;
                            let mut i: usize = 0;
                            while i < syncs.components.len()
                                invariant
                                    denied == denied_before(t0, i as int, entity, m.sender),
                                    i <= syncs.components@.len(),
                                    syncs@.len() == t0.len(),
                                    syncs@.len() == syncs.components@.len(),
                                    uuid == syncs.spec_network_type_uuid(),
                                    reg.contains_key(*target_entity) && reg[*target_entity] == entity,
                                    *network_type_uuid == uuid,
                                    k < messages@.len(),
                                    m@ == messages@[k as int]@,
                                    m@.payload == (PayloadView::ComponentUpdate {
                                        target_entity: *target_entity,
                                        network_type_uuid: *network_type_uuid,
                                        data: data@,
                                    }),
                                    forall|j: int| 0 <= j < i ==> #[trigger] syncs@[j] == receive_one(t0, reg, uuid, m@)[j],
                                    forall|j: int| i <= j < t0.len() ==> #[trigger] syncs@[j] == t0[j],
                                decreases syncs.components.len() - i,
                            {
                                assert(syncs@[i as int] == syncs.components@[i as int]@);
                                assert(syncs@[i as int] == t0[i as int]);
                                if syncs.components[i].entity == entity
                                    && !m.sender.targeted_by(&syncs.components[i].sync.ownership) {
                                    denied = true;
                                }
                                proof {
                                    assert forall|e: Entity, a: Actor| denied_before(t0, i + 1, e, a) == (denied_before(t0, i as int, e, a) || (t0[i as int].entity == e && !a.spec_targeted_by(t0[i as int].sync.ownership))) by {
                                        if denied_before(t0, i + 1, e, a) {
                                            let j = choose|j: int| 0 <= j < i + 1 && (#[trigger] t0[j]).entity == e && !a.spec_targeted_by(t0[j].sync.ownership);
                                            if j < i {
                                                assert(denied_before(t0, i as int, e, a));
                                            }
                                        }
                                        if denied_before(t0, i as int, e, a) {
                                            let j = choose|j: int| 0 <= j < i && (#[trigger] t0[j]).entity == e && !a.spec_targeted_by(t0[j].sync.ownership);
                                            assert(0 <= j < i + 1);
                                        }
                                    }
                                }
                                if syncs.components[i].entity == entity
                                    && m.sender.targeted_by(&syncs.components[i].sync.ownership) {
                                    let c = &syncs.components[i];
                                    let x = SyncedComponent {
                                        entity: c.entity,
                                        network_entity: c.network_entity,
                                        sync: c.sync,
                                        value: crate::message::copy_bytes(data),
                                    };
                                    syncs.replace_at(i, x);
                                }
                                i = i + 1;
                            }
                            assert(syncs@ =~= receive_one(t0, reg, uuid, m@));
                            if denied {
                                rejected.push(UpdateRejection::UnauthorizedSender {
                                    network_entity: *target_entity,
                                    sender: m.sender,
                                });
                            }
                        },
                        None => {
                            assert(receive_one(t0, reg, uuid, m@) =~= t0);
                            rejected.push(UpdateRejection::UnknownNetworkEntity(*target_entity));
                        },
                    }
                } else {
                    assert(receive_one(t0, reg, uuid, m@) =~= t0);
                }
            },
            Payload::Spawn { .. } => {
                assert(receive_one(t0, reg, uuid, m@) =~= t0);
            },
        }
        k = k + 1;
    }
    assert(mv.take(k as int) =~= mv);
    rejected
}

/// Connection-established path: any peer connecting marks every copy to be sent.
pub fn component_sync_connect_system(syncs: &mut ComponentSyncs, events: &Vec<ConnectionEvent>)
    ensures
        final(syncs).spec_network_type_uuid() == old(syncs).spec_network_type_uuid(),
        (exists|k: int| 0 <= k < events@.len() && #[trigger] events@[k] is Connected) ==> final(syncs)@
            == with_sync_flag(old(syncs)@, true),
        !(exists|k: int| 0 <= k < events@.len() && #[trigger] events@[k] is Connected) ==> final(syncs)@
            == old(syncs)@,
{
    let mut k: usize = 0;
    while k < events.len()
        invariant
            k <= events@.len(),
            forall|j: int| 0 <= j < k ==> !(#[trigger] events@[j] is Connected),
            syncs@ == old(syncs)@,
            syncs.spec_network_type_uuid() == old(syncs).spec_network_type_uuid(),
        decreases events.len() - k,
    {
        if let ConnectionEvent::Connected { .. } = &events[k] {
            syncs.set_all_flags(true);
            return;
        }
        k = k + 1;
    }
}

/// Local-change path: marks the copies on `changed` objects to be sent.
pub fn component_sync_marking_system(syncs: &mut ComponentSyncs, changed: &Vec<Entity>)
    ensures
        final(syncs).spec_network_type_uuid() == old(syncs).spec_network_type_uuid(),
        final(syncs)@ == old(syncs)@.map_values(
            |x: SyncedView|
                if changed@.contains(x.entity) {
                    SyncedView { sync: ComponentSync { should_sync: true, ..x.sync }, ..x }
                } else {
                    x
                },
        ),
{
    let ghost t0 = old(syncs)@;
    let mut i: usize = 0;
    while i < syncs.components.len()
        invariant
            i <= syncs.components@.len(),
            syncs@.len() == t0.len(),
            syncs@.len() == syncs.components@.len(),
            syncs.spec_network_type_uuid() == old(syncs).spec_network_type_uuid(),
            forall|j: int| 0 <= j < i ==> #[trigger] syncs@[j] == (if changed@.contains(t0[j].entity) {
                SyncedView { sync: ComponentSync { should_sync: true, ..t0[j].sync }, ..t0[j] }
            } else {
                t0[j]
            }),
            forall|j: int| i <= j < t0.len() ==> #[trigger] syncs@[j] == t0[j],
        decreases syncs.components.len() - i,
    {
        let e = syncs.components[i].entity;
        let mut found = false;
        let mut j: usize = 0;
        while j < changed.len()
            invariant
                j <= changed@.len(),
                found == exists|q: int| 0 <= q < j && changed@[q] == e,
            decreases changed.len() - j,
        {
            if changed[j] == e {
                found = true;
            }
            j = j + 1;
        }
        proof {
            if found {
                assert(changed@.contains(e));
            } else {
                assert(!changed@.contains(e));
            }
        }
        if found {
            let x = syncs.flagged(i, true);
            syncs.replace_at(i, x);
        }
        i = i + 1;
    }
    assert(syncs@ =~= t0.map_values(
        |x: SyncedView|
            if changed@.contains(x.entity) {
                SyncedView { sync: ComponentSync { should_sync: true, ..x.sync }, ..x }
            } else {
                x
            },
    ));
}

/// Send path: every copy marked to be sent is unmarked; those the local peer owns are queued,
/// one update per target of `sync_components_with`.
pub fn component_sync_sending_system(
    syncs: &mut ComponentSyncs,
    network_handle: &mut NetworkHandle,
    local_actor: Actor,
    sync_components_with: &Vec<NetworkTarget>,
)
    ensures
        final(syncs).spec_network_type_uuid() == old(syncs).spec_network_type_uuid(),
        final(syncs)@ == with_sync_flag(old(syncs)@, false),
        final(network_handle).outbox() == old(network_handle).outbox() + sync_sends(
            old(syncs)@,
            local_actor,
            old(syncs).spec_network_type_uuid(),
            sync_components_with@,
        ),
        final(network_handle).spawn_queue() == old(network_handle).spawn_queue(),
{
    let ghost t0 = old(syncs)@;
    let ghost uuid = syncs.spec_network_type_uuid();
    let ghost tg = sync_components_with@;
    let mut i: usize = 0;
    proof {
        assert(t0.take(0) =~= Seq::<SyncedView>::empty());
        assert(old(network_handle).outbox() + sync_sends(t0.take(0), local_actor, uuid, tg) =~= old(network_handle).outbox());
    }
    while i < syncs.components.len()
        invariant
            i <= syncs.components@.len(),
            syncs@.len() == t0.len(),
            syncs@.len() == syncs.components@.len(),
            uuid == syncs.spec_network_type_uuid(),
            uuid == old(syncs).spec_network_type_uuid(),
            tg == sync_components_with@,
            forall|j: int| 0 <= j < i ==> #[trigger] syncs@[j] == with_sync_flag(t0, false)[j],
            forall|j: int| i <= j < t0.len() ==> #[trigger] syncs@[j] == t0[j],
            network_handle.outbox() == old(network_handle).outbox() + sync_sends(t0.take(i as int), local_actor, uuid, tg),
            network_handle.spawn_queue() == old(network_handle).spawn_queue(),
        decreases syncs.components.len() - i,
    {
        let ghost x = t0[i as int];
        proof {
            assert(syncs@[i as int] == syncs.components@[i as int]@);
            assert(t0.take(i + 1).drop_last() =~= t0.take(i as int));
            assert(t0.take(i + 1).last() == x);
            assert(syncs@[i as int] == x);
        }
        let ghost before = network_handle.outbox();
        if syncs.components[i].sync.should_sync {
            let cleared = syncs.flagged(i, false);
            syncs.replace_at(i, cleared);
            if local_actor.targeted_by(&syncs.components[i].sync.ownership) {
                let mut k: usize = 0;
                while k < sync_components_with.len()
                    invariant
                        k <= tg.len(),
                        tg == sync_components_with@,
                        i < syncs.components@.len(),
                        syncs.components@[i as int].network_entity == x.network_entity,
                        syncs.components@[i as int].value@ == x.value,
                        uuid == syncs.network_type_uuid,
                        network_handle.outbox() == before + tg.take(k as int).map_values(
                            |t: NetworkTarget|
                                (t, PayloadView::ComponentUpdate {
                                    target_entity: x.network_entity,
                                    network_type_uuid: uuid,
                                    data: x.value,
                                }),
                        ),
                        network_handle.spawn_queue() == old(network_handle).spawn_queue(),
                    decreases sync_components_with.len() - k,
                {
                    let data = crate::message::copy_bytes(&syncs.components[i].value);
                    network_handle.sync_component(
                        sync_components_with[k],
                        syncs.components[i].network_entity,
                        syncs.network_type_uuid,
                        data,
                    );
                    proof {
                        assert(tg.take(k + 1) =~= tg.take(k as int).push(tg[k as int]));
                        assert(network_handle.outbox() =~= before + tg.take(k + 1).map_values(
                            |t: NetworkTarget|
                                (t, PayloadView::ComponentUpdate {
                                    target_entity: x.network_entity,
                                    network_type_uuid: uuid,
                                    data: x.value,
                                }),
                        ));
                    }
                    k = k + 1;
                }
                proof {
                    assert(tg.take(k as int) =~= tg);
                }
            }
        }
        proof {
            assert(network_handle.outbox() =~= old(network_handle).outbox() + sync_sends(t0.take(i + 1), local_actor, uuid, tg));
        }
        i = i + 1;
    }
    proof {
        assert(t0.take(i as int) =~= t0);
        assert(syncs@ =~= with_sync_flag(t0, false));
    }
}

} // verus!
