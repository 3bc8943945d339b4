use vstd::prelude::*;
use crate::error::Error;
use crate::framing::{FrameDecoder, frames_of, has_frame, views, bodies_fit};
use crate::handshake::{
    Handshake,
    resolved_local_id,
    resolved_remote_id,
    mints_remote_id,
    local_id_override,
    remote_id_override,
};
use crate::ids::{Actor, ActorId, ActorTy, ConnectionId, NetworkTarget};
use crate::message::{Message, MessageView, Payload, PayloadView, payload_views, message_views, targeted_views};
use crate::table::{keys_unique, has_key, map_of, lemma_map_of_contains, lemma_map_of_index, lemma_map_of_push, lemma_map_of_update, lemma_map_of_remove};

verus! {

/// What the manager reports about the lifecycle of connections.
#[derive(Clone, Debug)]
pub enum ConnectionEvent {
    Connected { actor: Actor, connection_id: ConnectionId },
    Disconnected { actor: Actor, connection_id: ConnectionId, cause: Error },
}

/// The transport side of one connection.
pub enum ConnectionInner {
    /// A remote peer: the receive side of its framed byte stream.
    External { decoder: FrameDecoder },
    /// The local peer: a plain queue, drained whole on receipt.
    Internal { payloads: Vec<Payload> },
}

/// One transport paired with the peer at its far end.
pub struct Connection {
    inner: ConnectionInner,
    actor: Actor,
}

impl Connection {
    pub closed spec fn spec_actor(&self) -> Actor {
        self.actor
    }

    pub fn actor(&self) -> (r: Actor)
        ensures
            r == self.spec_actor(),
    {
        self.actor
    }
}

/// The payloads of `s`, in order, whose target selects `actor`.
pub open spec fn batch_for(s: Seq<(NetworkTarget, PayloadView)>, actor: Actor) -> Seq<PayloadView>
    decreases s.len(),
{
    if s.len() == 0 {
        seq![]
    } else {
        let rest = batch_for(s.drop_last(), actor);
        if actor.spec_targeted_by(s.last().0) {
            rest.push(s.last().1)
        } else {
            rest
        }
    }
}

/// `payloads` stamped with their sender and receiver.
pub open spec fn stamped(payloads: Seq<PayloadView>, sender: Actor, receiver: Actor) -> Seq<MessageView> {
    payloads.map_values(|p: PayloadView| MessageView { payload: p, sender, receiver })
}

/// The messages that batches received on the connections of `actors` make, in order; a batch
/// on a connection that is not there any more is dropped.
pub open spec fn inbound(
    batches: Seq<(ConnectionId, Seq<PayloadView>)>,
    actors: Map<ConnectionId, Actor>,
    receiver: Actor,
) -> Seq<MessageView>
    decreases batches.len(),
{
    if batches.len() == 0 {
        seq![]
    } else {
        let rest = inbound(batches.drop_last(), actors, receiver);
        let (c, ps) = batches.last();
        if actors.contains_key(c) {
            rest + stamped(ps, actors[c], receiver)
        } else {
            rest
        }
    }
}

/// The batches of `s`, in order, with their payloads as views.
pub open spec fn batch_views(s: Seq<(ConnectionId, Vec<Payload>)>) -> Seq<(ConnectionId, Seq<PayloadView>)> {
    s.map_values(|e: (ConnectionId, Vec<Payload>)| (e.0, payload_views(e.1@)))
}

spec fn entries(s: Seq<(ConnectionId, Connection)>) -> Seq<(ConnectionId, Actor)> {
    s.map_values(|e: (ConnectionId, Connection)| (e.0, e.1.actor))
}

spec fn stream_entries(s: Seq<(ConnectionId, Connection)>) -> Seq<(ConnectionId, Seq<u8>)> {
    s.map_values(
        |e: (ConnectionId, Connection)|
            (
                e.0,
                match e.1.inner {
                    ConnectionInner::External { decoder } => decoder.stream(),
                    ConnectionInner::Internal { .. } => Seq::<u8>::empty(),
                },
            ),
    )
}

/// The actor-id generator after it hands out the id it stands at: one further on, and none left
/// once the largest id is reached.
pub open spec fn actor_id_after_mint(next: Option<ActorId>) -> Option<ActorId> {
    match next {
        Some(a) => if a.0 + 1 >= u64::MAX {
            None
        } else {
            Some(ActorId((a.0 + 1) as u64))
        },
        None => None,
    }
}

/// Whether a connection whose handshake makes the local id `new_local` and the remote id `remote`
/// would give two peers among `actors` the same id.
pub open spec fn handshake_collides(actors: Map<ConnectionId, Actor>, new_local: ActorId, remote: ActorId) -> bool {
    remote == new_local || exists|c: ConnectionId|
        #[trigger] actors.contains_key(c) && c != ConnectionId(0) && (actors[c].id == new_local
            || actors[c].id == remote)
}

/// Some connection at a position from 1 up to `i` of `s` has id `c`.
spec fn listed_between(s: Seq<(ConnectionId, Connection)>, i: int, c: ConnectionId) -> bool {
    exists|j: int| 1 <= j < i && #[trigger] s[j].0 == c
}

/// Some connection among the first `i` of `s` has id `c` and is selected by `target`.
spec fn selected_before(s: Seq<(ConnectionId, Connection)>, i: int, c: ConnectionId, target: NetworkTarget) -> bool {
    exists|j: int| 0 <= j < i && #[trigger] s[j].0 == c && s[j].1.actor.spec_targeted_by(target)
}

/// The payloads of `targeted_payloads` that `actor` is to receive, in order, each copied.
pub fn batch(targeted_payloads: &Vec<(NetworkTarget, Payload)>, actor: &Actor) -> (r: Vec<Payload>)
    ensures
        payload_views(r@) == batch_for(targeted_views(targeted_payloads@), *actor),
{
    let ghost tv = targeted_views(targeted_payloads@);
    let mut r: Vec<Payload> = Vec::new();
    let mut j: usize = 0;
    while j < targeted_payloads.len()
        invariant
            j <= targeted_payloads@.len(),
            tv == targeted_views(targeted_payloads@),
            payload_views(r@) == batch_for(tv.take(j as int), *actor),
        decreases targeted_payloads.len() - j,
    {
        let ghost before = r@;
        proof {
            assert(tv.take(j + 1).drop_last() =~= tv.take(j as int));
            assert(tv.take(j + 1).last() == tv[j as int]);
        }
        if actor.targeted_by(&targeted_payloads[j].0) {
            let p = targeted_payloads[j].1.duplicate();
            r.push(p);
            proof {
                assert(payload_views(r@) =~= payload_views(before).push(p@));
            }
        }
        j = j + 1;
    }
    assert(tv.take(j as int) =~= tv);
    r
}

/// Appends to `out` the payloads of `payloads`, each copied and stamped with `sender` and `receiver`.
fn stamp_all(out: &mut Vec<Message>, payloads: &Vec<Payload>, sender: Actor, receiver: Actor)
    ensures
        message_views(final(out)@) == message_views(old(out)@) + stamped(payload_views(payloads@), sender, receiver),
{
    let mut j: usize = 0;
    while j < payloads.len()
        invariant
            j <= payloads@.len(),
            message_views(out@) == message_views(old(out)@) + stamped(payload_views(payloads@.take(j as int)), sender, receiver),
        decreases payloads.len() - j,
    {
        let ghost before = out@;
        let m = Message { payload: payloads[j].duplicate(), sender, receiver };
        out.push(m);
        proof {
            assert(payload_views(payloads@.take(j + 1)) =~= payload_views(payloads@.take(j as int)).push(payloads@[j as int]@));
            assert(message_views(out@) =~= message_views(before).push(m@));
            assert(stamped(payload_views(payloads@.take(j + 1)), sender, receiver) =~= stamped(payload_views(payloads@.take(j as int)), sender, receiver).push(m@));
        }
        j = j + 1;
    }
    assert(payloads@.take(j as int) =~= payloads@);
}

/// Owns every connection: the local peer's loopback, always there under connection id 0,
/// and one per remote peer. No two connections share a connection id or a peer id.
pub struct ConnectionManager {
    connections: Vec<(ConnectionId, Connection)>,
    next_connection_id: ConnectionId,
    next_actor_id: ActorId,
}

impl ConnectionManager {
    /// The peer at the far end of each connection.
    pub closed spec fn view(&self) -> Map<ConnectionId, Actor> {
        map_of(entries(self.connections@))
    }

    /// The local peer.
    pub closed spec fn local_actor(&self) -> Actor {
        self.connections@[0].1.actor
    }

    /// What the local peer has sent itself and not yet received.
    pub closed spec fn loopback(&self) -> Seq<PayloadView> {
        match self.connections@[0].1.inner {
            ConnectionInner::Internal { payloads } => payload_views(payloads@),
            ConnectionInner::External { .. } => Seq::<PayloadView>::empty(),
        }
    }

    /// Bytes received on each remote connection and not yet taken out as frames.
    pub closed spec fn streams(&self) -> Map<ConnectionId, Seq<u8>> {
        map_of(stream_entries(self.connections@))
    }

    /// The id the actor-id generator hands out next, if any is left.
    pub closed spec fn spec_next_actor_id(&self) -> Option<ActorId> {
        if self.next_actor_id.0 == u64::MAX {
            None
        } else {
            Some(self.next_actor_id)
        }
    }

    pub closed spec fn spec_next_connection_id(&self) -> u64 {
        self.next_connection_id.0
    }

    /// The table's invariant.
    pub closed spec fn wf(&self) -> bool {
        let s = self.connections@;
        &&& s.len() >= 1
        &&& s[0].0 == ConnectionId(0)
        &&& s[0].1.inner is Internal
        &&& forall|i: int| 1 <= i < s.len() ==> (#[trigger] s[i]).1.inner is External
        &&& keys_unique(entries(s))
        &&& forall|i: int, j: int|
            0 <= i < s.len() && 0 <= j < s.len() && i != j ==> (#[trigger] s[i]).1.actor.id != (
            #[trigger] s[j]).1.actor.id
        &&& forall|i: int| 0 <= i < s.len() ==> (#[trigger] s[i]).0.0 < self.next_connection_id.0
    }

    proof fn lemma_entries(&self)
        requires
            self.wf(),
        ensures
            entries(self.connections@).len() == self.connections@.len(),
            stream_entries(self.connections@).len() == self.connections@.len(),
            keys_unique(stream_entries(self.connections@)),
            forall|i: int|
                0 <= i < self.connections@.len() ==> #[trigger] entries(self.connections@)[i] == (
                self.connections@[i].0, self.connections@[i].1.actor),
            forall|i: int|
                0 <= i < self.connections@.len() ==> (#[trigger] stream_entries(self.connections@)[i]).0
                    == self.connections@[i].0,
            forall|i: int|
                0 <= i < self.connections@.len() ==> self@.contains_key(self.connections@[i].0)
                    && self@[#[trigger] self.connections@[i].0] == self.connections@[i].1.actor,
            self@.contains_key(ConnectionId(0)),
            self@[ConnectionId(0)] == self.local_actor(),
            forall|c: ConnectionId|
                #[trigger] self@.contains_key(c) ==> exists|i: int|
                    0 <= i < self.connections@.len() && #[trigger] self.connections@[i].0 == c,
    {
        let s = self.connections@;
        let e = entries(s);
        let se = stream_entries(s);
        assert forall|i: int, j: int|
            0 <= i < se.len() && 0 <= j < se.len() && i != j implies #[trigger] se[i].0
            != #[trigger] se[j].0 by {
            assert(se[i].0 == e[i].0 && se[j].0 == e[j].0);
        }
        assert forall|i: int| 0 <= i < s.len() implies self@.contains_key(s[i].0) && self@[#[trigger] s[i].0]
            == s[i].1.actor by {
            lemma_map_of_index(e, i);
        }
        assert forall|c: ConnectionId| #[trigger] self@.contains_key(c) implies exists|i: int|
            0 <= i < s.len() && #[trigger] s[i].0 == c by {
            lemma_map_of_contains(e, c);
            let i = choose|i: int| 0 <= i < e.len() && #[trigger] e[i].0 == c;
            assert(s[i].0 == c);
        }
        assert(s[0].0 == ConnectionId(0));
    }

    /// A manager whose only connection is the local peer's loopback; the local peer has id 0
    /// until a handshake assigns another.
    pub fn new(actor_ty: ActorTy) -> (r: ConnectionManager)
        ensures
            r.wf(),
            r@ == map![ConnectionId(0) => Actor { id: ActorId(0), ty: actor_ty }],
            r.local_actor() == (Actor { id: ActorId(0), ty: actor_ty }),
            r.loopback() == Seq::<PayloadView>::empty(),
            r.spec_next_actor_id() == Some(ActorId(1)),
            r.spec_next_connection_id() == 1,
    {
        let internal_connection = Connection {
            inner: ConnectionInner::Internal { payloads: Vec::new() },
            actor: Actor { id: ActorId(0), ty: actor_ty },
        };
        let mut connections: Vec<(ConnectionId, Connection)> = Vec::new();
        connections.push((ConnectionId(0), internal_connection));
        let r = ConnectionManager {
            connections,
            next_connection_id: ConnectionId(1),
            next_actor_id: ActorId(1),
        };
        proof {
            let e = entries(r.connections@);
            assert(e.len() == 1);
            assert(e[0] == (ConnectionId(0), Actor { id: ActorId(0), ty: actor_ty }));
            assert(e.drop_last() =~= Seq::<(ConnectionId, Actor)>::empty());
            assert(map_of(Seq::<(ConnectionId, Actor)>::empty()) == Map::<ConnectionId, Actor>::empty());
            assert(map_of(e) == map_of(e.drop_last()).insert(e.last().0, e.last().1));
            assert(payload_views(Seq::<Payload>::empty()) =~= Seq::<PayloadView>::empty());
            assert(r@ =~= map![ConnectionId(0) => Actor { id: ActorId(0), ty: actor_ty }]);
        }
        r
    }

    /// The local peer.
    /// What every valid manager holds: the local peer under connection id 0, only ids below the
    /// connection-id generator, and a different peer id on every connection.
    pub proof fn lemma_table_facts(&self)
        requires
            self.wf(),
        ensures
            self@.contains_key(ConnectionId(0)),
            self@[ConnectionId(0)] == self.local_actor(),
            self.spec_next_connection_id() >= 1,
            forall|c: ConnectionId| #[trigger] self@.contains_key(c) ==> c.0 < self.spec_next_connection_id(),
            forall|c1: ConnectionId, c2: ConnectionId|
                #[trigger] self@.contains_key(c1) && #[trigger] self@.contains_key(c2) && c1 != c2
                    ==> self@[c1].id != self@[c2].id,
    {
        self.lemma_entries();
        self.lemma_ids_distinct();
        assert forall|c: ConnectionId| #[trigger] self@.contains_key(c) implies c.0 < self.spec_next_connection_id() by {
            let i = choose|i: int| 0 <= i < self.connections@.len() && #[trigger] self.connections@[i].0 == c;
        }
    }

    /// The local peer, which is always the one under connection id 0.
    pub fn get_local_actor(&self) -> (r: Actor)
        requires
            self.wf(),
        ensures
            r == self.local_actor(),
            self@.contains_key(ConnectionId(0)),
            self@[ConnectionId(0)] == r,
            self.spec_next_connection_id() >= 1,
            forall|c: ConnectionId| #[trigger] self@.contains_key(c) ==> c.0 < self.spec_next_connection_id(),
            forall|c1: ConnectionId, c2: ConnectionId|
                #[trigger] self@.contains_key(c1) && #[trigger] self@.contains_key(c2) && c1 != c2
                    ==> self@[c1].id != self@[c2].id,
    {
        proof {
            self.lemma_table_facts();
        }
        self.connections[0].1.actor
    }

    /// Every connection with the peer at its far end, in table order.
    pub fn connections(&self) -> (r: Vec<(ConnectionId, Actor)>)
        requires
            self.wf(),
        ensures
            keys_unique(r@),
            map_of(r@) == self@,
    {
        let mut r: Vec<(ConnectionId, Actor)> = Vec::new();
        let mut i: usize = 0;
        while i < self.connections.len()
            invariant
                self.wf(),
                i <= self.connections@.len(),
                r@ == entries(self.connections@).take(i as int),
            decreases self.connections.len() - i,
        {
            r.push((self.connections[i].0, self.connections[i].1.actor));
            i = i + 1;
            assert(r@ =~= entries(self.connections@).take(i as int));
        }
        assert(r@ =~= entries(self.connections@));
        r
    }

    /// Index in the table of the connection with id `connection_id`.
    fn index_of(&self, connection_id: ConnectionId) -> (r: Option<usize>)
        requires
            self.wf(),
        ensures
            r matches Some(i) ==> i < self.connections@.len() && self.connections@[i as int].0
                == connection_id,
            r is None ==> !self@.contains_key(connection_id),
    {
        proof {
            self.lemma_entries();
        }
        let mut i: usize = 0;
        while i < self.connections.len()
            invariant
                self.wf(),
                i <= self.connections@.len(),
                forall|j: int| 0 <= j < i ==> #[trigger] self.connections@[j].0 != connection_id,
            decreases self.connections.len() - i,
        {
            if self.connections[i].0 == connection_id {
                return Some(i);
            }
            i = i + 1;
        }
        None
    }

    /// Index in the table of the connection whose peer has id `actor_id`.
    fn index_of_actor(&self, actor_id: ActorId) -> (r: Option<usize>)
        requires
            self.wf(),
        ensures
            r matches Some(i) ==> i < self.connections@.len() && self.connections@[i as int].1.actor.id
                == actor_id,
            r is None ==> forall|c: ConnectionId| #[trigger] self@.contains_key(c) ==> self@[c].id != actor_id,
    {
        proof {
            self.lemma_entries();
        }
        let mut i: usize = 0;
        while i < self.connections.len()
            invariant
                self.wf(),
                i <= self.connections@.len(),
                forall|j: int| 0 <= j < i ==> #[trigger] self.connections@[j].1.actor.id != actor_id,
            decreases self.connections.len() - i,
        {
            if self.connections[i].1.actor.id == actor_id {
                return Some(i);
            }
            i = i + 1;
        }
        None
    }

    /// The peer at the far end of `connection_id`.
    pub fn get_actor(&self, connection_id: ConnectionId) -> (r: Option<Actor>)
        requires
            self.wf(),
        ensures
            r == (if self@.contains_key(connection_id) {
                Some(self@[connection_id])
            } else {
                None
            }),
    {
        proof {
            self.lemma_entries();
        }
        match self.index_of(connection_id) {
            Some(i) => Some(self.connections[i].1.actor),
            None => None,
        }
    }

    /// The connection to `connection_id`.
    pub fn get(&self, connection_id: ConnectionId) -> (r: Option<&Connection>)
        requires
            self.wf(),
        ensures
            r is Some <==> self@.contains_key(connection_id),
            r matches Some(c) ==> c.spec_actor() == self@[connection_id],
    {
        proof {
            self.lemma_entries();
        }
        match self.index_of(connection_id) {
            Some(i) => Some(&self.connections[i].1),
            None => None,
        }
    }

    /// The connection to the peer with id `actor_id`.
    pub fn get_connection_id(&self, actor_id: &ActorId) -> (r: Option<ConnectionId>)
        requires
            self.wf(),
        ensures
            r matches Some(c) ==> self@.contains_key(c) && self@[c].id == *actor_id,
            r is None ==> forall|c: ConnectionId| #[trigger] self@.contains_key(c) ==> self@[c].id != *actor_id,
            forall|c: ConnectionId| #[trigger] self@.contains_key(c) && self@[c].id == *actor_id ==> r == Some(c),
    {
        proof {
            self.lemma_entries();
            self.lemma_ids_distinct();
        }
        match self.index_of_actor(*actor_id) {
            Some(i) => Some(self.connections[i].0),
            None => None,
        }
    }

    /// The connections whose peer `target` selects, each once, in table order.
    pub fn get_targeted_connection_ids(&self, target: &NetworkTarget) -> (r: Vec<ConnectionId>)
        requires
            self.wf(),
        ensures
            r@.no_duplicates(),
            forall|c: ConnectionId|
                #[trigger] r@.contains(c) <==> self@.contains_key(c) && self@[c].spec_targeted_by(
                    *target,
                ),
            target is ActorId ==> r@.len() <= 1,
    {
        proof {
            self.lemma_entries();
        }
        let ghost s = self.connections@;
        let mut r: Vec<ConnectionId> = Vec::new();
        let mut i: usize = 0;
        while i < self.connections.len()
            invariant
                self.wf(),
                s == self.connections@,
                i <= s.len(),
                r@.no_duplicates(),
                forall|c: ConnectionId| #[trigger] r@.contains(c) <==> selected_before(s, i as int, c, *target),
                target is ActorId ==> r@.len() <= 1,
            decreases s.len() - i,
        {
            let ghost r0 = r@;
            let selected = self.connections[i].1.actor.targeted_by(target);
            if selected {
                proof {
                    let c = s[i as int].0;
                    if r@.contains(c) {
                        let j = choose|j: int| 0 <= j < i && #[trigger] s[j].0 == c && s[j].1.actor.spec_targeted_by(*target);
                        assert(entries(s)[j].0 != entries(s)[i as int].0);
                    }
                    if target is ActorId && r@.len() == 1 {
                        assert(r@.contains(r@[0]));
                        let j = choose|j: int| 0 <= j < i && #[trigger] s[j].0 == r@[0] && s[j].1.actor.spec_targeted_by(*target);
                        assert(s[j].1.actor.id != s[i as int].1.actor.id);
                        assert(false);
                    }
                }
                r.push(self.connections[i].0);
            }
            proof {
                assert forall|c: ConnectionId| #[trigger] r@.contains(c) <==> selected_before(s, i + 1, c, *target) by {
                    if selected_before(s, i + 1, c, *target) {
                        let j = choose|j: int| 0 <= j < i + 1 && #[trigger] s[j].0 == c && s[j].1.actor.spec_targeted_by(*target);
                        if j < i {
                            assert(selected_before(s, i as int, c, *target));
                            assert(r0.contains(c));
                            let k = choose|k: int| 0 <= k < r0.len() && r0[k] == c;
                            assert(r@[k] == c);
                        } else {
                            assert(r@[r@.len() - 1] == c);
                        }
                    }
                    if r@.contains(c) {
                        let k = choose|k: int| 0 <= k < r@.len() && r@[k] == c;
                        if k < r0.len() {
                            assert(r0[k] == c);
                            assert(r0.contains(c));
                            let j = choose|j: int| 0 <= j < i && #[trigger] s[j].0 == c && s[j].1.actor.spec_targeted_by(*target);
                            assert(0 <= j < i + 1);
                        } else {
                            assert(s[i as int].0 == c);
                        }
                    }
                }
            }
            i = i + 1;
        }
        proof {
            assert forall|c: ConnectionId| #[trigger] r@.contains(c) <==> self@.contains_key(c) && self@[c].spec_targeted_by(*target) by {
                if r@.contains(c) {
                    let j = choose|j: int| 0 <= j < i && #[trigger] s[j].0 == c && s[j].1.actor.spec_targeted_by(*target);
                    assert(self@[s[j].0] == s[j].1.actor);
                }
                if self@.contains_key(c) && self@[c].spec_targeted_by(*target) {
                    let j = choose|j: int| 0 <= j < s.len() && #[trigger] s[j].0 == c;
                    assert(self@[s[j].0] == s[j].1.actor);
                }
            }
        }
        r
    }

    /// The ids of the peers that `target` selects, each once.
    pub fn get_targeted_actor_ids(&self, target: &NetworkTarget) -> (r: Vec<ActorId>)
        requires
            self.wf(),
        ensures
            r@.no_duplicates(),
            forall|a: ActorId|
                #[trigger] r@.contains(a) <==> exists|c: ConnectionId|
                    #[trigger] self@.contains_key(c) && self@[c].id == a && self@[c].spec_targeted_by(*target),
            target is ActorId ==> r@.len() <= 1,
    {
        let ids = self.get_targeted_connection_ids(target);
        let mut r: Vec<ActorId> = Vec::new();
        let mut k: usize = 0;
        while k < ids.len()
            invariant
                self.wf(),
                k <= ids@.len(),
                r@.len() == k,
                forall|m: int| 0 <= m < k ==> self@.contains_key(#[trigger] ids@[m]),
                forall|m: int| 0 <= m < k ==> (#[trigger] r@[m]) == self@[ids@[m]].id,
                ids@.no_duplicates(),
                forall|c: ConnectionId|
                    #[trigger] ids@.contains(c) <==> self@.contains_key(c) && self@[c].spec_targeted_by(*target),
            decreases ids.len() - k,
        {
            assert(ids@.contains(ids@[k as int]));
            let ghost r_old = r@;
            let a = self.get_actor(ids[k]);
            match a {
                Some(actor) => {
                    r.push(actor.id);
                },
                None => {
                    assert(false);
                    r.push(ActorId(0));
                },
            }
            assert forall|m: int| 0 <= m < k + 1 implies (#[trigger] r@[m]) == self@[ids@[m]].id by {
                if m < k {
                    assert(r@[m] == r_old[m]);
                }
            }
            assert forall|m: int| 0 <= m < k + 1 implies self@.contains_key(#[trigger] ids@[m]) by {
                assert(ids@.contains(ids@[m]));
            }
            k = k + 1;
        }
        proof {
            self.lemma_entries();
            self.lemma_ids_distinct();
            assert forall|m1: int, m2: int| 0 <= m1 < r@.len() && 0 <= m2 < r@.len() && m1 != m2 implies r@[m1] != r@[m2] by {
                assert(ids@[m1] != ids@[m2]);
            }
            assert forall|a: ActorId| #[trigger] r@.contains(a) <==> exists|c: ConnectionId|
                #[trigger] self@.contains_key(c) && self@[c].id == a && self@[c].spec_targeted_by(*target) by {
                if r@.contains(a) {
                    let m = choose|m: int| 0 <= m < r@.len() && r@[m] == a;
                    assert(ids@.contains(ids@[m]));
                    assert(self@.contains_key(ids@[m]) && self@[ids@[m]].id == a);
                }
                if exists|c: ConnectionId| #[trigger] self@.contains_key(c) && self@[c].id == a && self@[c].spec_targeted_by(*target) {
                    let c = choose|c: ConnectionId| #[trigger] self@.contains_key(c) && self@[c].id == a && self@[c].spec_targeted_by(*target);
                    assert(ids@.contains(c));
                    let m = choose|m: int| 0 <= m < ids@.len() && ids@[m] == c;
                    assert(r@[m] == a);
                }
            }
        }
        r
    }

    /// Distinct connections lead to distinct peers.
    proof fn lemma_ids_distinct(&self)
        requires
            self.wf(),
        ensures
            forall|c1: ConnectionId, c2: ConnectionId|
                #[trigger] self@.contains_key(c1) && #[trigger] self@.contains_key(c2) && c1 != c2
                    ==> self@[c1].id != self@[c2].id,
    {
        self.lemma_entries();
        assert forall|c1: ConnectionId, c2: ConnectionId|
            #[trigger] self@.contains_key(c1) && #[trigger] self@.contains_key(c2) && c1 != c2 implies self@[c1].id
                != self@[c2].id by {
            let i = choose|i: int| 0 <= i < self.connections@.len() && #[trigger] self.connections@[i].0 == c1;
            let j = choose|j: int| 0 <= j < self.connections@.len() && #[trigger] self.connections@[j].0 == c2;
            assert(self@[self.connections@[i].0] == self.connections@[i].1.actor);
            assert(self@[self.connections@[j].0] == self.connections@[j].1.actor);
        }
    }

    /// A fresh connection id; `None` once every id is taken.
    pub fn generate_connection_id(&mut self) -> (r: Option<ConnectionId>)
        requires
            old(self).wf(),
        ensures
            final(self).wf(),
            final(self)@ == old(self)@,
            final(self).local_actor() == old(self).local_actor(),
            final(self).loopback() == old(self).loopback(),
            final(self).streams() == old(self).streams(),
            final(self).spec_next_actor_id() == old(self).spec_next_actor_id(),
            r is None <==> old(self).spec_next_connection_id() == u64::MAX,
            r matches Some(c) ==> c.0 == old(self).spec_next_connection_id() && !old(self)@.contains_key(c)
                && final(self).spec_next_connection_id() == c.0 + 1,
            r is None ==> final(self).spec_next_connection_id() == old(self).spec_next_connection_id(),
    {
        proof {
            self.lemma_entries();
        }
        if self.next_connection_id.0 == u64::MAX {
            return None;
        }
        let id = self.next_connection_id;
        self.next_connection_id = ConnectionId(id.0 + 1);
        proof {
            if old(self)@.contains_key(id) {
                let i = choose|i: int| 0 <= i < self.connections@.len() && #[trigger] self.connections@[i].0 == id;
                assert(self.connections@[i].0.0 < id.0);
            }
        }
        Some(id)
    }

    /// A fresh peer id; `None` once every id is taken.
    pub fn generate_actor_id(&mut self) -> (r: Option<ActorId>)
        requires
            old(self).wf(),
        ensures
            final(self).wf(),
            final(self)@ == old(self)@,
            final(self).local_actor() == old(self).local_actor(),
            final(self).loopback() == old(self).loopback(),
            final(self).streams() == old(self).streams(),
            final(self).spec_next_connection_id() == old(self).spec_next_connection_id(),
            r == old(self).spec_next_actor_id(),
            r matches Some(a) ==> a.0 < u64::MAX,
            final(self).spec_next_actor_id() == actor_id_after_mint(old(self).spec_next_actor_id()),
    {
        if self.next_actor_id.0 == u64::MAX {
            return None;
        }
        let id = self.next_actor_id;
        self.next_actor_id = ActorId(id.0 + 1);
        Some(id)
    }

    /// The event that reports the failure of `connection_id`, with its peer and `cause`.
    pub fn failure_event(&self, connection_id: ConnectionId, cause: Error) -> (r: Option<ConnectionEvent>)
        requires
            self.wf(),
        ensures
            r is Some <==> self@.contains_key(connection_id),
            r matches Some(ev) ==> ev == (ConnectionEvent::Disconnected {
                actor: self@[connection_id],
                connection_id,
                cause,
            }),
    {
        match self.get_actor(connection_id) {
            Some(actor) => Some(ConnectionEvent::Disconnected { actor, connection_id, cause }),
            None => None,
        }
    }

    /// Rewrites the local peer's id; no remote peer has `actor_id`.
    fn rewrite_local_id(&mut self, actor_id: ActorId)
        requires
            old(self).wf(),
            forall|c: ConnectionId|
                #[trigger] old(self)@.contains_key(c) && c != ConnectionId(0) ==> old(self)@[c].id != actor_id,
        ensures
            final(self).wf(),
            final(self)@ == old(self)@.insert(
                ConnectionId(0),
                Actor { id: actor_id, ty: old(self).local_actor().ty },
            ),
            final(self).local_actor() == (Actor { id: actor_id, ty: old(self).local_actor().ty }),
            final(self).loopback() == old(self).loopback(),
            final(self).streams() == old(self).streams(),
            final(self).spec_next_actor_id() == old(self).spec_next_actor_id(),
            final(self).spec_next_connection_id() == old(self).spec_next_connection_id(),
    {
        proof {
            self.lemma_entries();
        }
        let ghost s0 = self.connections@;
        self.connections[0].1.actor.id = actor_id;
        proof {
            let s1 = self.connections@;
            let a1 = Actor { id: actor_id, ty: old(self).local_actor().ty };
            assert(s1 =~= s0.update(0, (ConnectionId(0), Connection { inner: s0[0].1.inner, actor: a1 })));
            assert(entries(s1) =~= entries(s0).update(0, (entries(s0)[0].0, a1)));
            lemma_map_of_update(entries(s0), 0, a1);
            assert(stream_entries(s1) =~= stream_entries(s0));
            assert forall|i: int, j: int|
                0 <= i < s1.len() && 0 <= j < s1.len() && i != j implies (#[trigger] s1[i]).1.actor.id != (
                #[trigger] s1[j]).1.actor.id by {
                if i == 0 {
                    assert(old(self)@.contains_key(s0[j].0) && old(self)@[s0[j].0] == s0[j].1.actor);
                    assert(s0[j].0 != s0[0].0) by {
                        assert(entries(s0)[j].0 != entries(s0)[0].0);
                    }
                } else if j == 0 {
                    assert(old(self)@.contains_key(s0[i].0) && old(self)@[s0[i].0] == s0[i].1.actor);
                    assert(s0[i].0 != s0[0].0) by {
                        assert(entries(s0)[i].0 != entries(s0)[0].0);
                    }
                } else {
                    assert(s1[i] == s0[i] && s1[j] == s0[j]);
                }
            }
            assert forall|i: int| 1 <= i < s1.len() implies (#[trigger] s1[i]).1.inner is External by {
                assert(s1[i] == s0[i]);
            }
            assert forall|i: int| 0 <= i < s1.len() implies (#[trigger] s1[i]).0.0 < self.next_connection_id.0 by {
                assert(s1[i].0 == s0[i].0);
            }
        }
    }

    /// Adopts `actor_id` as the local peer's id, unless a remote peer has it already.
    pub fn set_local_actor_id(&mut self, actor_id: ActorId) -> (r: Result<(), Error>)
        requires
            old(self).wf(),
        ensures
            final(self).wf(),
            r is Err <==> exists|c: ConnectionId|
                #[trigger] old(self)@.contains_key(c) && c != ConnectionId(0) && old(self)@[c].id == actor_id,
            r is Ok ==> final(self)@ == old(self)@.insert(
                ConnectionId(0),
                Actor { id: actor_id, ty: old(self).local_actor().ty },
            ) && final(self).local_actor() == (Actor { id: actor_id, ty: old(self).local_actor().ty }),
            r is Err ==> r == Err::<(), Error>(Error::DuplicateActor) && final(self)@ == old(self)@
                && final(self).local_actor() == old(self).local_actor(),
            final(self).loopback() == old(self).loopback(),
            final(self).streams() == old(self).streams(),
    {
        proof {
            self.lemma_entries();
            self.lemma_ids_distinct();
        }
        match self.index_of_actor(actor_id) {
            Some(i) => {
                if i != 0 {
                    proof {
                        assert(self@.contains_key(self.connections@[i as int].0));
                        assert(self.connections@[i as int].0 != ConnectionId(0)) by {
                            assert(entries(self.connections@)[i as int].0 != entries(self.connections@)[0].0);
                        }
                    }
                    return Err(Error::DuplicateActor);
                }
                proof {
                    assert forall|c: ConnectionId|
                        #[trigger] self@.contains_key(c) && c != ConnectionId(0) implies self@[c].id != actor_id by {
                        assert(self@[ConnectionId(0)].id == actor_id);
                    }
                }
            },
            None => {},
        }
        self.rewrite_local_id(actor_id);
        Ok(())
    }

    /// Deletes the connection to the peer with id `actor_id`, with its queued bytes; the local
    /// peer's own connection is never deleted.
    pub fn remove(&mut self, actor_id: ActorId)
        requires
            old(self).wf(),
        ensures
            final(self).wf(),
            forall|c: ConnectionId|
                #[trigger] final(self)@.contains_key(c) <==> old(self)@.contains_key(c) && (c == ConnectionId(0)
                    || old(self)@[c].id != actor_id),
            forall|c: ConnectionId| #[trigger] final(self)@.contains_key(c) ==> final(self)@[c] == old(self)@[c],
            forall|c: ConnectionId| #[trigger] final(self)@.contains_key(c) ==> final(self).streams()[c] == old(self).streams()[c],
            final(self).local_actor() == old(self).local_actor(),
            final(self).loopback() == old(self).loopback(),
            final(self).spec_next_actor_id() == old(self).spec_next_actor_id(),
            final(self).spec_next_connection_id() == old(self).spec_next_connection_id(),
    {
        proof {
            self.lemma_entries();
            self.lemma_ids_distinct();
        }
        let found = self.index_of_actor(actor_id);
        match found {
            Some(i) => {
                if i != 0 {
                    let ghost s0 = self.connections@;
                    let ghost gone = s0[i as int].0;
                    self.connections.remove(i);
                    proof {
                        let s1 = self.connections@;
                        assert(entries(s1) =~= entries(s0).remove(i as int));
                        assert(stream_entries(s1) =~= stream_entries(s0).remove(i as int));
                        lemma_map_of_remove(entries(s0), i as int);
                        lemma_map_of_remove(stream_entries(s0), i as int);
                        assert(gone != ConnectionId(0)) by {
                            assert(entries(s0)[i as int].0 != entries(s0)[0].0);
                        }
                        assert(old(self)@[gone].id == actor_id);
                        assert forall|a: int, b: int|
                            0 <= a < s1.len() && 0 <= b < s1.len() && a != b implies (#[trigger] s1[a]).1.actor.id != (
                            #[trigger] s1[b]).1.actor.id by {
                            let a2 = if a < i { a } else { a + 1 };
                            let b2 = if b < i { b } else { b + 1 };
                            assert(s1[a] == s0[a2] && s1[b] == s0[b2]);
                        }
                        assert forall|a: int| 1 <= a < s1.len() implies (#[trigger] s1[a]).1.inner is External by {
                            let a2 = if a < i { a } else { a + 1 };
                            assert(s1[a] == s0[a2]);
                        }
                        assert forall|a: int| 0 <= a < s1.len() implies (#[trigger] s1[a]).0.0 < self.next_connection_id.0 by {
                            let a2 = if a < i { a } else { a + 1 };
                            assert(s1[a] == s0[a2]);
                        }
                        assert(s1[0] == s0[0]);
                        assert forall|c: ConnectionId| #[trigger] self@.contains_key(c) <==> old(self)@.contains_key(c) && (c
                            == ConnectionId(0) || old(self)@[c].id != actor_id) by {
                            if old(self)@.contains_key(c) && c != gone {
                                assert(old(self)@[c].id != old(self)@[gone].id);
                            }
                        }
                    }
                    return;
                }
            },
            None => {},
        }
        proof {
            assert forall|c: ConnectionId| #[trigger] old(self)@.contains_key(c) && c != ConnectionId(0) implies old(self)@[c].id != actor_id by {
                if found is Some {
                    assert(old(self)@[ConnectionId(0)].id == actor_id);
                }
            }
        }
    }

    /// Installs the connection to a peer of role `actor_ty` once the handshake is done: the local
    /// side sent `send_handshake` and received `received`. Either the local id and the new
    /// connection are both installed, or nothing changes: the handshake is refused when it would
    /// give two peers one id, or when no fresh id is left.
    pub fn add_connection(
        &mut self,
        actor_ty: ActorTy,
        send_handshake: &Handshake,
        received: &Handshake,
    ) -> (r: Result<ConnectionEvent, Error>)
        requires
            old(self).wf(),
        ensures
            final(self).wf(),
            final(self).loopback() == old(self).loopback(),
            ({
                let new_local = resolved_local_id(old(self).local_actor().id, *received);
                let minted = match old(self).spec_next_actor_id() {
                    Some(a) => a,
                    None => ActorId(0),
                };
                let remote = resolved_remote_id(*send_handshake, *received, minted);
                let c = ConnectionId(old(self).spec_next_connection_id());
                let actor = Actor { id: remote, ty: actor_ty };
                &&& r is Ok <==> (!mints_remote_id(*send_handshake, *received)
                    || old(self).spec_next_actor_id() is Some) && !handshake_collides(old(self)@, new_local, remote)
                    && old(self).spec_next_connection_id() < u64::MAX
                &&& r is Ok ==> r == Ok::<ConnectionEvent, Error>(ConnectionEvent::Connected { actor, connection_id: c })
                    && !old(self)@.contains_key(c)
                    && final(self)@ == old(self)@.insert(ConnectionId(0), Actor { id: new_local, ty: old(self).local_actor().ty }).insert(c, actor)
                    && final(self).local_actor() == (Actor { id: new_local, ty: old(self).local_actor().ty })
                    && final(self).streams() == old(self).streams().insert(c, Seq::<u8>::empty())
            }),
            r is Err ==> final(self)@ == old(self)@ && final(self).local_actor() == old(self).local_actor()
                && final(self).streams() == old(self).streams()
                && final(self).spec_next_connection_id() == old(self).spec_next_connection_id(),
            r is Ok ==> final(self).spec_next_connection_id() == old(self).spec_next_connection_id() + 1,
            mints_remote_id(*send_handshake, *received) ==> final(self).spec_next_actor_id() == actor_id_after_mint(
                old(self).spec_next_actor_id(),
            ),
            !mints_remote_id(*send_handshake, *received) ==> final(self).spec_next_actor_id() == old(
                self,
            ).spec_next_actor_id(),
    {
        proof {
            self.lemma_entries();
            self.lemma_ids_distinct();
        }
        let new_local = match local_id_override(received) {
            Some(id) => id,
            None => self.connections[0].1.actor.id,
        };
        let remote = match remote_id_override(send_handshake, received) {
            Some(id) => id,
            None => match self.generate_actor_id() {
                Some(id) => id,
                None => {
                    return Err(Error::OutOfIds);
                },
            },
        };
        proof {
            self.lemma_entries();
        }
        if remote == new_local {
            return Err(Error::DuplicateActor);
        }
        match self.index_of_actor(new_local) {
            Some(i) => {
                if i != 0 {
                    proof {
                        assert(self@.contains_key(self.connections@[i as int].0));
                        assert(self.connections@[i as int].0 != ConnectionId(0)) by {
                            assert(entries(self.connections@)[i as int].0 != entries(self.connections@)[0].0);
                        }
                    }
                    return Err(Error::DuplicateActor);
                }
            },
            None => {},
        }
        match self.index_of_actor(remote) {
            Some(i) => {
                if i != 0 {
                    proof {
                        assert(self@.contains_key(self.connections@[i as int].0));
                        assert(self.connections@[i as int].0 != ConnectionId(0)) by {
                            assert(entries(self.connections@)[i as int].0 != entries(self.connections@)[0].0);
                        }
                    }
                    return Err(Error::DuplicateActor);
                }
            },
            None => {},
        }
        proof {
            assert(!handshake_collides(self@, new_local, remote)) by {
                assert forall|c: ConnectionId|
                    #[trigger] self@.contains_key(c) && c != ConnectionId(0) implies self@[c].id != new_local && self@[c].id != remote by {
                    let i = choose|i: int| 0 <= i < self.connections@.len() && #[trigger] self.connections@[i].0 == c;
                    assert(self@[self.connections@[i].0] == self.connections@[i].1.actor);
                    assert(i != 0);
                    if self@[c].id == new_local || self@[c].id == remote {
                        assert(self.connections@[i].1.actor.id != self.connections@[0].1.actor.id);
                    }
                }
            }
        }
        let connection_id = match self.generate_connection_id() {
            Some(c) => c,
            None => {
                return Err(Error::OutOfIds);
            },
        };
        self.rewrite_local_id(new_local);
        let actor = Actor { id: remote, ty: actor_ty };
        let connection = Connection {
            inner: ConnectionInner::External { decoder: FrameDecoder::new() },
            actor,
        };
        let ghost s0 = self.connections@;
        proof {
            self.lemma_entries();
            lemma_map_of_contains(entries(s0), connection_id);
            lemma_map_of_contains(stream_entries(s0), connection_id);
            if has_key(stream_entries(s0), connection_id) {
                let i = choose|i: int| 0 <= i < stream_entries(s0).len() && #[trigger] stream_entries(s0)[i].0 == connection_id;
                assert(s0[i].0 == connection_id);
            }
            lemma_map_of_push(entries(s0), connection_id, actor);
            lemma_map_of_push(stream_entries(s0), connection_id, Seq::<u8>::empty());
        }
        self.connections.push((connection_id, connection));
        proof {
            let s1 = self.connections@;
            assert(entries(s1) =~= entries(s0).push((connection_id, actor)));
            assert(stream_entries(s1) =~= stream_entries(s0).push((connection_id, Seq::<u8>::empty())));
            assert forall|a: int, b: int|
                0 <= a < s1.len() && 0 <= b < s1.len() && a != b implies (#[trigger] s1[a]).1.actor.id != (
                #[trigger] s1[b]).1.actor.id by {
                if a < s0.len() && b < s0.len() {
                    assert(s1[a] == s0[a] && s1[b] == s0[b]);
                } else {
                    let o = if a < s0.len() { a } else { b };
                    assert(s1[o] == s0[o]);
                    assert(self@.contains_key(s0[o].0));
                    if o == 0 {
                        assert(s0[0].1.actor.id == new_local);
                    } else {
                        assert(s0[o].0 != ConnectionId(0)) by {
                            assert(entries(s0)[o].0 != entries(s0)[0].0);
                        }
                        assert(self@[s0[o].0] == s0[o].1.actor);
                    }
                }
            }
            assert forall|a: int| 1 <= a < s1.len() implies (#[trigger] s1[a]).1.inner is External by {
                if a < s0.len() {
                    assert(s1[a] == s0[a]);
                }
            }
            assert forall|a: int| 0 <= a < s1.len() implies (#[trigger] s1[a]).0.0 < self.next_connection_id.0 by {
                if a < s0.len() {
                    assert(s1[a] == s0[a]);
                }
            }
            assert(s1[0] == s0[0]);
        }
        Ok(ConnectionEvent::Connected { actor, connection_id })
    }

    /// Routes `targeted_payloads`: each target is resolved against the connections as they are
    /// now, and every connection gets, in one batch, the payloads whose target selects its peer.
    /// The local peer's batch goes into its loopback queue; the batches for remote peers, one per
    /// connection that has any, are returned for the transport.
    pub fn send(&mut self, targeted_payloads: Vec<(NetworkTarget, Payload)>) -> (r: Vec<(ConnectionId, Vec<Payload>)>)
        requires
            old(self).wf(),
        ensures
            final(self).wf(),
            final(self)@ == old(self)@,
            final(self).local_actor() == old(self).local_actor(),
            final(self).streams() == old(self).streams(),
            final(self).spec_next_actor_id() == old(self).spec_next_actor_id(),
            final(self).loopback() == old(self).loopback() + batch_for(targeted_views(targeted_payloads@), old(self).local_actor()),
            forall|k: int| 0 <= k < r@.len() ==> old(self)@.contains_key(#[trigger] r@[k].0) && r@[k].0 != ConnectionId(0)
                && payload_views(r@[k].1@) == batch_for(targeted_views(targeted_payloads@), old(self)@[r@[k].0])
                && r@[k].1@.len() > 0,
            forall|c: ConnectionId|
                #[trigger] old(self)@.contains_key(c) && c != ConnectionId(0)
                    && batch_for(targeted_views(targeted_payloads@), old(self)@[c]).len() > 0
                    ==> exists|k: int| 0 <= k < r@.len() && #[trigger] r@[k].0 == c,
            forall|k1: int, k2: int| 0 <= k1 < r@.len() && 0 <= k2 < r@.len() && k1 != k2 ==> #[trigger] r@[k1].0 != #[trigger] r@[k2].0,
    {
        proof {
            self.lemma_entries();
        }
        let ghost tv = targeted_views(targeted_payloads@);
        let ghost s0 = self.connections@;
        let local = self.connections[0].1.actor;
        let mut local_batch = batch(&targeted_payloads, &local);
        match &mut self.connections[0].1.inner {
            ConnectionInner::Internal { payloads } => {
                payloads.append(&mut local_batch);
            },
            ConnectionInner::External { .. } => {},
        }
        proof {
            let s1 = self.connections@;
            assert(s1.len() == s0.len());
            assert forall|i: int| 0 <= i < s1.len() implies (#[trigger] s1[i]).0 == s0[i].0 && s1[i].1.actor == s0[i].1.actor by {
                if i > 0 {
                    assert(s1[i] == s0[i]);
                }
            }
            assert forall|i: int| 1 <= i < s1.len() implies #[trigger] s1[i] == s0[i] by {}
            assert(entries(s1) =~= entries(s0));
            assert(stream_entries(s1) =~= stream_entries(s0));
            assert(self.loopback() =~= old(self).loopback() + batch_for(tv, old(self).local_actor()));
        }
        let mut r: Vec<(ConnectionId, Vec<Payload>)> = Vec::new();
        let mut i: usize = 1;
        while i < self.connections.len()
            invariant
                self.wf(),
                1 <= i <= self.connections@.len(),
                self@ == old(self)@,
                entries(self.connections@) == entries(s0),
                tv == targeted_views(targeted_payloads@),
                forall|k: int| 0 <= k < r@.len() ==> listed_between(s0, i as int, #[trigger] r@[k].0),
                forall|k: int| 0 <= k < r@.len() ==> old(self)@.contains_key(#[trigger] r@[k].0) && r@[k].0 != ConnectionId(0)
                    && payload_views(r@[k].1@) == batch_for(tv, old(self)@[r@[k].0]) && r@[k].1@.len() > 0,
                forall|j: int| 1 <= j < i && batch_for(tv, s0[j].1.actor).len() > 0 ==> exists|k: int| 0 <= k < r@.len() && #[trigger] r@[k].0 == #[trigger] s0[j].0,
                forall|k1: int, k2: int| 0 <= k1 < r@.len() && 0 <= k2 < r@.len() && k1 != k2 ==> #[trigger] r@[k1].0 != #[trigger] r@[k2].0,
            decreases self.connections.len() - i,
        {
            proof {
                self.lemma_entries();
                assert(entries(self.connections@)[i as int] == entries(s0)[i as int]);
            }
            let actor = self.connections[i].1.actor;
            let id = self.connections[i].0;
            let b = batch(&targeted_payloads, &actor);
            let ghost r0 = r@;
            if b.len() > 0 {
                proof {
                    assert(id != ConnectionId(0)) by {
                        assert(entries(s0)[i as int].0 != entries(s0)[0].0);
                    }
                    assert(old(self)@[id] == actor);
                    assert forall|k: int| 0 <= k < r0.len() implies r0[k].0 != id by {
                        assert(listed_between(s0, i as int, r0[k].0));
                        let j = choose|j: int| 1 <= j < i && #[trigger] s0[j].0 == r0[k].0;
                        assert(entries(s0)[j].0 != entries(s0)[i as int].0);
                    }
                }
                r.push((id, b));
            }
            proof {
                assert forall|k: int| 0 <= k < r@.len() implies listed_between(s0, i + 1, #[trigger] r@[k].0) by {
                    if k < r0.len() {
                        assert(r@[k] == r0[k]);
                        assert(listed_between(s0, i as int, r0[k].0));
                        let j = choose|j: int| 1 <= j < i && #[trigger] s0[j].0 == r0[k].0;
                        assert(1 <= j < i + 1);
                    } else {
                        assert(s0[i as int].0 == r@[k].0);
                    }
                }
                assert forall|k: int| 0 <= k < r@.len() implies old(self)@.contains_key(#[trigger] r@[k].0) && r@[k].0 != ConnectionId(0)
                    && payload_views(r@[k].1@) == batch_for(tv, old(self)@[r@[k].0]) && r@[k].1@.len() > 0 by {
                    if k < r0.len() {
                        assert(r@[k] == r0[k]);
                    }
                }
                assert forall|j: int| 1 <= j < i + 1 && batch_for(tv, s0[j].1.actor).len() > 0 implies exists|k: int| 0 <= k < r@.len() && #[trigger] r@[k].0 == #[trigger] s0[j].0 by {
                    if j < i {
                        let k = choose|k: int| 0 <= k < r0.len() && #[trigger] r0[k].0 == s0[j].0;
                        assert(r@[k] == r0[k]);
                    } else {
                        assert(r@[r@.len() - 1].0 == s0[j].0);
                    }
                }
            }
            i = i + 1;
        }
        proof {
            self.lemma_entries();
            assert forall|c: ConnectionId|
                #[trigger] old(self)@.contains_key(c) && c != ConnectionId(0)
                    && batch_for(tv, old(self)@[c]).len() > 0 implies exists|k: int| 0 <= k < r@.len() && #[trigger] r@[k].0 == c by {
                let j = choose|j: int| 0 <= j < s0.len() && #[trigger] s0[j].0 == c;
                assert(entries(self.connections@)[j] == entries(s0)[j]);
                assert(self.connections@[j].0 == c);
                assert(old(self)@[c] == s0[j].1.actor);
                assert(j != 0);
            }
        }
        r
    }

    /// Turns what arrived into messages stamped with sender and receiver: first everything the
    /// local peer sent itself, then each of `batches` (payloads decoded from one connection's
    /// frames), in order; a batch from a connection that is gone is dropped.
    pub fn receive(&mut self, batches: Vec<(ConnectionId, Vec<Payload>)>) -> (r: Vec<Message>)
        requires
            old(self).wf(),
        ensures
            final(self).wf(),
            final(self)@ == old(self)@,
            final(self).local_actor() == old(self).local_actor(),
            final(self).streams() == old(self).streams(),
            final(self).spec_next_actor_id() == old(self).spec_next_actor_id(),
            final(self).loopback() == Seq::<PayloadView>::empty(),
            message_views(r@) == stamped(old(self).loopback(), old(self).local_actor(), old(self).local_actor())
                + inbound(batch_views(batches@), old(self)@, old(self).local_actor()),
    {
        proof {
            self.lemma_entries();
        }
        let ghost s0 = self.connections@;
        let local = self.connections[0].1.actor;
        let mut queued: Vec<Payload> = Vec::new();
        match &mut self.connections[0].1.inner {
            ConnectionInner::Internal { payloads } => {
                std::mem::swap(payloads, &mut queued);
            },
            ConnectionInner::External { .. } => {},
        }
        proof {
            let s1 = self.connections@;
            assert forall|i: int| 1 <= i < s1.len() implies #[trigger] s1[i] == s0[i] by {}
            assert(entries(s1) =~= entries(s0));
            assert(stream_entries(s1) =~= stream_entries(s0));
            assert(payload_views(Seq::<Payload>::empty()) =~= Seq::<PayloadView>::empty());
        }
        let mut r: Vec<Message> = Vec::new();
        stamp_all(&mut r, &queued, local, local);
        proof {
            assert(message_views(Seq::<Message>::empty()) =~= Seq::<MessageView>::empty());
        }
        let ghost first = message_views(r@);
        let ghost bv = batch_views(batches@);
        let mut k: usize = 0;
        while k < batches.len()
            invariant
                self.wf(),
                self@ == old(self)@,
                local == old(self).local_actor(),
                k <= batches@.len(),
                bv == batch_views(batches@),
                message_views(r@) == first + inbound(bv.take(k as int), old(self)@, local),
            decreases batches.len() - k,
        {
            proof {
                assert(bv.take(k + 1).drop_last() =~= bv.take(k as int));
                assert(bv.take(k + 1).last() == bv[k as int]);
            }
            match self.get_actor(batches[k].0) {
                Some(sender) => {
                    stamp_all(&mut r, &batches[k].1, sender, local);
                    proof {
                        assert(message_views(r@) =~= first + inbound(bv.take(k + 1), old(self)@, local));
                    }
                },
                None => {},
            }
            k = k + 1;
        }
        proof {
            assert(bv.take(k as int) =~= bv);
        }
        r
    }

    /// Hands the bytes that arrived on `connection_id` to its decoder and takes out every whole
    /// frame body, in order. `None` when there is no such remote connection.
    pub fn receive_bytes(&mut self, connection_id: ConnectionId, bytes: &[u8]) -> (r: Option<Vec<Vec<u8>>>)
        requires
            old(self).wf(),
        ensures
            final(self).wf(),
            final(self)@ == old(self)@,
            final(self).local_actor() == old(self).local_actor(),
            final(self).loopback() == old(self).loopback(),
            final(self).spec_next_actor_id() == old(self).spec_next_actor_id(),
            r is Some <==> old(self)@.contains_key(connection_id) && connection_id != ConnectionId(0),
            r is None ==> final(self).streams() == old(self).streams(),
            r matches Some(frames) ==> old(self).streams()[connection_id] + bytes@ == frames_of(views(frames@))
                + final(self).streams()[connection_id]
                && !has_frame(final(self).streams()[connection_id])
                && bodies_fit(views(frames@))
                && final(self).streams() == old(self).streams().insert(connection_id, final(self).streams()[connection_id]),
    {
        proof {
            self.lemma_entries();
        }
        let i = match self.index_of(connection_id) {
            Some(i) => i,
            None => {
                return None;
            },
        };
        if i == 0 {
            return None;
        }
        proof {
            assert(connection_id != ConnectionId(0)) by {
                assert(entries(self.connections@)[i as int].0 != entries(self.connections@)[0].0);
            }
        }
        let ghost s0 = self.connections@;
        proof {
            lemma_map_of_index(stream_entries(s0), i as int);
        }
        let frames = match &mut self.connections[i].1.inner {
            ConnectionInner::External { decoder } => {
                decoder.push_bytes(bytes);
                decoder.receive_all()
            },
            ConnectionInner::Internal { .. } => {
                assert(false);
                Vec::new()
            },
        };
        proof {
            let s1 = self.connections@;
            let new_stream = stream_entries(s1)[i as int].1;
            assert forall|j: int| 0 <= j < s1.len() && j != i implies #[trigger] s1[j] == s0[j] by {}
            assert(s1[i as int].0 == s0[i as int].0 && s1[i as int].1.actor == s0[i as int].1.actor);
            assert(entries(s1) =~= entries(s0));
            assert(stream_entries(s1) =~= stream_entries(s0).update(i as int, (connection_id, new_stream)));
            lemma_map_of_update(stream_entries(s0), i as int, new_stream);
            assert forall|a: int| 1 <= a < s1.len() implies (#[trigger] s1[a]).1.inner is External by {
                if a != i {
                    assert(s1[a] == s0[a]);
                }
            }
            assert forall|a: int, b: int|
                0 <= a < s1.len() && 0 <= b < s1.len() && a != b implies (#[trigger] s1[a]).1.actor.id != (
                #[trigger] s1[b]).1.actor.id by {
                assert(s1[a].1.actor == s0[a].1.actor && s1[b].1.actor == s0[b].1.actor);
            }
            assert forall|a: int| 0 <= a < s1.len() implies (#[trigger] s1[a]).0.0 < self.next_connection_id.0 by {
                assert(s1[a].0 == s0[a].0);
            }
            assert(s1[0] == s0[0]);
            assert(self.streams()[connection_id] == new_stream);
        }
        Some(frames)
    }

} // impl ConnectionManager

/// Some event among `events` reports the peer with id `id` as disconnected.
pub open spec fn reported_disconnected(events: Seq<ConnectionEvent>, id: ActorId) -> bool {
    exists|k: int| 0 <= k < events.len() && (#[trigger] events[k] matches ConnectionEvent::Disconnected { actor, .. } && actor.id == id)
}

/// The cleanup step: deletes the connection of every peer that `events` reports as
/// disconnected. The local peer's connection stays.
pub fn disconnect_handler_system(connection_manager: &mut ConnectionManager, events: &Vec<ConnectionEvent>)
    requires
        old(connection_manager).wf(),
    ensures
        final(connection_manager).wf(),
        forall|c: ConnectionId|
            #[trigger] final(connection_manager)@.contains_key(c) <==> old(connection_manager)@.contains_key(c) && (c
                == ConnectionId(0) || !reported_disconnected(events@, old(connection_manager)@[c].id)),
        forall|c: ConnectionId| #[trigger] final(connection_manager)@.contains_key(c) ==> final(connection_manager)@[c]
            == old(connection_manager)@[c],
        final(connection_manager).local_actor() == old(connection_manager).local_actor(),
        final(connection_manager).loopback() == old(connection_manager).loopback(),
{
    let mut k: usize = 0;
    while k < events.len()
        invariant
            connection_manager.wf(),
            k <= events@.len(),
            forall|c: ConnectionId|
                #[trigger] connection_manager@.contains_key(c) <==> old(connection_manager)@.contains_key(c) && (c
                    == ConnectionId(0) || !reported_disconnected(events@.take(k as int), old(connection_manager)@[c].id)),
            forall|c: ConnectionId| #[trigger] connection_manager@.contains_key(c) ==> connection_manager@[c]
                == old(connection_manager)@[c],
            connection_manager.local_actor() == old(connection_manager).local_actor(),
            connection_manager.loopback() == old(connection_manager).loopback(),
        decreases events.len() - k,
    {
        let ghost before = *connection_manager;
        let ghost t0 = events@.take(k as int);
        let ghost t1 = events@.take(k + 1);
        proof {
            assert forall|id: ActorId| reported_disconnected(t1, id) <==> reported_disconnected(t0, id) || (
            events@[k as int] matches ConnectionEvent::Disconnected { actor, .. } && actor.id == id) by {
                if reported_disconnected(t0, id) {
                    let j = choose|j: int| 0 <= j < t0.len() && (#[trigger] t0[j] matches ConnectionEvent::Disconnected { actor, .. } && actor.id == id);
                    assert(t1[j] == t0[j]);
                }
                if reported_disconnected(t1, id) {
                    let j = choose|j: int| 0 <= j < t1.len() && (#[trigger] t1[j] matches ConnectionEvent::Disconnected { actor, .. } && actor.id == id);
                    if j < k {
                        assert(t0[j] == t1[j]);
                    }
                }
                if events@[k as int] matches ConnectionEvent::Disconnected { actor, .. } && actor.id == id {
                    assert(t1[k as int] == events@[k as int]);
                }
            }
        }
        match &events[k] {
            ConnectionEvent::Disconnected { actor, .. } => {
                connection_manager.remove(actor.id);
                proof {
                    assert forall|c: ConnectionId|
                        #[trigger] connection_manager@.contains_key(c) <==> old(connection_manager)@.contains_key(c) && (c
                            == ConnectionId(0) || !reported_disconnected(t1, old(connection_manager)@[c].id)) by {
                        if before@.contains_key(c) {
                            assert(before@[c] == old(connection_manager)@[c]);
                        }
                    }
                }
            },
            ConnectionEvent::Connected { .. } => {},
        }
        k = k + 1;
    }
    assert(events@.take(k as int) =~= events@);
}

} // verus!
