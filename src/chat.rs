use vstd::prelude::*;
use crate::discovery::{Health, RoutingTable, RoutingView};
use crate::control::{encodable, encode, encoding, spread_encodable, ControlMessage, ControlView};
use crate::ids::{bytes_eq, copy_bytes, lemma_push_contains, views};
use crate::registry::{generations_grow, AssignmentView, Registry, RegistryView};
use crate::pubsub::{receipt, Message, Outbound, Overlay, OverlayView};

verus! {

/// Notifications of the distributed routing table.
pub enum DiscoveryEvent {
    /// A peer answered a query, at these addresses.
    Discovered { peer: Vec<u8>, addresses: Vec<Vec<u8>> },
    /// A peer failed to answer in time.
    Unroutable { peer: Vec<u8> },
    /// Bootstrapping ended with an answer from `peer`.
    BootstrapOk { peer: Vec<u8> },
    /// Bootstrapping ended without an answer.
    BootstrapFailed,
}

/// Notifications of the pub-sub overlay.
pub enum PubSubEvent {
    /// A flooded message arrived from the neighbour `from`.
    Message { from: Vec<u8>, message: Message },
    /// A remote peer announced a subscription.
    Subscribed { peer: Vec<u8>, topic: Vec<u8> },
    /// A remote peer withdrew a subscription.
    Unsubscribed { peer: Vec<u8>, topic: Vec<u8> },
}

/// Local notifications for the client registry.
pub enum RegistryEvent {
    /// A client starts being served by this peer.
    Serve { client: Vec<u8> },
    /// A sample of the local load.
    LoadSample { load: u64 },
}

/// Every notification the node reacts to.
pub enum ChatEvent {
    Discovery(DiscoveryEvent),
    PubSub(PubSubEvent),
    Registry(RegistryEvent),
}

/// What the node does in answer to a notification: hand a chat message to
/// the application, send a received message on to `forward`, and publish
/// each of `control` on the control topic.
pub struct Reaction {
    pub delivered: Option<Message>,
    pub forward: Vec<Vec<u8>>,
    pub control: Vec<Vec<u8>>,
}

/// A chat node: the pub-sub overlay fed by the routing table's notifications,
/// with the client registry listening on a control topic.
pub struct Chat {
    floodsub: Overlay,
    kad: RoutingTable,
    registry: Registry,
    control_topic: Vec<u8>,
    load: u64,
}

pub struct ChatView {
    pub floodsub: OverlayView,
    pub kad: RoutingView,
    pub registry: RegistryView,
    pub control_topic: Seq<u8>,
    /// The last local load sample.
    pub load: u64,
}

impl ChatView {
    /// No peer that the routing table marks unroutable is in a membership set.
    pub open spec fn wf(self) -> bool {
        &&& self.floodsub.wf()
        &&& self.registry.wf()
        &&& forall|t: Seq<u8>, p: Seq<u8>| #[trigger]
            self.floodsub.is_member(t, p) ==> self.kad.health(p) != Health::Unroutable
    }

    /// The registry, the control topic and the load sample are unchanged.
    pub open spec fn same_registry(self, other: ChatView) -> bool {
        &&& other.registry == self.registry
        &&& other.control_topic == self.control_topic
        &&& other.load == self.load
    }

    /// Only the membership sets differ between the two overlay states.
    pub open spec fn same_but_members(self, other: ChatView) -> bool {
        other.floodsub == (OverlayView { members: other.floodsub.members, ..self.floodsub })
    }

    /// Only the health of `peer` differs, and it is now `h`.
    pub open spec fn health_set(self, other: ChatView, peer: Seq<u8>, h: Health) -> bool {
        &&& other.kad.health(peer) == h
        &&& forall|q: Seq<u8>| q != peer ==> #[trigger] other.kad.health(q) == self.kad.health(q)
    }

    /// `peer` answered at `addrs`: it is reachable, its addresses are merged
    /// in, and it joins the membership set of every subscribed topic.
    pub open spec fn discovered(self, other: ChatView, peer: Seq<u8>, addrs: Seq<Seq<u8>>) -> bool {
        &&& self.health_set(other, peer, Health::Reachable)
        &&& forall|p: Seq<u8>, a: Seq<u8>| #[trigger]
            other.kad.has_address(p, a) <==> self.kad.has_address(p, a) || (p == peer
                && addrs.contains(a))
        &&& self.same_but_members(other)
        &&& forall|t: Seq<u8>, p: Seq<u8>| #[trigger]
            other.floodsub.is_member(t, p) <==> self.floodsub.is_member(t, p) || (p == peer
                && self.floodsub.is_subscribed(t))
    }

    /// `peer` is unroutable: its addresses are dropped and it leaves every
    /// membership set.
    pub open spec fn unroutable(self, other: ChatView, peer: Seq<u8>) -> bool {
        &&& self.health_set(other, peer, Health::Unroutable)
        &&& forall|p: Seq<u8>, a: Seq<u8>| #[trigger]
            other.kad.has_address(p, a) <==> self.kad.has_address(p, a) && p != peer
        &&& self.same_but_members(other)
        &&& forall|t: Seq<u8>, p: Seq<u8>| #[trigger]
            other.floodsub.is_member(t, p) <==> self.floodsub.is_member(t, p) && p != peer
    }
}

impl ChatView {
    /// One call of `subscribe(topic)` returning `r`: a new topic is added and
    /// its membership set starts with every reachable peer; a topic already
    /// subscribed changes nothing.
    pub open spec fn subscription(self, other: ChatView, topic: Seq<u8>, r: bool) -> bool {
        &&& r == !self.floodsub.is_subscribed(topic)
        &&& !r ==> other == self
        &&& r ==> {
            &&& other.kad == self.kad
            &&& self.same_registry(other)
            &&& other.floodsub == (OverlayView {
                subscriptions: self.floodsub.subscriptions.push(topic),
                members: other.floodsub.members,
                ..self.floodsub
            })
            &&& forall|t: Seq<u8>, p: Seq<u8>| #[trigger]
                other.floodsub.is_member(t, p) <==> self.floodsub.is_member(t, p) || (t == topic
                    && self.kad.health(p) == Health::Reachable)
        }
    }
}

/// Subscribing twice to a topic not yet subscribed returns `true` and then
/// `false`, and the second call changes nothing.
pub proof fn lemma_subscribe_twice(
    s0: ChatView,
    s1: ChatView,
    s2: ChatView,
    topic: Seq<u8>,
    r1: bool,
    r2: bool,
)
    requires
        !s0.floodsub.is_subscribed(topic),
        s0.subscription(s1, topic, r1),
        s1.subscription(s2, topic, r2),
    ensures
        r1,
        !r2,
        s2 == s1,
{
    lemma_push_contains(s0.floodsub.subscriptions, topic, topic);
}

impl View for Chat {
    type V = ChatView;

    closed spec fn view(&self) -> ChatView {
        ChatView {
            floodsub: self.floodsub@,
            kad: self.kad@,
            registry: self.registry@,
            control_topic: self.control_topic@,
            load: self.load,
        }
    }
}

impl Chat {
    /// A node for the local peer `local`, subscribed to nothing, knowing no
    /// peer and serving no client; registry messages travel on
    /// `control_topic`, and clients are offloaded above load `threshold`.
    pub fn new(local: Vec<u8>, cache_capacity: usize, control_topic: Vec<u8>, threshold: u64) -> (r: Chat)
        ensures
            r@.registry == (RegistryView {
                local: local@,
                threshold,
                assignments: Seq::empty(),
            }),
            r@.control_topic == control_topic@,
            r@.load == 0,
            r@.wf(),
            r@.floodsub == (OverlayView {
                local: local@,
                next_seqno: 0,
                cache_capacity: if cache_capacity == 0 { 1 } else { cache_capacity as nat },
                subscriptions: Seq::empty(),
                members: Seq::empty(),
                seen: Seq::empty(),
            }),
            forall|p: Seq<u8>| #[trigger] r@.kad.health(p) == Health::Unknown,
            r@.kad.addresses == Seq::<(Seq<u8>, Seq<u8>)>::empty(),
    {
        let registry = Registry::new(copy_bytes(&local), threshold);
        Chat {
            floodsub: Overlay::new(local, cache_capacity),
            kad: RoutingTable::new(),
            registry,
            control_topic,
            load: 0,
        }
    }

    pub fn floodsub(&self) -> (r: &Overlay)
        ensures
            r@ == self@.floodsub,
    {
        &self.floodsub
    }

    pub fn registry(&self) -> (r: &Registry)
        ensures
            r@ == self@.registry,
    {
        &self.registry
    }

    pub fn kad(&self) -> (r: &RoutingTable)
        ensures
            r@ == self@.kad,
    {
        &self.kad
    }

    /// Seeds the routing table with a contact; its health does not change.
    pub fn add_known_address(&mut self, peer: &Vec<u8>, address: &Vec<u8>)
        requires
            old(self)@.wf(),
        ensures
            final(self)@.wf(),
            final(self)@.floodsub == old(self)@.floodsub,
            old(self)@.same_registry(final(self)@),
            final(self)@.kad.entries == old(self)@.kad.entries,
            forall|p: Seq<u8>, a: Seq<u8>| #[trigger]
                final(self)@.kad.has_address(p, a) <==> old(self)@.kad.has_address(p, a) || (p
                    == peer@ && a == address@),
    {
        self.kad.add_address(peer, address);
    }

    /// Subscribes to `topic`; returns whether the subscription is new. A new
    /// topic's membership set starts with every reachable peer; subscribing
    /// again changes nothing.
    pub fn subscribe(&mut self, topic: Vec<u8>) -> (r: bool)
        requires
            old(self)@.wf(),
        ensures
            final(self)@.wf(),
            old(self)@.subscription(final(self)@, topic@, r),
    {
        let t = copy_bytes(&topic);
        if !self.floodsub.subscribe(topic) {
            return false;
        }
        let ghost start = self@;
        let peers = self.kad.reachable_peers();
        let mut i: usize = 0;
        while i < peers.len()
            invariant
                i <= peers@.len(),
                self@.kad == old(self)@.kad,
                self@.floodsub == (OverlayView { members: self@.floodsub.members, ..start.floodsub }),
                self@.floodsub.members.no_duplicates(),
                old(self)@.same_registry(self@),
                forall|p: Seq<u8>| #[trigger]
                    views(peers@).contains(p) <==> old(self)@.kad.health(p) == Health::Reachable,
                forall|u: Seq<u8>, p: Seq<u8>| #[trigger]
                    self@.floodsub.is_member(u, p) <==> old(self)@.floodsub.is_member(u, p) || (u
                        == t@ && views(peers@).take(i as int).contains(p)),
            decreases peers@.len() - i,
        {
            let ghost before = self@.floodsub;
            self.floodsub.add_member(&t, &peers[i]);
            let ghost pi = views(peers@)[i as int];
            assert(views(peers@).take(i + 1) =~= views(peers@).take(i as int).push(pi));
            assert forall|u: Seq<u8>, p: Seq<u8>| #[trigger]
                self@.floodsub.is_member(u, p) <==> old(self)@.floodsub.is_member(u, p) || (u
                    == t@ && views(peers@).take(i + 1).contains(p)) by {
                lemma_push_contains(before.members, (t@, pi), (u, p));
                lemma_push_contains(views(peers@).take(i as int), pi, p);
                assert(before.is_member(u, p) <==> old(self)@.floodsub.is_member(u, p) || (u
                    == t@ && views(peers@).take(i as int).contains(p)));
            }
            i = i + 1;
        }
        assert(views(peers@).take(i as int) =~= views(peers@));
        true
    }

    /// Publishes `data` on `topic` to the topic's members.
    pub fn publish(&mut self, topic: Vec<u8>, data: Vec<u8>) -> (r: Option<Outbound>)
        requires
            old(self)@.wf(),
        ensures
            final(self)@.wf(),
            final(self)@.kad == old(self)@.kad,
            old(self)@.same_registry(final(self)@),
            old(self)@.floodsub.next_seqno == u64::MAX ==> r is None && final(self)@ == old(self)@,
            old(self)@.floodsub.next_seqno < u64::MAX ==> {
                &&& r is Some
                &&& r->0.message@.source == old(self)@.floodsub.local
                &&& r->0.message@.topic == topic@
                &&& r->0.message@.seqno == old(self)@.floodsub.next_seqno
                &&& r->0.message@.data == data@
                &&& final(self)@.floodsub == (OverlayView {
                    next_seqno: (old(self)@.floodsub.next_seqno + 1) as u64,
                    seen: old(self)@.floodsub.remember(
                        (old(self)@.floodsub.local, old(self)@.floodsub.next_seqno),
                    ),
                    ..old(self)@.floodsub
                })
                &&& forall|p: Seq<u8>| #[trigger]
                    views(r->0.targets@).contains(p) <==> old(self)@.floodsub.is_member(topic@, p)
                &&& views(r->0.targets@).no_duplicates()
            },
    {
        let r = self.floodsub.publish(topic, data);
        assert forall|t: Seq<u8>, p: Seq<u8>| #[trigger]
            self@.floodsub.is_member(t, p) implies self@.kad.health(p) != Health::Unroutable by {
            assert(old(self)@.floodsub.is_member(t, p));
        }
        r
    }

    /// Reacts to one notification. Discovery notifications update the routing
    /// table and the membership sets. A received message is deduplicated and
    /// forwarded; a new one is delivered to the application, or, on the
    /// control topic, handed to the registry, whose encoded replies come back
    /// in `control`. A load sample above the threshold publishes the clients
    /// offered. Subscription announcements change nothing.
    #[verifier::rlimit(40)]
    pub fn inject_event(&mut self, event: ChatEvent) -> (r: Reaction)
        requires
            old(self)@.wf(),
        ensures
            final(self)@.wf(),
            generations_grow(old(self)@.registry, final(self)@.registry),
            match event {
                ChatEvent::PubSub(PubSubEvent::Message { .. }) => true,
                ChatEvent::Registry(_) => r.delivered is None && r.forward@.len() == 0,
                _ => r.control@.len() == 0,
            },
            match event {
                ChatEvent::Discovery(DiscoveryEvent::Discovered { peer, addresses }) => {
                    &&& old(self)@.discovered(final(self)@, peer@, views(addresses@))
                    &&& old(self)@.same_registry(final(self)@)
                    &&& r.delivered is None && r.forward@.len() == 0
                },
                ChatEvent::Discovery(DiscoveryEvent::Unroutable { peer }) => {
                    &&& old(self)@.unroutable(final(self)@, peer@)
                    &&& old(self)@.same_registry(final(self)@)
                    &&& forall|t: Seq<u8>| !#[trigger] final(self)@.floodsub.is_member(t, peer@)
                    &&& r.delivered is None && r.forward@.len() == 0
                },
                ChatEvent::Discovery(DiscoveryEvent::BootstrapOk { peer }) => {
                    &&& old(self)@.health_set(final(self)@, peer@, Health::Reachable)
                    &&& final(self)@.kad.addresses == old(self)@.kad.addresses
                    &&& final(self)@.floodsub == old(self)@.floodsub
                    &&& old(self)@.same_registry(final(self)@)
                    &&& r.delivered is None && r.forward@.len() == 0
                },
                ChatEvent::Discovery(DiscoveryEvent::BootstrapFailed) => {
                    &&& final(self)@ == old(self)@
                    &&& r.delivered is None && r.forward@.len() == 0
                },
                ChatEvent::PubSub(PubSubEvent::Message { from, message }) => {
                    let fresh = !old(self)@.floodsub.has_seen(message@.id());
                    let control = message@.topic == old(self)@.control_topic;
                    &&& final(self)@.kad == old(self)@.kad
                    &&& final(self)@.control_topic == old(self)@.control_topic
                    &&& final(self)@.load == old(self)@.load
                    &&& receipt(
                        old(self)@.floodsub,
                        final(self)@.floodsub,
                        from@,
                        message@,
                        fresh,
                        views(r.forward@),
                    )
                    &&& (r.delivered is Some <==> fresh && !control)
                    &&& r.delivered is Some ==> r.delivered->0@ == message@
                    &&& !(fresh && control) ==> final(self)@.registry == old(self)@.registry
                        && r.control@.len() == 0
                    &&& fresh && control ==> old(self)@.registry.control_handled(
                        final(self)@.registry,
                        old(self)@.load,
                        message@.data,
                        views(r.control@),
                    )
                },
                ChatEvent::PubSub(_) => {
                    &&& final(self)@ == old(self)@
                    &&& r.delivered is None && r.forward@.len() == 0
                },
                ChatEvent::Registry(RegistryEvent::Serve { client }) => {
                    &&& final(self)@.floodsub == old(self)@.floodsub
                    &&& final(self)@.kad == old(self)@.kad
                    &&& final(self)@.control_topic == old(self)@.control_topic
                    &&& final(self)@.load == old(self)@.load
                    &&& r.control@.len() == 0
                    &&& old(self)@.registry.lookup(client@) is Some ==> final(self)@.registry
                        == old(self)@.registry
                    &&& old(self)@.registry.lookup(client@) is None ==> old(self)@.registry.updated(
                        final(self)@.registry,
                        client@,
                        AssignmentView {
                            client: client@,
                            provider: old(self)@.registry.local,
                            generation: 0,
                        },
                    )
                },
                ChatEvent::Registry(RegistryEvent::LoadSample { load }) => {
                    let offered = old(self)@.registry.offered(load);
                    &&& final(self)@ == (ChatView { load, ..old(self)@ })
                    &&& load <= old(self)@.registry.threshold ==> r.control@.len() == 0
                    &&& load > old(self)@.registry.threshold && encodable(
                        ControlView::Spread(offered),
                    ) ==> views(r.control@) == seq![encoding(ControlView::Spread(offered))]
                    &&& !encodable(ControlView::Spread(offered)) ==> r.control@.len() == 0
                },
            },
    {
        let mut control: Vec<Vec<u8>> = Vec::new();
        match event {
            ChatEvent::Discovery(DiscoveryEvent::Discovered { peer, addresses }) => {
                self.kad.set_health(&peer, Health::Reachable);
                let ghost start = self@.kad;
                let mut i: usize = 0;
                while i < addresses.len()
                    invariant
                        i <= addresses@.len(),
                        self@.floodsub == old(self)@.floodsub,
                        old(self)@.same_registry(self@),
                        self@.kad.entries == start.entries,
                        forall|p: Seq<u8>, a: Seq<u8>| #[trigger]
                            self@.kad.has_address(p, a) <==> old(self)@.kad.has_address(p, a) || (p
                                == peer@ && views(addresses@).take(i as int).contains(a)),
                    decreases addresses@.len() - i,
                {
                    let ghost before = self@.kad;
                    self.kad.add_address(&peer, &addresses[i]);
                    let ghost ai = views(addresses@)[i as int];
                    assert(views(addresses@).take(i + 1) =~= views(addresses@).take(i as int).push(ai));
                    assert forall|p: Seq<u8>, a: Seq<u8>| #[trigger]
                        self@.kad.has_address(p, a) <==> old(self)@.kad.has_address(p, a) || (p
                            == peer@ && views(addresses@).take(i + 1).contains(a)) by {
                        lemma_push_contains(views(addresses@).take(i as int), ai, a);
                        assert(before.has_address(p, a) <==> old(self)@.kad.has_address(p, a) || (p
                            == peer@ && views(addresses@).take(i as int).contains(a)));
                    }
                    i = i + 1;
                }
                assert(views(addresses@).take(i as int) =~= views(addresses@));
                self.floodsub.add_to_views(&peer);
                assert forall|q: Seq<u8>| #[trigger] self@.kad.health(q) == start.health(q) by {}
                assert forall|t: Seq<u8>, p: Seq<u8>| #[trigger]
                    self@.floodsub.is_member(t, p) implies self@.kad.health(p) != Health::Unroutable by {
                    assert(self@.kad.health(p) == start.health(p));
                    if p != peer@ {
                        assert(old(self)@.floodsub.is_member(t, p));
                        assert(start.health(p) == old(self)@.kad.health(p));
                    }
                }
                assert(old(self)@.health_set(self@, peer@, Health::Reachable));
                assert(old(self)@.same_but_members(self@));
                assert(self@.floodsub.wf() && self@.registry.wf());
                assert(self@.wf());
                Reaction { delivered: None, forward: Vec::new(), control }
            },
            ChatEvent::Discovery(DiscoveryEvent::Unroutable { peer }) => {
                self.kad.set_health(&peer, Health::Unroutable);
                let ghost mid = self@.kad;
                self.kad.remove_addresses(&peer);
                self.floodsub.remove_from_views(&peer);
                assert forall|q: Seq<u8>| #[trigger] self@.kad.health(q) == mid.health(q) by {}
                assert forall|t: Seq<u8>, p: Seq<u8>| #[trigger]
                    self@.floodsub.is_member(t, p) implies self@.kad.health(p) != Health::Unroutable by {
                    assert(old(self)@.floodsub.is_member(t, p));
                    assert(self@.kad.health(p) == mid.health(p));
                }
                assert(self@.floodsub.wf() && self@.registry.wf());
                assert(self@.wf());
                Reaction { delivered: None, forward: Vec::new(), control }
            },
            ChatEvent::Discovery(DiscoveryEvent::BootstrapOk { peer }) => {
                self.kad.set_health(&peer, Health::Reachable);
                assert forall|t: Seq<u8>, p: Seq<u8>| #[trigger]
                    self@.floodsub.is_member(t, p) implies self@.kad.health(p) != Health::Unroutable by {
                    assert(old(self)@.floodsub.is_member(t, p));
                    if p != peer@ {
                        assert(self.kad@.health(p) == old(self).kad@.health(p));
                    }
                }
                assert(self@.floodsub.wf() && self@.registry.wf());
                assert(self@.wf());
                Reaction { delivered: None, forward: Vec::new(), control }
            },
            ChatEvent::Discovery(DiscoveryEvent::BootstrapFailed) => {
                assert(self@.floodsub.wf() && self@.registry.wf());
                assert(self@.wf());
                Reaction { delivered: None, forward: Vec::new(), control }
            },
            ChatEvent::PubSub(PubSubEvent::Message { from, message }) => {
                let on_control = bytes_eq(&message.topic, &self.control_topic);
                let load = self.load;
                let inbound = self.floodsub.receive(&from, message);
                let ghost received = self@.floodsub;
                let delivered = match inbound.delivered {
                    Some(m) => {
                        if on_control {
                            control = self.registry.on_control(load, &m.data);
                            None
                        } else {
                            Some(m)
                        }
                    },
                    None => None,
                };
                assert(self@.floodsub == received);
                assert forall|t: Seq<u8>, p: Seq<u8>| #[trigger]
                    self@.floodsub.is_member(t, p) implies self@.kad.health(p) != Health::Unroutable by {
                    assert(old(self)@.floodsub.is_member(t, p));
                }
                assert(self@.floodsub.wf() && self@.registry.wf());
                assert(self@.wf());
                Reaction { delivered, forward: inbound.forward, control }
            },
            ChatEvent::PubSub(_) => {
                assert(self@.floodsub.wf() && self@.registry.wf());
                assert(self@.wf());
                Reaction { delivered: None, forward: Vec::new(), control }
            },
            ChatEvent::Registry(RegistryEvent::Serve { client }) => {
                self.registry.serve(client);
                assert forall|t: Seq<u8>, p: Seq<u8>| #[trigger]
                    self@.floodsub.is_member(t, p) implies self@.kad.health(p) != Health::Unroutable by {
                    assert(old(self)@.floodsub.is_member(t, p));
                }
                assert(self@.floodsub.wf() && self@.registry.wf());
                assert(self@.wf());
                Reaction { delivered: None, forward: Vec::new(), control }
            },
            ChatEvent::Registry(RegistryEvent::LoadSample { load }) => {
                self.load = load;
                assert forall|t: Seq<u8>, p: Seq<u8>| #[trigger]
                    self@.floodsub.is_member(t, p) implies self@.kad.health(p) != Health::Unroutable by {
                    assert(old(self)@.floodsub.is_member(t, p));
                }
                if let Some(cs) = self.registry.spread(load) {
                    if spread_encodable(&cs) {
                        let bytes = encode(&ControlMessage::Spread(cs));
                        control.push(bytes);
                        assert(views(control@) =~= seq![encoding(ControlView::Spread(old(self)@.registry.offered(load)))]);
                    }
                }
                assert(self@.floodsub.wf() && self@.registry.wf());
                assert(self@.wf());
                Reaction { delivered: None, forward: Vec::new(), control }
            },
        }
    }
}

} // verus!
