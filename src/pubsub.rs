use vstd::prelude::*;
use crate::ids::{bytes_eq, copy_bytes, lemma_push_contains, views};
use crate::pairs::PairSet;

verus! {

broadcast use vstd::seq_lib::group_seq_properties;

/// A flooded message, identified by its source and sequence number.
pub struct Message {
    pub source: Vec<u8>,
    pub topic: Vec<u8>,
    pub seqno: u64,
    pub data: Vec<u8>,
}

pub struct MessageView {
    pub source: Seq<u8>,
    pub topic: Seq<u8>,
    pub seqno: u64,
    pub data: Seq<u8>,
}

impl MessageView {
    /// The pair that identifies a message for deduplication.
    pub open spec fn id(self) -> (Seq<u8>, u64) {
        (self.source, self.seqno)
    }
}

impl View for Message {
    type V = MessageView;

    open spec fn view(&self) -> MessageView {
        MessageView {
            source: self.source@,
            topic: self.topic@,
            seqno: self.seqno,
            data: self.data@,
        }
    }
}

/// A message published locally, with the peers it is to be sent to.
pub struct Outbound {
    pub message: Message,
    pub targets: Vec<Vec<u8>>,
}

/// What to do with a received message: hand it to the application (when
/// it is new) and send it on to `forward`.
pub struct Inbound {
    pub delivered: Option<Message>,
    pub forward: Vec<Vec<u8>>,
}

/// Topic-based flooding with per-topic membership and a bounded cache of
/// the messages already seen.
pub struct Overlay {
    local: Vec<u8>,
    next_seqno: u64,
    cache_capacity: usize,
    subscriptions: Vec<Vec<u8>>,
    members: PairSet,
    seen: Vec<(Vec<u8>, u64)>,
}

pub struct OverlayView {
    pub local: Seq<u8>,
    pub next_seqno: u64,
    pub cache_capacity: nat,
    pub subscriptions: Seq<Seq<u8>>,
    /// (topic, peer) pairs.
    pub members: Seq<(Seq<u8>, Seq<u8>)>,
    /// Identifiers of recently seen messages, oldest first.
    pub seen: Seq<(Seq<u8>, u64)>,
}

impl OverlayView {
    pub open spec fn wf(self) -> bool {
        &&& self.cache_capacity >= 1
        &&& self.seen.len() <= self.cache_capacity
        &&& self.members.no_duplicates()
    }

    pub open spec fn is_subscribed(self, topic: Seq<u8>) -> bool {
        self.subscriptions.contains(topic)
    }

    pub open spec fn is_member(self, topic: Seq<u8>, peer: Seq<u8>) -> bool {
        self.members.contains((topic, peer))
    }

    pub open spec fn has_seen(self, id: (Seq<u8>, u64)) -> bool {
        self.seen.contains(id)
    }

    /// The cache after recording `id`, evicting the oldest entry when full.
    pub open spec fn remember(self, id: (Seq<u8>, u64)) -> Seq<(Seq<u8>, u64)> {
        if self.seen.len() < self.cache_capacity {
            self.seen.push(id)
        } else {
            self.seen.drop_first().push(id)
        }
    }
}

/// One receipt of message `m` from peer `from`: a new message is recorded,
/// delivered and forwarded to the topic's members other than `from`; a
/// message already seen is dropped and nothing changes.
pub open spec fn receipt(
    pre: OverlayView,
    post: OverlayView,
    from: Seq<u8>,
    m: MessageView,
    delivered: bool,
    forward: Seq<Seq<u8>>,
) -> bool {
    &&& delivered == !pre.has_seen(m.id())
    &&& delivered ==> post == OverlayView { seen: pre.remember(m.id()), ..pre }
    &&& !delivered ==> post == pre
    &&& forall|p: Seq<u8>| #[trigger]
        forward.contains(p) <==> delivered && pre.is_member(m.topic, p) && p != from
    &&& forward.no_duplicates()
}

/// Number of `true` entries.
pub open spec fn count_delivered(d: Seq<bool>) -> nat
    decreases d.len(),
{
    if d.len() == 0 {
        0
    } else {
        count_delivered(d.drop_first()) + if d[0] { 1nat } else { 0nat }
    }
}

/// Receiving the same message any number of times delivers it to the
/// application at most once, and exactly once when it had not been seen.
pub proof fn lemma_delivered_once(
    states: Seq<OverlayView>,
    froms: Seq<Seq<u8>>,
    m: MessageView,
    delivered: Seq<bool>,
    forwards: Seq<Seq<Seq<u8>>>,
)
    requires
        states.len() == delivered.len() + 1,
        froms.len() == delivered.len(),
        forwards.len() == delivered.len(),
        forall|i: int|
            0 <= i < delivered.len() ==> receipt(
                #[trigger] states[i],
                states[i + 1],
                froms[i],
                m,
                delivered[i],
                forwards[i],
            ),
    ensures
        count_delivered(delivered) == (if delivered.len() == 0 || states[0].has_seen(m.id()) {
            0nat
        } else {
            1nat
        }),
    decreases delivered.len(),
{
    if delivered.len() > 0 {
        let s0 = states[0];
        assert(receipt(states[0], states[1], froms[0], m, delivered[0], forwards[0]));
        if !s0.has_seen(m.id()) {
            let r = s0.remember(m.id());
            assert(r.last() == m.id());
            assert(r.contains(m.id()));
            assert(states[1].has_seen(m.id()));
        }
        assert forall|i: int| 0 <= i < delivered.len() - 1 implies receipt(
            #[trigger] states.drop_first()[i],
            states.drop_first()[i + 1],
            froms.drop_first()[i],
            m,
            delivered.drop_first()[i],
            forwards.drop_first()[i],
        ) by {
            assert(receipt(states[i + 1], states[i + 2], froms[i + 1], m, delivered[i + 1], forwards[i + 1]));
        }
        lemma_delivered_once(
            states.drop_first(),
            froms.drop_first(),
            m,
            delivered.drop_first(),
            forwards.drop_first(),
        );
    }
}

impl View for Overlay {
    type V = OverlayView;

    closed spec fn view(&self) -> OverlayView {
        OverlayView {
            local: self.local@,
            next_seqno: self.next_seqno,
            cache_capacity: self.cache_capacity as nat,
            subscriptions: views(self.subscriptions@),
            members: self.members@,
            seen: self.seen@.map_values(|e: (Vec<u8>, u64)| (e.0@, e.1)),
        }
    }
}

impl Overlay {
    /// An overlay for the local peer with no subscriptions; a cache capacity
    /// of zero is taken as one.
    pub fn new(local: Vec<u8>, cache_capacity: usize) -> (r: Overlay)
        ensures
            r@.wf(),
            r@ == (OverlayView {
                local: local@,
                next_seqno: 0,
                cache_capacity: if cache_capacity == 0 { 1 } else { cache_capacity as nat },
                subscriptions: Seq::empty(),
                members: Seq::empty(),
                seen: Seq::empty(),
            }),
    {
        let r = Overlay {
            local,
            next_seqno: 0,
            cache_capacity: if cache_capacity == 0 { 1 } else { cache_capacity },
            subscriptions: Vec::new(),
            members: PairSet::new(),
            seen: Vec::new(),
        };
        assert(r@.subscriptions =~= Seq::empty());
        assert(r@.members =~= Seq::empty());
        assert(r@.seen =~= Seq::empty());
        r
    }

    pub fn is_subscribed(&self, topic: &Vec<u8>) -> (r: bool)
        ensures
            r == self@.is_subscribed(topic@),
    {
        crate::ids::contains_bytes(&self.subscriptions, topic)
    }

    /// Whether `peer` is in the membership set of `topic`.
    pub fn is_member(&self, topic: &Vec<u8>, peer: &Vec<u8>) -> (r: bool)
        ensures
            r == self@.is_member(topic@, peer@),
    {
        self.members.contains(topic, peer)
    }

    /// Whether the message `(source, seqno)` is in the cache.
    pub fn has_seen(&self, source: &Vec<u8>, seqno: u64) -> (r: bool)
        ensures
            r == self@.has_seen((source@, seqno)),
    {
        let mut i: usize = 0;
        while i < self.seen.len()
            invariant
                i <= self.seen@.len(),
                forall|j: int| 0 <= j < i ==> self@.seen[j] != (source@, seqno),
            decreases self.seen@.len() - i,
        {
            if self.seen[i].1 == seqno && bytes_eq(&self.seen[i].0, source) {
                assert(self@.seen[i as int] == (source@, seqno));
                return true;
            }
            i = i + 1;
        }
        false
    }

    fn remember(&mut self, source: Vec<u8>, seqno: u64)
        requires
            old(self)@.wf(),
        ensures
            final(self)@ == (OverlayView { seen: old(self)@.remember((source@, seqno)), ..old(self)@ }),
            final(self)@.wf(),
    {
        if self.seen.len() >= self.cache_capacity {
            self.seen.remove(0);
        }
        self.seen.push((source, seqno));
        assert(self@.seen =~= old(self)@.remember((source@, seqno)));
    }

    /// Adds `topic` to the local subscriptions; returns whether it is new.
    pub fn subscribe(&mut self, topic: Vec<u8>) -> (r: bool)
        ensures
            r == !old(self)@.is_subscribed(topic@),
            final(self)@ == (if r {
                OverlayView { subscriptions: old(self)@.subscriptions.push(topic@), ..old(self)@ }
            } else {
                old(self)@
            }),
    {
        if self.is_subscribed(&topic) {
            false
        } else {
            self.subscriptions.push(topic);
            assert(self@.subscriptions =~= old(self)@.subscriptions.push(topic@));
            true
        }
    }

    /// Puts `peer` in the membership set of `topic`.
    pub fn add_member(&mut self, topic: &Vec<u8>, peer: &Vec<u8>)
        ensures
            final(self)@ == (OverlayView {
                members: if old(self)@.is_member(topic@, peer@) {
                    old(self)@.members
                } else {
                    old(self)@.members.push((topic@, peer@))
                },
                ..old(self)@
            }),
            old(self)@.members.no_duplicates() ==> final(self)@.members.no_duplicates(),
    {
        self.members.insert(topic, peer);
    }

    /// The members of `topic`, leaving out `except` when given.
    pub fn members_of(&self, topic: &Vec<u8>, except: Option<&Vec<u8>>) -> (r: Vec<Vec<u8>>)
        requires
            self@.members.no_duplicates(),
        ensures
            views(r@).no_duplicates(),
            forall|p: Seq<u8>| #[trigger]
                views(r@).contains(p) <==> self@.is_member(topic@, p) && (except is None
                    || p != except->0@),
    {
        self.members.seconds_of(topic, except)
    }

    /// Puts `peer` in the membership set of every subscribed topic.
    pub fn add_to_views(&mut self, peer: &Vec<u8>)
        ensures
            final(self)@ == (OverlayView { members: final(self)@.members, ..old(self)@ }),
            forall|t: Seq<u8>, p: Seq<u8>| #[trigger]
                final(self)@.is_member(t, p) <==> old(self)@.is_member(t, p) || (p == peer@
                    && old(self)@.is_subscribed(t)),
            old(self)@.members.no_duplicates() ==> final(self)@.members.no_duplicates(),
    {
        let n = self.subscriptions.len();
        let mut i: usize = 0;
        while i < n
            invariant
                i <= n == self@.subscriptions.len(),
                self@ == (OverlayView { members: self@.members, ..old(self)@ }),
                old(self)@.members.no_duplicates() ==> self@.members.no_duplicates(),
                forall|t: Seq<u8>, p: Seq<u8>| #[trigger]
                    self@.is_member(t, p) <==> old(self)@.is_member(t, p) || (p == peer@
                        && old(self)@.subscriptions.take(i as int).contains(t)),
            decreases n - i,
        {
            let topic = copy_bytes(&self.subscriptions[i]);
            let ghost before = self@;
            self.add_member(&topic, peer);
            assert(topic@ == old(self)@.subscriptions[i as int]);
            let ghost subs = old(self)@.subscriptions;
            assert(subs.take(i + 1) =~= subs.take(i as int).push(subs[i as int]));
            assert forall|t: Seq<u8>, p: Seq<u8>|
                self@.is_member(t, p) <==> old(self)@.is_member(t, p) || (p == peer@
                    && subs.take(i + 1).contains(t)) by {
                lemma_push_contains(before.members, (topic@, peer@), (t, p));
                lemma_push_contains(subs.take(i as int), subs[i as int], t);
                assert(before.is_member(t, p) <==> old(self)@.is_member(t, p) || (p == peer@
                    && subs.take(i as int).contains(t)));
            }
            i = i + 1;
        }
        assert(old(self)@.subscriptions.take(i as int) =~= old(self)@.subscriptions);
    }

    /// Takes `peer` out of every membership set.
    pub fn remove_from_views(&mut self, peer: &Vec<u8>)
        ensures
            final(self)@ == (OverlayView { members: final(self)@.members, ..old(self)@ }),
            forall|t: Seq<u8>, p: Seq<u8>| #[trigger]
                final(self)@.is_member(t, p) <==> old(self)@.is_member(t, p) && p != peer@,
            old(self)@.members.no_duplicates() ==> final(self)@.members.no_duplicates(),
    {
        self.members.remove_second(peer);
    }

    /// Stamps `data` with the local peer and the next sequence number, records
    /// it as seen and returns it with the members of `topic` to send it to;
    /// `None` once the sequence numbers are used up.
    pub fn publish(&mut self, topic: Vec<u8>, data: Vec<u8>) -> (r: Option<Outbound>)
        requires
            old(self)@.wf(),
        ensures
            final(self)@.wf(),
            old(self)@.next_seqno == u64::MAX ==> r is None && final(self)@ == old(self)@,
            old(self)@.next_seqno < u64::MAX ==> {
                &&& r is Some
                &&& r->0.message@ == (MessageView {
                    source: old(self)@.local,
                    topic: topic@,
                    seqno: old(self)@.next_seqno,
                    data: data@,
                })
                &&& final(self)@ == (OverlayView {
                    next_seqno: (old(self)@.next_seqno + 1) as u64,
                    seen: old(self)@.remember((old(self)@.local, old(self)@.next_seqno)),
                    ..old(self)@
                })
                &&& forall|p: Seq<u8>| #[trigger]
                    views(r->0.targets@).contains(p) <==> old(self)@.is_member(topic@, p)
                &&& views(r->0.targets@).no_duplicates()
            },
    {
        if self.next_seqno == u64::MAX {
            return None;
        }
        let seqno = self.next_seqno;
        let targets = self.members_of(&topic, None);
        let source = copy_bytes(&self.local);
        self.remember(copy_bytes(&source), seqno);
        self.next_seqno = seqno + 1;
        Some(Outbound { message: Message { source, topic, seqno, data }, targets })
    }

    /// Handles `message` received from `from`.
    pub fn receive(&mut self, from: &Vec<u8>, message: Message) -> (r: Inbound)
        requires
            old(self)@.wf(),
        ensures
            final(self)@.wf(),
            receipt(old(self)@, final(self)@, from@, message@, r.delivered is Some, views(r.forward@)),
            r.delivered is Some ==> r.delivered->0@ == message@,
    {
        if self.has_seen(&message.source, message.seqno) {
            let forward: Vec<Vec<u8>> = Vec::new();
            assert(views(forward@) =~= Seq::empty());
            return Inbound { delivered: None, forward };
        }
        let forward = self.members_of(&message.topic, Some(from));
        self.remember(copy_bytes(&message.source), message.seqno);
        Inbound { delivered: Some(message), forward }
    }

} // impl Overlay

} // verus!
