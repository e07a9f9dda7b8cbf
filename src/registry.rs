use vstd::prelude::*;
use crate::control::{decode, encodable, encode, encoding, ControlMessage, ControlView};
use crate::ids::{bytes_eq, bytes_less, bytes_lt, copy_bytes, views};

verus! {

/// The provider currently serving a client, with the generation of that
/// assignment.
pub struct Assignment {
    pub client: Vec<u8>,
    pub provider: Vec<u8>,
    pub generation: u64,
}

pub struct AssignmentView {
    pub client: Seq<u8>,
    pub provider: Seq<u8>,
    pub generation: u64,
}

impl View for Assignment {
    type V = AssignmentView;

    open spec fn view(&self) -> AssignmentView {
        AssignmentView { client: self.client@, provider: self.provider@, generation: self.generation }
    }
}

/// A peer's proposal to take over `client` at `generation`.
pub struct ClientTransfer {
    pub client: Vec<u8>,
    pub candidate: Vec<u8>,
    pub generation: u64,
}

pub struct ClientTransferView {
    pub client: Seq<u8>,
    pub candidate: Seq<u8>,
    pub generation: u64,
}

impl View for ClientTransfer {
    type V = ClientTransferView;

    open spec fn view(&self) -> ClientTransferView {
        ClientTransferView {
            client: self.client@,
            candidate: self.candidate@,
            generation: self.generation,
        }
    }
}

/// The assignment recorded for client `c`: the last entry for it wins.
pub open spec fn lookup_in(s: Seq<AssignmentView>, c: Seq<u8>) -> Option<AssignmentView>
    decreases s.len(),
{
    if s.len() == 0 {
        None
    } else if s.last().client == c {
        Some(s.last())
    } else {
        lookup_in(s.drop_last(), c)
    }
}

/// The clients served by `local`, in table order.
pub open spec fn local_clients(s: Seq<AssignmentView>, local: Seq<u8>) -> Seq<Seq<u8>>
    decreases s.len(),
{
    if s.len() == 0 {
        Seq::empty()
    } else if s.last().provider == local {
        local_clients(s.drop_last(), local).push(s.last().client)
    } else {
        local_clients(s.drop_last(), local)
    }
}

/// The generation that follows `g`; the largest generation stays put.
pub open spec fn next_generation(g: u64) -> u64 {
    if g < u64::MAX {
        (g + 1) as u64
    } else {
        g
    }
}

/// The table without the entries of client `c`, in order.
pub open spec fn without_client(s: Seq<AssignmentView>, c: Seq<u8>) -> Seq<AssignmentView>
    decreases s.len(),
{
    if s.len() == 0 {
        s
    } else if s.last().client == c {
        without_client(s.drop_last(), c)
    } else {
        without_client(s.drop_last(), c).push(s.last())
    }
}

proof fn lemma_without_remove(s: Seq<AssignmentView>, k: int, c: Seq<u8>)
    requires
        0 <= k < s.len(),
        s[k].client == c,
    ensures
        without_client(s.remove(k), c) == without_client(s, c),
    decreases s.len(),
{
    if k == s.len() - 1 {
        assert(s.remove(k) =~= s.drop_last());
    } else {
        assert(s.remove(k).last() == s.last());
        assert(s.remove(k).drop_last() =~= s.drop_last().remove(k));
        lemma_without_remove(s.drop_last(), k, c);
    }
}

proof fn lemma_without_absent(s: Seq<AssignmentView>, c: Seq<u8>)
    requires
        forall|j: int| 0 <= j < s.len() ==> s[j].client != c,
    ensures
        without_client(s, c) == s,
    decreases s.len(),
{
    if s.len() > 0 {
        lemma_without_absent(s.drop_last(), c);
        assert(s.drop_last().push(s.last()) =~= s);
    }
}

proof fn lemma_lookup_remove(s: Seq<AssignmentView>, k: int, q: Seq<u8>)
    requires
        0 <= k < s.len(),
        s[k].client != q,
    ensures
        lookup_in(s.remove(k), q) == lookup_in(s, q),
    decreases s.len(),
{
    if k == s.len() - 1 {
        assert(s.remove(k) =~= s.drop_last());
    } else {
        assert(s.remove(k).last() == s.last());
        assert(s.remove(k).drop_last() =~= s.drop_last().remove(k));
        lemma_lookup_remove(s.drop_last(), k, q);
    }
}

/// Client registry: which provider serves which client, and the local load
/// threshold above which clients are offered to other peers.
pub struct Registry {
    local: Vec<u8>,
    threshold: u64,
    assignments: Vec<Assignment>,
}

pub struct RegistryView {
    pub local: Seq<u8>,
    pub threshold: u64,
    pub assignments: Seq<AssignmentView>,
}

impl RegistryView {
    pub open spec fn lookup(self, c: Seq<u8>) -> Option<AssignmentView> {
        lookup_in(self.assignments, c)
    }

    /// The generation recorded for `c`, zero for an unknown client.
    pub open spec fn generation(self, c: Seq<u8>) -> u64 {
        match self.lookup(c) {
            Some(a) => a.generation,
            None => 0,
        }
    }

    /// The clients offered at local load `load` above the threshold: the
    /// first `load - threshold` clients served locally, in table order.
    pub open spec fn offered(self, load: u64) -> Seq<Seq<u8>> {
        let local = local_clients(self.assignments, self.local);
        local.take(
            if (load - self.threshold) < local.len() {
                load - self.threshold
            } else {
                local.len() as int
            },
        )
    }

    /// Handling the control bytes `bytes` at load `load` moves the table from
    /// `self` to `other` and answers with `replies`; bytes that carry no
    /// message change nothing and get no answer.
    pub open spec fn control_handled(
        self,
        other: RegistryView,
        load: u64,
        bytes: Seq<u8>,
        replies: Seq<Seq<u8>>,
    ) -> bool {
        &&& (forall|m: ControlView| encodable(m) ==> #[trigger] encoding(m) != bytes) ==> replies.len()
            == 0 && other == self
        &&& forall|m: ControlView|
            encodable(m) && #[trigger] encoding(m) == bytes ==> self.control_step(other, load, m, replies)
    }

    /// How many clients this peer can take on at local load `load`.
    pub open spec fn spare(self, load: u64) -> nat {
        if load >= self.threshold {
            0
        } else {
            (self.threshold - load) as nat
        }
    }

    /// This peer's proposal to take over client `c`.
    pub open spec fn proposal(self, c: Seq<u8>) -> ClientTransferView {
        ClientTransferView {
            client: c,
            candidate: self.local,
            generation: next_generation(self.generation(c)),
        }
    }

    /// A transfer is accepted for a client served locally when it is newer.
    pub open spec fn accepts(self, t: ClientTransferView) -> bool {
        let cur = self.lookup(t.client);
        cur is Some && cur->0.provider == self.local && t.generation > cur->0.generation
    }

    /// An announced assignment wins over the recorded one when its generation
    /// is higher, or equal with a smaller provider identifier.
    pub open spec fn wins(self, a: AssignmentView) -> bool {
        match self.lookup(a.client) {
            None => true,
            Some(c) => a.generation > c.generation || (a.generation == c.generation && bytes_lt(
                a.provider,
                c.provider,
            )),
        }
    }

    /// No client is listed twice.
    pub open spec fn wf(self) -> bool {
        forall|i: int, j: int|
            0 <= i < j < self.assignments.len() ==> self.assignments[i].client
                != self.assignments[j].client
    }

    /// The table moved from `self` to `other` with only `c` changed, to `a`.
    pub open spec fn updated(self, other: RegistryView, c: Seq<u8>, a: AssignmentView) -> bool {
        &&& other.local == self.local
        &&& other.threshold == self.threshold
        &&& other.assignments == without_client(self.assignments, c).push(a)
        &&& other.lookup(c) == Some(a)
        &&& forall|q: Seq<u8>| q != c ==> #[trigger] other.lookup(q) == self.lookup(q)
    }
}

impl RegistryView {
    /// Handling control message `m` at load `load` moves the table from
    /// `self` to `other` and answers with `replies`.
    pub open spec fn control_step(
        self,
        other: RegistryView,
        load: u64,
        m: ControlView,
        replies: Seq<Seq<u8>>,
    ) -> bool {
        match m {
            ControlView::Spread(cs) => {
                &&& other == self
                &&& self.local.len() < 0x1_0000_0000 ==> {
                    &&& replies.len() == (if self.spare(load) < cs.len() {
                        self.spare(load) as int
                    } else {
                        cs.len() as int
                    })
                    &&& forall|i: int|
                        0 <= i < replies.len() ==> #[trigger] replies[i] == encoding(
                            ControlView::Transfer(self.proposal(cs[i])),
                        )
                }
                &&& self.local.len() >= 0x1_0000_0000 ==> replies.len() == 0
            },
            ControlView::Transfer(t) => {
                let a = AssignmentView {
                    client: t.client,
                    provider: t.candidate,
                    generation: t.generation,
                };
                &&& self.accepts(t) ==> replies == seq![encoding(ControlView::Confirm(a))]
                    && self.updated(other, t.client, a)
                &&& !self.accepts(t) ==> replies.len() == 0 && other == self
            },
            ControlView::Confirm(a) => {
                &&& replies.len() == 0
                &&& self.wins(a) ==> self.updated(other, a.client, a)
                &&& !self.wins(a) ==> other == self
            },
        }
    }
}

/// No client is forgotten and no client's generation goes down.
pub open spec fn generations_grow(pre: RegistryView, post: RegistryView) -> bool {
    forall|c: Seq<u8>| #[trigger]
        pre.lookup(c) is Some ==> post.lookup(c) is Some && pre.lookup(c)->0.generation
            <= post.lookup(c)->0.generation
}

/// Along any run of registry steps, each of which lets no generation go
/// down, the generation committed for a client never goes down.
pub proof fn lemma_generations_monotone(states: Seq<RegistryView>, i: int, j: int)
    requires
        0 <= i <= j < states.len(),
        forall|k: int| 0 <= k < states.len() - 1 ==> generations_grow(#[trigger] states[k], states[k + 1]),
    ensures
        generations_grow(states[i], states[j]),
    decreases j - i,
{
    if i < j {
        lemma_generations_monotone(states, i, j - 1);
        assert(generations_grow(states[j - 1], states[j]));
    }
}

impl View for Registry {
    type V = RegistryView;

    closed spec fn view(&self) -> RegistryView {
        RegistryView {
            local: self.local@,
            threshold: self.threshold,
            assignments: self.assignments@.map_values(|a: Assignment| a@),
        }
    }
}

impl Registry {
    /// An empty registry for the local peer, offloading above `threshold`.
    pub fn new(local: Vec<u8>, threshold: u64) -> (r: Registry)
        ensures
            r@.wf(),
            r@.local == local@,
            r@.threshold == threshold,
            r@.assignments == Seq::<AssignmentView>::empty(),
    {
        let r = Registry { local, threshold, assignments: Vec::new() };
        assert(r@.assignments =~= Seq::<AssignmentView>::empty());
        r
    }

    /// The assignment recorded for `client`.
    pub fn lookup(&self, client: &Vec<u8>) -> (r: Option<&Assignment>)
        ensures
            match r {
                Some(a) => self@.lookup(client@) == Some(a@),
                None => self@.lookup(client@) is None,
            },
    {
        let mut i: usize = self.assignments.len();
        assert(self@.assignments.take(i as int) =~= self@.assignments);
        while i > 0
            invariant
                i <= self@.assignments.len(),
                self@.lookup(client@) == lookup_in(self@.assignments.take(i as int), client@),
            decreases i,
        {
            assert(self@.assignments.take(i as int).drop_last() =~= self@.assignments.take(i - 1));
            if bytes_eq(&self.assignments[i - 1].client, client) {
                return Some(&self.assignments[i - 1]);
            }
            i = i - 1;
        }
        None
    }

    /// Records `a` as the assignment of its client.
    fn set(&mut self, a: Assignment)
        requires
            old(self)@.wf(),
        ensures
            final(self)@.wf(),
            old(self)@.updated(final(self)@, a.client@, a@),
    {
        let mut i: usize = 0;
        while i < self.assignments.len()
            invariant
                i <= self@.assignments.len(),
                self@.wf(),
                self@.local == old(self)@.local,
                self@.threshold == old(self)@.threshold,
                forall|j: int| 0 <= j < i ==> self@.assignments[j].client != a.client@,
                forall|q: Seq<u8>| q != a.client@ ==> #[trigger] self@.lookup(q) == old(self)@.lookup(q),
                without_client(self@.assignments, a.client@) == without_client(
                    old(self)@.assignments,
                    a.client@,
                ),
            decreases self@.assignments.len() - i,
        {
            if bytes_eq(&self.assignments[i].client, &a.client) {
                let ghost before_view = self@;
                let ghost before = self@.assignments;
                self.assignments.remove(i);
                assert(self@.assignments =~= before.remove(i as int));
                assert forall|q: Seq<u8>| q != a.client@ implies #[trigger] self@.lookup(q)
                    == old(self)@.lookup(q) by {
                    assert(before_view.lookup(q) == old(self)@.lookup(q));
                    lemma_lookup_remove(before, i as int, q);
                }
                proof {
                    lemma_without_remove(before, i as int, a.client@);
                }
            } else {
                i = i + 1;
            }
        }
        let ghost before_view = self@;
        let ghost before = self@.assignments;
        let ghost av = a@;
        proof {
            lemma_without_absent(before, av.client);
        }
        self.assignments.push(a);
        assert(self@.assignments =~= before.push(av));
        assert(self@.assignments.drop_last() =~= before);
        assert forall|q: Seq<u8>| q != av.client implies #[trigger] self@.lookup(q)
            == old(self)@.lookup(q) by {
            assert(before_view.lookup(q) == old(self)@.lookup(q));
        }
    }

    /// Starts serving `client` locally at generation zero, unless the client
    /// is already known; returns whether it was added.
    pub fn serve(&mut self, client: Vec<u8>) -> (r: bool)
        requires
            old(self)@.wf(),
        ensures
            final(self)@.wf(),
            r == old(self)@.lookup(client@) is None,
            !r ==> final(self)@ == old(self)@,
            r ==> old(self)@.updated(
                final(self)@,
                client@,
                AssignmentView { client: client@, provider: old(self)@.local, generation: 0 },
            ),
            generations_grow(old(self)@, final(self)@),
    {
        if self.lookup(&client).is_some() {
            return false;
        }
        let provider = copy_bytes(&self.local);
        self.set(Assignment { client, provider, generation: 0 });
        true
    }

    /// The clients to offload at local load `load`: none at or below the
    /// threshold, else the first `load - threshold` clients served locally.
    pub fn spread(&self, load: u64) -> (r: Option<Vec<Vec<u8>>>)
        ensures
            load <= self@.threshold ==> r is None,
            load > self@.threshold ==> r is Some && views(r->0@) == self@.offered(load),
    {
        if load <= self.threshold {
            return None;
        }
        let mut out: Vec<Vec<u8>> = Vec::new();
        let mut i: usize = 0;
        while i < self.assignments.len()
            invariant
                i <= self@.assignments.len(),
                views(out@) == local_clients(self@.assignments.take(i as int), self@.local),
            decreases self@.assignments.len() - i,
        {
            let ghost prev = out@;
            assert(self@.assignments.take(i + 1).drop_last() =~= self@.assignments.take(i as int));
            if bytes_eq(&self.assignments[i].provider, &self.local) {
                out.push(copy_bytes(&self.assignments[i].client));
                assert(views(out@) =~= views(prev).push(self@.assignments[i as int].client));
            }
            i = i + 1;
        }
        assert(self@.assignments.take(i as int) =~= self@.assignments);
        let excess = load - self.threshold;
        if excess < out.len() as u64 {
            let ghost full = out@;
            out.truncate(excess as usize);
            assert(views(out@) =~= views(full).take(excess as int));
        }
        Some(out)
    }

    /// Answers a spread of `clients` at local load `load`: with spare
    /// capacity `threshold - load`, proposes this peer for that many of the
    /// first clients, each at the generation after the one recorded here.
    pub fn on_spread(&self, load: u64, clients: &Vec<Vec<u8>>) -> (r: Vec<ClientTransfer>)
        ensures
            r@.len() == (if self@.spare(load) < clients@.len() {
                self@.spare(load) as int
            } else {
                clients@.len() as int
            }),
            forall|i: int| 0 <= i < r@.len() ==> #[trigger] r@[i]@ == self@.proposal(clients@[i]@),
    {
        let mut r: Vec<ClientTransfer> = Vec::new();
        if load >= self.threshold {
            return r;
        }
        let spare = self.threshold - load;
        let mut i: usize = 0;
        while i < clients.len() && (i as u64) < spare
            invariant
                i <= clients@.len(),
                i <= spare,
                spare == self@.threshold - load,
                r@.len() == i,
                forall|k: int| 0 <= k < i ==> #[trigger] r@[k]@ == self@.proposal(clients@[k]@),
            decreases clients@.len() - i,
        {
            let current = match self.lookup(&clients[i]) {
                Some(a) => a.generation,
                None => 0,
            };
            let generation = if current < u64::MAX {
                current + 1
            } else {
                current
            };
            r.push(
                ClientTransfer {
                    client: copy_bytes(&clients[i]),
                    candidate: copy_bytes(&self.local),
                    generation,
                },
            );
            i = i + 1;
        }
        r
    }

    /// Commits a transfer of a client served locally when its generation is
    /// newer than the recorded one, and returns the new assignment to
    /// announce; any other proposal is dropped.
    pub fn on_transfer(&mut self, t: ClientTransfer) -> (r: Option<Assignment>)
        requires
            old(self)@.wf(),
        ensures
            final(self)@.wf(),
            generations_grow(old(self)@, final(self)@),
            ({
                let accept = old(self)@.accepts(t@);
                let a = AssignmentView {
                    client: t.client@,
                    provider: t.candidate@,
                    generation: t.generation,
                };
                &&& accept ==> r is Some && r->0@ == a && old(self)@.updated(final(self)@, t.client@, a)
                &&& !accept ==> r is None && final(self)@ == old(self)@
            }),
    {
        let accept = match self.lookup(&t.client) {
            Some(a) => bytes_eq(&a.provider, &self.local) && t.generation > a.generation,
            None => false,
        };
        if !accept {
            return None;
        }
        let confirmation = Assignment {
            client: copy_bytes(&t.client),
            provider: copy_bytes(&t.candidate),
            generation: t.generation,
        };
        self.set(Assignment { client: t.client, provider: t.candidate, generation: t.generation });
        Some(confirmation)
    }

    /// Applies an announced assignment, last writer wins: it replaces the
    /// recorded one when its generation is higher, or equal with a smaller
    /// provider identifier; returns whether it was applied.
    pub fn on_confirm(&mut self, a: Assignment) -> (r: bool)
        requires
            old(self)@.wf(),
        ensures
            final(self)@.wf(),
            generations_grow(old(self)@, final(self)@),
            ({
                let wins = old(self)@.wins(a@);
                &&& r == wins
                &&& wins ==> old(self)@.updated(final(self)@, a.client@, a@)
                &&& !wins ==> final(self)@ == old(self)@
            }),
    {
        let wins = match self.lookup(&a.client) {
            None => true,
            Some(c) => a.generation > c.generation || (a.generation == c.generation && bytes_less(
                &a.provider,
                &c.provider,
            )),
        };
        if wins {
            self.set(a);
        }
        wins
    }
    /// Handles the bytes of a control message received at local load `load`
    /// and returns the encoded replies: this peer's proposals for a spread,
    /// the confirmation of a committed transfer. Bytes that carry no message
    /// are dropped.
    pub fn on_control(&mut self, load: u64, bytes: &Vec<u8>) -> (r: Vec<Vec<u8>>)
        requires
            old(self)@.wf(),
        ensures
            final(self)@.wf(),
            generations_grow(old(self)@, final(self)@),
            old(self)@.control_handled(final(self)@, load, bytes@, views(r@)),
    {
        let mut replies: Vec<Vec<u8>> = Vec::new();
        match decode(bytes) {
            None => {
                assert(views(replies@) =~= Seq::<Seq<u8>>::empty());
            },
            Some(ControlMessage::Spread(cs)) => {
                let ghost m = ControlView::Spread(views(cs@));
                assert(encodable(m));
                if self.local.len() as u64 > 0xFFFF_FFFFu64 {
                    return replies;
                }
                let proposals = self.on_spread(load, &cs);
                let mut i: usize = 0;
                while i < proposals.len()
                    invariant
                        i <= proposals@.len(),
                        proposals@.len() <= cs@.len(),
                        encodable(m),
                        m == ControlView::Spread(views(cs@)),
                        self@.local.len() < 0x1_0000_0000,
                        replies@.len() == i,
                        forall|k: int| 0 <= k < proposals@.len() ==> #[trigger] proposals@[k]@ == self@.proposal(cs@[k]@),
                        forall|k: int|
                            0 <= k < i ==> #[trigger] views(replies@)[k] == encoding(
                                ControlView::Transfer(self@.proposal(views(cs@)[k])),
                            ),
                    decreases proposals@.len() - i,
                {
                    let t = ClientTransfer {
                        client: copy_bytes(&proposals[i].client),
                        candidate: copy_bytes(&proposals[i].candidate),
                        generation: proposals[i].generation,
                    };
                    assert(proposals@[i as int]@ == self@.proposal(cs@[i as int]@));
                    assert(views(cs@)[i as int] == cs@[i as int]@);
                    assert(views(cs@)[i as int].len() < 0x1_0000_0000);
                    assert(t@ == self@.proposal(views(cs@)[i as int]));
                    let ghost prev = views(replies@);
                    replies.push(encode(&ControlMessage::Transfer(t)));
                    assert(views(replies@) =~= prev.push(views(replies@)[i as int]));
                    i = i + 1;
                }
            },
            Some(ControlMessage::Transfer(t)) => {
                if let Some(a) = self.on_transfer(t) {
                    replies.push(encode(&ControlMessage::Confirm(a)));
                    assert(views(replies@) =~= seq![views(replies@)[0]]);
                } else {
                    assert(views(replies@) =~= Seq::<Seq<u8>>::empty());
                }
            },
            Some(ControlMessage::Confirm(a)) => {
                self.on_confirm(a);
                assert(views(replies@) =~= Seq::<Seq<u8>>::empty());
            },
        }
        replies
    }
}

} // verus!
