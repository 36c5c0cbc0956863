//! The broadcast node: a set of values spread over the cluster by gossip.
use vstd::prelude::*;
use crate::protocol::{Body, Event, Init, Message};
use crate::values::{
    contains, copy_of, difference, extend, insert, intersection, lemma_set_of_len, pick, picked, set_of,
};
use rand::Rng;

verus! {

/// The payloads that a broadcast node sends and receives.
pub enum Payload {
    Broadcast { message: u64 },
    BroadcastOk,
    Read,
    ReadOk { messages: Vec<u64> },
    Topology { topology: Vec<(String, Vec<String>)> },
    TopologyOk,
    Gossip { seen: Vec<u64> },
}

/// The markers that a broadcast node raises for itself.
pub enum InjectedPayload {
    Gossip,
}

/// Why a broadcast node cannot go on.
#[derive(Debug, PartialEq, Eq, Structural)]
pub enum NodeError {
    /// The topology that was assigned holds no neighbor list for this node.
    MissingTopology,
}

/// The most already-delivered values that one round of gossip re-sends to a
/// neighbor, on average.
pub const RESEND_TARGET: usize = 10;

/// Relies on rand::Rng::gen_ratio, drawn from rand::thread_rng: true with
/// probability numerator / denominator. Its source panics when the denominator
/// is 0 or below the numerator, returns true whenever the two are equal, and
/// false whenever the numerator is 0.
#[verifier::external_body]
fn draw_ratio(numerator: u32, denominator: u32) -> (r: bool)
    requires
        0 < denominator,
        numerator <= denominator,
    ensures
        numerator == denominator ==> r,
        numerator == 0 ==> !r,
{
    rand::thread_rng().gen_ratio(numerator, denominator)
}

/// The chance, as a numerator and a denominator, with which a round re-sends
/// each of `count` values that a neighbor is believed to know: min(10, count)
/// in count, with the denominator held to what a `u32` holds.
pub fn resend_ratio(count: usize) -> (r: (u32, u32))
    ensures
        r.0 == if count < RESEND_TARGET { count } else { RESEND_TARGET },
        r.1 == if count < u32::MAX { count } else { u32::MAX as usize },
{
    let numerator: u32 = if count < RESEND_TARGET { count as u32 } else { RESEND_TARGET as u32 };
    let denominator: u32 = if count < u32::MAX as usize { count as u32 } else { u32::MAX };
    (numerator, denominator)
}

/// The names that a list of node names holds.
pub open spec fn names(s: Seq<String>) -> Seq<Seq<char>> {
    s.map_values(|n: String| n@)
}

/// Whether `reply` answers `request` from the receiving side with the id `id`.
pub open spec fn answers(reply: Message<Payload>, request: Message<Payload>, id: usize) -> bool {
    &&& reply.src == request.dest
    &&& reply.dest == request.src
    &&& reply.body.id == Some(id)
    &&& reply.body.in_reply_to == request.body.id
}

/// The values that a gossip message carries; empty for any other payload.
pub open spec fn gossiped(m: Message<Payload>) -> Set<u64> {
    match m.body.payload {
        Payload::Gossip { seen } => set_of(seen@),
        _ => Set::empty(),
    }
}

/// Whether `m` is an unsolicited gossip message from `src` to `dest`.
pub open spec fn is_gossip(m: Message<Payload>, src: Seq<char>, dest: Seq<char>) -> bool {
    &&& m.src@ == src
    &&& m.dest@ == dest
    &&& m.body.id is None
    &&& m.body.in_reply_to is None
    &&& m.body.payload is Gossip
}

/// The index of the first entry of `topology` that is keyed by `name`, if any.
pub open spec fn topology_entry(topology: Seq<(String, Vec<String>)>, name: Seq<char>) -> Option<int> {
    if exists|i: int| 0 <= i < topology.len() && topology[i].0@ == name {
        Some(choose|i: int|
            0 <= i < topology.len() && topology[i].0@ == name && forall|j: int|
                0 <= j < i ==> topology[j].0@ != name)
    } else {
        None
    }
}

/// A node of the broadcast protocol.
pub struct BroadcastNode {
    node: String,
    id: usize,
    messages: Vec<u64>,
    peers: Vec<String>,
    known: Vec<Vec<u64>>,
    neighborhood: Vec<String>,
}

impl BroadcastNode {
    /// This node's own name.
    pub closed spec fn name(&self) -> Seq<char> {
        self.node@
    }

    /// The id that the next reply of this node carries.
    pub closed spec fn next_id(&self) -> usize {
        self.id
    }

    /// The values that this node knows, in the order in which it learned them.
    pub closed spec fn value_list(&self) -> Seq<u64> {
        self.messages@
    }

    /// The values that this node knows.
    pub open spec fn values(&self) -> Set<u64> {
        set_of(self.value_list())
    }

    /// The values that this node believes `peer` to know.
    pub closed spec fn known_to(&self, peer: Seq<char>) -> Set<u64> {
        Set::new(|v: u64| exists|i: int|
            0 <= i < self.peers@.len() && self.peers@[i]@ == peer && self.known@[i]@.contains(v))
    }

    /// The peers of which this node keeps an account.
    pub closed spec fn members(&self) -> Set<Seq<char>> {
        names(self.peers@).to_set()
    }

    /// The neighbors that this node gossips to, in order.
    pub closed spec fn neighbors(&self) -> Seq<Seq<char>> {
        names(self.neighborhood@)
    }

    /// The node's state is consistent: each value is held once, each peer has
    /// one account.
    pub closed spec fn wf(&self) -> bool {
        &&& self.messages@.no_duplicates()
        &&& self.peers@.len() == self.known@.len()
        &&& forall|i: int| 0 <= i < self.known@.len() ==> (#[trigger] self.known@[i])@.no_duplicates()
        &&& names(self.peers@).no_duplicates()
    }

    /// Both nodes believe the same of every peer.
    pub open spec fn same_knowledge(&self, other: &BroadcastNode) -> bool {
        forall|p: Seq<char>| #[trigger] self.known_to(p) == other.known_to(p)
    }

    /// Both nodes hold the same name, values, neighbors and beliefs.
    pub open spec fn same_state(&self, other: &BroadcastNode) -> bool {
        &&& self.name() == other.name()
        &&& self.values() == other.values()
        &&& self.neighbors() == other.neighbors()
        &&& self.same_knowledge(other)
    }

    /// What handling the message `msg` does: `self` is the node before and
    /// `after` the node after it, `r` what was returned.
    pub open spec fn handled(
        &self,
        after: &BroadcastNode,
        msg: Message<Payload>,
        r: Result<Option<Message<Payload>>, NodeError>,
    ) -> bool {
        &&& after.name() == self.name()
        &&& match msg.body.payload {
            Payload::Broadcast { message } => r matches Ok(Some(m)) && answers(m, msg, self.next_id())
                && m.body.payload is BroadcastOk
                && after.values() == self.values().insert(message)
                && after.next_id() == self.next_id() + 1
                && after.neighbors() == self.neighbors()
                && after.same_knowledge(self),
            Payload::Read => r matches Ok(Some(m)) && answers(m, msg, self.next_id())
                && (m.body.payload matches Payload::ReadOk { messages } && messages@.no_duplicates()
                    && set_of(messages@) == self.values())
                && after.next_id() == self.next_id() + 1
                && after.same_state(self),
            Payload::Topology { topology } => match topology_entry(topology@, self.name()) {
                Some(k) => r matches Ok(Some(m)) && answers(m, msg, self.next_id())
                    && m.body.payload is TopologyOk
                    && after.neighbors() == names(topology@[k].1@)
                    && after.next_id() == self.next_id() + 1
                    && after.values() == self.values()
                    && after.same_knowledge(self),
                None => r == Err::<Option<Message<Payload>>, NodeError>(NodeError::MissingTopology)
                    && after.next_id() == self.next_id()
                    && after.same_state(self),
            },
            Payload::Gossip { seen } => r == Ok::<Option<Message<Payload>>, NodeError>(None)
                && after.values() == self.values().union(set_of(seen@))
                && after.known_to(msg.src@) == self.known_to(msg.src@).union(set_of(seen@))
                && (forall|p: Seq<char>| p != msg.src@ ==> #[trigger] after.known_to(p) == self.known_to(p))
                && after.neighbors() == self.neighbors()
                && after.next_id() == self.next_id(),
            Payload::ReadOk { messages } => r == Ok::<Option<Message<Payload>>, NodeError>(None)
                && after.values() == self.values().union(set_of(messages@))
                && after.neighbors() == self.neighbors()
                && after.same_knowledge(self)
                && after.next_id() == self.next_id(),
            Payload::BroadcastOk | Payload::TopologyOk => r == Ok::<Option<Message<Payload>>, NodeError>(None)
                && after.same_state(self)
                && after.next_id() == self.next_id(),
        }
    }

    /// What this node believes `peer` to know when a round of gossip comes to
    /// its `j`-th message: what it believed before the round, and every value
    /// where an earlier message of the round went to `peer` too.
    pub open spec fn belief_before(&self, j: int, peer: Seq<char>) -> Set<u64> {
        if self.neighbors().subrange(0, j).contains(peer) {
            self.known_to(peer).union(self.values())
        } else {
            self.known_to(peer)
        }
    }

    /// What a round of gossip does: `self` is the node before and `after` the
    /// node after it, `r` the messages sent, one to each neighbor in order.
    pub open spec fn ticked(&self, after: &BroadcastNode, r: Seq<Message<Payload>>) -> bool {
        &&& after.name() == self.name()
        &&& after.next_id() == self.next_id()
        &&& after.value_list() == self.value_list()
        &&& after.neighbors() == self.neighbors()
        &&& r.len() == self.neighbors().len()
        &&& forall|j: int| 0 <= j < r.len() ==> {
            let n = self.neighbors()[j];
            let k = self.belief_before(j, n);
            &&& is_gossip(#[trigger] r[j], self.name(), n)
            &&& self.values().difference(k).subset_of(gossiped(r[j]))
            &&& gossiped(r[j]).subset_of(self.values())
            &&& self.values().intersect(k).len() <= RESEND_TARGET ==> gossiped(r[j]) == self.values()
        }
        &&& forall|p: Seq<char>| #[trigger] after.known_to(p) == if self.neighbors().contains(p) {
            self.known_to(p).union(self.values())
        } else {
            self.known_to(p)
        }
    }

    /// What taking the event `input` does: `self` is the node before and `after`
    /// the node after it, `r` what was returned.
    pub open spec fn stepped(
        &self,
        after: &BroadcastNode,
        input: Event<Payload, InjectedPayload>,
        r: Result<Vec<Message<Payload>>, NodeError>,
    ) -> bool {
        match input {
            Event::Message(m) => match r {
                Ok(out) => out@.len() <= 1 && self.handled(
                    after,
                    m,
                    Ok(if out@.len() == 0 { None } else { Some(out@[0]) }),
                ),
                Err(e) => self.handled(after, m, Err(e)),
            },
            Event::Injected(InjectedPayload::Gossip) => r matches Ok(out) && self.ticked(after, out@),
            Event::EOF => r matches Ok(out) && out@.len() == 0 && after.same_state(self)
                && after.next_id() == self.next_id(),
        }
    }

    proof fn lemma_known_at(&self, i: int)
        requires
            self.wf(),
            0 <= i < self.peers@.len(),
        ensures
            self.known_to(self.peers@[i]@) == set_of(self.known@[i]@),
    {
        assert forall|v: u64| self.known_to(self.peers@[i]@).contains(v) implies set_of(
            self.known@[i]@,
        ).contains(v) by {
            let j = choose|j: int|
                0 <= j < self.peers@.len() && self.peers@[j]@ == self.peers@[i]@
                    && self.known@[j]@.contains(v);
            if j != i {
                assert(names(self.peers@)[j] != names(self.peers@)[i]);
            }
        }
        assert(self.known_to(self.peers@[i]@) =~= set_of(self.known@[i]@));
    }

    proof fn lemma_same_accounts(&self, other: &BroadcastNode)
        requires
            self.peers == other.peers,
            self.known == other.known,
        ensures
            self.same_knowledge(other),
    {
        assert forall|p: Seq<char>| #[trigger] self.known_to(p) == other.known_to(p) by {
            assert(self.known_to(p) =~= other.known_to(p));
        }
    }

    proof fn lemma_known_absent(&self, peer: Seq<char>)
        requires
            forall|i: int| 0 <= i < self.peers@.len() ==> self.peers@[i]@ != peer,
        ensures
            self.known_to(peer) == Set::<u64>::empty(),
    {
        assert(self.known_to(peer) =~= Set::<u64>::empty());
    }

    /// A node that has just passed its handshake: it knows no value, has no
    /// neighbor yet, keeps an empty account for each member of the cluster, and
    /// numbers its replies from 1.
    pub fn from_init(init: Init) -> (r: BroadcastNode)
        ensures
            r.wf(),
            r.name() == init.node_id@,
            r.next_id() == 1,
            r.values() == Set::<u64>::empty(),
            r.neighbors() == Seq::<Seq<char>>::empty(),
            r.members() == names(init.node_ids@).to_set(),
            forall|p: Seq<char>| #[trigger] r.known_to(p) == Set::<u64>::empty(),
    {
        let Init { node_id, node_ids } = init;
        let mut r = BroadcastNode {
            node: node_id,
            id: 1,
            messages: Vec::new(),
            peers: Vec::new(),
            known: Vec::new(),
            neighborhood: Vec::new(),
        };
        let mut i: usize = 0;
        while i < node_ids.len()
            invariant
                0 <= i <= node_ids@.len(),
                r.wf(),
                r.node@ == node_id@,
                r.id == 1,
                r.messages@.len() == 0,
                r.neighborhood@.len() == 0,
                forall|j: int| 0 <= j < r.known@.len() ==> (#[trigger] r.known@[j])@.len() == 0,
                names(r.peers@).to_set() == names(node_ids@.subrange(0, i as int)).to_set(),
            decreases node_ids@.len() - i,
        {
            let _ = r.account_of(&node_ids[i]);
            proof {
                assert(node_ids@.subrange(0, i + 1) =~= node_ids@.subrange(0, i as int).push(node_ids@[i as int]));
                assert(names(node_ids@.subrange(0, i + 1)) =~= names(node_ids@.subrange(0, i as int)).push(node_ids@[i as int]@));
                names(node_ids@.subrange(0, i as int)).lemma_push_to_set_commute(node_ids@[i as int]@);
                assert(names(node_ids@.subrange(0, i + 1)).to_set() =~= names(r.peers@).to_set());
            }
            i = i + 1;
        }
        proof {
            assert(node_ids@.subrange(0, node_ids@.len() as int) =~= node_ids@);
            assert(r.values() =~= Set::<u64>::empty());
            assert(r.neighbors() =~= Seq::<Seq<char>>::empty());
            assert forall|p: Seq<char>| #[trigger] r.known_to(p) == Set::<u64>::empty() by {
                assert(r.known_to(p) =~= Set::<u64>::empty());
            }
        }
        r
    }

    /// The index of the account kept of `peer`, opened empty if there was none.
    fn account_of(&mut self, peer: &String) -> (r: usize)
        requires
            old(self).wf(),
        ensures
            final(self).wf(),
            r < final(self).peers@.len(),
            final(self).peers@[r as int]@ == peer@,
            final(self).node == old(self).node,
            final(self).id == old(self).id,
            final(self).messages == old(self).messages,
            final(self).neighborhood == old(self).neighborhood,
            final(self).same_knowledge(old(self)),
            final(self).members() == old(self).members().insert(peer@),
            forall|j: int| 0 <= j < old(self).known@.len() ==> final(self).known@[j] == old(self).known@[j],
            forall|j: int| old(self).known@.len() <= j < final(self).known@.len() ==> (#[trigger] final(self).known@[j])@.len() == 0,
    {
        let mut i: usize = 0;
        while i < self.peers.len()
            invariant
                0 <= i <= self.peers@.len(),
                *self == *old(self),
                self.wf(),
                forall|j: int| 0 <= j < i ==> self.peers@[j]@ != peer@,
            decreases self.peers@.len() - i,
        {
            if self.peers[i] == *peer {
                proof {
                    assert(names(self.peers@)[i as int] == peer@);
                    assert(self.members() =~= self.members().insert(peer@));
                }
                return i;
            }
            i = i + 1;
        }
        let ghost before = *self;
        proof {
            before.lemma_known_absent(peer@);
        }
        self.peers.push(peer.clone());
        self.known.push(Vec::new());
        proof {
            assert(names(self.peers@) =~= names(before.peers@).push(peer@));
            assert forall|a: int, b: int|
                0 <= a < names(self.peers@).len() && 0 <= b < names(self.peers@).len() && a != b
                implies names(self.peers@)[a] != names(self.peers@)[b] by {
                if a < i && b < i {
                    assert(names(before.peers@)[a] != names(before.peers@)[b]);
                }
            }
            names(before.peers@).lemma_push_to_set_commute(peer@);
            assert(self.members() =~= before.members().insert(peer@));
            assert forall|p: Seq<char>| #[trigger] self.known_to(p) == before.known_to(p) by {
                assert forall|v: u64| self.known_to(p).contains(v) implies before.known_to(p).contains(v) by {
                    let j = choose|j: int|
                        0 <= j < self.peers@.len() && self.peers@[j]@ == p && self.known@[j]@.contains(v);
                    assert(j < before.peers@.len());
                }
                assert forall|v: u64| before.known_to(p).contains(v) implies self.known_to(p).contains(v) by {
                    let j = choose|j: int|
                        0 <= j < before.peers@.len() && before.peers@[j]@ == p && before.known@[j]@.contains(v);
                    assert(self.peers@[j] == before.peers@[j]);
                    assert(self.known@[j] == before.known@[j]);
                }
                assert(self.known_to(p) =~= before.known_to(p));
            }
        }
        i
    }

    /// Records that `peer` knows every value of `seen`.
    fn learn(&mut self, peer: &String, seen: &Vec<u64>)
        requires
            old(self).wf(),
        ensures
            final(self).wf(),
            final(self).node == old(self).node,
            final(self).id == old(self).id,
            final(self).messages == old(self).messages,
            final(self).neighborhood == old(self).neighborhood,
            final(self).known_to(peer@) == old(self).known_to(peer@).union(set_of(seen@)),
            forall|p: Seq<char>| p != peer@ ==> #[trigger] final(self).known_to(p) == old(self).known_to(p),
    {
        let i = self.account_of(peer);
        let ghost mid = *self;
        proof {
            mid.lemma_known_at(i as int);
        }
        extend(&mut self.known[i], seen);
        proof {
            assert(self.peers@ == mid.peers@);
            assert forall|j: int| 0 <= j < self.known@.len() implies (#[trigger] self.known@[j])@.no_duplicates() by {
                if j != i {
                    assert(self.known@[j] == mid.known@[j]);
                }
            }
            self.lemma_known_at(i as int);
            assert forall|p: Seq<char>| p != peer@ implies #[trigger] self.known_to(p) == mid.known_to(p) by {
                assert forall|v: u64| self.known_to(p).contains(v) implies mid.known_to(p).contains(v) by {
                    let j = choose|j: int|
                        0 <= j < self.peers@.len() && self.peers@[j]@ == p && self.known@[j]@.contains(v);
                    assert(j != i);
                    assert(self.known@[j] == mid.known@[j]);
                }
                assert forall|v: u64| mid.known_to(p).contains(v) implies self.known_to(p).contains(v) by {
                    let j = choose|j: int|
                        0 <= j < mid.peers@.len() && mid.peers@[j]@ == p && mid.known@[j]@.contains(v);
                    assert(j != i);
                    assert(self.known@[j] == mid.known@[j]);
                }
                assert(self.known_to(p) =~= mid.known_to(p));
            }
        }
    }

    /// Adds every value of `xs` to what this node knows.
    fn merge_values(&mut self, xs: &Vec<u64>)
        requires
            old(self).wf(),
        ensures
            final(self).wf(),
            final(self).values() == old(self).values().union(set_of(xs@)),
            final(self).node == old(self).node,
            final(self).id == old(self).id,
            final(self).peers == old(self).peers,
            final(self).known == old(self).known,
            final(self).neighborhood == old(self).neighborhood,
    {
        extend(&mut self.messages, xs);
    }

    /// Keeps `list` as the neighbor list.
    fn set_neighbors(&mut self, list: &Vec<String>)
        requires
            old(self).wf(),
        ensures
            final(self).wf(),
            final(self).neighbors() == names(list@),
            final(self).node == old(self).node,
            final(self).id == old(self).id,
            final(self).messages == old(self).messages,
            final(self).peers == old(self).peers,
            final(self).known == old(self).known,
    {
        let mut out: Vec<String> = Vec::new();
        let mut i: usize = 0;
        while i < list.len()
            invariant
                0 <= i <= list@.len(),
                names(out@) == names(list@.subrange(0, i as int)),
            decreases list@.len() - i,
        {
            let ghost before = out@;
            out.push(list[i].clone());
            proof {
                let x = list@[i as int];
                assert(names(out@) =~= names(before).push(x@));
                assert(list@.subrange(0, i + 1) =~= list@.subrange(0, i as int).push(x));
                assert(names(list@.subrange(0, i + 1)) =~= names(list@.subrange(0, i as int)).push(x@));
            }
            i = i + 1;
        }
        proof {
            assert(list@.subrange(0, list@.len() as int) =~= list@);
        }
        self.neighborhood = out;
    }

    /// Takes this node's neighbor list from `topology`: the list of its first
    /// entry keyed by this node's name. Where there is none, nothing changes.
    fn assign_topology(&mut self, topology: &Vec<(String, Vec<String>)>) -> (r: Result<(), NodeError>)
        requires
            old(self).wf(),
        ensures
            final(self).wf(),
            final(self).node == old(self).node,
            final(self).id == old(self).id,
            final(self).messages == old(self).messages,
            final(self).peers == old(self).peers,
            final(self).known == old(self).known,
            match topology_entry(topology@, old(self).name()) {
                Some(k) => r is Ok && final(self).neighbors() == names(topology@[k].1@),
                None => r == Err::<(), NodeError>(NodeError::MissingTopology) && *final(self) == *old(self),
            },
    {
        let mut i: usize = 0;
        while i < topology.len()
            invariant
                0 <= i <= topology@.len(),
                *self == *old(self),
                self.wf(),
                forall|j: int| 0 <= j < i ==> topology@[j].0@ != self.node@,
            decreases topology@.len() - i,
        {
            if topology[i].0 == self.node {
                proof {
                    let k = topology_entry(topology@, self.node@).unwrap();
                    assert(k == i);
                }
                self.set_neighbors(&topology[i].1);
                return Ok(());
            }
            i = i + 1;
        }
        Err(NodeError::MissingTopology)
    }

    /// One gossip message to `peer`. It carries every value that `peer` is not
    /// believed to know, and of the values that it is believed to know those
    /// whose flag in `keep` is set (the flags follow `value_list`). Afterwards
    /// `peer` is believed to know every value of this node.
    pub fn gossip_to(&mut self, peer: &String, keep: &Vec<bool>) -> (r: Message<Payload>)
        requires
            old(self).wf(),
        ensures
            final(self).wf(),
            final(self).name() == old(self).name(),
            final(self).next_id() == old(self).next_id(),
            final(self).value_list() == old(self).value_list(),
            final(self).neighbors() == old(self).neighbors(),
            is_gossip(r, old(self).name(), peer@),
            gossiped(r) == old(self).values().difference(old(self).known_to(peer@)).union(
                picked(old(self).value_list(), keep@).intersect(old(self).known_to(peer@)),
            ),
            final(self).known_to(peer@) == old(self).known_to(peer@).union(old(self).values()),
            forall|p: Seq<char>| p != peer@ ==> #[trigger] final(self).known_to(p) == old(self).known_to(p),
    {
        let i = self.account_of(peer);
        proof {
            self.lemma_known_at(i as int);
        }
        let unknown = difference(&self.messages, &self.known[i]);
        let resend = pick(&self.messages, keep, &self.known[i]);
        let mut seen = copy_of(&unknown);
        extend(&mut seen, &resend);
        self.learn(peer, &unknown);
        proof {
            assert(self.known_to(peer@) =~= old(self).known_to(peer@).union(old(self).values()));
        }
        Message {
            src: self.node.clone(),
            dest: peer.clone(),
            body: Body { id: None, in_reply_to: None, payload: Payload::Gossip { seen } },
        }
    }

    /// One round of gossip: a message to each neighbor, in order, as `gossip_to`
    /// builds it. Each already-delivered value is re-sent with probability
    /// min(10, n) / n, where n counts the values that the neighbor is believed to
    /// know; so where n is at most 10, every value is sent.
    pub fn tick(&mut self) -> (r: Vec<Message<Payload>>)
        requires
            old(self).wf(),
        ensures
            final(self).wf(),
            final(self).name() == old(self).name(),
            final(self).next_id() == old(self).next_id(),
            final(self).value_list() == old(self).value_list(),
            old(self).ticked(final(self), r@),
    {
        let mut out: Vec<Message<Payload>> = Vec::new();
        let mut idx: usize = 0;
        while idx < self.neighborhood.len()
            invariant
                0 <= idx <= self.neighborhood@.len(),
                self.wf(),
                self.node@ == old(self).node@,
                self.id == old(self).id,
                self.messages@ == old(self).messages@,
                names(self.neighborhood@) == names(old(self).neighborhood@),
                self.neighborhood@.len() == old(self).neighborhood@.len(),
                out@.len() == idx,
                forall|j: int| 0 <= j < idx ==> {
                    let n = old(self).neighbors()[j];
                    let k = old(self).belief_before(j, n);
                    &&& is_gossip(#[trigger] out@[j], old(self).name(), n)
                    &&& old(self).values().difference(k).subset_of(gossiped(out@[j]))
                    &&& gossiped(out@[j]).subset_of(old(self).values())
                    &&& old(self).values().intersect(k).len() <= RESEND_TARGET ==> gossiped(out@[j])
                        == old(self).values()
                },
                forall|p: Seq<char>| #[trigger] self.known_to(p) == old(self).belief_before(idx as int, p),
            decreases self.neighborhood@.len() - idx,
        {
            let peer = self.neighborhood[idx].clone();
            let ghost n = peer@;
            proof {
                assert(self.neighbors()[idx as int] == n);
                assert(old(self).neighbors()[idx as int] == n);
                assert(self.known_to(n) == old(self).belief_before(idx as int, n));
            }
            let i = self.account_of(&peer);
            proof {
                self.lemma_known_at(i as int);
            }
            let common = intersection(&self.messages, &self.known[i]);
            let count = common.len();
            proof {
                lemma_set_of_len(common@);
            }
            let (numerator, denominator) = resend_ratio(count);
            let mut keep: Vec<bool> = Vec::new();
            let mut k: usize = 0;
            while k < self.messages.len()
                invariant
                    0 <= k <= self.messages@.len(),
                    keep@.len() == k,
                    self.messages@.no_duplicates(),
                    i < self.known@.len(),
                    count == set_of(self.messages@).intersect(set_of(self.known@[i as int]@)).len(),
                    count <= RESEND_TARGET ==> numerator == denominator,
                    count < u32::MAX ==> denominator == count,
                    count >= u32::MAX ==> denominator == u32::MAX,
                    numerator <= denominator,
                    forall|j: int| 0 <= j < k && (#[trigger] keep@[j]) ==> self.known@[i as int]@.contains(self.messages@[j]),
                    count <= RESEND_TARGET ==> forall|j: int|
                        0 <= j < k && self.known@[i as int]@.contains(self.messages@[j]) ==> #[trigger] keep@[j],
                decreases self.messages@.len() - k,
            {
                let flag = if contains(&self.known[i], self.messages[k]) {
                    proof {
                        assert(set_of(self.messages@).intersect(set_of(self.known@[i as int]@)).contains(self.messages@[k as int]));
                        lemma_set_of_len(self.messages@);
                        let both = set_of(self.messages@).intersect(set_of(self.known@[i as int]@));
                        vstd::set_lib::lemma_len_subset(both, set_of(self.messages@));
                        assert(set_of(self.known@[i as int]@).contains(self.messages@[k as int]));
                        assert(both.contains(self.messages@[k as int]));
                        assert(both.subset_of(set_of(self.messages@)));
                        assert(both.finite());
                        assert(both.remove(self.messages@[k as int]).len() + 1 == both.len());
                        assert(count > 0);
                    }
                    draw_ratio(numerator, denominator)
                } else {
                    false
                };
                keep.push(flag);
                k = k + 1;
            }
            let ghost before = *self;
            let msg = self.gossip_to(&peer, &keep);
            proof {
                let v = old(self).values();
                let kn = old(self).belief_before(idx as int, n);
                if v.intersect(kn).len() <= RESEND_TARGET {
                    assert(gossiped(msg) =~= v);
                }
                assert(names(self.neighborhood@).len() == self.neighborhood@.len());
                assert(names(old(self).neighborhood@).len() == old(self).neighborhood@.len());
                assert(old(self).neighbors().subrange(0, idx + 1) =~= old(self).neighbors().subrange(0, idx as int).push(n));
                assert forall|p: Seq<char>| #[trigger] self.known_to(p) == old(self).belief_before(idx + 1, p) by {
                    vstd::seq_lib::lemma_seq_contains_after_push(old(self).neighbors().subrange(0, idx as int), n, p);
                    if p == n {
                        assert(self.known_to(p) =~= old(self).known_to(p).union(old(self).values()));
                    } else {
                        assert(before.known_to(p) == self.known_to(p));
                    }
                }
            }
            out.push(msg);
            idx = idx + 1;
        }
        proof {
            assert(old(self).neighbors().subrange(0, idx as int) =~= old(self).neighbors());
        }
        out
    }

    /// Handles one message: a request gets its reply, carrying this node's next
    /// id; gossip and acknowledgments are merged and get none.
    pub fn handle(&mut self, msg: Message<Payload>) -> (r: Result<Option<Message<Payload>>, NodeError>)
        requires
            old(self).wf(),
            old(self).next_id() < usize::MAX,
        ensures
            final(self).wf(),
            old(self).handled(final(self), msg, r),
    {
        let Message { src, dest, body } = msg;
        let Body { id, in_reply_to: _, payload } = body;
        match payload {
            Payload::Broadcast { message } => {
                insert(&mut self.messages, message);
                let reply = crate::protocol::reply_to(src, dest, id, self.id, Payload::BroadcastOk);
                self.id = self.id + 1;
                proof {
                    self.lemma_same_accounts(old(self));
                }
                Ok(Some(reply))
            },
            Payload::Read => {
                let messages = copy_of(&self.messages);
                let reply = crate::protocol::reply_to(src, dest, id, self.id, Payload::ReadOk { messages });
                self.id = self.id + 1;
                proof {
                    self.lemma_same_accounts(old(self));
                }
                Ok(Some(reply))
            },
            Payload::Topology { topology } => {
                match self.assign_topology(&topology) {
                    Ok(()) => {
                        let reply = crate::protocol::reply_to(src, dest, id, self.id, Payload::TopologyOk);
                        self.id = self.id + 1;
                        proof {
                            self.lemma_same_accounts(old(self));
                        }
                        Ok(Some(reply))
                    },
                    Err(e) => Err(e),
                }
            },
            Payload::Gossip { seen } => {
                self.learn(&src, &seen);
                let ghost mid = *self;
                self.merge_values(&seen);
                proof {
                    assert forall|p: Seq<char>| #[trigger] self.known_to(p) == mid.known_to(p) by {
                        assert(self.known_to(p) =~= mid.known_to(p));
                    }
                }
                Ok(None)
            },
            Payload::ReadOk { messages } => {
                self.merge_values(&messages);
                proof {
                    self.lemma_same_accounts(old(self));
                }
                Ok(None)
            },
            Payload::BroadcastOk | Payload::TopologyOk => Ok(None),
        }
    }

    /// Takes one event: a message is handled, a gossip marker starts a round of
    /// gossip, the end of input changes nothing. Returns the messages to send.
    pub fn step(&mut self, input: Event<Payload, InjectedPayload>) -> (r: Result<Vec<Message<Payload>>, NodeError>)
        requires
            old(self).wf(),
            old(self).next_id() < usize::MAX,
        ensures
            final(self).wf(),
            old(self).stepped(final(self), input, r),
    {
        match input {
            Event::Message(m) => match self.handle(m) {
                Ok(Some(reply)) => {
                    let mut out: Vec<Message<Payload>> = Vec::new();
                    out.push(reply);
                    Ok(out)
                },
                Ok(None) => Ok(Vec::new()),
                Err(e) => Err(e),
            },
            Event::Injected(InjectedPayload::Gossip) => Ok(self.tick()),
            Event::EOF => {
                proof {
                    self.lemma_same_accounts(old(self));
                }
                Ok(Vec::new())
            },
        }
    }

    /// This node's own name.
    pub fn node_id(&self) -> (r: &String)
        ensures
            r@ == self.name(),
    {
        &self.node
    }

    /// The id that the next reply of this node carries.
    pub fn current_id(&self) -> (r: usize)
        ensures
            r == self.next_id(),
    {
        self.id
    }

    /// The values that this node knows, in the order in which it learned them.
    pub fn read_values(&self) -> (r: Vec<u64>)
        ensures
            r@ == self.value_list(),
    {
        copy_of(&self.messages)
    }

    /// The values that this node believes `peer` to know.
    pub fn known_by(&self, peer: &String) -> (r: Vec<u64>)
        requires
            self.wf(),
        ensures
            set_of(r@) == self.known_to(peer@),
    {
        let mut i: usize = 0;
        while i < self.peers.len()
            invariant
                0 <= i <= self.peers@.len(),
                self.wf(),
                forall|j: int| 0 <= j < i ==> self.peers@[j]@ != peer@,
            decreases self.peers@.len() - i,
        {
            if self.peers[i] == *peer {
                proof {
                    self.lemma_known_at(i as int);
                }
                return copy_of(&self.known[i]);
            }
            i = i + 1;
        }
        proof {
            self.lemma_known_absent(peer@);
            assert(set_of(Seq::<u64>::empty()) =~= Set::<u64>::empty());
        }
        Vec::new()
    }

    /// The neighbors that this node gossips to, in order.
    pub fn neighbor_names(&self) -> (r: Vec<String>)
        ensures
            names(r@) == self.neighbors(),
    {
        let mut r: Vec<String> = Vec::new();
        let mut i: usize = 0;
        while i < self.neighborhood.len()
            invariant
                0 <= i <= self.neighborhood@.len(),
                names(r@) == names(self.neighborhood@.subrange(0, i as int)),
            decreases self.neighborhood@.len() - i,
        {
            let ghost before = r@;
            r.push(self.neighborhood[i].clone());
            proof {
                let x = self.neighborhood@[i as int];
                assert(names(r@) =~= names(before).push(x@));
                assert(self.neighborhood@.subrange(0, i + 1) =~= self.neighborhood@.subrange(0, i as int).push(x));
                assert(names(self.neighborhood@.subrange(0, i + 1)) =~= names(self.neighborhood@.subrange(0, i as int)).push(x@));
            }
            i = i + 1;
        }
        proof {
            assert(self.neighborhood@.subrange(0, i as int) =~= self.neighborhood@);
        }
        r
    }
}

} // verus!
