//! What holds of broadcast nodes across calls.
use vstd::prelude::*;
use crate::broadcast::{gossiped, BroadcastNode, InjectedPayload, NodeError, Payload, RESEND_TARGET};
use crate::protocol::{Event, Message};
use crate::unique_ids::{decimal, digit_char, guid};
use crate::values::{lemma_set_of_finite, set_of};

verus! {

/// A node never forgets: whatever event it takes, every value that it knew
/// before it still knows after, so successive reads only grow; and every value
/// that it believed a peer to know it still believes that peer to know.
pub proof fn lemma_values_only_grow(
    before: BroadcastNode,
    after: BroadcastNode,
    input: Event<Payload, InjectedPayload>,
    r: Result<Vec<Message<Payload>>, NodeError>,
)
    requires
        before.stepped(&after, input, r),
    ensures
        before.values().subset_of(after.values()),
        forall|p: Seq<char>| #[trigger] before.known_to(p).subset_of(after.known_to(p)),
{
    assert forall|p: Seq<char>| #[trigger] before.known_to(p).subset_of(after.known_to(p)) by {
        match input {
            Event::Message(m) => {
                if m.body.payload is Gossip && p != m.src@ {
                    assert(after.known_to(p) == before.known_to(p));
                }
            },
            _ => {},
        }
    }
}

/// Submitting a value that a node already holds changes none of its values:
/// two submissions of one value leave what one leaves.
pub proof fn lemma_broadcast_idempotent(
    first: BroadcastNode,
    second: BroadcastNode,
    third: BroadcastNode,
    m1: Message<Payload>,
    m2: Message<Payload>,
    r1: Result<Option<Message<Payload>>, NodeError>,
    r2: Result<Option<Message<Payload>>, NodeError>,
    value: u64,
)
    requires
        m1.body.payload == (Payload::Broadcast { message: value }),
        m2.body.payload == (Payload::Broadcast { message: value }),
        first.handled(&second, m1, r1),
        second.handled(&third, m2, r2),
    ensures
        third.values() == second.values(),
        third.values() == first.values().insert(value),
{
    assert(third.values() =~= second.values());
}

/// Gossip that arrives carries what is needed: where a node's belief about a
/// neighbor holds of that neighbor, and the neighbor takes the first message
/// of a round meant for it, the neighbor then knows every value of the sender, and
/// the sender's new belief about it holds too.
pub proof fn lemma_round_delivers(
    sender: BroadcastNode,
    sender_after: BroadcastNode,
    out: Seq<Message<Payload>>,
    j: int,
    receiver: BroadcastNode,
    receiver_after: BroadcastNode,
    r: Result<Option<Message<Payload>>, NodeError>,
)
    requires
        sender.ticked(&sender_after, out),
        0 <= j < out.len(),
        sender.neighbors()[j] == receiver.name(),
        !sender.neighbors().subrange(0, j).contains(receiver.name()),
        sender.known_to(receiver.name()).subset_of(receiver.values()),
        receiver.handled(&receiver_after, out[j], r),
    ensures
        sender.values().subset_of(receiver_after.values()),
        sender_after.known_to(receiver.name()).subset_of(receiver_after.values()),
{
    let n = receiver.name();
    let m = out[j];
    assert(sender.neighbors().contains(n));
    let seen = gossiped(m);
    assert(receiver_after.values() == receiver.values().union(seen));
    assert forall|v: u64| sender.values().contains(v) implies receiver_after.values().contains(v) by {
        if !sender.known_to(n).contains(v) {
            assert(sender.values().difference(sender.known_to(n)).contains(v));
        }
    }
}

/// A lost round is made good by the next one wherever a node holds at most as
/// many values as a round re-sends: the next round to each neighbor carries
/// every value again.
pub proof fn lemma_next_round_resends(
    first: BroadcastNode,
    second: BroadcastNode,
    third: BroadcastNode,
    lost: Seq<Message<Payload>>,
    out: Seq<Message<Payload>>,
    j: int,
)
    requires
        first.ticked(&second, lost),
        second.ticked(&third, out),
        first.values().len() <= RESEND_TARGET,
        0 <= j < out.len(),
    ensures
        gossiped(out[j]) == first.values(),
{
    let n = second.neighbors()[j];
    assert(second.values() == first.values());
    let s = set_of(second.value_list());
    lemma_set_of_finite(second.value_list());
    vstd::set_lib::lemma_len_subset(s.intersect(second.belief_before(j, n)), s);
}

/// Values spread one hop per round: take `history(n, t)` as node `n` after
/// round `t`. Where every hop of `path` delivers in every round from `start`
/// on (as `lemma_round_delivers` shows of a round whose messages all arrive),
/// the last node of the path knows, `path.len() - 1`
/// rounds after `start`, every value that the first knew at `start`.
pub proof fn lemma_spread_along_path(
    history: spec_fn(int, int) -> BroadcastNode,
    path: Seq<int>,
    start: int,
)
    requires
        path.len() >= 1,
        forall|i: int, t: int|
            0 <= i < path.len() - 1 && start <= t ==> #[trigger] history(path[i], t).values().subset_of(
                history(path[i + 1], t + 1).values(),
            ),
    ensures
        history(path[0], start).values().subset_of(
            history(path.last(), start + path.len() - 1).values(),
        ),
    decreases path.len(),
{
    if path.len() > 1 {
        let rest = path.drop_last();
        assert forall|i: int, t: int|
            0 <= i < rest.len() - 1 && start <= t implies #[trigger] history(rest[i], t).values().subset_of(
                history(rest[i + 1], t + 1).values(),
            ) by {
            assert(rest[i] == path[i] && rest[i + 1] == path[i + 1]);
            assert(history(path[i], t).values().subset_of(history(path[i + 1], t + 1).values()));
        }
        lemma_spread_along_path(history, rest, start);
        let k = path.len() - 2;
        assert(rest.last() == path[k]);
        assert(history(path[k], start + k).values().subset_of(history(path[k + 1], start + k + 1).values()));
    }
}

/// Whether `path` leads from `from` to `to` over the neighbor lists that the
/// nodes `history(_, t)` hold, in at most `bound` hops.
pub open spec fn is_route(
    history: spec_fn(int, int) -> BroadcastNode,
    t: int,
    path: Seq<int>,
    from: int,
    to: int,
    bound: int,
) -> bool {
    &&& 1 <= path.len() <= bound + 1
    &&& path[0] == from
    &&& path.last() == to
    &&& forall|i: int|
        0 <= i < path.len() - 1 ==> #[trigger] history(path[i], t).neighbors().contains(
            history(path[i + 1], t).name(),
        )
}

/// Whether some route leads from `from` to `to` in at most `bound` hops.
pub open spec fn reachable(
    history: spec_fn(int, int) -> BroadcastNode,
    t: int,
    from: int,
    to: int,
    bound: int,
) -> bool {
    exists|path: Seq<int>| #[trigger] is_route(history, t, path, from, to, bound)
}

proof fn lemma_values_grow_over(history: spec_fn(int, int) -> BroadcastNode, n: int, t: int, d: nat)
    requires
        forall|m: int, u: int| #[trigger] history(m, u).values().subset_of(history(m, u + 1).values()),
    ensures
        history(n, t).values().subset_of(history(n, t + d).values()),
    decreases d,
{
    if d > 0 {
        lemma_values_grow_over(history, n, t, (d - 1) as nat);
        assert(history(n, t + (d - 1)).values().subset_of(history(n, t + (d - 1) + 1).values()));
    }
}

/// Every node comes to know every value: take `history(n, t)` as node `n`
/// after round `t`, for the nodes `0 <= n < count`. Where no node forgets a
/// value, each node's neighbor list reaches every other node in at most
/// `count - 1` hops, and in every round from `start` on each node's values reach
/// each of its neighbors (as `lemma_round_delivers` shows of a round whose
/// messages all arrive), then `count - 1` rounds after `start` every node knows
/// every value that any node knew at `start`.
pub proof fn lemma_cluster_converges(history: spec_fn(int, int) -> BroadcastNode, count: int, start: int)
    requires
        count >= 1,
        forall|m: int, u: int| #[trigger] history(m, u).values().subset_of(history(m, u + 1).values()),
        forall|x: int, y: int, t: int|
            start <= t && #[trigger] history(x, start).neighbors().contains(history(y, start).name())
                ==> #[trigger] history(x, t).values().subset_of(history(y, t + 1).values()),
        forall|x: int, y: int|
            0 <= x < count && 0 <= y < count ==> #[trigger] reachable(history, start, x, y, count - 1),
    ensures
        forall|x: int, y: int|
            0 <= x < count && 0 <= y < count ==> #[trigger] history(x, start).values().subset_of(
                history(y, start + count - 1).values(),
            ),
{
    assert forall|x: int, y: int|
        0 <= x < count && 0 <= y < count implies #[trigger] history(x, start).values().subset_of(
            history(y, start + count - 1).values(),
        ) by {
        assert(reachable(history, start, x, y, count - 1));
        let path = choose|path: Seq<int>| #[trigger] is_route(history, start, path, x, y, count - 1);
        assert forall|i: int, t: int|
            0 <= i < path.len() - 1 && start <= t implies #[trigger] history(path[i], t).values().subset_of(
                history(path[i + 1], t + 1).values(),
            ) by {
            assert(history(path[i], start).neighbors().contains(history(path[i + 1], start).name()));
        }
        lemma_spread_along_path(history, path, start);
        let reached = start + path.len() - 1;
        lemma_values_grow_over(history, y, reached, (count - path.len()) as nat);
        assert(reached + (count - path.len()) == start + count - 1);
    }
}

/// Beliefs learned from gossip hold: what a neighbor comes to believe of the
/// sender of a round is what it believed before plus values that the sender
/// holds, so where its old belief held of the sender, the new one does too.
pub proof fn lemma_learned_beliefs_hold(
    sender: BroadcastNode,
    sender_after: BroadcastNode,
    out: Seq<Message<Payload>>,
    j: int,
    receiver: BroadcastNode,
    receiver_after: BroadcastNode,
    r: Result<Option<Message<Payload>>, NodeError>,
)
    requires
        sender.ticked(&sender_after, out),
        0 <= j < out.len(),
        receiver.handled(&receiver_after, out[j], r),
    ensures
        receiver_after.known_to(sender.name()).subset_of(
            receiver.known_to(sender.name()).union(sender_after.values()),
        ),
        receiver.known_to(sender.name()).subset_of(sender.values()) ==> receiver_after.known_to(
            sender.name(),
        ).subset_of(sender_after.values()),
{
    let m = out[j];
    assert(m.src@ == sender.name());
    assert(sender_after.values() == sender.values());
}

/// A unique-id node never hands out one id twice: ids of different numbers
/// differ.
pub proof fn lemma_guids_differ(node: Seq<char>, a: nat, b: nat)
    requires
        a != b,
    ensures
        guid(node, a) != guid(node, b),
{
    if guid(node, a) == guid(node, b) {
        let k: int = node.len() as int + 1;
        assert(guid(node, a).subrange(k, guid(node, a).len() as int) =~= decimal(a));
        assert(guid(node, b).subrange(k, guid(node, b).len() as int) =~= decimal(b));
        lemma_decimal_injective(a, b);
    }
}

proof fn lemma_decimal_nonempty(n: nat)
    ensures
        decimal(n).len() >= 1,
        decimal(n).last() == digit_char(n % 10),
    decreases n,
{
    if n >= 10 {
        lemma_decimal_nonempty(n / 10);
    }
}

proof fn lemma_decimal_injective(a: nat, b: nat)
    requires
        decimal(a) == decimal(b),
    ensures
        a == b,
    decreases a,
{
    lemma_decimal_nonempty(a);
    lemma_decimal_nonempty(b);
    if a >= 10 {
        lemma_decimal_nonempty(a / 10);
    }
    if b >= 10 {
        lemma_decimal_nonempty(b / 10);
    }
    assert(a % 10 == b % 10);
    if a >= 10 && b >= 10 {
        assert(decimal(a / 10) =~= decimal(a).drop_last());
        assert(decimal(b / 10) =~= decimal(b).drop_last());
        lemma_decimal_injective(a / 10, b / 10);
    }
}

} // verus!
