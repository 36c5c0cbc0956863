use gossip_node::broadcast::{resend_ratio, BroadcastNode, InjectedPayload, NodeError, Payload};
use gossip_node::protocol::{Body, Event, Init, Message};

fn node(name: &str, members: &[&str]) -> BroadcastNode {
    BroadcastNode::from_init(Init {
        node_id: name.to_string(),
        node_ids: members.iter().map(|m| m.to_string()).collect(),
    })
}

fn request(src: &str, dest: &str, id: usize, payload: Payload) -> Message<Payload> {
    Message {
        src: src.to_string(),
        dest: dest.to_string(),
        body: Body { id: Some(id), in_reply_to: None, payload },
    }
}

fn topology(entries: &[(&str, &[&str])]) -> Payload {
    Payload::Topology {
        topology: entries
            .iter()
            .map(|(k, v)| (k.to_string(), v.iter().map(|n| n.to_string()).collect()))
            .collect(),
    }
}

fn sorted(mut v: Vec<u64>) -> Vec<u64> {
    v.sort();
    v
}

fn read(n: &mut BroadcastNode) -> Vec<u64> {
    let name = n.node_id().clone();
    match n.handle(request("c9", &name, 900, Payload::Read)) {
        Ok(Some(Message { body: Body { payload: Payload::ReadOk { messages }, .. }, .. })) => {
            sorted(messages)
        }
        _ => panic!("read did not answer read_ok"),
    }
}

fn deliver(to: &mut BroadcastNode, msgs: Vec<Message<Payload>>) {
    for m in msgs {
        if m.dest == *to.node_id() {
            assert!(matches!(to.handle(m), Ok(None)));
        }
    }
}

#[test]
fn broadcast_replies_and_stores() {
    let mut a = node("n1", &["n1", "n2"]);
    let reply = a.handle(request("c1", "n1", 7, Payload::Broadcast { message: 42 })).unwrap().unwrap();
    assert_eq!(reply.src, "n1");
    assert_eq!(reply.dest, "c1");
    assert_eq!(reply.body.id, Some(1));
    assert_eq!(reply.body.in_reply_to, Some(7));
    assert!(matches!(reply.body.payload, Payload::BroadcastOk));
    assert_eq!(a.current_id(), 2);
    assert_eq!(a.read_values(), vec![42]);
}

#[test]
fn read_answers_with_every_value() {
    let mut a = node("n1", &["n1"]);
    a.handle(request("c1", "n1", 1, Payload::Broadcast { message: 5 })).unwrap();
    a.handle(request("c1", "n1", 2, Payload::Broadcast { message: 3 })).unwrap();
    let reply = a.handle(request("c1", "n1", 3, Payload::Read)).unwrap().unwrap();
    assert_eq!(reply.body.id, Some(3));
    assert_eq!(reply.body.in_reply_to, Some(3));
    match reply.body.payload {
        Payload::ReadOk { messages } => assert_eq!(sorted(messages), vec![3, 5]),
        _ => panic!("expected read_ok"),
    }
}

#[test]
fn submitting_twice_keeps_one_copy() {
    let mut a = node("n1", &["n1", "n2"]);
    let mut b = node("n2", &["n1", "n2"]);
    a.handle(request("c1", "n1", 1, Payload::Broadcast { message: 9 })).unwrap();
    a.handle(request("c1", "n1", 2, Payload::Broadcast { message: 9 })).unwrap();
    assert_eq!(read(&mut a), vec![9]);
    b.handle(request("c1", "n2", 1, Payload::Broadcast { message: 9 })).unwrap();
    a.handle(request("n1", "n1", 1, topology(&[("n1", &["n2"]), ("n2", &["n1"])]))).unwrap();
    deliver(&mut b, a.tick());
    assert_eq!(read(&mut b), vec![9]);
}

#[test]
fn topology_sets_neighbors() {
    let mut a = node("n1", &["n1", "n2", "n3"]);
    let reply = a
        .handle(request("c1", "n1", 4, topology(&[("n1", &["n2", "n3", "n2"]), ("n2", &["n1"])])))
        .unwrap()
        .unwrap();
    assert!(matches!(reply.body.payload, Payload::TopologyOk));
    assert_eq!(reply.body.in_reply_to, Some(4));
    assert_eq!(a.neighbor_names(), vec!["n2".to_string(), "n3".to_string(), "n2".to_string()]);
}

#[test]
fn repeated_neighbor_gets_one_message_per_entry() {
    let mut a = node("n1", &["n1", "n2", "n3"]);
    a.handle(request("c1", "n1", 1, topology(&[("n1", &["n2", "n3", "n2"])]))).unwrap();
    a.handle(request("c1", "n1", 2, Payload::Broadcast { message: 42 })).unwrap();
    let out = a.tick();
    let dests: Vec<&str> = out.iter().map(|m| m.dest.as_str()).collect();
    assert_eq!(dests, vec!["n2", "n3", "n2"]);
    for m in &out {
        match &m.body.payload {
            Payload::Gossip { seen } => assert_eq!(seen, &vec![42]),
            _ => panic!("expected gossip"),
        }
    }
    assert_eq!(a.known_by(&"n2".to_string()), vec![42]);
}

#[test]
fn resend_ratio_is_ten_in_count() {
    assert_eq!(resend_ratio(0), (0, 0));
    assert_eq!(resend_ratio(4), (4, 4));
    assert_eq!(resend_ratio(10), (10, 10));
    assert_eq!(resend_ratio(1000), (10, 1000));
    assert_eq!(resend_ratio(usize::MAX), (10, u32::MAX));
}

#[test]
fn topology_without_own_entry_is_refused() {
    let mut a = node("n1", &["n1", "n2"]);
    let r = a.handle(request("c1", "n1", 4, topology(&[("n2", &["n1"])])));
    assert_eq!(r.err(), Some(NodeError::MissingTopology));
    assert_eq!(a.current_id(), 1);
    assert!(a.neighbor_names().is_empty());
}

#[test]
fn gossip_is_merged_without_reply() {
    let mut a = node("n1", &["n1", "n2"]);
    let gossip = Message {
        src: "n2".to_string(),
        dest: "n1".to_string(),
        body: Body { id: None, in_reply_to: None, payload: Payload::Gossip { seen: vec![4, 8] } },
    };
    assert!(matches!(a.handle(gossip), Ok(None)));
    assert_eq!(read(&mut a), vec![4, 8]);
    assert_eq!(sorted(a.known_by(&"n2".to_string())), vec![4, 8]);
    assert_eq!(a.current_id(), 2);
}

#[test]
fn gossip_from_a_stranger_opens_an_account() {
    let mut a = node("n1", &["n1"]);
    let gossip = Message {
        src: "n7".to_string(),
        dest: "n1".to_string(),
        body: Body { id: None, in_reply_to: None, payload: Payload::Gossip { seen: vec![1] } },
    };
    assert!(matches!(a.handle(gossip), Ok(None)));
    assert_eq!(a.known_by(&"n7".to_string()), vec![1]);
}

#[test]
fn acknowledgments_get_no_reply() {
    let mut a = node("n1", &["n1"]);
    assert!(matches!(a.handle(request("n2", "n1", 3, Payload::BroadcastOk)), Ok(None)));
    assert!(matches!(a.handle(request("n2", "n1", 3, Payload::TopologyOk)), Ok(None)));
    let r = a.handle(request("n2", "n1", 3, Payload::ReadOk { messages: vec![6, 2] }));
    assert!(matches!(r, Ok(None)));
    assert_eq!(read(&mut a), vec![2, 6]);
    assert_eq!(a.current_id(), 2);
}

#[test]
fn tick_sends_unknown_values_and_records_them() {
    let mut a = node("n1", &["n1", "n2", "n3"]);
    a.handle(request("c1", "n1", 1, topology(&[("n1", &["n2", "n3"])]))).unwrap();
    a.handle(request("c1", "n1", 2, Payload::Broadcast { message: 42 })).unwrap();
    let out = a.tick();
    assert_eq!(out.len(), 2);
    assert_eq!(out[0].dest, "n2");
    assert_eq!(out[1].dest, "n3");
    for m in &out {
        assert_eq!(m.src, "n1");
        assert_eq!(m.body.id, None);
        assert_eq!(m.body.in_reply_to, None);
        match &m.body.payload {
            Payload::Gossip { seen } => assert_eq!(seen, &vec![42]),
            _ => panic!("expected gossip"),
        }
    }
    assert_eq!(a.known_by(&"n2".to_string()), vec![42]);
    assert_eq!(a.known_by(&"n3".to_string()), vec![42]);
    assert!(a.known_by(&"n1".to_string()).is_empty());
}

#[test]
fn few_known_values_are_all_resent() {
    let mut a = node("n1", &["n1", "n2"]);
    a.handle(request("c1", "n1", 1, topology(&[("n1", &["n2"])]))).unwrap();
    for v in 0..10u64 {
        a.handle(request("c1", "n1", 2, Payload::Broadcast { message: v })).unwrap();
    }
    a.tick();
    for _ in 0..5 {
        let out = a.tick();
        match &out[0].body.payload {
            Payload::Gossip { seen } => assert_eq!(sorted(seen.clone()), (0..10).collect::<Vec<u64>>()),
            _ => panic!("expected gossip"),
        }
    }
}

#[test]
fn resend_volume_stays_bounded() {
    let mut a = node("n1", &["n1", "n2"]);
    a.handle(request("c1", "n1", 1, topology(&[("n1", &["n2"])]))).unwrap();
    for v in 0..1000u64 {
        a.handle(request("c1", "n1", 2, Payload::Broadcast { message: v })).unwrap();
    }
    a.tick();
    let rounds = 200;
    let mut total = 0usize;
    for _ in 0..rounds {
        let out = a.tick();
        match &out[0].body.payload {
            Payload::Gossip { seen } => total += seen.len(),
            _ => panic!("expected gossip"),
        }
    }
    let average = total as f64 / rounds as f64;
    assert!(average > 5.0 && average < 15.0, "average resend {}", average);
}

#[test]
fn scenario_single_hop() {
    let mut a = node("A", &["A", "B"]);
    let mut b = node("B", &["A", "B"]);
    a.handle(request("c", "A", 1, topology(&[("A", &["B"]), ("B", &[])]))).unwrap();
    a.handle(request("c", "A", 2, Payload::Broadcast { message: 42 })).unwrap();
    deliver(&mut b, a.tick());
    assert_eq!(read(&mut b), vec![42]);
}

#[test]
fn scenario_two_nodes_converge() {
    let mut a = node("A", &["A", "B"]);
    let mut b = node("B", &["A", "B"]);
    let topo = || topology(&[("A", &["B"]), ("B", &["A"])]);
    a.handle(request("c", "A", 1, topo())).unwrap();
    b.handle(request("c", "B", 1, topo())).unwrap();
    a.handle(request("c", "A", 2, Payload::Broadcast { message: 1 })).unwrap();
    b.handle(request("c", "B", 2, Payload::Broadcast { message: 2 })).unwrap();
    for _ in 0..2 {
        deliver(&mut b, a.tick());
        deliver(&mut a, b.tick());
    }
    assert_eq!(read(&mut a), vec![1, 2]);
    assert_eq!(read(&mut b), vec![1, 2]);
}

#[test]
fn lost_round_is_made_good() {
    let mut a = node("A", &["A", "B"]);
    let mut b = node("B", &["A", "B"]);
    a.handle(request("c", "A", 1, topology(&[("A", &["B"])]))).unwrap();
    a.handle(request("c", "A", 2, Payload::Broadcast { message: 77 })).unwrap();
    let _lost = a.tick();
    deliver(&mut b, a.tick());
    assert_eq!(read(&mut b), vec![77]);
}

#[test]
fn reads_never_shrink() {
    let mut a = node("n1", &["n1", "n2"]);
    a.handle(request("c", "n1", 1, topology(&[("n1", &["n2"])]))).unwrap();
    let mut last: Vec<u64> = Vec::new();
    for v in [3u64, 1, 3, 2] {
        a.handle(request("c", "n1", 2, Payload::Broadcast { message: v })).unwrap();
        a.tick();
        let now = read(&mut a);
        assert!(last.iter().all(|x| now.contains(x)));
        last = now;
    }
    assert_eq!(last, vec![1, 2, 3]);
}

#[test]
fn step_dispatches_events() {
    let mut a = node("n1", &["n1", "n2"]);
    a.handle(request("c", "n1", 1, topology(&[("n1", &["n2"])]))).unwrap();
    let out = a.step(Event::Message(request("c", "n1", 2, Payload::Broadcast { message: 11 }))).unwrap();
    assert_eq!(out.len(), 1);
    let out = a.step(Event::Injected(InjectedPayload::Gossip)).unwrap();
    assert_eq!(out.len(), 1);
    assert_eq!(out[0].dest, "n2");
    let out = a.step(Event::EOF).unwrap();
    assert!(out.is_empty());
    let out = a.step(Event::Message(request("n2", "n1", 3, Payload::BroadcastOk))).unwrap();
    assert!(out.is_empty());
    let r = a.step(Event::Message(request("c", "n1", 3, topology(&[]))));
    assert_eq!(r.err(), Some(NodeError::MissingTopology));
}

#[test]
fn fresh_node_is_empty() {
    let a = node("n1", &["n1", "n2", "n1"]);
    assert_eq!(a.node_id(), "n1");
    assert_eq!(a.current_id(), 1);
    assert!(a.read_values().is_empty());
    assert!(a.known_by(&"n2".to_string()).is_empty());
    assert!(a.neighbor_names().is_empty());
}
