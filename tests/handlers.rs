use gossip_node::echo::{EchoNode, Payload as EchoPayload};
use gossip_node::protocol::{accept_init, reply_to, Body, Event, HandshakeError, Init, InitPayload, Message};
use gossip_node::unique_ids::{make_guid, Payload as UniquePayload, UniqueNode};

fn init_message(payload: InitPayload) -> Message<InitPayload> {
    Message {
        src: "c0".to_string(),
        dest: "n1".to_string(),
        body: Body { id: Some(5), in_reply_to: None, payload },
    }
}

#[test]
fn handshake_accepts_init() {
    let init = Init { node_id: "n1".to_string(), node_ids: vec!["n1".to_string(), "n2".to_string()] };
    let (got, reply) = accept_init(init_message(InitPayload::Init(init))).ok().unwrap();
    assert_eq!(got.node_id, "n1");
    assert_eq!(got.node_ids, vec!["n1".to_string(), "n2".to_string()]);
    assert_eq!(reply.src, "n1");
    assert_eq!(reply.dest, "c0");
    assert_eq!(reply.body.id, Some(0));
    assert_eq!(reply.body.in_reply_to, Some(5));
    assert!(matches!(reply.body.payload, InitPayload::InitOk));
}

#[test]
fn handshake_refuses_other_first_message() {
    let r = accept_init(init_message(InitPayload::InitOk));
    assert_eq!(r.err(), Some(HandshakeError::NotInit));
}

#[test]
fn reply_swaps_ends() {
    let m = reply_to("a".to_string(), "b".to_string(), Some(3), 9, 1u8);
    assert_eq!(m.src, "b");
    assert_eq!(m.dest, "a");
    assert_eq!(m.body.id, Some(9));
    assert_eq!(m.body.in_reply_to, Some(3));
    assert_eq!(m.body.payload, 1u8);
}

#[test]
fn echo_returns_the_text() {
    let mut n = EchoNode::from_init();
    let m = Message {
        src: "c1".to_string(),
        dest: "n1".to_string(),
        body: Body { id: Some(4), in_reply_to: None, payload: EchoPayload::Echo { echo: "hi".to_string() } },
    };
    let reply = n.step(Event::Message(m)).unwrap();
    assert_eq!(reply.src, "n1");
    assert_eq!(reply.dest, "c1");
    assert_eq!(reply.body.id, Some(1));
    assert_eq!(reply.body.in_reply_to, Some(4));
    match reply.body.payload {
        EchoPayload::EchoOk { echo } => assert_eq!(echo, "hi"),
        _ => panic!("expected echo_ok"),
    }
    assert_eq!(n.current_id(), 2);
    assert!(n.step(Event::EOF).is_none());
}

#[test]
fn unique_ids_count_up() {
    let mut n = UniqueNode::from_init("n3".to_string());
    let mut ids = Vec::new();
    for k in 0..12usize {
        let m = Message {
            src: "c1".to_string(),
            dest: "n3".to_string(),
            body: Body { id: Some(k), in_reply_to: None, payload: UniquePayload::Generate },
        };
        let reply = n.step(Event::Message(m)).unwrap();
        assert_eq!(reply.body.id, Some(k + 1));
        assert_eq!(reply.body.in_reply_to, Some(k));
        match reply.body.payload {
            UniquePayload::GenerateOk { guid } => ids.push(guid),
            _ => panic!("expected generate_ok"),
        }
    }
    assert_eq!(ids[0], "n3-1");
    assert_eq!(ids[11], "n3-12");
    let ok = Message {
        src: "c1".to_string(),
        dest: "n3".to_string(),
        body: Body { id: None, in_reply_to: None, payload: UniquePayload::GenerateOk { guid: "x".to_string() } },
    };
    assert!(n.step(Event::Message(ok)).is_none());
    assert_eq!(n.current_id(), 13);
}

#[test]
fn guid_is_name_dash_number() {
    assert_eq!(make_guid(&"n1".to_string(), 0), "n1-0");
    assert_eq!(make_guid(&"n1".to_string(), 7), "n1-7");
    assert_eq!(make_guid(&"a-b".to_string(), 1090), "a-b-1090");
    assert_eq!(make_guid(&"".to_string(), usize::MAX), format!("-{}", usize::MAX));
}
