//! The echo node: it answers each `echo` with the same text.
use vstd::prelude::*;
use crate::protocol::{reply_to, Body, Event, Message};

verus! {

/// The payloads of the echo node.
pub enum Payload {
    Echo { echo: String },
    EchoOk { echo: String },
}

/// A node that echoes what it is sent.
pub struct EchoNode {
    id: usize,
}

impl EchoNode {
    /// The id that the next reply carries.
    pub closed spec fn next_id(&self) -> usize {
        self.id
    }

    /// A node that numbers its replies from 1.
    pub fn from_init() -> (r: EchoNode)
        ensures
            r.next_id() == 1,
    {
        EchoNode { id: 1 }
    }

    /// Takes one event. An `echo` gets an `echo_ok` with the same text, answering
    /// it with the next id; anything else gets no reply.
    pub fn step(&mut self, input: Event<Payload, ()>) -> (r: Option<Message<Payload>>)
        requires
            old(self).next_id() < usize::MAX,
        ensures
            match input {
                Event::Message(m) => match m.body.payload {
                    Payload::Echo { echo } => r matches Some(reply) && reply.src == m.dest
                        && reply.dest == m.src && reply.body.id == Some(old(self).next_id())
                        && reply.body.in_reply_to == m.body.id
                        && reply.body.payload == (Payload::EchoOk { echo })
                        && final(self).next_id() == old(self).next_id() + 1,
                    Payload::EchoOk { .. } => r is None && final(self).next_id() == old(self).next_id(),
                },
                _ => r is None && final(self).next_id() == old(self).next_id(),
            },
    {
        match input {
            Event::Message(m) => {
                let Message { src, dest, body } = m;
                let Body { id, in_reply_to: _, payload } = body;
                match payload {
                    Payload::Echo { echo } => {
                        let reply = reply_to(src, dest, id, self.id, Payload::EchoOk { echo });
                        self.id = self.id + 1;
                        Some(reply)
                    },
                    Payload::EchoOk { .. } => None,
                }
            },
            _ => None,
        }
    }

    /// The id that the next reply of this node carries.
    pub fn current_id(&self) -> (r: usize)
        ensures
            r == self.next_id(),
    {
        self.id
    }
}

} // verus!
