//! The unique-id node: it hands out ids that no other node hands out.
use vstd::prelude::*;
use vstd::string::StringExecFns;
use crate::protocol::{reply_to, Body, Event, Message};

verus! {

/// The character of the decimal digit `d`.
pub open spec fn digit_char(d: nat) -> char {
    if d == 0 {
        '0'
    } else if d == 1 {
        '1'
    } else if d == 2 {
        '2'
    } else if d == 3 {
        '3'
    } else if d == 4 {
        '4'
    } else if d == 5 {
        '5'
    } else if d == 6 {
        '6'
    } else if d == 7 {
        '7'
    } else if d == 8 {
        '8'
    } else {
        '9'
    }
}

/// The decimal digits of `n`, most significant first.
pub open spec fn decimal(n: nat) -> Seq<char>
    decreases n,
{
    if n < 10 {
        seq![digit_char(n)]
    } else {
        decimal(n / 10).push(digit_char(n % 10))
    }
}

/// The id that node `node` hands out as its `n`-th: its name, a dash, and `n`
/// in decimal.
pub open spec fn guid(node: Seq<char>, n: nat) -> Seq<char> {
    node + seq!['-'] + decimal(n)
}

/// The digit `d` as text.
fn digit_str(d: usize) -> (r: &'static str)
    requires
        d < 10,
    ensures
        r@ == seq![digit_char(d as nat)],
{
    match d {
        0 => {
            proof {
                reveal_strlit("0");
            }
            "0"
        },
        1 => {
            proof {
                reveal_strlit("1");
            }
            "1"
        },
        2 => {
            proof {
                reveal_strlit("2");
            }
            "2"
        },
        3 => {
            proof {
                reveal_strlit("3");
            }
            "3"
        },
        4 => {
            proof {
                reveal_strlit("4");
            }
            "4"
        },
        5 => {
            proof {
                reveal_strlit("5");
            }
            "5"
        },
        6 => {
            proof {
                reveal_strlit("6");
            }
            "6"
        },
        7 => {
            proof {
                reveal_strlit("7");
            }
            "7"
        },
        8 => {
            proof {
                reveal_strlit("8");
            }
            "8"
        },
        _ => {
            proof {
                reveal_strlit("9");
            }
            "9"
        },
    }
}

/// Appends `n` in decimal to `out`.
fn append_decimal(out: &mut String, n: usize)
    ensures
        final(out)@ == old(out)@ + decimal(n as nat),
    decreases n,
{
    if n >= 10 {
        append_decimal(out, n / 10);
    }
    let d = digit_str(n % 10);
    let ghost mid = out@;
    out.append(d);
    proof {
        if n >= 10 {
            assert(decimal(n as nat) == decimal((n / 10) as nat).push(digit_char((n % 10) as nat)));
        }
        assert(out@ =~= old(out)@ + decimal(n as nat));
    }
}

/// The id `n` of node `node`: its name, a dash, and `n` in decimal.
pub fn make_guid(node: &String, n: usize) -> (r: String)
    ensures
        r@ == guid(node@, n as nat),
{
    let mut r = node.clone();
    proof {
        reveal_strlit("-");
    }
    r.append("-");
    append_decimal(&mut r, n);
    proof {
        assert(r@ =~= guid(node@, n as nat));
    }
    r
}

/// The payloads of the unique-id node.
pub enum Payload {
    Generate,
    GenerateOk { guid: String },
}

/// A node that hands out unique ids.
pub struct UniqueNode {
    node_id: String,
    local_id: usize,
}

impl UniqueNode {
    /// This node's own name.
    pub closed spec fn name(&self) -> Seq<char> {
        self.node_id@
    }

    /// The number of the next id, which is also the id of the next reply.
    pub closed spec fn next_id(&self) -> usize {
        self.local_id
    }

    /// A node named `node_id` that numbers its ids from 1.
    pub fn from_init(node_id: String) -> (r: UniqueNode)
        ensures
            r.name() == node_id@,
            r.next_id() == 1,
    {
        UniqueNode { node_id, local_id: 1 }
    }

    /// Takes one event. A `generate` gets a `generate_ok` carrying this node's
    /// next id, and answers it with the same number; anything else gets no reply.
    pub fn step(&mut self, input: Event<Payload, ()>) -> (r: Option<Message<Payload>>)
        requires
            old(self).next_id() < usize::MAX,
        ensures
            final(self).name() == old(self).name(),
            match input {
                Event::Message(m) => match m.body.payload {
                    Payload::Generate => r matches Some(reply) && reply.src == m.dest
                        && reply.dest == m.src && reply.body.id == Some(old(self).next_id())
                        && reply.body.in_reply_to == m.body.id
                        && (reply.body.payload matches Payload::GenerateOk { guid: g }
                            && g@ == guid(old(self).name(), old(self).next_id() as nat))
                        && final(self).next_id() == old(self).next_id() + 1,
                    Payload::GenerateOk { .. } => r is None && final(self).next_id() == old(self).next_id(),
                },
                _ => r is None && final(self).next_id() == old(self).next_id(),
            },
    {
        match input {
            Event::Message(m) => {
                let Message { src, dest, body } = m;
                let Body { id, in_reply_to: _, payload } = body;
                match payload {
                    Payload::Generate => {
                        let guid = make_guid(&self.node_id, self.local_id);
                        let reply = reply_to(src, dest, id, self.local_id, Payload::GenerateOk { guid });
                        self.local_id = self.local_id + 1;
                        Some(reply)
                    },
                    Payload::GenerateOk { .. } => None,
                }
            },
            _ => None,
        }
    }

    /// The id that the next reply of this node carries.
    pub fn current_id(&self) -> (r: usize)
        ensures
            r == self.next_id(),
    {
        self.local_id
    }
}

} // verus!
