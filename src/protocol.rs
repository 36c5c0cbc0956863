//! Envelopes exchanged with the cluster, and the opening handshake.
use vstd::prelude::*;

verus! {

/// What the opening `init` message tells a node: its own name and the names of
/// every member of the cluster.
pub struct Init {
    pub node_id: String,
    pub node_ids: Vec<String>,
}

/// The body of a message: its own id, the id of the request it answers, and the
/// payload that its `type` tag selects.
pub struct Body<Payload> {
    pub id: Option<usize>,
    pub in_reply_to: Option<usize>,
    pub payload: Payload,
}

/// A message between two nodes.
pub struct Message<Payload> {
    pub src: String,
    pub dest: String,
    pub body: Body<Payload>,
}

/// One unit of work for a node: a message that came in, a marker that the node
/// raised for itself (such as a gossip tick), or the end of the input.
pub enum Event<Payload, InjectedPayload> {
    Message(Message<Payload>),
    Injected(InjectedPayload),
    EOF,
}

/// The payloads of the handshake.
pub enum InitPayload {
    Init(Init),
    InitOk,
}

/// Why a handshake was refused.
#[derive(Debug, PartialEq, Eq, Structural)]
pub enum HandshakeError {
    /// The first message was not an `init`.
    NotInit,
}

/// The reply to a message with id `request_id` sent from `src` to `dest`:
/// it goes back from `dest` to `src`, carries the id `id` and answers `request_id`.
pub fn reply_to<Payload>(
    src: String,
    dest: String,
    request_id: Option<usize>,
    id: usize,
    payload: Payload,
) -> (r: Message<Payload>)
    ensures
        r.src == dest,
        r.dest == src,
        r.body.id == Some(id),
        r.body.in_reply_to == request_id,
        r.body.payload == payload,
{
    Message { src: dest, dest: src, body: Body { id: Some(id), in_reply_to: request_id, payload } }
}

/// Takes the first message of a session. An `init` yields what it assigns and the
/// `init_ok` to send back, with id 0 and answering the `init`; anything else is
/// refused.
pub fn accept_init(msg: Message<InitPayload>) -> (r: Result<(Init, Message<InitPayload>), HandshakeError>)
    ensures
        match msg.body.payload {
            InitPayload::Init(init) => r matches Ok((got, reply)) && got == init
                && reply.src == msg.dest && reply.dest == msg.src
                && reply.body.id == Some(0usize)
                && reply.body.in_reply_to == msg.body.id
                && reply.body.payload is InitOk,
            InitPayload::InitOk => r == Err::<(Init, Message<InitPayload>), HandshakeError>(
                HandshakeError::NotInit,
            ),
        },
{
    let Message { src, dest, body } = msg;
    let Body { id, in_reply_to: _, payload } = body;
    match payload {
        InitPayload::Init(init) => {
            let reply = reply_to(src, dest, id, 0, InitPayload::InitOk);
            Ok((init, reply))
        },
        InitPayload::InitOk => Err(HandshakeError::NotInit),
    }
}

} // verus!
