//! What clients ask and what they are answered.
use crate::node::Node;
use crate::path;
use crate::shape::Shape;
use crate::text;
use crate::text::clone_texts;
use crate::value;
use crate::value::{Json, JsonValue};
use vstd::prelude::*;

verus! {

/// What a client asks for.
#[derive(Clone, Copy, PartialEq, Eq, Structural)]
pub enum Operation {
    Join,
    Leave,
    Auth,
    Unauth,
    Assign,
    Update,
    Remove,
    Subscribe,
    Unsubscribe,
    Once,
    OnDisconnect,
    Transaction,
    Ping,
    Pong,
    Unknown,
}

/// Why a request was turned down.
#[derive(Clone, Copy, PartialEq, Eq, Structural)]
pub enum ErrorCode {
    InvalidData,
    InvalidOperation,
    PermissionDenied,
    NotFound,
    Unavailable,
    DatabaseFull,
    ConditionFailed,
    PayloadTooLarge,
    ResponseTooLarge,
    TooManySubscriptions,
    RateLimited,
    Internal,
}

/// One step of a transaction: a write, or a condition on what stands at a path.
pub struct TransactionOp {
    pub op: String,
    pub path: String,
    pub value: Option<JsonValue>,
    pub hash: Option<String>,
}

/// A request.
pub struct ClientMessage {
    pub op: Operation,
    pub request_id: Option<String>,
    pub path: Option<String>,
    pub value: Option<JsonValue>,
    pub pending_writes: Option<Vec<String>>,
    pub hash: Option<String>,
    pub hash_provided: Option<bool>,
    pub operations: Option<Vec<TransactionOp>>,
    pub action: Option<String>,
    pub token: Option<String>,
    pub shallow: Option<bool>,
    pub volatile: Option<bool>,
    pub payload_size: usize,
}

impl ClientMessage {
    /// A request for an operation, with nothing else in it.
    pub fn new(op: Operation) -> (r: ClientMessage)
        ensures
            r.op == op,
            r.request_id is None,
            r.path is None,
            r.value is None,
            r.pending_writes is None,
            r.hash is None,
            r.hash_provided is None,
            r.operations is None,
            r.action is None,
            r.token is None,
            r.shallow is None,
            r.volatile is None,
            r.payload_size == 0,
    {
        ClientMessage {
            op,
            request_id: None,
            path: None,
            value: None,
            pending_writes: None,
            hash: None,
            hash_provided: None,
            operations: None,
            action: None,
            token: None,
            shallow: None,
            volatile: None,
            payload_size: 0,
        }
    }

    /// The request id; a request without one has the empty id.
    pub open spec fn request(&self) -> Seq<char> {
        text::text_or_empty(self.request_id)
    }

    /// The path that is meant; without one, the root.
    pub open spec fn target(&self) -> Seq<char> {
        match self.path {
            Some(p) => p@,
            None => "/"@,
        }
    }

    /// The value, as data.
    pub open spec fn data(&self) -> Option<Json> {
        value::opt_json(self.value)
    }

    /// The token, empty if there is none.
    pub open spec fn said_token(&self) -> Seq<char> {
        match self.token {
            Some(t) => t@,
            None => Seq::empty(),
        }
    }

    /// Whether the request itself says that it is volatile.
    pub open spec fn says_volatile(&self) -> bool {
        self.volatile == Some(true)
    }

    /// The request id.
    pub fn request_text(&self) -> (r: &str)
        ensures
            r@ == self.request(),
    {
        match &self.request_id {
            Some(s) => s.as_str(),
            None => {
                proof {
                    reveal_strlit("");
                    assert(""@ =~= Seq::<char>::empty());
                }
                ""
            },
        }
    }

    /// The path that is meant.
    pub fn target_text(&self) -> (r: &str)
        ensures
            r@ == self.target(),
    {
        match &self.path {
            Some(s) => s.as_str(),
            None => "/",
        }
    }

    /// Whether the request itself says that it is volatile.
    pub fn is_volatile(&self) -> (r: bool)
        ensures
            r == self.says_volatile(),
    {
        match self.volatile {
            Some(b) => b,
            None => false,
        }
    }
}

/// An answer, or an event that goes out beside one.
pub enum ServerMessage {
    Ack { request_id: String },
    Nack { request_id: String, code: ErrorCode, message: String },
    JoinAck { request_id: String, volatile_paths: Vec<String>, connection_id: String },
    AuthAck { request_id: String, uid: String },
    OnceResponse { request_id: String, value: Node },
    PutEvent { path: String, relative: String, value: Node, tag: Option<i64> },
}

/// What an answer says.
pub ghost enum Answer {
    Ack(Seq<char>),
    Nack(Seq<char>, ErrorCode, Seq<char>),
    JoinAck(Seq<char>, Seq<Seq<char>>, Seq<char>),
    AuthAck(Seq<char>, Seq<char>),
    OnceResponse(Seq<char>, Shape),
    PutEvent(Seq<char>, Seq<char>, Shape, Option<i64>),
}

impl View for ServerMessage {
    type V = Answer;

    open spec fn view(&self) -> Answer {
        match *self {
            ServerMessage::Ack { request_id } => Answer::Ack(request_id@),
            ServerMessage::Nack { request_id, code, message } => Answer::Nack(
                request_id@,
                code,
                message@,
            ),
            ServerMessage::JoinAck { request_id, volatile_paths, connection_id } => Answer::JoinAck(
                request_id@,
                text::texts(volatile_paths@),
                connection_id@,
            ),
            ServerMessage::AuthAck { request_id, uid } => Answer::AuthAck(request_id@, uid@),
            ServerMessage::OnceResponse { request_id, value } => Answer::OnceResponse(
                request_id@,
                value@,
            ),
            ServerMessage::PutEvent { path, relative, value, tag } => Answer::PutEvent(
                path@,
                relative@,
                value@,
                tag,
            ),
        }
    }
}

/// What an answer says, if there is one.
pub open spec fn said(r: Option<ServerMessage>) -> Option<Answer> {
    match r {
        Some(m) => Some(m@),
        None => None,
    }
}

impl ServerMessage {
    /// The request was carried out.
    pub fn ack(request_id: &str) -> (r: ServerMessage)
        ensures
            r@ == Answer::Ack(request_id@),
    {
        ServerMessage::Ack { request_id: request_id.to_owned() }
    }

    /// The request was turned down.
    pub fn nack(request_id: &str, code: ErrorCode, message: &str) -> (r: ServerMessage)
        ensures
            r@ == Answer::Nack(request_id@, code, message@),
    {
        ServerMessage::Nack {
            request_id: request_id.to_owned(),
            code,
            message: message.to_owned(),
        }
    }

    /// The client has joined.
    pub fn join_ack(request_id: &str, volatile_paths: &Vec<String>, connection_id: &str) -> (r:
        ServerMessage)
        ensures
            r@ == Answer::JoinAck(request_id@, text::texts(volatile_paths@), connection_id@),
    {
        ServerMessage::JoinAck {
            request_id: request_id.to_owned(),
            volatile_paths: clone_texts(volatile_paths),
            connection_id: connection_id.to_owned(),
        }
    }

    /// The client is known as `uid`.
    pub fn auth_ack(request_id: &str, uid: &str) -> (r: ServerMessage)
        ensures
            r@ == Answer::AuthAck(request_id@, uid@),
    {
        ServerMessage::AuthAck { request_id: request_id.to_owned(), uid: uid.to_owned() }
    }

    /// The data that was asked for.
    pub fn once_response(request_id: &str, value: Node) -> (r: ServerMessage)
        ensures
            r@ == Answer::OnceResponse(request_id@, value@),
    {
        ServerMessage::OnceResponse { request_id: request_id.to_owned(), value }
    }

    /// The data at a path, for a subscriber.
    pub fn put_event(path: &str, relative: &str, value: Node, tag: Option<i64>) -> (r:
        ServerMessage)
        ensures
            r@ == Answer::PutEvent(path@, relative@, value@, tag),
    {
        ServerMessage::PutEvent {
            path: path.to_owned(),
            relative: relative.to_owned(),
            value,
            tag,
        }
    }

    /// The id of the request that this answers; events answer none.
    pub fn request_id(&self) -> (r: Option<&str>)
        ensures
            match self@ {
                Answer::PutEvent(..) => r is None,
                Answer::Ack(id) => r is Some && r->0@ == id,
                Answer::Nack(id, ..) => r is Some && r->0@ == id,
                Answer::JoinAck(id, ..) => r is Some && r->0@ == id,
                Answer::AuthAck(id, _) => r is Some && r->0@ == id,
                Answer::OnceResponse(id, _) => r is Some && r->0@ == id,
            },
    {
        match self {
            ServerMessage::PutEvent { .. } => None,
            ServerMessage::Ack { request_id } => Some(request_id.as_str()),
            ServerMessage::Nack { request_id, .. } => Some(request_id.as_str()),
            ServerMessage::JoinAck { request_id, .. } => Some(request_id.as_str()),
            ServerMessage::AuthAck { request_id, .. } => Some(request_id.as_str()),
            ServerMessage::OnceResponse { request_id, .. } => Some(request_id.as_str()),
        }
    }
}

/// What takes the place of an answer that could not be encoded: the request, if it
/// answers one, is turned down; an event is dropped.
pub fn encoding_fallback(failed: &ServerMessage) -> (r: Option<ServerMessage>)
    ensures
        said(r) == match failed@ {
            Answer::PutEvent(..) => None,
            Answer::Ack(id) => Some(internal_error(id)),
            Answer::Nack(id, ..) => Some(internal_error(id)),
            Answer::JoinAck(id, ..) => Some(internal_error(id)),
            Answer::AuthAck(id, _) => Some(internal_error(id)),
            Answer::OnceResponse(id, _) => Some(internal_error(id)),
        },
{
    match failed.request_id() {
        Some(id) => Some(ServerMessage::nack(id, ErrorCode::Internal, "Internal encoding error")),
        None => None,
    }
}

/// The answer that stands in for one that could not be encoded.
pub open spec fn internal_error(request_id: Seq<char>) -> Answer {
    Answer::Nack(request_id, ErrorCode::Internal, "Internal encoding error"@)
}

/// A request that names no path is about the root, and only one that says so is volatile.
pub proof fn law_requests_without_details(msg: ClientMessage)
    ensures
        msg.path is None ==> path::segments(msg.target()).len() == 0,
        msg.path is Some ==> msg.target() == msg.path->0@,
        msg.request_id is None ==> msg.request().len() == 0,
        msg.request_id is Some ==> msg.request() == msg.request_id->0@,
        msg.token is None ==> msg.said_token().len() == 0,
        msg.token is Some ==> msg.said_token() == msg.token->0@,
        msg.says_volatile() <==> msg.volatile is Some && msg.volatile->0,
        msg.value is None <==> msg.data() is None,
        msg.value is Some ==> msg.data() == Some(msg.value->0@),
{
    reveal_strlit("/");
    path::law_slashes_only_separate(Seq::empty(), Seq::empty());
    assert("/"@ =~= Seq::<char>::empty() + seq!['/'] + Seq::<char>::empty());
}

} // verus!
