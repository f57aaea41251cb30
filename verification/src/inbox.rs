//! The messages that a database receives, and where they go.
use crate::clients::AuthInfo;
use crate::lifecycle::CompactionComplete;
use crate::protocol::{Answer, ClientMessage, ErrorCode, Operation, ServerMessage};
use vstd::prelude::*;

verus! {

/// A message to a database.
pub struct InboxMessage {
    pub client_id: String,
    pub message: Option<ClientMessage>,
    pub volatile: bool,
    pub disconnect: bool,
    /// Whether the client is to be taken in.
    pub add_client: bool,
    pub connection_id: String,
    /// Whether a connection to the client comes with the message.
    pub has_connection: bool,
    pub auth_info: Option<AuthInfo>,
    /// Who the client is from now on, if `has_auth` says that this is put down.
    pub auth_update: Option<AuthInfo>,
    pub has_auth: bool,
    pub compaction_complete: Option<CompactionComplete>,
    pub force_evict_all: bool,
    /// Whether new security rules, or none, come with the message.
    pub has_evaluator_update: bool,
}

impl Default for InboxMessage {
    /// A message that says nothing.
    fn default() -> (r: InboxMessage)
        ensures
            r.says_nothing(),
            r.client_id@.len() == 0,
            r.connection_id@.len() == 0,
            !r.volatile,
            r.auth_info is None,
            r.auth_update is None,
            !r.has_connection,
    {
        InboxMessage {
            client_id: String::new(),
            message: None,
            volatile: false,
            disconnect: false,
            add_client: false,
            connection_id: String::new(),
            has_connection: false,
            auth_info: None,
            auth_update: None,
            has_auth: false,
            compaction_complete: None,
            force_evict_all: false,
            has_evaluator_update: false,
        }
    }
}

/// Where a message goes.
#[derive(Clone, Copy, PartialEq, Eq, Structural)]
pub enum Route {
    Compaction,
    ForceEvict,
    Rules,
    AddClient,
    Disconnect,
    Auth,
    Protocol,
    /// Nowhere.
    Drop,
}

/// Where a request goes.
pub enum Handler {
    Join,
    Assign,
    Update,
    Remove,
    Subscribe,
    Unsubscribe,
    Once,
    OnDisconnect,
    Transaction,
    Auth,
    Unauth,
    /// The client goes; it is acknowledged when its writes were carried out.
    Leave(ServerMessage),
    /// Nowhere: nothing is answered.
    Ignore,
    /// Nowhere: this is the answer.
    Reply(ServerMessage),
}

impl InboxMessage {
    /// Whether nothing is to be done.
    pub open spec fn says_nothing(&self) -> bool {
        &&& self.message is None
        &&& !self.disconnect
        &&& !self.add_client
        &&& !self.has_auth
        &&& self.compaction_complete is None
        &&& !self.force_evict_all
        &&& !self.has_evaluator_update
    }

    /// Where this message goes; the first that fits counts.
    pub open spec fn destination(&self) -> Route {
        if self.compaction_complete is Some {
            Route::Compaction
        } else if self.force_evict_all {
            Route::ForceEvict
        } else if self.has_evaluator_update {
            Route::Rules
        } else if self.add_client {
            if self.has_connection {
                Route::AddClient
            } else {
                Route::Drop
            }
        } else if self.disconnect {
            Route::Disconnect
        } else if self.has_auth {
            Route::Auth
        } else if self.message is Some {
            Route::Protocol
        } else {
            Route::Drop
        }
    }

    /// Where this message goes.
    pub fn route(&self) -> (r: Route)
        ensures
            r == self.destination(),
    {
        if self.compaction_complete.is_some() {
            return Route::Compaction;
        }
        if self.force_evict_all {
            return Route::ForceEvict;
        }
        if self.has_evaluator_update {
            return Route::Rules;
        }
        if self.add_client {
            if self.has_connection {
                return Route::AddClient;
            }
            return Route::Drop;
        }
        if self.disconnect {
            return Route::Disconnect;
        }
        if self.has_auth {
            return Route::Auth;
        }
        if self.message.is_some() {
            return Route::Protocol;
        }
        Route::Drop
    }

    /// A client that comes with a connection.
    pub fn client_added(client_id: String, auth: Option<AuthInfo>, connection_id: String) -> (r:
        InboxMessage)
        ensures
            r.destination() == Route::AddClient,
            r.client_id == client_id,
            r.auth_info == auth,
            r.connection_id == connection_id,
    {
        let mut m = InboxMessage::default();
        m.client_id = client_id;
        m.add_client = true;
        m.has_connection = true;
        m.connection_id = connection_id;
        m.auth_info = auth;
        m
    }

    /// A request of a client.
    pub fn client_message(client_id: String, message: ClientMessage) -> (r: InboxMessage)
        ensures
            r.destination() == Route::Protocol,
            r.client_id == client_id,
            r.message == Some(message),
            r.volatile == message.says_volatile(),
    {
        let volatile = message.is_volatile();
        let mut m = InboxMessage::default();
        m.client_id = client_id;
        m.message = Some(message);
        m.volatile = volatile;
        m
    }

    /// A client that is gone.
    pub fn client_disconnected(client_id: String) -> (r: InboxMessage)
        ensures
            r.destination() == Route::Disconnect,
            r.client_id == client_id,
    {
        let mut m = InboxMessage::default();
        m.client_id = client_id;
        m.disconnect = true;
        m
    }

    /// All loaded paths to be given up.
    pub fn force_evict_all() -> (r: InboxMessage)
        ensures
            r.destination() == Route::ForceEvict,
    {
        let mut m = InboxMessage::default();
        m.force_evict_all = true;
        m
    }

    /// A client that is somebody else from now on, or nobody.
    pub fn update_client_auth(client_id: String, auth: Option<AuthInfo>) -> (r: InboxMessage)
        ensures
            r.destination() == Route::Auth,
            r.client_id == client_id,
            r.auth_update == auth,
    {
        let mut m = InboxMessage::default();
        m.client_id = client_id;
        m.auth_update = auth;
        m.has_auth = true;
        m
    }

    /// Security rules that are exchanged.
    pub fn update_evaluator() -> (r: InboxMessage)
        ensures
            r.destination() == Route::Rules,
    {
        let mut m = InboxMessage::default();
        m.has_evaluator_update = true;
        m
    }

    /// A compaction that is done.
    pub fn compacted(done: CompactionComplete) -> (r: InboxMessage)
        ensures
            r.destination() == Route::Compaction,
            r.compaction_complete == Some(done),
    {
        let mut m = InboxMessage::default();
        m.compaction_complete = Some(done);
        m
    }
}

/// Where a request goes.
pub fn handle_protocol_message(msg: &ClientMessage) -> (r: Handler)
    ensures
        match msg.op {
            Operation::Join => r is Join,
            Operation::Auth => r is Auth,
            Operation::Unauth => r is Unauth,
            Operation::Assign => r is Assign,
            Operation::Update => r is Update,
            Operation::Remove => r is Remove,
            Operation::Subscribe => r is Subscribe,
            Operation::Unsubscribe => r is Unsubscribe,
            Operation::Once => r is Once,
            Operation::OnDisconnect => r is OnDisconnect,
            Operation::Transaction => r is Transaction,
            Operation::Leave => r matches Handler::Leave(m) && m@ == Answer::Ack(msg.request()),
            Operation::Ping => r is Ignore,
            Operation::Pong => r is Ignore,
            Operation::Unknown => r matches Handler::Reply(m) && m@ == Answer::Nack(
                msg.request(),
                ErrorCode::InvalidOperation,
                "unknown operation"@,
            ),
        },
{
    match msg.op {
        Operation::Join => Handler::Join,
        Operation::Auth => Handler::Auth,
        Operation::Unauth => Handler::Unauth,
        Operation::Assign => Handler::Assign,
        Operation::Update => Handler::Update,
        Operation::Remove => Handler::Remove,
        Operation::Subscribe => Handler::Subscribe,
        Operation::Unsubscribe => Handler::Unsubscribe,
        Operation::Once => Handler::Once,
        Operation::OnDisconnect => Handler::OnDisconnect,
        Operation::Transaction => Handler::Transaction,
        Operation::Leave => Handler::Leave(ServerMessage::ack(msg.request_text())),
        Operation::Ping => Handler::Ignore,
        Operation::Pong => Handler::Ignore,
        Operation::Unknown => Handler::Reply(
            ServerMessage::nack(
                msg.request_text(),
                ErrorCode::InvalidOperation,
                "unknown operation",
            ),
        ),
    }
}

/// A message that says one thing reaches the part that deals with it, and one that says
/// nothing reaches none.
pub proof fn law_messages_reach_their_part(m: InboxMessage)
    ensures
        m.says_nothing() ==> m.destination() is Drop,
        m.compaction_complete is Some ==> m.destination() is Compaction,
        m.destination() is Protocol ==> m.message is Some && !m.disconnect && !m.add_client
            && !m.has_auth,
        m.destination() is Disconnect ==> m.disconnect && !m.add_client,
        m.destination() is AddClient ==> m.add_client && m.has_connection,
        m.destination() is Auth ==> m.has_auth && !m.disconnect && !m.add_client,
        m.destination() is Rules ==> m.has_evaluator_update,
        m.destination() is ForceEvict ==> m.force_evict_all,
        m.destination() is Compaction ==> m.compaction_complete is Some,
        m.destination() is Drop ==> m.says_nothing() || (m.add_client && !m.has_connection),
{
}

} // verus!
