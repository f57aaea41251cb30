//! Clients that come, say who they are, and go.
use crate::clients;
use crate::clients::{convert_auth_to_rules, AuthInfo, Client, ClientInfo};
use crate::database::Database;
use crate::protocol::{Answer, ClientMessage, ErrorCode, ServerMessage};
use crate::text;
use vstd::prelude::*;

verus! {

impl Database {
    /// Whether this state differs from an earlier one in what is known of one client
    /// alone.
    pub open spec fn reidentified(&self, before: &Database, client: Seq<char>, now: Client) -> bool {
        &&& *self == (Database { clients: self.clients, ..*before })
        &&& self.clients@ == before.clients@.insert(client, now)
    }

    /// Answers a client that joins.
    pub fn handle_join(&self, client_id: &str, msg: &ClientMessage) -> (r: ServerMessage)
        requires
            self.clients.inv(),
        ensures
            r@ == Answer::JoinAck(
                msg.request(),
                text::texts(self.volatile_paths@),
                self.connection(client_id@),
            ),
    {
        let connection_id: String = match self.get_client_connection_id(client_id) {
            Some(c) => c.to_owned(),
            None => {
                let empty = String::new();
                assert(empty@ =~= Seq::<char>::empty());
                empty
            },
        };
        ServerMessage::join_ack(msg.request_text(), &self.volatile_paths, connection_id.as_str())
    }

    /// Takes a client in, in place of one with the same id.
    pub fn add_client_internal(
        &mut self,
        client_id: &str,
        auth: Option<AuthInfo>,
        connection_id: &str,
    )
        requires
            old(self).inv(),
        ensures
            final(self).inv(),
            final(self).reidentified(
                old(self),
                client_id@,
                Client {
                    id: client_id@,
                    auth: clients::opt_identity(auth),
                    rules_auth: clients::opt_rules_view(clients::opt_identity(auth)),
                    connection: connection_id@,
                    auth_complete: false,
                },
            ),
    {
        let rules_auth = match &auth {
            Some(a) => Some(convert_auth_to_rules(a)),
            None => None,
        };
        self.clients.insert(
            ClientInfo {
                id: client_id.to_owned(),
                auth,
                rules_auth,
                connection_id: connection_id.to_owned(),
                auth_complete: false,
            },
        );
    }

    /// Puts down who a client is. Nothing happens for a client that is not connected;
    /// whether it is is returned, as its subscriptions then have to be looked at again.
    pub fn handle_auth_update(&mut self, client_id: &str, auth: Option<AuthInfo>) -> (r: bool)
        requires
            old(self).inv(),
        ensures
            final(self).inv(),
            r == old(self).clients@.contains_key(client_id@),
            if r {
                final(self).reidentified(
                    old(self),
                    client_id@,
                    Client {
                        id: client_id@,
                        auth: clients::opt_identity(auth),
                        rules_auth: clients::opt_rules_view(clients::opt_identity(auth)),
                        connection: old(self).clients@[client_id@].connection,
                        auth_complete: true,
                    },
                )
            } else {
                *final(self) == *old(self)
            },
    {
        let connection_id: String = match self.get_client_connection_id(client_id) {
            Some(c) => c.to_owned(),
            None => {
                return false;
            },
        };
        let rules_auth = match &auth {
            Some(a) => Some(convert_auth_to_rules(a)),
            None => None,
        };
        self.clients.insert(
            ClientInfo {
                id: client_id.to_owned(),
                auth,
                rules_auth,
                connection_id,
                auth_complete: true,
            },
        );
        true
    }

    /// Forgets who a client is.
    pub fn handle_unauth(&mut self, client_id: &str, msg: &ClientMessage) -> (r: ServerMessage)
        requires
            old(self).inv(),
        ensures
            final(self).inv(),
            if old(self).clients@.contains_key(client_id@) {
                &&& r@ == Answer::Ack(msg.request())
                &&& final(self).reidentified(
                    old(self),
                    client_id@,
                    Client {
                        auth: None,
                        rules_auth: None,
                        ..old(self).clients@[client_id@]
                    },
                )
            } else {
                &&& r@ == Answer::Nack(
                    msg.request(),
                    ErrorCode::NotFound,
                    "client not found"@,
                )
                &&& *final(self) == *old(self)
            },
    {
        let (connection_id, auth_complete): (String, bool) = match self.clients.get(client_id) {
            Some(c) => (c.connection_id.clone(), c.auth_complete),
            None => {
                return ServerMessage::nack(
                    msg.request_text(),
                    ErrorCode::NotFound,
                    "client not found",
                );
            },
        };
        self.clients.insert(
            ClientInfo {
                id: client_id.to_owned(),
                auth: None,
                rules_auth: None,
                connection_id,
                auth_complete,
            },
        );
        ServerMessage::ack(msg.request_text())
    }

    /// Number of connected clients.
    pub fn client_count(&self) -> (r: usize)
        ensures
            r == self.clients.list@.len(),
    {
        self.clients.list.len()
    }

    /// A readable summary of who a client is.
    pub fn get_auth_summary(&self, client_id: &str) -> (r: String)
        requires
            self.clients.inv(),
        ensures
            r@ == clients::auth_summary(
                if self.clients@.contains_key(client_id@) {
                    Some(self.clients@[client_id@])
                } else {
                    None
                },
            ),
    {
        self.clients.auth_summary(client_id)
    }

    /// Puts the volatile path patterns in place.
    pub fn set_volatile_paths(&mut self, patterns: Vec<String>)
        ensures
            *final(self) == (Database { volatile_paths: patterns, ..*old(self) }),
    {
        self.volatile_paths = patterns;
    }

    /// Notes that security rules are in place, with the volatile path patterns that
    /// they name and whether they ask about queries.
    pub fn set_rules(&mut self, volatile_paths: Vec<String>, uses_query: bool)
        ensures
            *final(self) == (Database {
                volatile_paths,
                has_rules: true,
                rules_use_query: uses_query,
                ..*old(self)
            }),
    {
        self.volatile_paths = volatile_paths;
        self.has_rules = true;
        self.rules_use_query = uses_query;
    }

    /// Notes that the rules were exchanged: new ones, or none, which leaves everything
    /// open and nothing volatile. Whether existing subscriptions have to be looked at
    /// again is returned.
    pub fn update_rules(&mut self, rules: Option<(Vec<String>, bool)>) -> (r: bool)
        ensures
            r == (rules is Some),
            match rules {
                Some((patterns, uses_query)) => *final(self) == (Database {
                    volatile_paths: patterns,
                    has_rules: true,
                    rules_use_query: uses_query,
                    ..*old(self)
                }),
                None => {
                    &&& *final(self) == (Database {
                        volatile_paths: final(self).volatile_paths,
                        has_rules: false,
                        rules_use_query: false,
                        ..*old(self)
                    })
                    &&& final(self).volatile_paths@.len() == 0
                },
            },
    {
        match rules {
            Some((patterns, uses_query)) => {
                self.set_rules(patterns, uses_query);
                true
            },
            None => {
                self.has_rules = false;
                self.rules_use_query = false;
                self.volatile_paths = Vec::new();
                false
            },
        }
    }

    /// Notes that security rules are in place that were prepared elsewhere.
    pub fn set_evaluator(&mut self, volatile_paths: Vec<String>, uses_query: bool)
        ensures
            *final(self) == (Database {
                volatile_paths,
                has_rules: true,
                rules_use_query: uses_query,
                ..*old(self)
            }),
    {
        self.set_rules(volatile_paths, uses_query);
    }

    /// Sets the core that the database runs on.
    pub fn set_core_id(&mut self, core_id: usize)
        ensures
            *final(self) == (Database { core_id, ..*old(self) }),
    {
        self.core_id = core_id;
    }

    /// Sets the secret that tokens of the project are signed with.
    pub fn set_project_secret(&mut self, secret: &str)
        ensures
            *final(self) == (Database {
                project_secret: final(self).project_secret,
                ..*old(self)
            }),
            clients::opt_text(final(self).project_secret) == Some(secret@),
    {
        self.project_secret = Some(secret.to_owned());
    }

    /// Sets whether the database is a template, which is never compacted.
    pub fn set_template_mode(&mut self, template_mode: bool)
        ensures
            *final(self) == (Database { template_mode, ..*old(self) }),
    {
        self.template_mode = template_mode;
    }

    /// Whether the database is a template.
    pub fn is_template_mode(&self) -> (r: bool)
        ensures
            r == self.template_mode,
    {
        self.template_mode
    }

    /// Sets the directory of the template to load from.
    pub fn set_pending_template_dir(&mut self, template_dir: String)
        ensures
            *final(self) == (Database {
                pending_template_dir: Some(template_dir),
                ..*old(self)
            }),
    {
        self.pending_template_dir = Some(template_dir);
    }

    /// Puts down the size on disk.
    pub fn refresh_data_size(&mut self, size: u64)
        ensures
            *final(self) == (Database { data_size: size, ..*old(self) }),
    {
        self.data_size = size;
    }

    /// Puts down that a message came in.
    pub fn note_activity(&mut self, now: u64)
        ensures
            *final(self) == (Database { last_activity: now, ..*old(self) }),
    {
        self.last_activity = now;
    }
}

/// Changing what is known of one client concerns no other client, and no data.
pub proof fn law_clients_are_kept_apart(
    before: Database,
    after: Database,
    client: Seq<char>,
    now: Client,
    other: Seq<char>,
)
    requires
        after.reidentified(&before, client, now),
    ensures
        after.clients@.contains_key(client) && after.clients@[client] == now,
        other != client ==> (after.clients@.contains_key(other) <==> before.clients@.contains_key(
            other,
        )) && after.clients@[other] == before.clients@[other],
        after.store == before.store,
        after.ledger == before.ledger,
        after.on_disconnect == before.on_disconnect,
{
}

} // verus!
