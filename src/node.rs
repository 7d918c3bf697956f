//! The state of a node of the distributed service: its status, the answer
//! tokens it has received, and the messages it sends and handles.
use vstd::prelude::*;

use crate::atom::push_decimal;
use crate::das::{split_words, strings_view, words};
use crate::term::decimal;

verus! {

/// The status of a node.
#[derive(Clone, Copy, Debug, PartialEq, Eq, Structural)]
pub enum ServerStatus {
    Ready,
    Processing,
    Stopped,
    Unknown,
}

impl Default for ServerStatus {
    fn default() -> (r: ServerStatus)
        ensures
            r == ServerStatus::Ready,
    {
        ServerStatus::Ready
    }
}

/// The status cell of a node.
#[derive(Clone, Copy, Debug, PartialEq, Eq, Structural)]
pub struct DASNodeStatus(pub ServerStatus);

impl Default for DASNodeStatus {
    fn default() -> (r: DASNodeStatus)
        ensures
            r.0 == ServerStatus::Ready,
    {
        DASNodeStatus(ServerStatus::Ready)
    }
}

impl DASNodeStatus {
    pub fn change_status(&mut self, status: ServerStatus)
        ensures
            final(self).0 == status,
    {
        self.0 = status;
    }
}

/// A command on the bus between nodes.
#[derive(Clone, Debug)]
pub struct BusMessage {
    pub command: String,
    pub args: Vec<String>,
    pub sender: String,
    pub is_broadcast: bool,
    pub visited_recipients: Vec<String>,
}

/// The status and the answer tokens that a message of the command `command`
/// brings to a node whose status is `current`: a command that the node does
/// not know is ignored.
pub open spec fn message_effect(command: Seq<char>, args: Seq<Seq<char>>, current: ServerStatus) -> (
    ServerStatus,
    Seq<Seq<char>>,
) {
    if command == "query_answer_tokens_flow"@ {
        (ServerStatus::Processing, args)
    } else if command == "node_joined_network"@ || command == "query_answer_flow"@ || command
        == "pattern_matching_query"@ {
        (ServerStatus::Processing, Seq::empty())
    } else if command == "query_answers_finished"@ {
        (ServerStatus::Ready, Seq::empty())
    } else {
        (current, Seq::empty())
    }
}

/// `host:port`.
pub open spec fn endpoint(host: Seq<char>, port: u16) -> Seq<char> {
    host + seq![':'] + decimal(port as nat)
}

/// The arguments of a `pattern_matching_query` command.
pub open spec fn query_args(
    server: Seq<char>,
    context: Seq<char>,
    update_attention_broker: bool,
    pattern: Seq<char>,
) -> Seq<Seq<char>> {
    seq![
        server,
        context,
        if update_attention_broker {
            "true"@
        } else {
            "false"@
        },
    ] + words(pattern)
}

/// A node of the distributed service, as far as its state goes: where it
/// listens, where it sends, its status, and the answer tokens received.
#[derive(Clone, Debug)]
pub struct DASNode {
    server_host: String,
    server_port: u16,
    client_host: String,
    client_port: u16,
    status: DASNodeStatus,
    results: Vec<String>,
}

impl DASNode {
    pub closed spec fn spec_server(&self) -> Seq<char> {
        endpoint(self.server_host@, self.server_port)
    }

    pub closed spec fn spec_client(&self) -> Seq<char> {
        endpoint(self.client_host@, self.client_port)
    }

    pub closed spec fn spec_status(&self) -> ServerStatus {
        self.status.0
    }

    pub closed spec fn spec_results(&self) -> Seq<Seq<char>> {
        strings_view(self.results@)
    }

    pub fn new(server_host: String, server_port: u16, client_host: String, client_port: u16) -> (r: DASNode)
        ensures
            r.spec_server() == endpoint(server_host@, server_port),
            r.spec_client() == endpoint(client_host@, client_port),
            r.spec_status() == ServerStatus::Ready,
            r.spec_results() == Seq::<Seq<char>>::empty(),
    {
        let r = DASNode {
            server_host,
            server_port,
            client_host,
            client_port,
            status: DASNodeStatus(ServerStatus::Ready),
            results: Vec::new(),
        };
        assert(r.spec_results() =~= Seq::<Seq<char>>::empty());
        r
    }

    fn endpoint_text(host: &String, port: u16) -> (r: String)
        ensures
            r@ == endpoint(host@, port),
    {
        let mut s = host.clone();
        s.push(':');
        push_decimal(&mut s, port as u64);
        s
    }

    /// The endpoint this node listens on.
    pub fn server_endpoint(&self) -> (r: String)
        ensures
            r@ == self.spec_server(),
    {
        Self::endpoint_text(&self.server_host, self.server_port)
    }

    /// The endpoint this node sends to.
    pub fn client_endpoint(&self) -> (r: String)
        ensures
            r@ == self.spec_client(),
    {
        Self::endpoint_text(&self.client_host, self.client_port)
    }

    /// Starts a query: the node is processing from now on, and the result
    /// is the `pattern_matching_query` command to send to the client
    /// endpoint.
    pub fn query(&mut self, pattern: &str, context: &str, update_attention_broker: bool) -> (r: BusMessage)
        ensures
            final(self).spec_status() == ServerStatus::Processing,
            final(self).spec_results() == old(self).spec_results(),
            final(self).spec_server() == old(self).spec_server(),
            final(self).spec_client() == old(self).spec_client(),
            r.command@ == "pattern_matching_query"@,
            strings_view(r.args@) == query_args(old(self).spec_server(), context@, update_attention_broker, pattern@),
            r.sender@ == old(self).spec_server(),
            !r.is_broadcast,
            r.visited_recipients@.len() == 0,
    {
        self.status.change_status(ServerStatus::Processing);
        let mut args: Vec<String> = Vec::new();
        args.push(self.server_endpoint());
        args.push(context.to_owned());
        args.push(if update_attention_broker {
            "true".to_owned()
        } else {
            "false".to_owned()
        });
        let ghost head = strings_view(args@);
        let mut tokens = split_words(pattern);
        let ghost tv = tokens@;
        args.append(&mut tokens);
        assert(strings_view(args@) =~= head + strings_view(tv));
        assert(head =~= seq![
            self.spec_server(),
            context@,
            if update_attention_broker {
                "true"@
            } else {
                "false"@
            },
        ]);
        BusMessage {
            command: "pattern_matching_query".to_owned(),
            args,
            sender: self.server_endpoint(),
            is_broadcast: false,
            visited_recipients: Vec::new(),
        }
    }

    /// The status and the answer tokens that `msg` brings.
    pub fn process_message(&self, msg: BusMessage) -> (r: (ServerStatus, Vec<String>))
        ensures
            r.0 == message_effect(msg.command@, strings_view(msg.args@), self.spec_status()).0,
            strings_view(r.1@) == message_effect(msg.command@, strings_view(msg.args@), self.spec_status()).1,
    {
        let c = msg.command;
        if c == "query_answer_tokens_flow".to_owned() {
            (ServerStatus::Processing, msg.args)
        } else if c == "node_joined_network".to_owned() || c == "query_answer_flow".to_owned() || c
            == "pattern_matching_query".to_owned() {
            let v: Vec<String> = Vec::new();
            assert(strings_view(v@) =~= Seq::<Seq<char>>::empty());
            (ServerStatus::Processing, v)
        } else if c == "query_answers_finished".to_owned() {
            let v: Vec<String> = Vec::new();
            assert(strings_view(v@) =~= Seq::<Seq<char>>::empty());
            (ServerStatus::Ready, v)
        } else {
            let v: Vec<String> = Vec::new();
            assert(strings_view(v@) =~= Seq::<Seq<char>>::empty());
            (self.status.0, v)
        }
    }

    /// Handles a message received from the bus: its answer tokens are kept
    /// and its status becomes the node's.
    pub fn execute_message(&mut self, msg: BusMessage)
        ensures
            final(self).spec_status() == message_effect(msg.command@, strings_view(msg.args@), old(self).spec_status()).0,
            final(self).spec_results() == old(self).spec_results() + message_effect(
                msg.command@,
                strings_view(msg.args@),
                old(self).spec_status(),
            ).1,
            final(self).spec_server() == old(self).spec_server(),
            final(self).spec_client() == old(self).spec_client(),
    {
        let (status, mut results) = self.process_message(msg);
        let ghost before = self.results@;
        let ghost rv = results@;
        self.results.append(&mut results);
        assert(strings_view(self.results@) =~= strings_view(before) + strings_view(rv));
        self.status.change_status(status);
    }

    /// Takes the answer tokens received so far.
    pub fn get_results(&mut self) -> (r: Vec<String>)
        ensures
            strings_view(r@) == old(self).spec_results(),
            final(self).spec_results() == Seq::<Seq<char>>::empty(),
            final(self).spec_status() == old(self).spec_status(),
            final(self).spec_server() == old(self).spec_server(),
            final(self).spec_client() == old(self).spec_client(),
    {
        let mut r: Vec<String> = Vec::new();
        r.append(&mut self.results);
        assert(self.spec_results() =~= Seq::<Seq<char>>::empty());
        assert(r@ =~= old(self).results@);
        r
    }

    pub fn get_status(&self) -> (r: ServerStatus)
        ensures
            r == self.spec_status(),
    {
        self.status.0
    }

    pub fn stop(&mut self)
        ensures
            final(self).spec_status() == ServerStatus::Stopped,
            final(self).spec_results() == old(self).spec_results(),
            final(self).spec_server() == old(self).spec_server(),
            final(self).spec_client() == old(self).spec_client(),
    {
        self.status.change_status(ServerStatus::Stopped);
    }

    /// Whether the node is not processing a query.
    pub fn is_complete(&self) -> (r: bool)
        ensures
            r == (self.spec_status() != ServerStatus::Processing),
    {
        self.status.0 != ServerStatus::Processing
    }
}

} // verus!
