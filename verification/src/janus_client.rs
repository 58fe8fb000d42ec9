//! The client side of a connection to a Janus server: the messages that are
//! exchanged, who waits for which answer, and which sessions are open.

use crate::text::{
    decimal, format_decimal, format_hexadecimal, hexadecimal, hexadecimal_is_unique, same_text,
};
use serde_json::Value;
use std::collections::HashSet;
use std::sync::Arc;
use vstd::hash_map::StringHashMap;
use vstd::prelude::*;
use vstd::string::StringExecFns;

verus! {

/// A JSON value.
#[verifier::external_type_specification]
#[verifier::external_body]
pub struct ExValue(Value);

/// The members of a JSON object that are strings; none where the value is no object.
pub uninterp spec fn text_members(value: Value) -> Map<Seq<char>, Seq<char>>;

/// The members of a JSON object that are integers of 64 bits without a sign; none where the
/// value is no object.
pub uninterp spec fn number_members(value: Value) -> Map<Seq<char>, u64>;

/// `Value::get` and `Value::as_str` of the crate `serde_json`: the string that an object holds
/// under a name, where it holds one.
#[verifier::external_body]
fn text_member(value: &Value, name: &str) -> (text: Option<String>)
    ensures
        match text {
            Some(found) => text_members(*value).contains_key(name@) && text_members(*value)[name@]
                == found@,
            None => !text_members(*value).contains_key(name@),
        },
{
    value.get(name).and_then(Value::as_str).map(str::to_owned)
}

/// `Value::get` and `Value::as_u64` of the crate `serde_json`: the integer that an object holds
/// under a name, where it holds one.
#[verifier::external_body]
fn number_member(value: &Value, name: &str) -> (number: Option<u64>)
    ensures
        match number {
            Some(found) => number_members(*value).contains_key(name@)
                && number_members(*value)[name@] == found,
            None => !number_members(*value).contains_key(name@),
        },
{
    value.get(name).and_then(Value::as_u64)
}

/// Whether a text is a URI.
pub uninterp spec fn is_uri(text: Seq<char>) -> bool;

/// `str::parse` for the type `Uri` of the crate `http`: it succeeds on a URI.
#[verifier::external_body]
fn parses_as_uri(text: &str) -> (valid: bool)
    ensures
        valid == is_uri(text@),
{
    text.parse::<tokio_tungstenite::tungstenite::http::Uri>().is_ok()
}

/// What a message carries.
#[derive(Debug, Clone)]
pub enum JanusMessageData<T> {
    Empty,
    Body { body: T },
    Data { data: T },
    Plugin { plugin: String },
    Error { error: ErrorData },
    PluginData { sender: u64, plugin_data: PluginData<T> },
}

/// What went wrong, as the server tells.
#[derive(Debug, Clone)]
pub struct ErrorData {
    pub code: usize,
    pub reason: String,
}

/// What a plugin sent.
#[derive(Debug, Clone)]
pub struct PluginData<T> {
    pub plugin: String,
    pub data: T,
}

/// Why a message could not be exchanged.
#[derive(Debug)]
pub enum JanusError {
    /// JSON could not be written or read, for the reason given.
    Serde(String),
    /// The web socket failed, for the reason given.
    WebSocket(String),
    /// The answer will not come any more, for the reason given.
    OneShotChannelError(String),
    Closed,
    IncorrectResponse,
    MissingTransactionId,
    JanusError(ErrorData),
}

impl JanusError {
    /// The error in words.
    pub open spec fn text(self) -> Seq<char> {
        match self {
            JanusError::Serde(reason) => "Failure with JSON: "@ + reason@,
            JanusError::WebSocket(reason) => "Failure with WebSocket: "@ + reason@,
            JanusError::Closed => "Janus connection is closed"@,
            JanusError::IncorrectResponse =>
            "Janus responded with something different than expected"@,
            JanusError::OneShotChannelError(reason) => "Failure with callback: "@ + reason@,
            JanusError::MissingTransactionId => "Tried to send message without transaction id"@,
            JanusError::JanusError(error) => "Janus returned error: ("@ + decimal(
                error.code as nat,
            ) + ") "@ + error.reason@,
        }
    }

    /// The error in words.
    pub fn message(&self) -> (text: String)
        ensures
            text@ == self.text(),
    {
        match self {
            JanusError::Serde(reason) => {
                let mut text = "Failure with JSON: ".to_owned();
                text.append(reason.as_str());
                text
            },
            JanusError::WebSocket(reason) => {
                let mut text = "Failure with WebSocket: ".to_owned();
                text.append(reason.as_str());
                text
            },
            JanusError::Closed => "Janus connection is closed".to_owned(),
            JanusError::IncorrectResponse =>
            "Janus responded with something different than expected".to_owned(),
            JanusError::OneShotChannelError(reason) => {
                let mut text = "Failure with callback: ".to_owned();
                text.append(reason.as_str());
                text
            },
            JanusError::MissingTransactionId =>
            "Tried to send message without transaction id".to_owned(),
            JanusError::JanusError(error) => {
                let mut text = "Janus returned error: (".to_owned();
                text.append(format_decimal(error.code as u64).as_str());
                text.append(") ");
                text.append(error.reason.as_str());
                text
            },
        }
    }
}

impl<T> JanusMessageData<T> {
    /// What is carried, or why nothing is.
    pub open spec fn extracted(self) -> Result<T, JanusError> {
        match self {
            JanusMessageData::Body { body } => Ok(body),
            JanusMessageData::Data { data } => Ok(data),
            JanusMessageData::PluginData { plugin_data, .. } => Ok(plugin_data.data),
            JanusMessageData::Error { error } => Err(JanusError::JanusError(error)),
            _ => Err(JanusError::IncorrectResponse),
        }
    }

    /// What is carried, or why nothing is.
    pub fn extract(self) -> (extracted: Result<T, JanusError>)
        ensures
            extracted == self.extracted(),
    {
        match self {
            JanusMessageData::Body { body } => Ok(body),
            JanusMessageData::Data { data } => Ok(data),
            JanusMessageData::PluginData { plugin_data, .. } => Ok(plugin_data.data),
            JanusMessageData::Error { error } => Err(JanusError::JanusError(error)),
            _ => Err(JanusError::IncorrectResponse),
        }
    }

    /// Whether nothing is carried.
    pub fn is_empty(&self) -> (empty: bool)
        ensures
            empty == (*self is Empty),
    {
        match self {
            JanusMessageData::Empty => true,
            _ => false,
        }
    }
}

/// A message of the protocol.
#[derive(Debug, Clone)]
pub struct JanusMessage<T> {
    pub action: String,
    pub session_id: Option<u64>,
    pub handle_id: Option<u64>,
    pub data: JanusMessageData<T>,
}

impl<T> JanusMessage<T> {
    /// Whether the message is the one with these parts.
    pub open spec fn is_message(
        self,
        action: Seq<char>,
        session_id: Option<u64>,
        handle_id: Option<u64>,
        data: JanusMessageData<T>,
    ) -> bool {
        &&& self.action@ == action
        &&& self.session_id == session_id
        &&& self.handle_id == handle_id
        &&& self.data == data
    }

    /// What the message carries, or why nothing is.
    pub fn extract(self) -> (extracted: Result<T, JanusError>)
        ensures
            extracted == self.data.extracted(),
    {
        self.data.extract()
    }
}

/// A message as it travels: JSON, and the transaction that it belongs to.
#[derive(Debug)]
pub struct JanusBareMessage {
    pub transaction: Option<String>,
    pub data: Value,
}

/// The text that an option holds.
pub open spec fn held_text(text: Option<String>) -> Option<Seq<char>> {
    match text {
        Some(held) => Some(held@),
        None => None,
    }
}

impl JanusBareMessage {
    /// What the message is for.
    pub open spec fn action(self) -> Option<Seq<char>> {
        if text_members(self.data).contains_key("janus"@) {
            Some(text_members(self.data)["janus"@])
        } else {
            None
        }
    }

    /// The session that the message is about.
    pub open spec fn session_id(self) -> Option<u64> {
        if number_members(self.data).contains_key("session_id"@) {
            Some(number_members(self.data)["session_id"@])
        } else {
            None
        }
    }
}

/// The number that was given to a session or a plugin.
#[derive(Debug, Clone, Copy, PartialEq, Eq, Structural)]
pub struct JanusIdMessage {
    pub id: u64,
}

/// Stands for whoever waits for an answer.
pub type Waiter = u64;

/// A connection to a Janus server.
pub struct JanusConnection {
    url: String,
    open: bool,
    transaction_counter: usize,
    transactions: StringHashMap<Waiter>,
    sessions: HashSet<u64>,
}

/// What a connection holds.
#[verifier::ext_equal]
pub struct JanusConnectionView {
    pub url: Seq<char>,
    /// Whether messages are taken for sending.
    pub open: bool,
    /// How many transactions there were, as far as it fits.
    pub transaction_counter: usize,
    /// Who waits for the answer to a transaction.
    pub transactions: Map<Seq<char>, Waiter>,
    /// The sessions that are open.
    pub sessions: Set<u64>,
}

impl View for JanusConnection {
    type V = JanusConnectionView;

    closed spec fn view(&self) -> JanusConnectionView {
        JanusConnectionView {
            url: self.url@,
            open: self.open,
            transaction_counter: self.transaction_counter,
            transactions: self.transactions@,
            sessions: self.sessions@,
        }
    }
}

impl JanusConnectionView {
    /// A connection on which nothing happened yet.
    pub open spec fn fresh(url: Seq<char>) -> JanusConnectionView {
        JanusConnectionView {
            url,
            open: false,
            transaction_counter: 0,
            transactions: Map::empty(),
            sessions: Set::empty(),
        }
    }

    /// The name of the next transaction.
    pub open spec fn next_transaction(self) -> Seq<char> {
        hexadecimal(self.transaction_counter as nat)
    }

    /// The connection once a transaction was named.
    pub open spec fn counted(self) -> JanusConnectionView {
        JanusConnectionView {
            transaction_counter: self.transaction_counter.wrapping_add(1),
            ..self
        }
    }

    /// The connection once somebody waits for the answer to a transaction.
    pub open spec fn awaiting(self, transaction: Seq<char>, waiter: Waiter) -> JanusConnectionView {
        JanusConnectionView { transactions: self.transactions.insert(transaction, waiter), ..self }
    }

    /// Whether a message of the session, where it has one, may be sent.
    pub open spec fn session_is_open(self, session_id: Option<u64>) -> bool {
        session_id matches Some(id) ==> self.sessions.contains(id)
    }

    /// The connection after a message arrived, and who is given it. An acknowledgement changes
    /// nothing, a timeout closes a session, and anything else is the answer that ends a
    /// transaction.
    pub open spec fn after_message(
        self,
        action: Option<Seq<char>>,
        session_id: Option<u64>,
        transaction: Option<Seq<char>>,
    ) -> (JanusConnectionView, Option<Waiter>) {
        if action == Some("ack"@) {
            (self, None)
        } else if action == Some("timeout"@) {
            match session_id {
                Some(id) => (
                    JanusConnectionView { sessions: self.sessions.remove(id), ..self },
                    None,
                ),
                None => (self, None),
            }
        } else {
            match transaction {
                Some(name) => if self.transactions.contains_key(name) {
                    (
                        JanusConnectionView {
                            transactions: self.transactions.remove(name),
                            ..self
                        },
                        Some(self.transactions[name]),
                    )
                } else {
                    (self, None)
                },
                None => (self, None),
            }
        }
    }
}

/// Transactions with different numbers have different names.
pub proof fn transactions_have_their_own_names(
    first: JanusConnectionView,
    second: JanusConnectionView,
)
    requires
        first.transaction_counter != second.transaction_counter,
    ensures
        first.next_transaction() != second.next_transaction(),
{
    hexadecimal_is_unique(
        first.transaction_counter as nat,
        second.transaction_counter as nat,
    );
}

impl JanusConnectionView {
    /// Whether all transactions that wait for an answer were numbered by this connection.
    pub open spec fn is_numbered(self) -> bool {
        forall|name: Seq<char>| #[trigger]
            self.transactions.contains_key(name) ==> exists|number: nat|
                number < self.transaction_counter && name == #[trigger] hexadecimal(number)
    }
}

/// Until the counter is used up, a new transaction displaces none that waits for an answer.
pub proof fn new_transactions_displace_nothing(
    connection: JanusConnectionView,
    url: Seq<char>,
    waiter: Waiter,
    action: Option<Seq<char>>,
    session_id: Option<u64>,
    transaction: Option<Seq<char>>,
)
    requires
        connection.is_numbered(),
        connection.transaction_counter < usize::MAX,
    ensures
        !connection.transactions.contains_key(connection.next_transaction()),
        connection.counted().awaiting(connection.next_transaction(), waiter).is_numbered(),
        connection.counted().is_numbered(),
        connection.after_message(action, session_id, transaction).0.is_numbered(),
        JanusConnectionView::fresh(url).is_numbered(),
{
    let next = connection.next_transaction();
    let sent = connection.counted().awaiting(next, waiter);
    assert(sent.transaction_counter == connection.transaction_counter + 1);
    if connection.transactions.contains_key(next) {
        let number = choose|number: nat|
            number < connection.transaction_counter && next == #[trigger] hexadecimal(number);
        hexadecimal_is_unique(number, connection.transaction_counter as nat);
    }
    assert forall|name: Seq<char>| #[trigger]
        sent.transactions.contains_key(name) implies exists|number: nat|
        number < sent.transaction_counter && name == #[trigger] hexadecimal(number) by {
        if name == next {
            assert(name == hexadecimal(connection.transaction_counter as nat));
        } else {
            assert(connection.transactions.contains_key(name));
        }
    }
    assert forall|name: Seq<char>| #[trigger]
        connection.counted().transactions.contains_key(name) implies exists|number: nat|
        number < connection.counted().transaction_counter && name == #[trigger] hexadecimal(
            number,
        ) by {
        assert(connection.transactions.contains_key(name));
    }
    let after = connection.after_message(action, session_id, transaction).0;
    assert forall|name: Seq<char>| #[trigger]
        after.transactions.contains_key(name) implies exists|number: nat|
        number < after.transaction_counter && name == #[trigger] hexadecimal(number) by {
        assert(connection.transactions.contains_key(name));
    }
}

/// The answer to a transaction is given to whoever waits for it, once.
pub proof fn answers_are_given_once(
    connection: JanusConnectionView,
    transaction: Seq<char>,
    waiter: Waiter,
    action: Option<Seq<char>>,
    session_id: Option<u64>,
)
    requires
        action != Some("ack"@),
        action != Some("timeout"@),
    ensures
        ({
            let sent = connection.awaiting(transaction, waiter);
            let (answered, given) = sent.after_message(action, session_id, Some(transaction));
            &&& given == Some(waiter)
            &&& answered.after_message(action, session_id, Some(transaction)) == (
                answered,
                None::<Waiter>,
            )
            &&& forall|other: Seq<char>|
                other != transaction ==> (answered.transactions.contains_key(other)
                    == connection.transactions.contains_key(other)
                    && answered.transactions.contains_key(other) ==> answered.transactions[other]
                    == connection.transactions[other])
        }),
{
}

/// A session that timed out is not open any more.
pub proof fn timeouts_close_sessions(
    connection: JanusConnectionView,
    session_id: u64,
    transaction: Option<Seq<char>>,
)
    ensures
        ({
            let (after, given) = connection.after_message(
                Some("timeout"@),
                Some(session_id),
                transaction,
            );
            &&& !after.session_is_open(Some(session_id))
            &&& after.transactions == connection.transactions
            &&& given is None
        }),
{
    reveal_strlit("timeout");
    reveal_strlit("ack");
    assert("timeout"@.len() != "ack"@.len());
}

/// Whether two texts are the same, where there is one to compare.
fn is_text(text: Option<&str>, expected: &str) -> (same: bool)
    ensures
        same == (text matches Some(found) && found@ == expected@),
{
    match text {
        Some(found) => same_text(found, expected),
        None => false,
    }
}

/// What happens on the web socket of a connection, and around it.
#[derive(Debug)]
pub enum ConnectionEvent {
    /// A message arrived.
    Message(JanusBareMessage),
    /// Something arrived that is no message.
    OtherFrame,
    /// Nothing will arrive any more.
    Disconnected,
    /// A message is to be sent.
    Queued(JanusBareMessage),
    /// No message is to be sent any more.
    QueueClosed,
    /// It is time to tell the server that the sessions are in use.
    Keepalive,
}

/// What is done about it.
#[derive(Debug)]
pub enum ConnectionAction {
    Wait,
    /// A message is given to whoever waits for it.
    Deliver(Waiter, JanusBareMessage),
    /// A message is sent.
    Send(JanusBareMessage),
    /// A keepalive is sent for each of the sessions.
    KeepAlive(Vec<u64>),
    /// The connection is closed.
    Stop,
}

impl JanusConnection {
    /// A connection to a server, not open yet.
    pub fn new(url: String) -> (connection: JanusConnection)
        ensures
            connection@ == JanusConnectionView::fresh(url@),
    {
        broadcast use vstd::std_specs::hash::group_hash_axioms;

        let connection = JanusConnection {
            url,
            open: false,
            transaction_counter: 0,
            transactions: StringHashMap::new(),
            sessions: HashSet::new(),
        };
        assert(connection@ =~= JanusConnectionView::fresh(url@));
        connection
    }

    /// A connection to the server at a URI, not open yet; it fails where the text is none.
    pub fn parse(url: &str) -> (connection: Result<JanusConnection, ()>)
        ensures
            match connection {
                Ok(made) => is_uri(url@) && made@ == JanusConnectionView::fresh(url@),
                Err(_) => !is_uri(url@),
            },
    {
        JanusConnection::parse_checked(url, parses_as_uri(url))
    }

    /// A connection to the server at a URI, not open yet, where the text is found to be one.
    pub fn parse_checked(url: &str, valid: bool) -> (connection: Result<JanusConnection, ()>)
        ensures
            match connection {
                Ok(made) => valid && made@ == JanusConnectionView::fresh(url@),
                Err(_) => !valid,
            },
    {
        if valid {
            Ok(JanusConnection::new(url.to_owned()))
        } else {
            Err(())
        }
    }

    /// Who waits for the answer to a transaction.
    pub fn waiter(&self, transaction: &str) -> (waiter: Option<Waiter>)
        ensures
            waiter == self@.transactions.get(transaction@),
    {
        match self.transactions.get(transaction) {
            Some(waiter) => Some(*waiter),
            None => None,
        }
    }

    /// Where the server is.
    pub fn url(&self) -> (url: &str)
        ensures
            url@ == self@.url,
    {
        self.url.as_str()
    }

    /// Opens the connection, and tells whether it was closed before.
    pub fn start(&mut self) -> (opened: bool)
        ensures
            opened == !old(self)@.open,
            final(self)@ == (JanusConnectionView { open: true, ..old(self)@ }),
    {
        if self.open {
            return false;
        }
        self.open = true;
        true
    }

    /// Takes up what happens on the web socket, and tells what is done about it.
    pub fn consume(&mut self, event: ConnectionEvent) -> (action: ConnectionAction)
        ensures
            match event {
                ConnectionEvent::Message(message) => {
                    let (next, given) = old(self)@.after_message(
                        message.action(),
                        message.session_id(),
                        held_text(message.transaction),
                    );
                    &&& final(self)@ == next
                    &&& action == match given {
                        Some(waiter) => ConnectionAction::Deliver(waiter, message),
                        None => ConnectionAction::Wait,
                    }
                },
                ConnectionEvent::OtherFrame => final(self)@ == old(self)@
                    && action is Wait,
                ConnectionEvent::Queued(message) => final(self)@ == old(self)@ && action
                    == ConnectionAction::Send(message),
                ConnectionEvent::Keepalive => {
                    &&& final(self)@ == old(self)@
                    &&& action matches ConnectionAction::KeepAlive(ids) && ids@.no_duplicates()
                        && ids@.to_set() == old(self)@.sessions
                },
                ConnectionEvent::Disconnected | ConnectionEvent::QueueClosed => action is Stop
                    && final(self)@ == (JanusConnectionView { open: false, ..old(self)@ }),
            },
    {
        match event {
            ConnectionEvent::Message(message) => match self.handle_message(&message) {
                Some(waiter) => ConnectionAction::Deliver(waiter, message),
                None => ConnectionAction::Wait,
            },
            ConnectionEvent::OtherFrame => ConnectionAction::Wait,
            ConnectionEvent::Queued(message) => ConnectionAction::Send(message),
            ConnectionEvent::Keepalive => ConnectionAction::KeepAlive(self.session_ids()),
            ConnectionEvent::Disconnected | ConnectionEvent::QueueClosed => {
                self.open = false;
                ConnectionAction::Stop
            },
        }
    }

    /// The sessions that are open, in any order.
    fn session_ids(&self) -> (ids: Vec<u64>)
        ensures
            ids@.no_duplicates(),
            ids@.to_set() == self@.sessions,
    {
        broadcast use vstd::std_specs::hash::group_hash_axioms;

        let mut ids: Vec<u64> = Vec::new();
        let ghost all = vstd::std_specs::iter::IteratorSpec::remaining(
            &vstd::std_specs::hash::spec_hash_keys_iter(&self.sessions),
        ).unref();
        for id in it: self.sessions.iter()
            invariant
                it.seq().unref() == all,
                ids@ == all.take(it.index() as int),
        {
            ids.push(*id);
            assert(all.take(it.index() + 1) =~= all.take(it.index() as int).push(*id));
        }
        assert(ids@ =~= all);
        assert(ids@.to_set() =~= self.sessions@);
        ids
    }

    /// The message that keeps a session open.
    pub fn keepalive_message(session_id: u64) -> (message: JanusMessage<()>)
        ensures
            message.is_message("keepalive"@, Some(session_id), None, JanusMessageData::Empty),
    {
        JanusMessage {
            action: "keepalive".to_owned(),
            session_id: Some(session_id),
            handle_id: None,
            data: JanusMessageData::Empty,
        }
    }

    /// Closes a session.
    pub fn remove_session(&mut self, session_id: u64)
        ensures
            final(self)@ == (JanusConnectionView {
                sessions: old(self)@.sessions.remove(session_id),
                ..old(self)@
            }),
    {
        broadcast use vstd::std_specs::hash::group_hash_axioms;

        self.sessions.remove(&session_id);
    }

    /// The message that asks for a session.
    pub fn create_session_message() -> (message: JanusMessage<()>)
        ensures
            message.is_message("create"@, None, None, JanusMessageData::Empty),
    {
        JanusMessage {
            action: "create".to_owned(),
            session_id: None,
            handle_id: None,
            data: JanusMessageData::Empty,
        }
    }

    /// Opens the session that the server answered with.
    pub fn create_session(&mut self, answer: JanusMessage<JanusIdMessage>) -> (session: Result<
        JanusSession,
        JanusError,
    >)
        ensures
            match answer.data.extracted() {
                Ok(message) => {
                    &&& session matches Ok(made) && made.id() == message.id
                    &&& final(self)@ == (JanusConnectionView {
                        sessions: old(self)@.sessions.insert(message.id),
                        ..old(self)@
                    })
                },
                Err(error) => session == Err::<JanusSession, JanusError>(error) && final(self)@
                    == old(self)@,
            },
    {
        broadcast use vstd::std_specs::hash::group_hash_axioms;

        match answer.extract() {
            Ok(message) => {
                self.sessions.insert(message.id);
                Ok(JanusSession { session_id: message.id })
            },
            Err(error) => Err(error),
        }
    }

    /// Takes a message for sending, unless the connection is closed.
    pub fn send_bare_without_response(&self, message: JanusBareMessage) -> (queued: Result<
        JanusBareMessage,
        JanusError,
    >)
        ensures
            queued == if self@.open {
                Ok(message)
            } else {
                Err(JanusError::Closed)
            },
    {
        if self.open {
            Ok(message)
        } else {
            Err(JanusError::Closed)
        }
    }

    /// Fails where the session of a message is not open.
    pub fn ensure_open_session<T>(&self, message: &JanusMessage<T>) -> (checked: Result<
        (),
        JanusError,
    >)
        ensures
            checked == if self@.session_is_open(message.session_id) {
                Ok(())
            } else {
                Err(JanusError::Closed)
            },
    {
        broadcast use vstd::std_specs::hash::group_hash_axioms;

        if let Some(session_id) = message.session_id {
            if !self.sessions.contains(&session_id) {
                return Err(JanusError::Closed);
            }
        }
        Ok(())
    }

    /// Gives a message, written in JSON or not, a transaction of its own.
    pub fn create_bare_message(&mut self, data: Result<Value, JanusError>) -> (message: Result<
        JanusBareMessage,
        JanusError,
    >)
        ensures
            final(self)@ == old(self)@.counted(),
            match data {
                Ok(value) => message matches Ok(made) && made.data == value && held_text(
                    made.transaction,
                ) == Some(old(self)@.next_transaction()),
                Err(error) => message == Err::<JanusBareMessage, JanusError>(error),
            },
    {
        let transaction = format_hexadecimal(self.transaction_counter as u64);
        self.transaction_counter = self.transaction_counter.wrapping_add(1);
        match data {
            Ok(value) => Ok(JanusBareMessage { transaction: Some(transaction), data: value }),
            Err(error) => Err(error),
        }
    }

    /// Takes a message for sending under a new transaction, whose answer nobody waits for.
    pub fn send_without_response<T>(
        &mut self,
        message: &JanusMessage<T>,
        data: Result<Value, JanusError>,
    ) -> (queued: Result<JanusBareMessage, JanusError>)
        ensures
            if !old(self)@.session_is_open(message.session_id) {
                queued == Err::<JanusBareMessage, JanusError>(JanusError::Closed) && final(self)@
                    == old(self)@
            } else {
                &&& final(self)@ == old(self)@.counted()
                &&& match data {
                    Err(error) => queued == Err::<JanusBareMessage, JanusError>(error),
                    Ok(value) => if old(self)@.open {
                        queued matches Ok(sent) && sent.data == value && held_text(
                            sent.transaction,
                        ) == Some(old(self)@.next_transaction())
                    } else {
                        queued == Err::<JanusBareMessage, JanusError>(JanusError::Closed)
                    },
                }
            },
    {
        match self.ensure_open_session(message) {
            Ok(_) => {},
            Err(error) => {
                return Err(error);
            },
        }
        match self.create_bare_message(data) {
            Ok(bare) => self.send_bare_without_response(bare),
            Err(error) => Err(error),
        }
    }

    /// Takes a message for sending, and notes who waits for the answer to its transaction.
    pub fn send_bare(&mut self, message: JanusBareMessage, waiter: Waiter) -> (queued: Result<
        JanusBareMessage,
        JanusError,
    >)
        ensures
            match held_text(message.transaction) {
                None => queued == Err::<JanusBareMessage, JanusError>(
                    JanusError::MissingTransactionId,
                ) && final(self)@ == old(self)@,
                Some(transaction) => {
                    &&& final(self)@ == old(self)@.awaiting(transaction, waiter)
                    &&& queued == if old(self)@.open {
                        Ok(message)
                    } else {
                        Err(JanusError::Closed)
                    }
                },
            },
    {
        match &message.transaction {
            Some(transaction) => {
                self.transactions.insert(transaction.clone(), waiter);
            },
            None => {
                return Err(JanusError::MissingTransactionId);
            },
        }
        self.send_bare_without_response(message)
    }

    /// Takes a message for sending under a new transaction, and notes who waits for the answer.
    pub fn send<T>(
        &mut self,
        message: &JanusMessage<T>,
        data: Result<Value, JanusError>,
        waiter: Waiter,
    ) -> (queued: Result<JanusBareMessage, JanusError>)
        ensures
            if !old(self)@.session_is_open(message.session_id) {
                queued == Err::<JanusBareMessage, JanusError>(JanusError::Closed) && final(self)@
                    == old(self)@
            } else {
                match data {
                    Err(error) => queued == Err::<JanusBareMessage, JanusError>(error)
                        && final(self)@ == old(self)@.counted(),
                    Ok(value) => {
                        &&& final(self)@ == old(self)@.counted().awaiting(
                            old(self)@.next_transaction(),
                            waiter,
                        )
                        &&& if old(self)@.open {
                            queued matches Ok(sent) && sent.data == value && held_text(
                                sent.transaction,
                            ) == Some(old(self)@.next_transaction())
                        } else {
                            queued == Err::<JanusBareMessage, JanusError>(JanusError::Closed)
                        }
                    },
                }
            },
    {
        match self.ensure_open_session(message) {
            Ok(_) => {},
            Err(error) => {
                return Err(error);
            },
        }
        match self.create_bare_message(data) {
            Ok(bare) => self.send_bare(bare, waiter),
            Err(error) => Err(error),
        }
    }

    /// Takes up a message that arrived, and tells who is given it.
    pub fn handle_message(&mut self, message: &JanusBareMessage) -> (given: Option<Waiter>)
        ensures
            (final(self)@, given) == old(self)@.after_message(
                message.action(),
                message.session_id(),
                held_text(message.transaction),
            ),
    {
        let action = text_member(&message.data, "janus");
        let session_id = number_member(&message.data, "session_id");
        let action_text = match &action {
            Some(text) => Some(text.as_str()),
            None => None,
        };
        let transaction = match &message.transaction {
            Some(text) => Some(text.as_str()),
            None => None,
        };
        self.dispatch(action_text, session_id, transaction)
    }

    /// Takes up a message of which these parts were read, and tells who is given it.
    pub fn dispatch(
        &mut self,
        action: Option<&str>,
        session_id: Option<u64>,
        transaction: Option<&str>,
    ) -> (given: Option<Waiter>)
        ensures
            (final(self)@, given) == old(self)@.after_message(
                match action {
                    Some(text) => Some(text@),
                    None => None,
                },
                session_id,
                match transaction {
                    Some(text) => Some(text@),
                    None => None,
                },
            ),
    {
        if is_text(action, "ack") {
            return None;
        }
        if is_text(action, "timeout") {
            if let Some(id) = session_id {
                self.remove_session(id);
            }
            return None;
        }
        if let Some(name) = transaction {
            let found = match self.transactions.get(name) {
                Some(waiter) => Some(*waiter),
                None => None,
            };
            if found.is_some() {
                self.transactions.remove(name);
            }
            return found;
        }
        None
    }
}

/// A session with the server.
#[derive(Debug)]
pub struct JanusSession {
    session_id: u64,
}

impl JanusSession {
    /// The number of the session.
    pub closed spec fn id(self) -> u64 {
        self.session_id
    }

    /// The number of the session.
    pub fn session_id(&self) -> (id: u64)
        ensures
            id == self.id(),
    {
        self.session_id
    }

    /// A message of the session.
    pub fn send<T>(&self, action: &str, data: JanusMessageData<T>) -> (message: JanusMessage<T>)
        ensures
            message.is_message(action@, Some(self.id()), None, data),
    {
        JanusMessage {
            action: action.to_owned(),
            session_id: Some(self.session_id),
            handle_id: None,
            data,
        }
    }

    /// The message that attaches a plugin to the session.
    pub fn attach_message(&self, plugin: &str) -> (message: JanusMessage<()>)
        ensures
            message.action@ == "attach"@,
            message.session_id == Some(self.id()),
            message.handle_id is None,
            message.data matches JanusMessageData::Plugin { plugin: name } && name@ == plugin@,
    {
        self.send("attach", JanusMessageData::Plugin { plugin: plugin.to_owned() })
    }

    /// The plugin that the server answered with.
    pub fn attach(&self, answer: JanusMessageData<JanusIdMessage>) -> (plugin: Result<
        JanusPlugin<'_>,
        JanusError,
    >)
        ensures
            match answer.extracted() {
                Ok(message) => plugin matches Ok(attached) && attached.handle() == message.id
                    && attached.session_number() == self.id(),
                Err(error) => plugin == Err::<JanusPlugin<'_>, JanusError>(error),
            },
    {
        match answer.extract() {
            Ok(message) => Ok(JanusPlugin { session: self, handle_id: message.id }),
            Err(error) => Err(error),
        }
    }

    /// The plugin that the server answered with, together with its session.
    pub fn attach_owned(
        session: &Arc<JanusSession>,
        answer: JanusMessageData<JanusIdMessage>,
    ) -> (plugin: Result<JanusPluginOwned, JanusError>)
        ensures
            match answer.extracted() {
                Ok(message) => plugin matches Ok(attached) && attached.handle() == message.id
                    && attached.session_number() == session.id(),
                Err(error) => plugin == Err::<JanusPluginOwned, JanusError>(error),
            },
    {
        match answer.extract() {
            Ok(message) => Ok(
                JanusPluginOwned { session: Arc::clone(session), handle_id: message.id },
            ),
            Err(error) => Err(error),
        }
    }
}

/// What is attached to a plugin.
pub trait JanusPluginOwner {
    /// The number of the plugin.
    spec fn handle(&self) -> u64;

    /// The number of the session it is attached to.
    spec fn session_number(&self) -> u64;

    /// The number of the plugin.
    fn handle_id(&self) -> (id: u64)
        ensures
            id == self.handle(),
    ;

    /// The session it is attached to.
    fn session(&self) -> (session: &JanusSession)
        ensures
            session.id() == self.session_number(),
    ;

    /// A message to the plugin.
    fn send<T>(&self, action: &str, data: JanusMessageData<T>) -> (message: JanusMessage<T>)
        ensures
            message.is_message(action@, Some(self.session_number()), Some(self.handle()), data),
    {
        JanusMessage {
            action: action.to_owned(),
            session_id: Some(self.session().session_id()),
            handle_id: Some(self.handle_id()),
            data,
        }
    }
}

/// A plugin of a session that is borrowed.
#[derive(Debug)]
pub struct JanusPlugin<'a> {
    session: &'a JanusSession,
    handle_id: u64,
}

impl JanusPluginOwner for JanusPlugin<'_> {
    closed spec fn handle(&self) -> u64 {
        self.handle_id
    }

    closed spec fn session_number(&self) -> u64 {
        self.session.id()
    }

    fn handle_id(&self) -> (id: u64) {
        self.handle_id
    }

    fn session(&self) -> (session: &JanusSession) {
        self.session
    }
}

/// A plugin that keeps its session.
#[derive(Debug, Clone)]
pub struct JanusPluginOwned {
    session: Arc<JanusSession>,
    handle_id: u64,
}

impl JanusPluginOwner for JanusPluginOwned {
    closed spec fn handle(&self) -> u64 {
        self.handle_id
    }

    closed spec fn session_number(&self) -> u64 {
        self.session.id()
    }

    fn handle_id(&self) -> (id: u64) {
        self.handle_id
    }

    fn session(&self) -> (session: &JanusSession) {
        &self.session
    }
}

} // verus!
