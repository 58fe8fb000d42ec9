//! The client: which answer goes to whom, and which sessions stay open.

use crate::janus_client::{
    held_text, ErrorData, JanusBareMessage, JanusConnectionView, JanusError, JanusMessage,
    JanusMessageData, PluginData, Waiter,
};
use crate::janus_client::{number_members, text_members};
use crate::text::{decimal, hexadecimal};
use vstd::prelude::*;

verus! {

proof fn lemma_words()
    ensures
        "ack"@ == seq!['a', 'c', 'k'],
        "timeout"@ == seq!['t', 'i', 'm', 'e', 'o', 'u', 't'],
        seq!['a', 'c', 'k'] != seq!['t', 'i', 'm', 'e', 'o', 'u', 't'],
{
    reveal_strlit("ack");
    reveal_strlit("timeout");
    assert("ack"@ =~= seq!['a', 'c', 'k']);
    assert("timeout"@ =~= seq!['t', 'i', 'm', 'e', 'o', 'u', 't']);
    assert(seq!['a', 'c', 'k'].len() == 3);
    assert(seq!['t', 'i', 'm', 'e', 'o', 'u', 't'].len() == 7);
}

/// A new connection is closed: it has no sessions, nobody waits, and no transaction was named.
pub proof fn new_connections_are_closed(url: Seq<char>, session_id: u64, transaction: Seq<char>)
    ensures
        JanusConnectionView::fresh(url).url == url,
        !JanusConnectionView::fresh(url).open,
        JanusConnectionView::fresh(url).transaction_counter == 0,
        !JanusConnectionView::fresh(url).sessions.contains(session_id),
        !JanusConnectionView::fresh(url).transactions.contains_key(transaction),
{
}

/// Transactions are numbered one after the other, and named by their number. Naming one changes
/// nothing else.
pub proof fn transactions_are_counted(connection: JanusConnectionView)
    ensures
        connection.next_transaction() == hexadecimal(connection.transaction_counter as nat),
        connection.transaction_counter < usize::MAX ==> connection.counted().transaction_counter
            == connection.transaction_counter + 1,
        connection.transaction_counter == usize::MAX ==> connection.counted().transaction_counter
            == 0,
        connection.counted().url == connection.url,
        connection.counted().open == connection.open,
        connection.counted().transactions == connection.transactions,
        connection.counted().sessions == connection.sessions,
{
}

/// Who waits for the answer to a transaction is noted; who waits for another still does.
pub proof fn waiting_displaces_nobody_else(
    connection: JanusConnectionView,
    transaction: Seq<char>,
    waiter: Waiter,
    other: Seq<char>,
)
    ensures
        ({
            let after = connection.awaiting(transaction, waiter);
            &&& after.transactions.get(transaction) == Some(waiter)
            &&& other != transaction ==> after.transactions.get(other)
                == connection.transactions.get(other)
            &&& after.url == connection.url
            &&& after.open == connection.open
            &&& after.transaction_counter == connection.transaction_counter
            &&& after.sessions == connection.sessions
        }),
{
}

/// A message of a session may be sent while that session is open, and one of no session always.
pub proof fn open_sessions_may_send(connection: JanusConnectionView, session_id: u64)
    ensures
        connection.session_is_open(Some(session_id)) <==> connection.sessions.contains(session_id),
        connection.session_is_open(None),
{
}

/// An acknowledgement changes nothing and is given to nobody.
pub proof fn acknowledgements_change_nothing(
    connection: JanusConnectionView,
    session_id: Option<u64>,
    transaction: Option<Seq<char>>,
)
    ensures
        connection.after_message(Some(seq!['a', 'c', 'k']), session_id, transaction) == (
            connection,
            None::<Waiter>,
        ),
{
    lemma_words();
}

/// A timeout closes the session it names, and no other; whoever waits still does, and nobody is
/// given it. Without a session it changes nothing.
pub proof fn timeouts_close_nothing_else(
    connection: JanusConnectionView,
    session_id: u64,
    other: u64,
    transaction: Option<Seq<char>>,
)
    ensures
        ({
            let word = Some(seq!['t', 'i', 'm', 'e', 'o', 'u', 't']);
            let (after, given) = connection.after_message(word, Some(session_id), transaction);
            &&& given is None
            &&& !after.sessions.contains(session_id)
            &&& other != session_id ==> (after.sessions.contains(other)
                <==> connection.sessions.contains(other))
            &&& after.transactions == connection.transactions
            &&& after.transaction_counter == connection.transaction_counter
            &&& after.open == connection.open
            &&& after.url == connection.url
            &&& connection.after_message(word, None, transaction) == (connection, None::<Waiter>)
        }),
{
    lemma_words();
}

/// Any other message is given to whoever waits for the answer to its transaction, who then waits
/// no longer; all others still wait, and no session is closed. It is given to nobody where nobody
/// waits for it, or where it has no transaction, and changes nothing then.
pub proof fn answers_go_to_who_waits(
    connection: JanusConnectionView,
    action: Option<Seq<char>>,
    session_id: Option<u64>,
    transaction: Seq<char>,
    other: Seq<char>,
)
    requires
        action != Some(seq!['a', 'c', 'k']),
        action != Some(seq!['t', 'i', 'm', 'e', 'o', 'u', 't']),
    ensures
        ({
            let (after, given) = connection.after_message(action, session_id, Some(transaction));
            &&& given == connection.transactions.get(transaction)
            &&& after.transactions.get(transaction) is None
            &&& other != transaction ==> after.transactions.get(other)
                == connection.transactions.get(other)
            &&& after.sessions == connection.sessions
            &&& after.transaction_counter == connection.transaction_counter
            &&& after.open == connection.open
            &&& after.url == connection.url
            &&& connection.after_message(action, session_id, None) == (connection, None::<Waiter>)
        }),
{
    lemma_words();
}

/// What a message carries is taken out whole, whichever way it is carried; a message that carries
/// nothing, or a mere name, is no answer, and an error is handed on.
pub proof fn what_is_carried_is_extracted<T>(
    item: T,
    sender: u64,
    name: String,
    error: ErrorData,
)
    ensures
        (JanusMessageData::Body { body: item }).extracted() == Ok::<T, JanusError>(item),
        (JanusMessageData::Data { data: item }).extracted() == Ok::<T, JanusError>(item),
        (JanusMessageData::PluginData {
            sender,
            plugin_data: PluginData { plugin: name, data: item },
        }).extracted() == Ok::<T, JanusError>(item),
        (JanusMessageData::<T>::Error { error }).extracted() == Err::<T, JanusError>(
            JanusError::JanusError(error),
        ),
        (JanusMessageData::<T>::Empty).extracted() == Err::<T, JanusError>(
            JanusError::IncorrectResponse,
        ),
        (JanusMessageData::<T>::Plugin { plugin: name }).extracted() == Err::<T, JanusError>(
            JanusError::IncorrectResponse,
        ),
{
}

/// An error in words tells its reason in full, behind what kind of error it is; one of the server
/// tells its code too.
pub proof fn errors_tell_their_reason(reason: String, error: ErrorData)
    ensures
        JanusError::Serde(reason).text() == "Failure with JSON: "@ + reason@,
        JanusError::WebSocket(reason).text() == "Failure with WebSocket: "@ + reason@,
        JanusError::OneShotChannelError(reason).text() == "Failure with callback: "@ + reason@,
        JanusError::JanusError(error).text() == "Janus returned error: ("@ + decimal(
            error.code as nat,
        ) + seq![')', ' '] + error.reason@,
        JanusError::Closed.text() == "Janus connection is closed"@,
        JanusError::IncorrectResponse.text()
            == "Janus responded with something different than expected"@,
        JanusError::MissingTransactionId.text() == "Tried to send message without transaction id"@,
{
    reveal_strlit(") ");
    assert(") "@ =~= seq![')', ' ']);
}

/// What a message is for, and the session it is about, are the members of it with these names.
pub proof fn messages_tell_their_action(message: JanusBareMessage)
    ensures
        message.action() == text_members(message.data).get(seq!['j', 'a', 'n', 'u', 's']),
        message.session_id() == number_members(message.data).get(
            seq!['s', 'e', 's', 's', 'i', 'o', 'n', '_', 'i', 'd'],
        ),
{
    reveal_strlit("janus");
    reveal_strlit("session_id");
    assert("janus"@ =~= seq!['j', 'a', 'n', 'u', 's']);
    assert("session_id"@ =~= seq!['s', 'e', 's', 's', 'i', 'o', 'n', '_', 'i', 'd']);
}

/// A message has just one action, session, plugin and content.
pub proof fn messages_have_one_content<T>(
    message: JanusMessage<T>,
    action: Seq<char>,
    session_id: Option<u64>,
    handle_id: Option<u64>,
    data: JanusMessageData<T>,
)
    ensures
        message.is_message(action, session_id, handle_id, data) <==> message.action@ == action
            && message.session_id == session_id && message.handle_id == handle_id && message.data
            == data,
{
}

/// The text that is held is the text that is there.
pub proof fn held_texts_are_there(text: String)
    ensures
        held_text(Some(text)) == Some(text@),
        held_text(None) is None,
{
}

} // verus!
