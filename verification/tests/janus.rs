use serde_json::Value;
use staafmixer::janus_client::{
    ConnectionAction, ConnectionEvent, ErrorData, JanusBareMessage, JanusConnection, JanusError,
    JanusIdMessage, JanusMessage, JanusMessageData, JanusPluginOwner, JanusSession, PluginData,
};
use std::sync::Arc;

fn json(text: &str) -> Value {
    serde_json::from_str(text).unwrap()
}

fn bare(transaction: Option<&str>, text: &str) -> JanusBareMessage {
    JanusBareMessage { transaction: transaction.map(str::to_string), data: json(text) }
}

fn session_answer(id: u64) -> JanusMessage<JanusIdMessage> {
    JanusMessage {
        action: "success".to_string(),
        session_id: None,
        handle_id: None,
        data: JanusMessageData::Data { data: JanusIdMessage { id } },
    }
}

fn open_connection() -> JanusConnection {
    let mut connection = JanusConnection::parse("ws://localhost:8188").unwrap();
    assert!(connection.start());
    connection
}

#[test]
fn a_url_is_checked() {
    assert_eq!(JanusConnection::parse("ws://localhost:8188").unwrap().url(), "ws://localhost:8188");
    assert!(JanusConnection::parse("").is_err());
    assert!(JanusConnection::parse("ws://local host").is_err());
    assert!(JanusConnection::parse_checked("x", false).is_err());
    assert_eq!(JanusConnection::parse_checked("x", true).unwrap().url(), "x");
}

#[test]
fn a_connection_is_opened_once() {
    let mut connection = open_connection();
    assert!(!connection.start());
    assert!(matches!(connection.consume(ConnectionEvent::Disconnected), ConnectionAction::Stop));
    assert!(connection.start());
    assert!(matches!(connection.consume(ConnectionEvent::QueueClosed), ConnectionAction::Stop));
    assert!(connection.start());
}

#[test]
fn transactions_are_numbered_in_hex() {
    let mut connection = open_connection();
    let message = JanusConnection::create_session_message();
    let mut names = vec![];
    for waiter in 0..20 {
        let sent = connection.send(&message, Ok(json("{}")), waiter).unwrap();
        names.push(sent.transaction.unwrap());
    }
    assert_eq!(names[0], "0");
    assert_eq!(names[9], "9");
    assert_eq!(names[10], "a");
    assert_eq!(names[15], "f");
    assert_eq!(names[16], "10");
    assert_eq!(names[19], "13");
    assert_eq!(connection.waiter("f"), Some(15));
    assert_eq!(connection.waiter("F"), None);
}

#[test]
fn an_answer_is_delivered_once() {
    let mut connection = open_connection();
    let message = JanusConnection::create_session_message();
    connection.send(&message, Ok(json("{}")), 5).unwrap();
    let ack = bare(Some("0"), r#"{"janus":"ack"}"#);
    assert!(matches!(
        connection.consume(ConnectionEvent::Message(ack)),
        ConnectionAction::Wait
    ));
    let answer = || bare(Some("0"), r#"{"janus":"success","data":{"id":9}}"#);
    match connection.consume(ConnectionEvent::Message(answer())) {
        ConnectionAction::Deliver(waiter, delivered) => {
            assert_eq!(waiter, 5);
            assert_eq!(delivered.data["data"]["id"], 9);
        }
        other => panic!("{:?}", other),
    }
    assert!(matches!(
        connection.consume(ConnectionEvent::Message(answer())),
        ConnectionAction::Wait
    ));
    assert_eq!(connection.handle_message(&bare(None, "{}")), None);
    assert_eq!(connection.handle_message(&bare(Some("1"), "[]")), None);
    assert!(matches!(connection.consume(ConnectionEvent::OtherFrame), ConnectionAction::Wait));
}

#[test]
fn parts_of_a_message_decide() {
    let mut connection = open_connection();
    connection.send_bare(bare(Some("x"), "{}"), 3).unwrap();
    assert_eq!(connection.dispatch(Some("ack"), None, Some("x")), None);
    assert_eq!(connection.dispatch(Some("timeout"), None, Some("x")), None);
    assert_eq!(connection.dispatch(None, None, None), None);
    assert_eq!(connection.dispatch(None, None, Some("x")), Some(3));
    assert_eq!(connection.dispatch(None, None, Some("x")), None);
}

#[test]
fn a_timeout_closes_a_session() {
    let mut connection = open_connection();
    let session = connection.create_session(session_answer(9)).unwrap();
    assert_eq!(session.session_id(), 9);
    let message = session.send::<()>("keepalive", JanusMessageData::Empty);
    assert!(connection.ensure_open_session(&message).is_ok());
    // Neither a negative number nor a string is the number of a session.
    for text in [
        r#"{"janus":"timeout"}"#,
        r#"{"janus":"timeout","session_id":-9}"#,
        r#"{"janus":"timeout","session_id":"9"}"#,
    ] {
        assert_eq!(connection.handle_message(&bare(None, text)), None);
        assert!(connection.ensure_open_session(&message).is_ok());
    }
    let timeout = bare(None, r#"{"janus":"timeout","session_id":9}"#);
    assert_eq!(connection.handle_message(&timeout), None);
    assert!(matches!(connection.ensure_open_session(&message), Err(JanusError::Closed)));
    assert!(matches!(
        connection.send(&message, Ok(json("{}")), 1),
        Err(JanusError::Closed)
    ));
    assert!(matches!(
        connection.send_without_response(&message, Ok(json("{}"))),
        Err(JanusError::Closed)
    ));
    // Nothing was numbered.
    assert_eq!(
        connection.create_bare_message(Ok(json("{}"))).unwrap().transaction.unwrap(),
        "0"
    );
}

#[test]
fn sessions_are_kept_alive() {
    let mut connection = open_connection();
    for id in [4, 9, 2] {
        connection.create_session(session_answer(id)).unwrap();
    }
    connection.remove_session(9);
    match connection.consume(ConnectionEvent::Keepalive) {
        ConnectionAction::KeepAlive(mut ids) => {
            ids.sort();
            assert_eq!(ids, [2, 4]);
        }
        other => panic!("{:?}", other),
    }
    let message = JanusConnection::keepalive_message(4);
    assert_eq!(message.action, "keepalive");
    assert_eq!(message.session_id, Some(4));
    assert_eq!(message.handle_id, None);
    assert!(message.data.is_empty());
    let sent = connection.send_without_response(&message, Ok(json("[1]"))).unwrap();
    assert_eq!(sent.data, json("[1]"));
    assert_eq!(sent.transaction.as_deref(), Some("0"));
    assert_eq!(connection.waiter("0"), None);
    match connection.consume(ConnectionEvent::Queued(sent)) {
        ConnectionAction::Send(message) => assert_eq!(message.data, json("[1]")),
        other => panic!("{:?}", other),
    }
}

#[test]
fn nothing_is_sent_on_a_closed_connection() {
    let mut connection = JanusConnection::new("ws://localhost".to_string());
    let message = JanusConnection::create_session_message();
    assert_eq!(message.action, "create");
    assert!(matches!(connection.send(&message, Ok(json("{}")), 1), Err(JanusError::Closed)));
    assert_eq!(connection.waiter("0"), Some(1));
    assert!(matches!(
        connection.send_without_response(&message, Ok(json("{}"))),
        Err(JanusError::Closed)
    ));
    assert!(matches!(
        connection.send_bare_without_response(bare(None, "{}")),
        Err(JanusError::Closed)
    ));
}

#[test]
fn a_message_without_a_transaction_gets_no_answer() {
    let mut connection = open_connection();
    assert!(matches!(
        connection.send_bare(bare(None, "{}"), 1),
        Err(JanusError::MissingTransactionId)
    ));
    assert!(connection.send_bare_without_response(bare(None, "{}")).is_ok());
    let failed = Err(JanusError::Serde("broken".to_string()));
    let message = JanusConnection::create_session_message();
    assert!(matches!(connection.send(&message, failed, 1), Err(JanusError::Serde(_))));
    assert_eq!(connection.waiter("0"), None);
}

#[test]
fn what_is_carried_is_extracted() {
    assert_eq!(JanusMessageData::Body { body: 1 }.extract().unwrap(), 1);
    assert_eq!(JanusMessageData::Data { data: 2 }.extract().unwrap(), 2);
    let data = JanusMessageData::PluginData {
        sender: 9,
        plugin_data: PluginData { plugin: "eater.staafmixer".to_string(), data: 3 },
    };
    assert!(!data.is_empty());
    assert_eq!(data.extract().unwrap(), 3);
    assert!(matches!(
        JanusMessageData::<u8>::Empty.extract(),
        Err(JanusError::IncorrectResponse)
    ));
    assert!(matches!(
        JanusMessageData::<u8>::Plugin { plugin: "x".to_string() }.extract(),
        Err(JanusError::IncorrectResponse)
    ));
    let message = JanusMessage::<u8> {
        action: "error".to_string(),
        session_id: None,
        handle_id: None,
        data: JanusMessageData::Error {
            error: ErrorData { code: 458, reason: "No such session".to_string() },
        },
    };
    let error = message.extract().unwrap_err();
    assert_eq!(error.message(), "Janus returned error: (458) No such session");
}

#[test]
fn errors_are_told_in_words() {
    let reason = || "why".to_string();
    assert_eq!(JanusError::Serde(reason()).message(), "Failure with JSON: why");
    assert_eq!(JanusError::WebSocket(reason()).message(), "Failure with WebSocket: why");
    assert_eq!(JanusError::OneShotChannelError(reason()).message(), "Failure with callback: why");
    assert_eq!(JanusError::Closed.message(), "Janus connection is closed");
    assert_eq!(
        JanusError::IncorrectResponse.message(),
        "Janus responded with something different than expected"
    );
    assert_eq!(
        JanusError::MissingTransactionId.message(),
        "Tried to send message without transaction id"
    );
}

#[test]
fn messages_carry_session_and_plugin() {
    let mut connection = open_connection();
    let session = Arc::new(connection.create_session(session_answer(9)).unwrap());
    let attach = session.attach_message("eater.staafmixer");
    assert_eq!(attach.action, "attach");
    assert_eq!(attach.session_id, Some(9));
    assert_eq!(attach.handle_id, None);
    assert!(matches!(
        attach.data,
        JanusMessageData::Plugin { plugin } if plugin == "eater.staafmixer"
    ));
    let answer = || JanusMessageData::Data { data: JanusIdMessage { id: 31 } };
    let plugin = session.attach(answer()).unwrap();
    let owned = JanusSession::attach_owned(&session, answer()).unwrap();
    assert_eq!(plugin.handle_id(), 31);
    assert_eq!(owned.clone().session().session_id(), 9);
    for message in [
        plugin.send("message", JanusMessageData::Body { body: 1 }),
        owned.send("message", JanusMessageData::Body { body: 1 }),
    ] {
        assert_eq!(message.action, "message");
        assert_eq!(message.session_id, Some(9));
        assert_eq!(message.handle_id, Some(31));
        assert_eq!(message.extract().unwrap(), 1);
    }
    assert!(session.attach(JanusMessageData::Empty).is_err());
    assert!(JanusSession::attach_owned(&session, JanusMessageData::Empty).is_err());
    let failed = JanusMessage {
        action: "success".to_string(),
        session_id: None,
        handle_id: None,
        data: JanusMessageData::Empty,
    };
    assert!(matches!(
        connection.create_session(failed),
        Err(JanusError::IncorrectResponse)
    ));
}
