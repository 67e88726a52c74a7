//! The link to the daemon.

use tomte::ipc::{
    hello_step, old_hello_step, parse_daemon_version, spawn_step, subscribe_step, HelloStep,
    IpcError, Wire,
};
use tomte::proto::{show_reply, DriftSummary, Response};

#[test]
fn parses_version_from_mismatch_message() {
    assert_eq!(
        parse_daemon_version("protocol version mismatch: daemon speaks 2, client speaks 3"),
        Some(2)
    );
    assert_eq!(parse_daemon_version("hello required first"), None);
    assert_eq!(parse_daemon_version("daemon speaks garbage"), None);
}

#[test]
fn version_rejection_surfaces_as_error() {
    let message = "protocol version mismatch: daemon speaks 2, client speaks 3";
    match hello_step(
        Response::Error {
            message: message.into(),
        },
        3,
    ) {
        HelloStep::Refused { error, shut_down } => {
            assert!(matches!(&error, IpcError::Rejected(m) if m == message));
            assert_eq!(
                error.message(),
                "daemon rejected connection: protocol version mismatch: daemon speaks 2, client speaks 3"
            );
            assert_eq!(shut_down, Some(2));
        }
        other => panic!("{other:?}"),
    }
    assert!(matches!(
        hello_step(Response::HelloOk { version: 3 }, 3),
        HelloStep::Connected
    ));
    assert!(matches!(
        hello_step(Response::Done, 3),
        HelloStep::Refused {
            error: IpcError::Proto(_),
            shut_down: None
        }
    ));
}

#[test]
fn a_daemon_of_the_same_version_is_not_shut_down() {
    match hello_step(
        Response::Error {
            message: "daemon speaks 3".into(),
        },
        3,
    ) {
        HelloStep::Refused { shut_down, .. } => assert_eq!(shut_down, None),
        other => panic!("{other:?}"),
    }
}

#[test]
fn a_spawned_daemon_is_given_up_when_it_exits_or_after_all_attempts() {
    assert!(spawn_step(74, None, "refused", "/log").is_none());
    match spawn_step(75, None, "refused", "/log") {
        Some(IpcError::SpawnedButUnreachable {
            waited_secs,
            last,
            log,
        }) => {
            assert_eq!((waited_secs, last.as_str(), log.as_str()), (15, "refused", "/log"));
        }
        other => panic!("{other:?}"),
    }
    match spawn_step(1, Some("exit status: 1".into()), "refused", "/log") {
        Some(e) => assert!(e.message().contains("exited at startup with exit status: 1")),
        None => panic!("gives up"),
    }
}

#[test]
fn subscriptions_and_old_greetings_want_their_reply() {
    assert!(subscribe_step(Response::Done).is_ok());
    assert_eq!(
        subscribe_step(Response::HelloOk { version: 1 })
            .unwrap_err()
            .message(),
        "protocol error: subscribe failed: HelloOk { version: 1 }"
    );
    assert!(old_hello_step(Response::HelloOk { version: 1 }).is_ok());
    assert!(old_hello_step(Response::Done).is_err());
}

#[test]
fn a_reply_reaches_the_request_that_waits_for_it_once() {
    let mut wire = Wire::new();
    let a = wire.send();
    let b = wire.send();
    assert_eq!((a, b), (1, 2));
    assert!(wire.reply(b));
    assert!(!wire.reply(b));
    wire.give_up(a);
    assert!(!wire.reply(a));
    assert!(!wire.reply(99));
    assert_eq!(wire.send(), 3);
}

#[test]
fn replies_are_told_with_all_that_they_hold() {
    let status = Response::Status {
        drifted: vec![
            DriftSummary {
                target: "/a \"b\"".into(),
                class: "conflict".into(),
                since_ts: Some(7),
            },
            DriftSummary {
                target: "/c".into(),
                class: "drift".into(),
                since_ts: None,
            },
        ],
        in_sync: 3,
        degraded: Some("hint".into()),
        scanning: false,
    };
    for reply in [
        status,
        Response::HelloOk { version: 3 },
        Response::Error { message: "no\n".into() },
        Response::SessionStarted { session: -4 },
        Response::Blobs { hashes: vec!["x".into(), "y".into()] },
        Response::Blobs { hashes: vec![] },
    ] {
        assert_eq!(show_reply(&reply), format!("{reply:?}"));
    }
    assert_eq!(show_reply(&Response::Done), "Ok");
}
