//! The decisions of the link to the daemon.

use std::collections::HashSet;
use vstd::prelude::*;
use vstd::string::*;

use crate::proto::{show_reply, shown_reply, Response};
use crate::text::{behind_first, decimal, decimal_text, digits_in_front, leading_digits};
use crate::text::{is_digit, law_digits_are_read_to_their_end, law_numbers_round_trip};
use crate::text::{law_the_first_is_looked_behind, lemma_decimal_digits, parse_number, parsed};
use crate::text::text_behind;

verus! {

/// How often a daemon that was spawned is tried.
pub const SPAWN_ATTEMPTS: u32 = 75;

#[derive(Debug)]
pub enum IpcError {
    Io(String),
    Proto(String),
    Timeout,
    Rejected(String),
    SpawnedButUnreachable { waited_secs: u64, last: String, log: String },
}

impl IpcError {
    pub open spec fn message_spec(self) -> Seq<char> {
        match self {
            IpcError::Io(s) => s@,
            IpcError::Proto(s) => "protocol error: "@ + s@,
            IpcError::Timeout => "request timed out (connected, but no reply within 10s)"@,
            IpcError::Rejected(s) => "daemon rejected connection: "@ + s@,
            IpcError::SpawnedButUnreachable { waited_secs, last, log } =>
                "spawned chezmoid but could not connect within "@ + decimal(waited_secs as nat)
                + "s; last error: "@ + last@ + ". Daemon stderr (if any) is in "@ + log@,
        }
    }

    /// The error in words.
    pub fn message(&self) -> (r: String)
        ensures
            r@ == self.message_spec(),
    {
        match self {
            IpcError::Io(s) => s.clone(),
            IpcError::Proto(s) => {
                let mut m = "protocol error: ".to_owned();
                m.append(s.as_str());
                m
            },
            IpcError::Timeout =>
                "request timed out (connected, but no reply within 10s)".to_owned(),
            IpcError::Rejected(s) => {
                let mut m = "daemon rejected connection: ".to_owned();
                m.append(s.as_str());
                m
            },
            IpcError::SpawnedButUnreachable { waited_secs, last, log } => {
                let mut m = "spawned chezmoid but could not connect within ".to_owned();
                m.append(decimal_text(*waited_secs).as_str());
                m.append("s; last error: ");
                m.append(last.as_str());
                m.append(". Daemon stderr (if any) is in ");
                m.append(log.as_str());
                m
            },
        }
    }
}

/// The protocol version that a daemon says it speaks.
pub open spec fn daemon_version(message: Seq<char>) -> Option<u32> {
    match behind_first(message, "daemon speaks "@) {
        None => None,
        Some(rest) => match parsed(leading_digits(rest), u32::MAX as nat) {
            Ok(n) => Some(n as u32),
            Err(_) => None,
        },
    }
}

/// The protocol version that a daemon says it speaks, where it turns a client away.
pub fn parse_daemon_version(message: &str) -> (r: Option<u32>)
    ensures
        r == daemon_version(message@),
{
    match text_behind(message, "daemon speaks ") {
        None => None,
        Some(rest) => {
            let digits = digits_in_front(rest.as_str());
            match parse_number(digits.as_str(), u32::MAX as u64) {
                Ok(n) => {
                    proof {
                        crate::text::lemma_parsed_bound(digits@, u32::MAX as nat);
                    }
                    Some(n as u32)
                },
                Err(_) => None,
            }
        },
    }
}

/// What to make of the reply to a greeting.
#[derive(Debug)]
pub enum HelloStep {
    Connected,
    /// Turned away. A daemon of another version owns the socket: it is asked, in its own
    /// version, to shut down, so that a new one can be spawned.
    Refused { error: IpcError, shut_down: Option<u32> },
}

/// The version in which a daemon that turns a client away is asked to shut down.
pub open spec fn version_to_stop(message: Seq<char>, ours: u32) -> Option<u32> {
    match daemon_version(message) {
        Some(v) => if v != ours {
            Some(v)
        } else {
            None
        },
        None => None,
    }
}

/// What to make of the reply to a greeting in version `ours`.
pub fn hello_step(reply: Response, ours: u32) -> (r: HelloStep)
    ensures
        match reply {
            Response::HelloOk { .. } => r is Connected,
            Response::Error { message } => r matches HelloStep::Refused { error, shut_down } && (
            error matches IpcError::Rejected(m) && m == message) && shut_down == version_to_stop(
                message@,
                ours,
            ),
            other => r matches HelloStep::Refused { error, shut_down } && (
            error matches IpcError::Proto(m) && m@ == "unexpected hello reply: "@ + shown_reply(
                other,
            )) && shut_down is None,
        },
{
    match reply {
        Response::HelloOk { .. } => HelloStep::Connected,
        Response::Error { message } => {
            let shut_down = match parse_daemon_version(message.as_str()) {
                Some(v) => if v != ours {
                    Some(v)
                } else {
                    None
                },
                None => None,
            };
            HelloStep::Refused { error: IpcError::Rejected(message), shut_down }
        },
        other => {
            let mut m = "unexpected hello reply: ".to_owned();
            m.append(show_reply(&other).as_str());
            HelloStep::Refused { error: IpcError::Proto(m), shut_down: None }
        },
    }
}

/// After attempt number `attempts` at a daemon that was spawned: give up, or try once more. A
/// daemon that has exited will never answer.
pub fn spawn_step(attempts: u32, exited: Option<String>, last: &str, log: &str) -> (r: Option<
    IpcError,
>)
    ensures
        match exited {
            Some(status) => r matches Some(
                IpcError::SpawnedButUnreachable { waited_secs, last: l, log: g },
            ) && waited_secs == 0 && l@ == "chezmoid exited at startup with "@ + status@ && g@
                == log@,
            None => if attempts >= SPAWN_ATTEMPTS {
                r matches Some(IpcError::SpawnedButUnreachable { waited_secs, last: l, log: g })
                    && waited_secs == 15 && l@ == last@ && g@ == log@
            } else {
                r is None
            },
        },
{
    match exited {
        Some(status) => {
            let mut m = "chezmoid exited at startup with ".to_owned();
            m.append(status.as_str());
            Some(
                IpcError::SpawnedButUnreachable { waited_secs: 0, last: m, log: log.to_owned() },
            )
        },
        None => {
            if attempts >= SPAWN_ATTEMPTS {
                Some(
                    IpcError::SpawnedButUnreachable {
                        waited_secs: 15,
                        last: last.to_owned(),
                        log: log.to_owned(),
                    },
                )
            } else {
                None
            }
        },
    }
}

/// What to make of the reply to a subscription.
pub fn subscribe_step(reply: Response) -> (r: Result<(), IpcError>)
    ensures
        match reply {
            Response::Done => r is Ok,
            other => r matches Err(IpcError::Proto(m)) && m@ == "subscribe failed: "@ + shown_reply(
                other,
            ),
        },
{
    match reply {
        Response::Done => Ok(()),
        other => {
            let mut m = "subscribe failed: ".to_owned();
            m.append(show_reply(&other).as_str());
            Err(IpcError::Proto(m))
        },
    }
}

/// What to make of the reply to a greeting in the version of an old daemon: only one that
/// accepts it can be asked to shut down.
pub fn old_hello_step(reply: Response) -> (r: Result<(), IpcError>)
    ensures
        match reply {
            Response::HelloOk { .. } => r is Ok,
            other => r matches Err(IpcError::Proto(m)) && m@ == "old hello failed: "@ + shown_reply(
                other,
            ),
        },
{
    match reply {
        Response::HelloOk { .. } => Ok(()),
        other => {
            let mut m = "old hello failed: ".to_owned();
            m.append(show_reply(&other).as_str());
            Err(IpcError::Proto(m))
        },
    }
}

// ---------------------------------------------------------------------------
// Requests and their replies

/// The requests that wait for a reply, by their numbers.
#[derive(Debug)]
pub struct Wire {
    pub next_id: u64,
    pub pending: HashSet<u64>,
}

impl Wire {
    /// Only numbers that were given out are waited for.
    pub open spec fn wf(self) -> bool {
        &&& 1 <= self.next_id
        &&& forall|id: u64| self.pending@.contains(id) ==> id < self.next_id
    }

    pub fn new() -> (r: Self)
        ensures
            r.wf(),
            r.next_id == 1,
            r.pending@ == Set::<u64>::empty(),
    {
        Wire { next_id: 1, pending: HashSet::new() }
    }

    /// Gives the number for a request, which no other request has had.
    pub fn send(&mut self) -> (r: u64)
        requires
            old(self).wf(),
            old(self).next_id < u64::MAX,
        ensures
            final(self).wf(),
            r == old(self).next_id,
            !old(self).pending@.contains(r),
            final(self).next_id == r + 1,
            final(self).pending@ == old(self).pending@.insert(r),
    {
        broadcast use vstd::std_specs::hash::group_hash_axioms;

        let id: u64 = self.next_id;
        self.next_id = id + 1;
        self.pending.insert(id);
        id
    }

    /// A reply came. Tells whether a request waits for it; none does after that.
    pub fn reply(&mut self, id: u64) -> (r: bool)
        requires
            old(self).wf(),
        ensures
            final(self).wf(),
            r == old(self).pending@.contains(id),
            final(self).pending@ == old(self).pending@.remove(id),
            final(self).next_id == old(self).next_id,
    {
        broadcast use vstd::std_specs::hash::group_hash_axioms;

        let waits: bool = self.pending.contains(&id);
        self.pending.remove(&id);
        waits
    }

    /// Nobody waits for the reply to a request any more.
    pub fn give_up(&mut self, id: u64)
        requires
            old(self).wf(),
        ensures
            final(self).wf(),
            final(self).pending@ == old(self).pending@.remove(id),
            final(self).next_id == old(self).next_id,
    {
        broadcast use vstd::std_specs::hash::group_hash_axioms;

        self.pending.remove(&id);
    }
}

/// A reply is handed to one request at most: when it comes again, or late, nobody waits for it.
pub proof fn law_replies_are_delivered_once(pending: Set<u64>, id: u64, other: u64)
    ensures
        !pending.remove(id).contains(id),
        other != id ==> pending.remove(id).contains(other) == pending.contains(other),
        pending.insert(id).contains(id),
{
}

/// The version that a daemon names in its refusal is read, whatever stands around it, and it is
/// asked to shut down in that version exactly where that is not ours.
pub proof fn law_the_named_version_is_read(front: Seq<char>, version: u32, rest: Seq<char>)
    requires
        rest.len() == 0 || !is_digit(rest[0]),
        ({
            let mark = "daemon speaks "@;
            let all = front + mark + decimal(version as nat) + rest;
            forall|i: int|
                0 <= i < front.len() ==> #[trigger] all.subrange(i, i + mark.len()) != mark
        }),
    ensures
        ({
            let message = front + "daemon speaks "@ + decimal(version as nat) + rest;
            &&& daemon_version(message) == Some(version)
            &&& forall|ours: u32| #[trigger]
                version_to_stop(message, ours) == if ours == version {
                    None
                } else {
                    Some(version)
                }
        }),
{
    let mark = "daemon speaks "@;
    let digits = decimal(version as nat);
    let all = front + mark + digits + rest;
    let k = front.len() as int;
    assert(all.subrange(k, k + mark.len()) =~= mark);
    law_the_first_is_looked_behind(all, mark, k);
    assert(all.skip(k + mark.len()) =~= digits + rest);
    lemma_decimal_digits(version as nat);
    law_digits_are_read_to_their_end(digits, rest);
    law_numbers_round_trip(version as nat, u32::MAX as nat);
}

} // verus!
