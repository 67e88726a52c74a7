//! What the app and the daemon tell each other.

use vstd::prelude::*;
use vstd::string::*;

use crate::cmd::{optional, quoted, show_quoted, show_signed, signed_text};
use crate::json::Json;
use crate::text::{decimal, decimal_text, join_from, join_texts, strings};

verus! {

/// A target that has drifted.
#[derive(Debug)]
pub struct DriftSummary {
    pub target: String,
    pub class: String,
    pub since_ts: Option<u64>,
}

/// A target that has drifted, as the model has it.
#[verifier::ext_equal]
pub struct Drift {
    pub target: Seq<char>,
    pub class: Seq<char>,
    pub since_ts: Option<u64>,
}

impl View for DriftSummary {
    type V = Drift;

    open spec fn view(&self) -> Drift {
        Drift { target: self.target@, class: self.class@, since_ts: self.since_ts }
    }
}

impl Clone for DriftSummary {
    fn clone(&self) -> (r: Self)
        ensures
            r@ == self@,
    {
        DriftSummary {
            target: self.target.clone(),
            class: self.class.clone(),
            since_ts: self.since_ts,
        }
    }
}

pub open spec fn drifts(v: Seq<DriftSummary>) -> Seq<Drift> {
    v.map_values(|d: DriftSummary| d@)
}

/// What the daemon pushes.
#[allow(inconsistent_fields)]
#[derive(Debug)]
pub enum Event {
    Drift { target: String, class: String, ts: u64 },
    EvalFailed { target: Option<String>, hint: String, ts: u64 },
    LeftManagement { target: String, ts: u64 },
    FetchDone { ts: u64, behind: u32 },
    ScanDone { ts: u64, drifted: u64 },
    RemoteAdvanced { target: String, ts: u64 },
}

/// A row of the journal.
#[derive(Debug)]
pub struct EventRow {
    pub id: i64,
    pub target: Option<String>,
    pub ts: u64,
    pub machine: String,
    pub kind: String,
    pub from_hash: Option<String>,
    pub to_hash: Option<String>,
    pub meta: Option<Json>,
}

/// What the app asks of the daemon.
#[derive(Debug)]
pub enum Request {
    Hello { version: u32 },
    Status,
    Subscribe,
    Rescan,
    Shutdown,
    SessionStart { ts: u64 },
    SnapshotBlobs { paths: Vec<String> },
    SessionDecision { session: i64, decision: Json },
    SessionEnd { session: i64, ts: u64, summary: String },
    ExpectChanges { paths: Vec<String>, ttl_secs: u32 },
}

/// What the daemon answers.
#[derive(Debug)]
pub enum Response {
    Done,
    HelloOk { version: u32 },
    Error { message: String },
    Status {
        drifted: Vec<DriftSummary>,
        in_sync: u64,
        degraded: Option<String>,
        scanning: bool,
    },
    SessionStarted { session: i64 },
    Blobs { hashes: Vec<String> },
}

// ---------------------------------------------------------------------------
// Replies in words

/// An optional number, as a programmer reads it.
pub open spec fn shown_number(n: Option<u64>) -> Seq<char> {
    match n {
        Some(n) => "Some("@ + decimal(n as nat) + ")"@,
        None => "None"@,
    }
}

/// An optional text, as a programmer reads it.
pub open spec fn shown_text(s: Option<Seq<char>>) -> Seq<char> {
    match s {
        Some(s) => "Some("@ + quoted(s) + ")"@,
        None => "None"@,
    }
}

/// A target that has drifted, as a programmer reads it.
pub open spec fn shown_drift(d: Drift) -> Seq<char> {
    "DriftSummary { target: "@ + quoted(d.target) + ", class: "@ + quoted(d.class)
        + ", since_ts: "@ + shown_number(d.since_ts) + " }"@
}

/// Some items in brackets.
pub open spec fn shown_list(items: Seq<Seq<char>>) -> Seq<char> {
    "["@ + join_texts(items, ", "@) + "]"@
}

/// A reply with all that it holds, as a programmer reads it.
pub open spec fn shown_reply(r: Response) -> Seq<char> {
    match r {
        Response::Done => "Ok"@,
        Response::HelloOk { version } => "HelloOk { version: "@ + decimal(version as nat) + " }"@,
        Response::Error { message } => "Error { message: "@ + quoted(message@) + " }"@,
        Response::Status { drifted, in_sync, degraded, scanning } => "Status { drifted: "@
            + shown_list(drifts(drifted@).map_values(|d: Drift| shown_drift(d))) + ", in_sync: "@
            + decimal(in_sync as nat) + ", degraded: "@ + shown_text(optional(degraded))
            + ", scanning: "@ + (if scanning {
            "true"@
        } else {
            "false"@
        }) + " }"@,
        Response::SessionStarted { session } => "SessionStarted { session: "@ + signed_text(
            session as int,
        ) + " }"@,
        Response::Blobs { hashes } => "Blobs { hashes: "@ + shown_list(
            strings(hashes@).map_values(|h: Seq<char>| quoted(h)),
        ) + " }"@,
    }
}

fn show_drift(d: &DriftSummary) -> (r: String)
    ensures
        r@ == shown_drift(d@),
{
    let mut s = "DriftSummary { target: ".to_owned();
    s.append(show_quoted(d.target.as_str()).as_str());
    s.append(", class: ");
    s.append(show_quoted(d.class.as_str()).as_str());
    s.append(", since_ts: ");
    match d.since_ts {
        Some(n) => {
            let mut some = "Some(".to_owned();
            some.append(decimal_text(n).as_str());
            some.append(")");
            s.append(some.as_str());
        },
        None => {
            s.append("None");
        },
    }
    s.append(" }");
    s
}

fn show_list(items: &Vec<String>) -> (r: String)
    ensures
        r@ == shown_list(strings(items@)),
{
    let mut s = "[".to_owned();
    s.append(join_from(items, 0, ", ").as_str());
    s.append("]");
    assert(strings(items@).skip(0) =~= strings(items@));
    s
}

fn show_drifts(v: &Vec<DriftSummary>) -> (r: String)
    ensures
        r@ == shown_list(drifts(v@).map_values(|d: Drift| shown_drift(d))),
{
    let mut items: Vec<String> = Vec::new();
    let mut i: usize = 0;
    while i < v.len()
        invariant
            i <= v@.len(),
            items@.len() == i,
            forall|k: int| 0 <= k < i ==> (#[trigger] items@[k])@ == shown_drift(v@[k]@),
        decreases v@.len() - i,
    {
        items.push(show_drift(&v[i]));
        i = i + 1;
    }
    assert(strings(items@) =~= drifts(v@).map_values(|d: Drift| shown_drift(d)));
    show_list(&items)
}

fn show_hashes(v: &Vec<String>) -> (r: String)
    ensures
        r@ == shown_list(strings(v@).map_values(|h: Seq<char>| quoted(h))),
{
    let mut items: Vec<String> = Vec::new();
    let mut i: usize = 0;
    while i < v.len()
        invariant
            i <= v@.len(),
            items@.len() == i,
            forall|k: int| 0 <= k < i ==> (#[trigger] items@[k])@ == quoted(v@[k]@),
        decreases v@.len() - i,
    {
        items.push(show_quoted(v[i].as_str()));
        i = i + 1;
    }
    assert(strings(items@) =~= strings(v@).map_values(|h: Seq<char>| quoted(h)));
    show_list(&items)
}

/// A reply with all that it holds, as a programmer reads it.
pub fn show_reply(r: &Response) -> (s: String)
    ensures
        s@ == shown_reply(*r),
{
    match r {
        Response::Done => "Ok".to_owned(),
        Response::HelloOk { version } => {
            let mut s = "HelloOk { version: ".to_owned();
            s.append(decimal_text(*version as u64).as_str());
            s.append(" }");
            s
        },
        Response::Error { message } => {
            let mut s = "Error { message: ".to_owned();
            s.append(show_quoted(message.as_str()).as_str());
            s.append(" }");
            s
        },
        Response::Status { drifted, in_sync, degraded, scanning } => {
            let mut s = "Status { drifted: ".to_owned();
            s.append(show_drifts(drifted).as_str());
            s.append(", in_sync: ");
            s.append(decimal_text(*in_sync).as_str());
            s.append(", degraded: ");
            match degraded {
                Some(hint) => {
                    let mut some = "Some(".to_owned();
                    some.append(show_quoted(hint.as_str()).as_str());
                    some.append(")");
                    s.append(some.as_str());
                },
                None => {
                    s.append("None");
                },
            }
            s.append(", scanning: ");
            s.append(
                if *scanning {
                    "true"
                } else {
                    "false"
                },
            );
            s.append(" }");
            s
        },
        Response::SessionStarted { session } => {
            let mut s = "SessionStarted { session: ".to_owned();
            s.append(show_signed(*session).as_str());
            s.append(" }");
            s
        },
        Response::Blobs { hashes } => {
            let mut s = "Blobs { hashes: ".to_owned();
            s.append(show_hashes(hashes).as_str());
            s.append(" }");
            s
        },
    }
}

/// A copy of an optional text.
pub fn copy_text(s: &Option<String>) -> (r: Option<String>)
    ensures
        optional(r) == optional(*s),
{
    match s {
        Some(t) => Some(t.clone()),
        None => None,
    }
}

} // verus!
