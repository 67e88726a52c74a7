//! Notifications, posted through `osascript`.

use vstd::prelude::*;

use crate::cmd::{
    show_signed, signed_text, CommandRequest, CommandRunner, Duration, Reply, Request,
};
use crate::resolve::{display_name, shown_name};
use crate::text::{decimal, decimal_text, lossy, string_of, trim, trim_text};

verus! {

/// A character as it is written between the quotes of a string literal.
pub open spec fn escaped_char(c: char) -> Seq<char> {
    if c == '\\' || c == '"' {
        seq!['\\', c]
    } else {
        seq![c]
    }
}

/// A text as it is written between the quotes of a string literal.
pub open spec fn escaped(s: Seq<char>) -> Seq<char>
    decreases s.len(),
{
    if s.len() == 0 {
        seq![]
    } else {
        escaped(s.drop_last()) + escaped_char(s.last())
    }
}

/// What stands between the quotes of a string literal, read: a backslash takes the character
/// behind it as it is. A quote that no backslash precedes would end the literal.
pub open spec fn literal(s: Seq<char>) -> Option<Seq<char>>
    decreases s.len(),
{
    if s.len() == 0 {
        Some(seq![])
    } else if s[0] == '"' {
        None
    } else if s[0] == '\\' {
        if s.len() < 2 {
            None
        } else {
            match literal(s.skip(2)) {
                Some(rest) => Some(seq![s[1]] + rest),
                None => None,
            }
        }
    } else {
        match literal(s.skip(1)) {
            Some(rest) => Some(seq![s[0]] + rest),
            None => None,
        }
    }
}

proof fn lemma_literal(s: Seq<char>, rest: Seq<char>)
    requires
        literal(rest) is Some,
    ensures
        literal(escaped(s) + rest) == Some(s + literal(rest)->Some_0),
    decreases s.len(),
{
    if s.len() == 0 {
        assert(escaped(s) + rest =~= rest);
        assert(s + literal(rest)->Some_0 =~= literal(rest)->Some_0);
    } else {
        let c = s.last();
        let more = escaped_char(c) + rest;
        assert(literal(more) == Some(seq![c] + literal(rest)->Some_0)) by {
            if c == '\\' || c == '"' {
                assert(more.skip(2) =~= rest);
            } else {
                assert(more.skip(1) =~= rest);
            }
        }
        lemma_literal(s.drop_last(), more);
        assert(escaped(s) + rest =~= escaped(s.drop_last()) + more);
        assert(s.drop_last() + (seq![c] + literal(rest)->Some_0) =~= s + literal(rest)->Some_0);
    }
}

/// No text can end the literal that it is written in, and it is read back as it was.
pub proof fn law_escaped_texts_stay_in_their_literal(s: Seq<char>)
    ensures
        literal(escaped(s)) == Some(s),
{
    lemma_literal(s, seq![]);
    assert(escaped(s) + Seq::<char>::empty() =~= escaped(s));
    assert(s + Seq::<char>::empty() =~= s);
}

/// Escapes a text for a string literal.
pub fn escape_applescript(text: &str) -> (r: String)
    ensures
        r@ == escaped(text@),
{
    let v = crate::text::chars_of(text);
    let mut out: Vec<char> = Vec::new();
    let mut i: usize = 0;
    assert(v@.take(0) =~= seq![]);
    while i < v.len()
        invariant
            i <= v@.len(),
            out@ == escaped(v@.take(i as int)),
        decreases v@.len() - i,
    {
        let ghost had = out@;
        proof {
            assert(v@.take(i + 1).drop_last() =~= v@.take(i as int));
        }
        if v[i] == '\\' || v[i] == '"' {
            out.push('\\');
        }
        out.push(v[i]);
        assert(out@ =~= had + escaped_char(v@[i as int]));
        i = i + 1;
    }
    assert(v@.take(i as int) =~= text@);
    let s = string_of(out.as_slice(), 0, out.len());
    assert(s@ =~= out@);
    s
}

/// The script that posts a notification.
pub open spec fn script_of(title: Seq<char>, body: Seq<char>) -> Seq<char> {
    "display notification \""@ + escaped(body) + "\" with title \""@ + escaped(title) + "\""@
}

/// The script that posts a notification.
pub fn notification_script(title: &str, body: &str) -> (r: String)
    ensures
        r@ == script_of(title@, body@),
{
    let mut s = "display notification \"".to_owned();
    s.append(escape_applescript(body).as_str());
    s.append("\" with title \"");
    s.append(escape_applescript(title).as_str());
    s.append("\"");
    s
}

/// The command that posts a notification.
pub open spec fn notification(title: Seq<char>, body: Seq<char>) -> Request {
    Request {
        program: "osascript"@,
        args: seq!["-e"@, script_of(title, body)],
        env: seq![],
        cwd: None,
        stdin: None,
        timeout: Duration::seconds(30),
    }
}

/// What there is to say of the answer.
pub open spec fn complaint(reply: Reply) -> Option<Seq<char>> {
    match reply {
        Ok(out) => if out.exit_code == 0 {
            None
        } else {
            Some(
                "osascript exited "@ + signed_text(out.exit_code as int) + ": "@ + trim(
                    lossy(out.stderr),
                ),
            )
        },
        Err(e) => Some("notification failed: "@ + e.message_spec()),
    }
}

/// Posts a notification. A failure is never fatal: what there is to say of it is returned, for
/// the log.
pub fn notify<R: CommandRunner>(runner: &mut R, title: &str, body: &str) -> (r: Option<String>)
    ensures
        final(runner).sent() == old(runner).sent().push(notification(title@, body@)),
        final(runner).replies() == old(runner).replies().push(final(runner).replies().last()),
        final(runner).replies().drop_last() == old(runner).replies(),
        old(runner).answers(
            notification(title@, body@),
            final(runner).replies().last(),
            final(runner),
        ),
        crate::cmd::optional(r) == complaint(final(runner).replies().last()),
{
    let req = CommandRequest::new("osascript").arg("-e").arg(
        notification_script(title, body).as_str(),
    );
    assert(req@.args =~= seq!["-e"@, script_of(title@, body@)]);
    let ghost had = runner.replies();
    let answer = runner.run(req);
    assert(runner.replies().drop_last() =~= had);
    match answer {
        Ok(out) => if out.success() {
            None
        } else {
            let mut s = "osascript exited ".to_owned();
            s.append(show_signed(out.exit_code as i64).as_str());
            s.append(": ");
            s.append(trim_text(out.stderr_utf8().as_str()).as_str());
            Some(s)
        },
        Err(e) => {
            let mut s = "notification failed: ".to_owned();
            s.append(e.message().as_str());
            Some(s)
        },
    }
}

/// What is said of files that drifted.
pub fn drift_body(n: usize) -> (r: String)
    ensures
        r@ == (if n == 1 {
            "1 file drifted"@
        } else {
            decimal(n as nat) + " files drifted"@
        }),
{
    if n == 1 {
        "1 file drifted".to_owned()
    } else {
        let mut s = decimal_text(n as u64);
        s.append(" files drifted");
        s
    }
}

/// What is said of a file that the remote has moved on for.
pub fn remote_advanced_body(target: &str) -> (r: String)
    ensures
        r@ == "origin advanced: "@ + shown_name(target@),
{
    let mut s = "origin advanced: ".to_owned();
    s.append(display_name(target).as_str());
    s
}

} // verus!
