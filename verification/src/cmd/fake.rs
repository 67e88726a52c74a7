//! A runner that replays prepared answers.

use vstd::prelude::*;
use vstd::string::*;

use crate::cmd::{answered, reply_of, CommandError, CommandOutput, CommandRequest, CommandRunner};
use crate::cmd::{Output, Reply, Request};

verus! {

/// Replays queued answers and records every command.
pub struct FakeRunner {
    queue: Vec<Result<CommandOutput, CommandError>>,
    calls: Vec<CommandRequest>,
    answered: Ghost<Seq<Reply>>,
}

pub open spec fn requests(v: Seq<CommandRequest>) -> Seq<Request> {
    v.map_values(|r: CommandRequest| r@)
}

pub open spec fn replies_of(v: Seq<Result<CommandOutput, CommandError>>) -> Seq<Reply> {
    v.map_values(|r: Result<CommandOutput, CommandError>| reply_of(r))
}

impl FakeRunner {
    /// The answers that are left.
    pub closed spec fn queued(&self) -> Seq<Reply> {
        replies_of(self.queue@)
    }

    pub fn new() -> (r: Self)
        ensures
            r.queued() == Seq::<Reply>::empty(),
            r.sent() == Seq::<Request>::empty(),
            r.replies() == Seq::<Reply>::empty(),
    {
        let r = FakeRunner { queue: Vec::new(), calls: Vec::new(), answered: Ghost(Seq::empty()) };
        assert(r.queued() =~= seq![]);
        assert(r.sent() =~= seq![]);
        r
    }

    /// Queues an answer, given as text.
    pub fn push_ok(&mut self, exit_code: i32, stdout: &str, stderr: &str)
        ensures
            final(self).queued() == old(self).queued().push(
                Ok(
                    Output {
                        exit_code,
                        stdout: stdout.spec_bytes(),
                        stderr: stderr.spec_bytes(),
                    },
                ),
            ),
            final(self).sent() == old(self).sent(),
            final(self).replies() == old(self).replies(),
    {
        self.push_ok_bytes(exit_code, stdout.as_bytes(), stderr.as_bytes());
    }

    /// Queues an answer, given as bytes.
    pub fn push_ok_bytes(&mut self, exit_code: i32, stdout: &[u8], stderr: &[u8])
        ensures
            final(self).queued() == old(self).queued().push(
                Ok(Output { exit_code, stdout: stdout@, stderr: stderr@ }),
            ),
            final(self).sent() == old(self).sent(),
            final(self).replies() == old(self).replies(),
    {
        let ghost had = self.queued();
        let out = CommandOutput {
            exit_code,
            stdout: vstd::slice::slice_to_vec(stdout),
            stderr: vstd::slice::slice_to_vec(stderr),
        };
        self.queue.push(Ok(out));
        assert(self.queued() =~= had.push(Ok(Output { exit_code, stdout: stdout@, stderr: stderr@ })));
    }

    /// Queues a failure.
    pub fn push_err(&mut self, err: CommandError)
        ensures
            final(self).queued() == old(self).queued().push(Err(err)),
            final(self).sent() == old(self).sent(),
            final(self).replies() == old(self).replies(),
    {
        let ghost had = self.queued();
        self.queue.push(Err(err));
        assert(self.queued() =~= had.push(Err(err)));
    }

    /// The commands so far.
    pub fn calls(&self) -> (r: &Vec<CommandRequest>)
        ensures
            requests(r@) == self.sent(),
    {
        &self.calls
    }
}

/// A runner with enough queued answers gives them in their order, and keeps the rest.
pub proof fn law_queued_answers_come_in_order(
    before: FakeRunner,
    reqs: Seq<Request>,
    replies: Seq<Reply>,
    after: FakeRunner,
)
    requires
        answered(before, reqs, replies, after),
        reqs.len() <= before.queued().len(),
    ensures
        replies == before.queued().take(reqs.len() as int),
        after.queued() == before.queued().skip(reqs.len() as int),
    decreases reqs.len(),
{
    let n = reqs.len() as int;
    let queued = before.queued();
    if n == 0 {
        assert(replies =~= queued.take(0));
        assert(queued.skip(0) =~= queued);
    } else {
        let mid = choose|mid: FakeRunner| #[trigger]
            mid.answers(reqs.last(), replies.last(), &after) && answered(
                before,
                reqs.drop_last(),
                replies.drop_last(),
                mid,
            );
        law_queued_answers_come_in_order(before, reqs.drop_last(), replies.drop_last(), mid);
        assert(mid.queued()[0] == queued[n - 1]);
        assert(replies =~= replies.drop_last().push(replies.last()));
        assert(replies =~= queued.take(n));
        assert(queued.skip(n - 1).drop_first() =~= queued.skip(n));
    }
}

impl CommandRunner for FakeRunner {
    closed spec fn sent(&self) -> Seq<Request> {
        requests(self.calls@)
    }

    closed spec fn replies(&self) -> Seq<Reply> {
        self.answered@
    }

    /// The next queued answer. A command that nothing was prepared for fails.
    open spec fn answers(&self, req: Request, reply: Reply, after: &Self) -> bool {
        if self.queued().len() > 0 {
            reply == self.queued()[0] && after.queued() == self.queued().drop_first()
        } else {
            reply is Err && after.queued() == self.queued()
        }
    }

    fn run(&mut self, req: CommandRequest) -> (r: Result<CommandOutput, CommandError>) {
        let ghost queued = self.queued();
        let ghost sent = self.sent();
        assert(queued.len() == self.queue@.len());
        let program = req.program.clone();
        let ghost asked = req@;
        self.calls.push(req);
        assert(self.sent() =~= sent.push(asked));
        let r = if self.queue.len() > 0 {
            let first = self.queue.remove(0);
            assert(self.queued() =~= queued.drop_first());
            first
        } else {
            Err(
                CommandError::Io { program, source: "FakeRunner: unexpected command".to_owned() },
            )
        };
        self.answered = Ghost(self.answered@.push(reply_of(r)));
        r
    }
}

} // verus!
