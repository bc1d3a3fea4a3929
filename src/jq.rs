//! Background query jobs: how an external process's ending becomes a
//! result, and the single job slot that the interactive loop polls.

use vstd::prelude::*;
use vstd::string::*;
use std::sync::mpsc::Receiver;

verus! {

/// The outcome of one query job.
#[derive(Debug, PartialEq, Eq)]
pub enum JqOutput {
    /// The tool ran successfully; its standard output is the new content.
    Success { json_content: String },
    /// The tool or the job failed; shown in the error panel.
    Failure { title: String, failure: String },
}

/// How the external process ended.
#[derive(Debug, Copy, Clone, PartialEq, Eq, Structural)]
pub enum ExitOutcome {
    /// It exited with this code.
    Exited(u32),
    /// A signal with this number ended it.
    Signaled(u8),
    /// Some other platform-specific status.
    Other(i32),
    /// It ended, but its status is unknown.
    Undetermined,
}

/// What a poll of a job's channel found.
pub enum Received {
    /// The job's result.
    Ready(JqOutput),
    /// No result yet.
    Pending,
    /// The worker went away without sending anything.
    Disconnected,
}

pub open spec fn digit_char(d: nat) -> char {
    if d == 0 { '0' } else if d == 1 { '1' } else if d == 2 { '2' } else if d == 3 { '3' }
    else if d == 4 { '4' } else if d == 5 { '5' } else if d == 6 { '6' } else if d == 7 { '7' }
    else if d == 8 { '8' } else { '9' }
}

/// The decimal digits of `n`, most significant first, without leading zeros.
pub open spec fn decimal(n: nat) -> Seq<char>
    decreases n,
{
    if n < 10 {
        seq![digit_char(n)]
    } else {
        decimal(n / 10).push(digit_char(n % 10))
    }
}

/// The decimal form of a signed integer, with a leading `-` when negative.
pub open spec fn signed_decimal(x: int) -> Seq<char> {
    if x < 0 {
        seq!['-'] + decimal((-x) as nat)
    } else {
        decimal(x as nat)
    }
}

fn digit_str(d: u32) -> (s: &'static str)
    requires
        d < 10,
    ensures
        s@ == seq![digit_char(d as nat)],
{
    proof {
        reveal_strlit("0");
        reveal_strlit("1");
        reveal_strlit("2");
        reveal_strlit("3");
        reveal_strlit("4");
        reveal_strlit("5");
        reveal_strlit("6");
        reveal_strlit("7");
        reveal_strlit("8");
        reveal_strlit("9");
    }
    let s = match d {
        0 => "0",
        1 => "1",
        2 => "2",
        3 => "3",
        4 => "4",
        5 => "5",
        6 => "6",
        7 => "7",
        8 => "8",
        _ => "9",
    };
    assert(s@ =~= seq![digit_char(d as nat)]);
    s
}

/// Formats `n` in decimal.
pub fn decimal_string(n: u32) -> (r: String)
    ensures
        r@ == decimal(n as nat),
    decreases n,
{
    if n < 10 {
        digit_str(n).to_owned()
    } else {
        let head = decimal_string(n / 10);
        let r = head.concat(digit_str(n % 10));
        assert(r@ =~= decimal(n as nat));
        r
    }
}

/// Formats `x` in decimal, with a leading `-` when negative.
pub fn signed_decimal_string(x: i32) -> (r: String)
    ensures
        r@ == signed_decimal(x as int),
{
    if x < 0 {
        let m: u32 = (-(x as i64)) as u32;
        let r = "-".to_owned().concat(decimal_string(m).as_str());
        proof {
            reveal_strlit("-");
        }
        assert(r@ =~= signed_decimal(x as int));
        r
    } else {
        decimal_string(x as u32)
    }
}

pub open spec fn missing_stdout() -> Seq<char> {
    "<missing stdout>"@
}

pub open spec fn missing_stderr() -> Seq<char> {
    "<missing stderr>"@
}

pub open spec fn empty_stderr() -> Seq<char> {
    "<no error output>"@
}

/// The message of a failure whose error output was `stderr`.
pub open spec fn failure_message(stderr: Option<Seq<char>>) -> Seq<char> {
    match stderr {
        None => missing_stderr(),
        Some(e) => if e.len() == 0 { empty_stderr() } else { e },
    }
}

/// What `interpret_exit` answers, as (is success, title or content, message).
pub open spec fn exit_result(
    status: ExitOutcome,
    stdout: Option<Seq<char>>,
    stderr: Option<Seq<char>>,
) -> (bool, Seq<char>, Seq<char>) {
    match status {
        ExitOutcome::Exited(rc) => if rc == 0 {
            (true, match stdout { None => missing_stdout(), Some(o) => o }, seq![])
        } else {
            (false, "jq subprocess exited with exit code "@ + decimal(rc as nat), failure_message(stderr))
        },
        ExitOutcome::Signaled(x) => (
            false,
            "jq subprocess was ended by signal "@ + decimal(x as nat),
            failure_message(stderr),
        ),
        ExitOutcome::Other(x) => (
            false,
            "fault"@,
            "This should not occur. The jq subprocess exited (other - "@ + signed_decimal(x as int)
                + ")"@,
        ),
        ExitOutcome::Undetermined => (false, "fault"@, "undetermined exit status of jq subprocess"@),
    }
}

pub open spec fn opt_view(s: Option<String>) -> Option<Seq<char>> {
    match s {
        None => None,
        Some(x) => Some(x@),
    }
}

impl JqOutput {
    /// (is success, content or title, message) of this output.
    pub open spec fn parts(self) -> (bool, Seq<char>, Seq<char>) {
        match self {
            JqOutput::Success { json_content } => (true, json_content@, seq![]),
            JqOutput::Failure { title, failure } => (false, title@, failure@),
        }
    }
}

/// The message of a failure: the error output, or a stand-in when there
/// is none.
fn error_message(stderr: Option<String>) -> (r: String)
    ensures
        r@ == failure_message(opt_view(stderr)),
{
    proof {
        reveal_strlit("<missing stderr>");
        reveal_strlit("<no error output>");
    }
    match stderr {
        None => "<missing stderr>".to_owned(),
        Some(e) => if e.as_str().is_empty() {
            "<no error output>".to_owned()
        } else {
            e
        },
    }
}

/// Turns the way the external process ended, with what it wrote, into a
/// job result: exit code 0 is success with standard output as content;
/// anything else is a failure.
pub fn interpret_exit(status: ExitOutcome, stdout: Option<String>, stderr: Option<String>) -> (r:
    JqOutput)
    ensures
        r.parts() == exit_result(status, opt_view(stdout), opt_view(stderr)),
{
    proof {
        reveal_strlit("<missing stdout>");
        reveal_strlit("<missing stderr>");
        reveal_strlit("<no error output>");
        reveal_strlit("jq subprocess exited with exit code ");
        reveal_strlit("fault");
        reveal_strlit("jq subprocess was ended by signal ");
        reveal_strlit("This should not occur. The jq subprocess exited (other - ");
        reveal_strlit(")");
        reveal_strlit("undetermined exit status of jq subprocess");
    }
    match status {
        ExitOutcome::Exited(rc) => {
            if rc == 0 {
                let json_content = match stdout {
                    Some(o) => o,
                    None => "<missing stdout>".to_owned(),
                };
                JqOutput::Success { json_content }
            } else {
                let title = "jq subprocess exited with exit code ".to_owned().concat(
                    decimal_string(rc).as_str(),
                );
                JqOutput::Failure { title, failure: error_message(stderr) }
            }
        },
        ExitOutcome::Signaled(x) => JqOutput::Failure {
            title: "jq subprocess was ended by signal ".to_owned().concat(
                decimal_string(x as u32).as_str(),
            ),
            failure: error_message(stderr),
        },
        ExitOutcome::Other(x) => JqOutput::Failure {
            title: "fault".to_owned(),
            failure: "This should not occur. The jq subprocess exited (other - ".to_owned().concat(
                signed_decimal_string(x).as_str(),
            ).concat(")"),
        },
        ExitOutcome::Undetermined => JqOutput::Failure {
            title: "fault".to_owned(),
            failure: "undetermined exit status of jq subprocess".to_owned(),
        },
    }
}

/// The result that a worker reports when the job itself broke down (the
/// process could not be started or talked to); `detail` describes why.
pub fn fault_output(detail: String) -> (r: JqOutput)
    ensures
        r.parts() == (false, "fault"@, "jq worker exitted with error: "@ + detail@),
{
    proof {
        reveal_strlit("fault");
        reveal_strlit("jq worker exitted with error: ");
    }
    JqOutput::Failure {
        title: "fault".to_owned(),
        failure: "jq worker exitted with error: ".to_owned().concat(detail.as_str()),
    }
}

/// What a poll of a job's channel means for the caller: the result when
/// one arrived, nothing while pending, and a synthetic failure when the
/// worker disconnected without a result.
pub fn settle(received: Received) -> (r: Option<JqOutput>)
    ensures
        match received {
            Received::Ready(out) => r == Some(out),
            Received::Pending => r is None,
            Received::Disconnected => r is Some && r->0.parts() == (
                false,
                "fault"@,
                "channel to jq worker thread disconnected"@,
            ),
        },
{
    proof {
        reveal_strlit("fault");
        reveal_strlit("channel to jq worker thread disconnected");
    }
    match received {
        Received::Ready(out) => Some(out),
        Received::Pending => None,
        Received::Disconnected => Some(
            JqOutput::Failure {
                title: "fault".to_owned(),
                failure: "channel to jq worker thread disconnected".to_owned(),
            },
        ),
    }
}

#[verifier::external_type_specification]
#[verifier::external_body]
#[verifier::reject_recursive_types(T)]
pub struct ExReceiver<T>(Receiver<T>);

/// Relies on std's `Receiver::try_recv`: a sent value that was not yet
/// received, else whether the sending side is still connected. What comes
/// back depends on timing, so nothing is promised of it.
#[verifier::external_body]
fn try_receive(rx: &Receiver<JqOutput>) -> (r: Received) {
    match rx.try_recv() {
        Ok(out) => Received::Ready(out),
        Err(std::sync::mpsc::TryRecvError::Empty) => Received::Pending,
        Err(std::sync::mpsc::TryRecvError::Disconnected) => Received::Disconnected,
    }
}

/// One submitted job: the receiving end of its one-shot result channel.
pub struct JqJob {
    pub rx: Receiver<JqOutput>,
}

impl JqJob {
    /// A job whose worker will send its single result on `rx`'s channel.
    pub fn from_receiver(rx: Receiver<JqOutput>) -> (r: JqJob)
        ensures
            r.rx == rx,
    {
        JqJob { rx }
    }

    /// The job's result if it is ready, without blocking.
    pub fn output(&self) -> (r: Option<JqOutput>) {
        settle(try_receive(&self.rx))
    }
}

/// Owns at most one tracked job; only that job's result is ever handed out.
pub struct JqClient {
    pub maybe_job: Option<JqJob>,
}

impl JqClient {
    pub fn new() -> (r: Self)
        ensures
            r.maybe_job is None,
    {
        Self { maybe_job: None }
    }

    /// Tracks `job`, abandoning any job tracked before: its result, when it
    /// comes, is never read.
    pub fn submit_query(&mut self, job: JqJob)
        ensures
            final(self).maybe_job == Some(job),
    {
        self.maybe_job = Some(job);
    }

    /// The tracked job's result, if it has completed; the job is then
    /// forgotten, so each result is handed out at most once.
    pub fn try_recv_output(&mut self) -> (r: Option<JqOutput>)
        ensures
            old(self).maybe_job is None ==> r is None,
            r is None ==> final(self).maybe_job == old(self).maybe_job,
            r is Some ==> final(self).maybe_job is None,
    {
        let output = match &self.maybe_job {
            None => return None,
            Some(job) => job.output(),
        };
        match output {
            None => None,
            Some(out) => {
                self.maybe_job = None;
                Some(out)
            },
        }
    }
}

} // verus!
