//! Subprocesses: deadlines, captured output and stall detection.
//!
//! Waiting on a child blocks forever if the child is wedged. The engine polls
//! instead, with a deadline that covers both the exit of the child and the
//! end of its pipes, and a watchdog that times out outstanding pipe
//! operations but never an idle worker. The decisions stand here; spawning,
//! polling and killing are done by the caller.

use vstd::prelude::*;
use vstd::slice::{slice_subrange, slice_to_vec};

use crate::json::lossy;
use crate::media::{MediaError, MediaErrorView};
use crate::text::trim_text;

verus! {

// Exits.

/// How a process ended.
#[derive(Debug)]
pub struct Exit {
    pub success: bool,
    /// The status in words.
    pub text: String,
}

pub struct ExitView {
    pub success: bool,
    pub text: Seq<char>,
}

impl View for Exit {
    type V = ExitView;

    open spec fn view(&self) -> ExitView {
        ExitView { success: self.success, text: self.text@ }
    }
}

impl Clone for Exit {
    fn clone(&self) -> (r: Self)
        ensures
            r@ == self@,
    {
        Exit { success: self.success, text: self.text.clone() }
    }
}

/// What a run captured: stdout in full, of stderr the tail.
#[derive(Debug)]
pub struct ProcOutput {
    pub status: Exit,
    pub stdout: Vec<u8>,
    pub stderr: Vec<u8>,
}

// Waiting with a deadline.

/// What asking a child for its status gave.
#[derive(Debug)]
pub enum Waited {
    Running,
    Exited(Exit),
    Failed(String),
}

/// A wait for a child and its pipes.
#[derive(Debug)]
pub struct Capture {
    status: Option<Exit>,
}

/// What to do after a poll.
#[derive(Debug)]
pub enum CaptureStep {
    Sleep,
    Finish(Result<Exit, MediaError>),
}

pub enum CaptureStepView {
    Sleep,
    Finish(Result<ExitView, MediaErrorView>),
}

pub open spec fn exit_view(e: Option<Exit>) -> Option<ExitView> {
    match e {
        Some(x) => Some(x@),
        None => None,
    }
}

impl View for CaptureStep {
    type V = CaptureStepView;

    open spec fn view(&self) -> CaptureStepView {
        match self {
            CaptureStep::Sleep => CaptureStepView::Sleep,
            CaptureStep::Finish(Ok(x)) => CaptureStepView::Finish(Ok(x@)),
            CaptureStep::Finish(Err(e)) => CaptureStepView::Finish(Err(e@)),
        }
    }
}

/// The exit status known after a poll: the first one seen.
pub open spec fn known_exit(status: Option<ExitView>, waited: Waited) -> Option<ExitView> {
    match (status, waited) {
        (Some(s), _) => Some(s),
        (None, Waited::Exited(x)) => Some(x@),
        (None, _) => None,
    }
}

/// What one poll decides. The run is over when the child has exited and both
/// pipes have ended, when its status cannot be had, or when the deadline has
/// passed.
pub open spec fn capture_step(
    status: Option<ExitView>,
    waited: Waited,
    pipes_done: bool,
    expired: bool,
    tool: Seq<char>,
    limit_ms: u64,
) -> CaptureStepView {
    match (status, waited) {
        (None, Waited::Failed(e)) => CaptureStepView::Finish(Err(MediaErrorView::Io(e@))),
        _ => match known_exit(status, waited) {
            Some(s) if pipes_done => CaptureStepView::Finish(Ok(s)),
            _ => if expired {
                CaptureStepView::Finish(Err(MediaErrorView::TimedOut { tool, limit_ms }))
            } else {
                CaptureStepView::Sleep
            },
        },
    }
}

impl Capture {
    pub closed spec fn view(&self) -> Option<ExitView> {
        exit_view(self.status)
    }

    pub fn new() -> (r: Self)
        ensures
            r@ is None,
    {
        Capture { status: None }
    }

    /// Whether the child's status is known; it is not asked for again.
    pub fn exited(&self) -> (r: bool)
        ensures
            r == self@ is Some,
    {
        self.status.is_some()
    }

    /// One poll: what the child answered, whether its pipes have ended, and
    /// whether the deadline has passed. After the deadline a poll always ends
    /// the wait.
    pub fn poll(
        &mut self,
        waited: Waited,
        out_done: bool,
        err_done: bool,
        expired: bool,
        tool: &str,
        limit_ms: u64,
    ) -> (r: CaptureStep)
        ensures
            final(self)@ == known_exit(old(self)@, waited),
            r@ == capture_step(
                old(self)@,
                waited,
                out_done && err_done,
                expired,
                tool@,
                limit_ms,
            ),
            expired ==> r is Finish,
    {
        if self.status.is_none() {
            match waited {
                Waited::Failed(e) => {
                    return CaptureStep::Finish(Err(MediaError::Io(e)));
                },
                Waited::Exited(x) => {
                    self.status = Some(x);
                },
                Waited::Running => {},
            }
        }
        if out_done && err_done {
            match &self.status {
                Some(s) => {
                    return CaptureStep::Finish(Ok(s.clone()));
                },
                None => {},
            }
        }
        if expired {
            return CaptureStep::Finish(
                Err(MediaError::TimedOut { tool: tool.to_owned(), limit_ms }),
            );
        }
        CaptureStep::Sleep
    }
}

/// After the deadline every poll ends the wait, whatever the child and its
/// pipes do.
pub proof fn deadline_ends_the_wait(
    status: Option<ExitView>,
    waited: Waited,
    pipes_done: bool,
    tool: Seq<char>,
    limit_ms: u64,
)
    ensures
        capture_step(status, waited, pipes_done, true, tool, limit_ms) is Finish,
{
}

/// A wait ends well only with the status of a child that exited, once its
/// pipes have ended; a status that was seen is not lost.
pub proof fn success_needs_everything(
    status: Option<ExitView>,
    waited: Waited,
    pipes_done: bool,
    expired: bool,
    tool: Seq<char>,
    limit_ms: u64,
)
    ensures
        capture_step(status, waited, pipes_done, expired, tool, limit_ms) matches
            CaptureStepView::Finish(Ok(x)) ==> pipes_done && known_exit(status, waited) == Some(x),
        status is Some ==> known_exit(status, waited) == status,
{
}

/// A child that has exited and whose pipes have ended is done, even at the
/// deadline; before it, one that has not is waited for, and at it one that has
/// not is said to have timed out.
pub proof fn waits_are_for_the_child(
    status: Option<ExitView>,
    waited: Waited,
    pipes_done: bool,
    expired: bool,
    tool: Seq<char>,
    limit_ms: u64,
)
    ensures
        ({
            let step = capture_step(status, waited, pipes_done, expired, tool, limit_ms);
            let over = status is Some || waited is Exited;
            let lost = status is None && waited is Failed;
            &&& over && pipes_done ==> (step matches CaptureStepView::Finish(Ok(x)) && (status
                is Some ==> x == status->0) && (status is None ==> x == waited->Exited_0@))
            &&& !lost && !(over && pipes_done) && !expired ==> step is Sleep
            &&& !lost && !(over && pipes_done) && expired ==> step == CaptureStepView::Finish(
                Err(MediaErrorView::TimedOut { tool, limit_ms }),
            )
            &&& lost ==> step == CaptureStepView::Finish(
                Err(MediaErrorView::Io(waited->Failed_0@)),
            )
        }),
{
}

/// The outcome of a run whose wait ended with `result`: its failure comes
/// before that of reading stdout.
pub fn capture_result(
    result: Result<Exit, MediaError>,
    stdout: Result<Vec<u8>, String>,
    stderr: Vec<u8>,
) -> (r: Result<ProcOutput, MediaError>)
    ensures
        match (result, stdout) {
            (Err(e), _) => r matches Err(f) && f@ == e@,
            (Ok(_), Err(m)) => r matches Err(f) && f@ == MediaErrorView::Io(m@),
            (Ok(x), Ok(bytes)) => r matches Ok(o) && o.status@ == x@ && o.stdout@ == bytes@
                && o.stderr@ == stderr@,
        },
{
    match result {
        Err(e) => Err(e),
        Ok(status) => match stdout {
            Err(m) => Err(MediaError::Io(m)),
            Ok(bytes) => Ok(ProcOutput { status, stdout: bytes, stderr }),
        },
    }
}

/// A process that has to succeed.
pub open spec fn run_failure(tool: Seq<char>, status: ExitView, stderr: Seq<char>) -> Option<
    MediaErrorView,
> {
    if status.success {
        None
    } else {
        Some(MediaErrorView::Failed { tool, status: status.text, stderr })
    }
}

pub open spec fn error_view(e: Option<MediaError>) -> Option<MediaErrorView> {
    match e {
        Some(x) => Some(x@),
        None => None,
    }
}

/// The error of a captured run that did not succeed, with its stderr.
pub fn tool_failure(tool: &str, output: &ProcOutput) -> (r: Option<MediaError>)
    ensures
        error_view(r) == run_failure(
            tool@,
            output.status@,
            crate::text::trimmed(crate::json::utf8_lossy(output.stderr@)),
        ),
{
    if output.status.success {
        None
    } else {
        Some(
            MediaError::Failed {
                tool: tool.to_owned(),
                status: output.status.text.clone(),
                stderr: tail_text(&output.stderr),
            },
        )
    }
}

/// What a stream yields after its last frame: nothing, if the decoder ended
/// well.
pub fn stream_end(tool: &str, exit: Result<Exit, MediaError>, stderr: String) -> (r: Option<
    MediaError,
>)
    ensures
        error_view(r) == (match exit {
            Ok(x) => run_failure(tool@, x@, stderr@),
            Err(e) => Some(e@),
        }),
{
    match exit {
        Ok(x) => if x.success {
            None
        } else {
            Some(MediaError::Failed { tool: tool.to_owned(), status: x.text, stderr })
        },
        Err(e) => Some(e),
    }
}

// Captured stderr.

/// Bytes kept: diagnostics need the tail, not the flood.
pub const KEEP: usize = 262_144;

/// The last `k` items, or all of them.
pub open spec fn tail_of<T>(s: Seq<T>, k: nat) -> Seq<T> {
    if s.len() > k {
        s.skip(s.len() - k)
    } else {
        s
    }
}

/// Adds a chunk to a buffer that keeps the tail.
pub fn keep_tail(buf: &mut Vec<u8>, chunk: &[u8])
    ensures
        final(buf)@ == tail_of(old(buf)@ + chunk@, KEEP as nat),
{
    let mut i: usize = 0;
    while i < chunk.len()
        invariant
            i <= chunk@.len(),
            buf@ == old(buf)@ + chunk@.take(i as int),
        decreases chunk@.len() - i,
    {
        buf.push(chunk[i]);
        assert(chunk@.take(i + 1) =~= chunk@.take(i as int).push(chunk@[i as int]));
        i = i + 1;
    }
    assert(chunk@.take(chunk@.len() as int) =~= chunk@);
    let n: usize = buf.len();
    if n > KEEP {
        let kept = slice_to_vec(slice_subrange(buf.as_slice(), n - KEEP, n));
        assert(kept@ =~= tail_of(old(buf)@ + chunk@, KEEP as nat));
        *buf = kept;
    }
}

/// However output is cut into chunks, the buffer holds the tail of all of it.
pub proof fn chunks_do_not_matter<T>(a: Seq<T>, b: Seq<T>, k: nat)
    ensures
        tail_of(tail_of(a, k) + b, k) == tail_of(a + b, k),
{
    assert(tail_of(tail_of(a, k) + b, k) =~= tail_of(a + b, k));
}

/// The captured tail as text.
pub fn tail_text(buf: &Vec<u8>) -> (r: String)
    ensures
        r@ == crate::text::trimmed(crate::json::utf8_lossy(buf@)),
{
    let text = lossy(buf.as_slice());
    trim_text(text.as_str())
}

// Stall detection.

/// The state that a worker shares with its watchdog: since when a pipe
/// operation is outstanding, and whether the watch is over. Times count in
/// milliseconds on a clock that does not go back.
#[derive(Debug, Clone, Copy, PartialEq, Eq, Structural)]
pub struct Heartbeat {
    pub active_since: Option<u64>,
    pub stopped: bool,
}

/// Starts inactive: a decoder that awaits demand and an encoder that awaits
/// frames have no outstanding I/O and never age into a timeout.
pub fn heartbeat() -> (r: Heartbeat)
    ensures
        r == (Heartbeat { active_since: None, stopped: false }),
{
    Heartbeat { active_since: None, stopped: false }
}

pub open spec fn beaten(h: Heartbeat, now: u64) -> Heartbeat {
    if h.active_since is Some {
        Heartbeat { active_since: Some(now), ..h }
    } else {
        h
    }
}

/// Progress of an outstanding operation.
pub fn beat(heart: &mut Heartbeat, now: u64)
    ensures
        *final(heart) == beaten(*old(heart), now),
{
    if heart.active_since.is_some() {
        heart.active_since = Some(now);
    }
}

/// An operation under watch.
#[derive(Debug)]
pub struct IoGuard {
    started: u64,
}

impl IoGuard {
    pub closed spec fn view(&self) -> u64 {
        self.started
    }

    /// The operation is over, however it ended.
    pub fn end(self, heart: &mut Heartbeat)
        ensures
            *final(heart) == (Heartbeat { active_since: None, ..*old(heart) }),
    {
        heart.active_since = None;
    }
}

/// Puts an operation under watch.
pub fn watch_io(heart: &mut Heartbeat, now: u64) -> (r: IoGuard)
    ensures
        *final(heart) == (Heartbeat { active_since: Some(now), ..*old(heart) }),
        r@ == now,
{
    heart.active_since = Some(now);
    IoGuard { started: now }
}

/// Ends the watch, before the child is reaped.
pub fn disarm(heart: &mut Heartbeat)
    ensures
        *final(heart) == (Heartbeat { stopped: true, ..*old(heart) }),
{
    heart.stopped = true;
}

/// What the watchdog does next.
#[derive(Debug, Clone, Copy, PartialEq, Eq, Structural)]
pub enum WatchStep {
    Done,
    Kill,
    /// Sleep until woken, at most so long.
    WaitFor(u64),
    /// Sleep until woken.
    Wait,
}

pub open spec fn watched(h: Heartbeat, now: u64, stall: u64) -> WatchStep {
    if h.stopped {
        WatchStep::Done
    } else {
        match h.active_since {
            None => WatchStep::Wait,
            Some(started) => {
                let elapsed: int = if now >= started {
                    now - started
                } else {
                    0
                };
                if elapsed >= stall {
                    WatchStep::Kill
                } else {
                    WatchStep::WaitFor((stall - elapsed) as u64)
                }
            },
        }
    }
}

pub fn watch_step(heart: &Heartbeat, now: u64, stall: u64) -> (r: WatchStep)
    ensures
        r == watched(*heart, now, stall),
{
    if heart.stopped {
        return WatchStep::Done;
    }
    match heart.active_since {
        None => WatchStep::Wait,
        Some(started) => {
            let elapsed: u64 = if now >= started {
                now - started
            } else {
                0
            };
            if elapsed >= stall {
                WatchStep::Kill
            } else {
                WatchStep::WaitFor(stall - elapsed)
            }
        },
    }
}

/// The watchdog kills only while an operation is outstanding that has made no
/// progress for the whole limit: never an idle worker, never one whose last
/// operation has ended, never after the watch is over.
pub proof fn only_stalls_are_killed(h: Heartbeat, now: u64, stall: u64)
    ensures
        watched(h, now, stall) == WatchStep::Kill <==> !h.stopped && (h.active_since matches Some(t)
            && (if now >= t {
            now - t
        } else {
            0
        }) >= stall),
        watched(Heartbeat { active_since: None, ..h }, now, stall) != WatchStep::Kill,
{
}

/// An operation that made progress at `last` is safe for the whole limit.
pub proof fn progress_postpones(h: Heartbeat, last: u64, now: u64, stall: u64)
    requires
        last <= now < last + stall,
    ensures
        watched(beaten(h, last), now, stall) != WatchStep::Kill,
{
}

/// Sleeping as long as the watchdog is told to, it wakes exactly at the limit.
pub proof fn watch_wakes_in_time(h: Heartbeat, now: u64, stall: u64, later: u64)
    requires
        watched(h, now, stall) is WaitFor,
        later == now + watched(h, now, stall)->WaitFor_0,
        h.active_since->0 <= now,
    ensures
        watched(h, later, stall) == WatchStep::Kill,
{
}

} // verus!
