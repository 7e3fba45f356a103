//! The life of a scan: idle, running, asked to stop, finished.
//!
//! A worker is attached from the moment a scan starts until the controlling
//! side has joined it. The worker itself reports its exit, so that a scan is
//! known to be over as soon as the worker is, whether or not anybody asked it
//! to stop. Nothing here waits: where the controlling side has to wait for
//! the worker, it is told so, and asks again when the worker has gone.
//!
//! Times are readings of a clock that never goes back, in nanoseconds.

use vstd::prelude::*;

verus! {

/// Where a scan stands.
#[derive(Clone, Copy, Debug, PartialEq, Eq, Structural)]
pub enum ScanState {
    /// No scan was started, or the last one was cleared.
    Idle,
    /// The worker is at work.
    Running,
    /// The worker is at work and has been asked to stop.
    Stopping,
    /// The worker has gone.
    Finished,
}

/// Why a call on the life of a scan was refused.
#[derive(Clone, Copy, Debug, PartialEq, Eq, Structural)]
pub enum LifecycleError {
    /// A worker is attached already, or still at work.
    AlreadyRunning,
    /// No worker is attached.
    NotRunning,
}

/// What the controlling side has to do after asking for the end of a scan.
#[derive(Clone, Copy, Debug, PartialEq, Eq, Structural)]
pub enum Progress {
    /// The worker is still at work: wait for it, then ask again.
    Wait,
    /// The worker has gone and is joined.
    Done,
}

/// The mathematical value of a [`Lifecycle`].
pub struct LifecycleModel {
    pub state: ScanState,
    /// Whether a worker was started and is not joined yet.
    pub attached: bool,
    /// When the scan started.
    pub started_at: u64,
    /// How long the scan took, once it is finished.
    pub duration: u64,
}

/// `later - earlier`, and zero where the clock reading is not later.
pub open spec fn elapsed(earlier: u64, later: u64) -> u64 {
    if later >= earlier {
        (later - earlier) as u64
    } else {
        0
    }
}

impl LifecycleModel {
    /// A worker is at work.
    pub open spec fn busy(self) -> bool {
        self.state is Running || self.state is Stopping
    }

    /// A worker at work is attached, and an idle scan has none.
    pub open spec fn wf(self) -> bool {
        (self.busy() ==> self.attached) && (self.state is Idle ==> !self.attached)
    }

    /// The life before any scan.
    pub open spec fn idle() -> LifecycleModel {
        LifecycleModel { state: ScanState::Idle, attached: false, started_at: 0, duration: 0 }
    }

    /// What `start` returns.
    pub open spec fn start_result(self) -> Result<(), LifecycleError> {
        if self.attached {
            Err(LifecycleError::AlreadyRunning)
        } else {
            Ok(())
        }
    }

    /// The life after `start` at the time `now`.
    pub open spec fn started(self, now: u64) -> LifecycleModel {
        if self.attached {
            self
        } else {
            LifecycleModel {
                state: ScanState::Running,
                attached: true,
                started_at: now,
                duration: 0,
            }
        }
    }

    /// What `stop` and `join` return.
    pub open spec fn end_result(self) -> Result<Progress, LifecycleError> {
        if !self.attached {
            Err(LifecycleError::NotRunning)
        } else if self.busy() {
            Ok(Progress::Wait)
        } else {
            Ok(Progress::Done)
        }
    }

    /// The life after `stop`.
    pub open spec fn stopped(self) -> LifecycleModel {
        if !self.attached {
            self
        } else if self.busy() {
            LifecycleModel { state: ScanState::Stopping, ..self }
        } else {
            LifecycleModel { attached: false, ..self }
        }
    }

    /// The life after `join`.
    pub open spec fn joined(self) -> LifecycleModel {
        if self.attached && !self.busy() {
            LifecycleModel { attached: false, ..self }
        } else {
            self
        }
    }

    /// The life after the worker has reported its exit at the time `now`.
    pub open spec fn exited(self, now: u64) -> LifecycleModel {
        if self.busy() {
            LifecycleModel {
                state: ScanState::Finished,
                duration: elapsed(self.started_at, now),
                ..self
            }
        } else {
            self
        }
    }

    /// What `clear` returns.
    pub open spec fn clear_result(self) -> Result<(), LifecycleError> {
        if self.busy() {
            Err(LifecycleError::AlreadyRunning)
        } else {
            Ok(())
        }
    }

    /// The life after `clear`.
    pub open spec fn cleared(self) -> LifecycleModel {
        if self.busy() {
            self
        } else {
            LifecycleModel { state: ScanState::Idle, attached: false, duration: 0, ..self }
        }
    }

    /// How long the scan has taken at the time `now`: still growing while a
    /// worker is at work, fixed after.
    pub open spec fn duration_at(self, now: u64) -> u64 {
        if self.busy() {
            elapsed(self.started_at, now)
        } else {
            self.duration
        }
    }
}

/// The life of one scan.
#[derive(Clone, Copy, Debug)]
pub struct Lifecycle {
    state: ScanState,
    attached: bool,
    started_at: u64,
    duration: u64,
}

impl View for Lifecycle {
    type V = LifecycleModel;

    closed spec fn view(&self) -> LifecycleModel {
        LifecycleModel {
            state: self.state,
            attached: self.attached,
            started_at: self.started_at,
            duration: self.duration,
        }
    }
}

fn since(earlier: u64, later: u64) -> (r: u64)
    ensures
        r == elapsed(earlier, later),
{
    if later >= earlier {
        later - earlier
    } else {
        0
    }
}

impl Lifecycle {
    /// The life before any scan.
    pub fn new() -> (r: Lifecycle)
        ensures
            r@ == LifecycleModel::idle(),
    {
        Lifecycle { state: ScanState::Idle, attached: false, started_at: 0, duration: 0 }
    }

    /// Whether a worker is at work.
    pub fn busy(&self) -> (r: bool)
        ensures
            r == self@.busy(),
    {
        match self.state {
            ScanState::Running => true,
            ScanState::Stopping => true,
            _ => false,
        }
    }

    /// Whether the worker has gone.
    pub fn finished(&self) -> (r: bool)
        ensures
            r == (self@.state is Finished),
    {
        match self.state {
            ScanState::Finished => true,
            _ => false,
        }
    }

    /// Whether the worker has been asked to stop and has not gone yet.
    pub fn cancelled(&self) -> (r: bool)
        ensures
            r == (self@.state is Stopping),
    {
        match self.state {
            ScanState::Stopping => true,
            _ => false,
        }
    }

    /// Whether a worker was started and is not joined yet.
    pub fn attached(&self) -> (r: bool)
        ensures
            r == self@.attached,
    {
        self.attached
    }

    /// Where the scan stands.
    pub fn state(&self) -> (r: ScanState)
        ensures
            r == self@.state,
    {
        self.state
    }

    /// Starts a scan at the time `now`. Refused exactly when a worker is
    /// attached.
    pub fn start(&mut self, now: u64) -> (r: Result<(), LifecycleError>)
        ensures
            r == old(self)@.start_result(),
            final(self)@ == old(self)@.started(now),
    {
        if self.attached {
            Err(LifecycleError::AlreadyRunning)
        } else {
            self.state = ScanState::Running;
            self.attached = true;
            self.started_at = now;
            self.duration = 0;
            Ok(())
        }
    }

    /// Asks the worker to stop. Refused exactly when no worker is attached.
    /// While the worker is at work the caller has to wait; once it has gone
    /// it is joined.
    pub fn stop(&mut self) -> (r: Result<Progress, LifecycleError>)
        ensures
            r == old(self)@.end_result(),
            final(self)@ == old(self)@.stopped(),
    {
        if !self.attached {
            Err(LifecycleError::NotRunning)
        } else if self.busy() {
            self.state = ScanState::Stopping;
            Ok(Progress::Wait)
        } else {
            self.attached = false;
            Ok(Progress::Done)
        }
    }

    /// Joins the worker without asking it to stop. Refused exactly when no
    /// worker is attached. While the worker is at work the caller has to
    /// wait.
    pub fn join(&mut self) -> (r: Result<Progress, LifecycleError>)
        ensures
            r == old(self)@.end_result(),
            final(self)@ == old(self)@.joined(),
    {
        if !self.attached {
            Err(LifecycleError::NotRunning)
        } else if self.busy() {
            Ok(Progress::Wait)
        } else {
            self.attached = false;
            Ok(Progress::Done)
        }
    }

    /// The worker reports at the time `now` that it has gone.
    pub fn exit(&mut self, now: u64)
        ensures
            final(self)@ == old(self)@.exited(now),
            !final(self)@.busy(),
    {
        if self.busy() {
            self.duration = since(self.started_at, now);
            self.state = ScanState::Finished;
        }
    }

    /// Back to idle. Refused exactly while a worker is at work.
    pub fn clear(&mut self) -> (r: Result<(), LifecycleError>)
        ensures
            r == old(self)@.clear_result(),
            final(self)@ == old(self)@.cleared(),
    {
        if self.busy() {
            Err(LifecycleError::AlreadyRunning)
        } else {
            self.state = ScanState::Idle;
            self.attached = false;
            self.duration = 0;
            Ok(())
        }
    }

    /// How long the scan has taken at the time `now`.
    pub fn duration(&self, now: u64) -> (r: u64)
        ensures
            r == self@.duration_at(now),
    {
        if self.busy() {
            since(self.started_at, now)
        } else {
            self.duration
        }
    }
}

/// Every step keeps the life well-formed.
pub proof fn lemma_steps_keep_wf(l: LifecycleModel, now: u64)
    requires
        l.wf(),
    ensures
        LifecycleModel::idle().wf(),
        l.started(now).wf(),
        l.stopped().wf(),
        l.joined().wf(),
        l.exited(now).wf(),
        l.cleared().wf(),
{
}

/// Once the worker has reported its exit the scan is not busy, whether or
/// not anybody asked it to stop, and stays so until the next start.
pub proof fn lemma_not_busy_after_exit(l: LifecycleModel, now: u64)
    ensures
        !l.exited(now).busy(),
        !l.exited(now).joined().busy(),
        !l.exited(now).stopped().busy(),
        !l.exited(now).cleared().busy(),
{
}

/// Before any start nothing is running: `stop` and `join` are refused.
pub proof fn lemma_stop_before_start_refused()
    ensures
        LifecycleModel::idle().end_result() == Err::<Progress, LifecycleError>(
            LifecycleError::NotRunning,
        ),
{
}

/// A second start is refused as long as the worker of the first is neither
/// joined nor cleared away, whatever the worker has done meanwhile.
pub proof fn lemma_second_start_refused(l: LifecycleModel, now: u64, exit_at: u64, again: u64)
    requires
        l.start_result() is Ok,
    ensures
        l.started(now).start_result() == Err::<(), LifecycleError>(LifecycleError::AlreadyRunning),
        l.started(now).exited(exit_at).start_result() == Err::<(), LifecycleError>(
            LifecycleError::AlreadyRunning,
        ),
        l.started(now).stopped().start_result() == Err::<(), LifecycleError>(
            LifecycleError::AlreadyRunning,
        ),
        l.started(now).exited(exit_at).joined().start_result() is Ok,
        l.started(now).exited(exit_at).stopped().start_result() is Ok,
        l.started(now).exited(exit_at).cleared().start_result() is Ok,
{
}

/// The duration of a finished scan is fixed: it is what had passed when the
/// worker reported its exit, at whatever time one asks.
pub proof fn lemma_duration_frozen(l: LifecycleModel, exit_at: u64, t1: u64, t2: u64)
    requires
        l.busy(),
    ensures
        l.exited(exit_at).duration_at(t1) == l.exited(exit_at).duration_at(t2),
        l.exited(exit_at).duration_at(t1) == elapsed(l.started_at, exit_at),
{
}

} // verus!
