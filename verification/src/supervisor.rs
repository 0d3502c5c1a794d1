//! The decisions of a process supervisor.
//!
//! A supervisor owns one task's process. It does no input or output of
//! its own: the caller reports what happened as a `Signal`, the
//! supervisor moves to its next state and answers with the `Command` to
//! carry out.

use vstd::prelude::*;
use crate::classifier::Action;
use crate::scheduler::Report;

verus! {

/// Why a task failed.
#[derive(Clone, Copy, Debug, PartialEq, Eq, Structural)]
pub enum Failure {
    /// The process could not be started.
    SpawnFailed,
    /// The process ended with this nonzero exit code.
    Exit(i32),
}

/// Where a supervised task stands.
#[derive(Clone, Copy, Debug, PartialEq, Eq, Structural)]
pub enum Phase {
    Pending,
    Starting,
    Running,
    Succeeded,
    Failed(Failure),
    Restarting,
    Stopped,
}

/// Whether a running task has become available to its dependents.
#[derive(Clone, Copy, Debug, PartialEq, Eq, Structural)]
pub enum Readiness {
    Waiting,
    Ready,
    TimedOut,
}

/// What the task's declaration fixes for its supervision.
#[derive(Clone, Copy, Debug, PartialEq, Eq, Structural)]
pub struct Policy {
    /// Restart when a watched file changes.
    pub restart_on_change: bool,
    /// The port whose connectability shows readiness.
    pub port: Option<u16>,
    /// A bound pattern signals readiness.
    pub ready_action: bool,
    /// How long readiness may take, in milliseconds.
    pub ready_timeout_ms: u64,
    /// The window in which further file changes are coalesced.
    pub debounce_ms: u64,
    /// How long a process gets to end after the termination signal.
    pub grace_ms: u64,
}

/// The state of one supervised task.
#[derive(Clone, Copy, Debug, PartialEq, Eq, Structural)]
pub struct Supervisor {
    pub policy: Policy,
    pub phase: Phase,
    pub readiness: Readiness,
    pub child_alive: bool,
    pub started_at: u64,
    pub restarts: u64,
    pub last_restart_at: Option<u64>,
    pub stop_sent_at: Option<u64>,
    pub kill_sent: bool,
}

/// What the caller reports to a supervisor. Times are in milliseconds.
#[derive(Clone, Copy, Debug, PartialEq, Eq, Structural)]
pub enum Signal {
    /// The scheduler dispatches the task.
    Start,
    /// The process is running.
    Spawned { now: u64 },
    /// The process could not be started.
    SpawnFailed,
    /// A line of output was classified.
    Output { action: Option<Action> },
    /// The process ended.
    Exited { code: i32 },
    /// The port accepted a connection.
    PortOpen,
    /// The port refused a connection.
    PortClosed { now: u64 },
    /// A watched file changed.
    FileChanged { now: u64 },
    /// Time has passed.
    Tick { now: u64 },
    /// The orchestrator shuts down.
    Shutdown { now: u64 },
}

/// What the caller is to do next.
#[derive(Clone, Copy, Debug, PartialEq, Eq, Structural)]
pub enum Command {
    Nothing,
    /// Start the process.
    Spawn,
    /// Try to connect to the port after the probing interval.
    Probe(u16),
    /// Send the termination signal.
    Terminate,
    /// End the process by force.
    Kill,
}

/// The time from `since` to `now`; none if the clock stepped back.
pub open spec fn elapsed(now: u64, since: u64) -> int {
    if now >= since {
        now - since
    } else {
        0
    }
}

impl Supervisor {
    /// Nothing can change the outcome any more.
    pub open spec fn terminal(self) -> bool {
        match self.phase {
            Phase::Succeeded | Phase::Stopped => true,
            Phase::Failed(_) => !self.policy.restart_on_change,
            _ => false,
        }
    }

    /// The task waits for a readiness signal that may time out.
    pub open spec fn awaits_readiness(self) -> bool {
        self.phase == Phase::Running && self.readiness == Readiness::Waiting && (
        self.policy.port is Some || self.policy.ready_action)
    }

    /// Readiness has taken too long at `now`.
    pub open spec fn overdue(self, now: u64) -> bool {
        self.awaits_readiness() && elapsed(now, self.started_at) >= self.policy.ready_timeout_ms
    }

    /// A file change at `now` is taken up: restarts are asked for, a
    /// process has run, no restart is in flight, and the last restart
    /// lies at least the debounce window back.
    pub open spec fn accepts_change(self, now: u64) -> bool {
        &&& self.policy.restart_on_change
        &&& (self.phase == Phase::Running || self.phase is Failed)
        &&& match self.last_restart_at {
            Some(t) => elapsed(now, t) >= self.policy.debounce_ms,
            None => true,
        }
    }

    /// The process has outlived the grace period at `now`.
    pub open spec fn grace_over(self, now: u64) -> bool {
        &&& self.child_alive
        &&& !self.kill_sent
        &&& (self.phase == Phase::Restarting || self.phase == Phase::Stopped)
        &&& match self.stop_sent_at {
            Some(t) => elapsed(now, t) >= self.policy.grace_ms,
            None => false,
        }
    }

    /// The phase after `e`.
    pub open spec fn next_phase(self, e: Signal) -> Phase {
        match (self.phase, e) {
            (Phase::Stopped, _) => Phase::Stopped,
            (_, Signal::Shutdown { now }) => if self.terminal() {
                self.phase
            } else {
                Phase::Stopped
            },
            (Phase::Pending, Signal::Start) => Phase::Starting,
            (Phase::Starting, Signal::Spawned { now }) => Phase::Running,
            (Phase::Starting, Signal::SpawnFailed) => Phase::Failed(Failure::SpawnFailed),
            (Phase::Running, Signal::Exited { code }) => if code == 0 {
                Phase::Succeeded
            } else {
                Phase::Failed(Failure::Exit(code))
            },
            (Phase::Running, Signal::FileChanged { now }) => if self.accepts_change(now) {
                Phase::Restarting
            } else {
                self.phase
            },
            (Phase::Failed(_), Signal::FileChanged { now }) => if self.accepts_change(now) {
                Phase::Starting
            } else {
                self.phase
            },
            (Phase::Restarting, Signal::Exited { code }) => Phase::Starting,
            _ => self.phase,
        }
    }

    /// The readiness after `e`.
    pub open spec fn next_readiness(self, e: Signal) -> Readiness {
        match e {
            Signal::Spawned { now } => if self.phase == Phase::Starting {
                Readiness::Waiting
            } else {
                self.readiness
            },
            Signal::Output { action } => if self.phase == Phase::Running && self.readiness
                == Readiness::Waiting && action == Some(Action::Ready) {
                Readiness::Ready
            } else {
                self.readiness
            },
            Signal::PortOpen => if self.phase == Phase::Running && self.readiness
                == Readiness::Waiting && self.policy.port is Some {
                Readiness::Ready
            } else {
                self.readiness
            },
            Signal::PortClosed { now } => if self.overdue(now) {
                Readiness::TimedOut
            } else {
                self.readiness
            },
            Signal::Tick { now } => if self.overdue(now) {
                Readiness::TimedOut
            } else {
                self.readiness
            },
            _ => self.readiness,
        }
    }

    /// What the caller is to do after `e`.
    pub open spec fn command_for(self, e: Signal) -> Command {
        match e {
            Signal::Start => if self.phase == Phase::Pending {
                Command::Spawn
            } else {
                Command::Nothing
            },
            Signal::Spawned { now } => match (self.phase, self.policy.port) {
                (Phase::Stopped, _) => Command::Terminate,
                (Phase::Starting, Some(p)) => Command::Probe(p),
                _ => Command::Nothing,
            },
            Signal::PortClosed { now } => match self.policy.port {
                Some(p) => if self.awaits_readiness() && !self.overdue(now) {
                    Command::Probe(p)
                } else {
                    Command::Nothing
                },
                None => Command::Nothing,
            },
            Signal::FileChanged { now } => if self.accepts_change(now) {
                if self.phase == Phase::Running {
                    Command::Terminate
                } else {
                    Command::Spawn
                }
            } else {
                Command::Nothing
            },
            Signal::Exited { code } => if self.phase == Phase::Restarting {
                Command::Spawn
            } else {
                Command::Nothing
            },
            Signal::Tick { now } => if self.grace_over(now) {
                Command::Kill
            } else {
                Command::Nothing
            },
            Signal::Shutdown { now } => if !self.terminal() && self.child_alive {
                Command::Terminate
            } else {
                Command::Nothing
            },
            _ => Command::Nothing,
        }
    }

    /// The state after `e`.
    pub open spec fn next(self, e: Signal) -> Supervisor {
        let restarted = e matches Signal::FileChanged { now } && self.accepts_change(now);
        let stop_asked = self.command_for(e) == Command::Terminate;
        Supervisor {
            policy: self.policy,
            phase: self.next_phase(e),
            readiness: self.next_readiness(e),
            child_alive: match e {
                Signal::Spawned { now } => true,
                Signal::SpawnFailed => false,
                Signal::Exited { code } => false,
                _ => self.child_alive,
            },
            started_at: match e {
                Signal::Spawned { now } => now,
                _ => self.started_at,
            },
            restarts: if restarted && self.restarts < u64::MAX {
                (self.restarts + 1) as u64
            } else {
                self.restarts
            },
            last_restart_at: match e {
                Signal::FileChanged { now } => if restarted {
                    Some(now)
                } else {
                    self.last_restart_at
                },
                _ => self.last_restart_at,
            },
            stop_sent_at: match e {
                Signal::Spawned { now } => if stop_asked {
                    Some(now)
                } else {
                    None
                },
                Signal::FileChanged { now } => if stop_asked {
                    Some(now)
                } else {
                    self.stop_sent_at
                },
                Signal::Shutdown { now } => if stop_asked {
                    Some(now)
                } else {
                    self.stop_sent_at
                },
                _ => self.stop_sent_at,
            },
            kill_sent: match e {
                Signal::Spawned { now } => false,
                _ => self.kill_sent || self.command_for(e) == Command::Kill,
            },
        }
    }

    /// The task counts as done for the tasks that depend on it: it has
    /// succeeded, or it runs and is ready.
    pub open spec fn satisfied(self) -> bool {
        self.phase == Phase::Succeeded || (self.phase == Phase::Running && self.readiness
            == Readiness::Ready)
    }

    /// The task counts as failed for the tasks that depend on it.
    pub open spec fn let_down(self) -> bool {
        self.phase is Failed || self.readiness == Readiness::TimedOut
    }

    /// A supervisor for a task that has not been dispatched yet.
    pub fn new(policy: Policy) -> (s: Supervisor)
        ensures
            s == (Supervisor {
                policy,
                phase: Phase::Pending,
                readiness: Readiness::Waiting,
                child_alive: false,
                started_at: 0,
                restarts: 0,
                last_restart_at: None,
                stop_sent_at: None,
                kill_sent: false,
            }),
    {
        Supervisor {
            policy,
            phase: Phase::Pending,
            readiness: Readiness::Waiting,
            child_alive: false,
            started_at: 0,
            restarts: 0,
            last_restart_at: None,
            stop_sent_at: None,
            kill_sent: false,
        }
    }

    fn is_terminal(&self) -> (b: bool)
        ensures
            b == self.terminal(),
    {
        match self.phase {
            Phase::Succeeded => true,
            Phase::Stopped => true,
            Phase::Failed(_) => !self.policy.restart_on_change,
            _ => false,
        }
    }

    fn is_overdue(&self, now: u64) -> (b: bool)
        ensures
            b == self.overdue(now),
    {
        let waits = match (self.phase, self.readiness) {
            (Phase::Running, Readiness::Waiting) => self.policy.port.is_some()
                || self.policy.ready_action,
            _ => false,
        };
        waits && since(now, self.started_at) >= self.policy.ready_timeout_ms
    }

    fn takes_change(&self, now: u64) -> (b: bool)
        ensures
            b == self.accepts_change(now),
    {
        let ran = match self.phase {
            Phase::Running => true,
            Phase::Failed(_) => true,
            _ => false,
        };
        let quiet = match self.last_restart_at {
            Some(t) => since(now, t) >= self.policy.debounce_ms,
            None => true,
        };
        self.policy.restart_on_change && ran && quiet
    }

    /// Takes in what happened and says what to do next.
    pub fn step(&mut self, signal: Signal) -> (c: Command)
        ensures
            *final(self) == old(self).next(signal),
            c == old(self).command_for(signal),
    {
        let mut command = Command::Nothing;
        match signal {
            Signal::Start => {
                if let Phase::Pending = self.phase {
                    self.phase = Phase::Starting;
                    command = Command::Spawn;
                }
            },
            Signal::Spawned { now } => {
                self.stop_sent_at = None;
                match self.phase {
                    Phase::Starting => {
                        self.phase = Phase::Running;
                        self.readiness = Readiness::Waiting;
                        if let Some(p) = self.policy.port {
                            command = Command::Probe(p);
                        }
                    },
                    Phase::Stopped => {
                        command = Command::Terminate;
                        self.stop_sent_at = Some(now);
                    },
                    _ => {},
                }
                self.child_alive = true;
                self.started_at = now;
                self.kill_sent = false;
            },
            Signal::SpawnFailed => {
                if let Phase::Starting = self.phase {
                    self.phase = Phase::Failed(Failure::SpawnFailed);
                }
                self.child_alive = false;
            },
            Signal::Output { action } => {
                if let (Phase::Running, Readiness::Waiting, Some(Action::Ready)) = (
                    self.phase,
                    self.readiness,
                    action,
                ) {
                    self.readiness = Readiness::Ready;
                }
            },
            Signal::Exited { code } => {
                match self.phase {
                    Phase::Running => {
                        self.phase = if code == 0 {
                            Phase::Succeeded
                        } else {
                            Phase::Failed(Failure::Exit(code))
                        };
                    },
                    Phase::Restarting => {
                        self.phase = Phase::Starting;
                        command = Command::Spawn;
                    },
                    _ => {},
                }
                self.child_alive = false;
            },
            Signal::PortOpen => {
                if let (Phase::Running, Readiness::Waiting, Some(_)) = (
                    self.phase,
                    self.readiness,
                    self.policy.port,
                ) {
                    self.readiness = Readiness::Ready;
                }
            },
            Signal::PortClosed { now } => {
                if self.is_overdue(now) {
                    self.readiness = Readiness::TimedOut;
                } else if let (Phase::Running, Readiness::Waiting, Some(p)) = (
                    self.phase,
                    self.readiness,
                    self.policy.port,
                ) {
                    command = Command::Probe(p);
                }
            },
            Signal::FileChanged { now } => {
                if self.takes_change(now) {
                    if let Phase::Running = self.phase {
                        self.phase = Phase::Restarting;
                        self.stop_sent_at = Some(now);
                        command = Command::Terminate;
                    } else {
                        self.phase = Phase::Starting;
                        command = Command::Spawn;
                    }
                    if self.restarts < u64::MAX {
                        self.restarts = self.restarts + 1;
                    }
                    self.last_restart_at = Some(now);
                }
            },
            Signal::Tick { now } => {
                if self.is_overdue(now) {
                    self.readiness = Readiness::TimedOut;
                }
                let stopping = match self.phase {
                    Phase::Restarting => true,
                    Phase::Stopped => true,
                    _ => false,
                };
                let late = match self.stop_sent_at {
                    Some(t) => since(now, t) >= self.policy.grace_ms,
                    None => false,
                };
                if self.child_alive && !self.kill_sent && stopping && late {
                    self.kill_sent = true;
                    command = Command::Kill;
                }
            },
            Signal::Shutdown { now } => {
                if !self.is_terminal() {
                    if self.child_alive {
                        self.stop_sent_at = Some(now);
                        command = Command::Terminate;
                    }
                    self.phase = Phase::Stopped;
                }
            },
        }
        command
    }

    /// Whether the tasks that depend on the supervised one may start.
    pub fn is_satisfied(&self) -> (b: bool)
        ensures
            b == self.satisfied(),
    {
        match (self.phase, self.readiness) {
            (Phase::Succeeded, _) => true,
            (Phase::Running, Readiness::Ready) => true,
            _ => false,
        }
    }

    /// Whether the tasks that depend on the supervised one must not start.
    pub fn has_let_down(&self) -> (b: bool)
        ensures
            b == self.let_down(),
    {
        match (self.phase, self.readiness) {
            (Phase::Failed(_), _) => true,
            (_, Readiness::TimedOut) => true,
            _ => false,
        }
    }

    /// What a step from `self` to `after` gives the scheduler to know:
    /// the end of the task, or else a change of its readiness.
    pub open spec fn news(self, after: Supervisor) -> Option<Report> {
        if after.phase == Phase::Succeeded && self.phase != Phase::Succeeded {
            Some(Report::Succeeded)
        } else if after.phase is Failed && !(self.phase is Failed) {
            Some(Report::Failed)
        } else if after.readiness == Readiness::Ready && self.readiness != Readiness::Ready {
            Some(Report::Ready)
        } else if after.readiness == Readiness::TimedOut && self.readiness != Readiness::TimedOut {
            Some(Report::TimedOut)
        } else {
            None
        }
    }

    /// Nothing is left to supervise: the outcome is final and no
    /// process is alive.
    pub open spec fn finished(self) -> bool {
        self.terminal() && !self.child_alive
    }

    /// What the step from `before` to here gives the scheduler to know.
    pub fn report_since(&self, before: &Supervisor) -> (r: Option<Report>)
        ensures
            r == before.news(*self),
    {
        let was_failed = match before.phase {
            Phase::Failed(_) => true,
            _ => false,
        };
        match (self.phase, self.readiness) {
            (Phase::Succeeded, _) if before.phase != Phase::Succeeded => Some(Report::Succeeded),
            (Phase::Failed(_), _) if !was_failed => Some(Report::Failed),
            (_, Readiness::Ready) if before.readiness != Readiness::Ready => Some(Report::Ready),
            (_, Readiness::TimedOut) if before.readiness != Readiness::TimedOut => Some(
                Report::TimedOut,
            ),
            _ => None,
        }
    }

    /// Whether nothing is left to supervise.
    pub fn is_finished(&self) -> (b: bool)
        ensures
            b == self.finished(),
    {
        self.is_terminal() && !self.child_alive
    }

    /// A stopped supervisor stays stopped.
    pub proof fn lemma_stopped_is_final(self, e: Signal)
        requires
            self.phase == Phase::Stopped,
        ensures
            self.next(e).phase == Phase::Stopped,
    {
    }

    /// A restart begins only from a running or failed task, only on a
    /// file change, only where restarts are asked for, and never within
    /// the debounce window of the restart before.
    pub proof fn lemma_restart_entry(self, e: Signal)
        requires
            self.next(e).restarts != self.restarts || (self.next(e).phase == Phase::Restarting
                && self.phase != Phase::Restarting),
        ensures
            self.phase == Phase::Running || self.phase is Failed,
            self.policy.restart_on_change,
            e matches Signal::FileChanged { now } && (self.last_restart_at matches Some(t)
                ==> elapsed(now, t) >= self.policy.debounce_ms),
            self.restarts < u64::MAX ==> self.next(e).restarts == self.restarts + 1,
            self.next(e).phase == Phase::Restarting <==> self.phase == Phase::Running,
    {
    }

    /// After a restart, a file change within the debounce window changes
    /// nothing.
    pub proof fn lemma_debounced(self, first: u64, second: u64)
        requires
            self.accepts_change(first),
            first <= second,
            second - first < self.policy.debounce_ms,
        ensures
            self.next(Signal::FileChanged { now: first }).next(Signal::FileChanged { now: second })
                == self.next(Signal::FileChanged { now: first }),
    {
    }

    /// Once the port accepts a connection, the waiting task is ready
    /// and keeps running.
    pub proof fn lemma_port_ready(self)
        requires
            self.phase == Phase::Running,
            self.readiness == Readiness::Waiting,
            self.policy.port is Some,
        ensures
            self.next(Signal::PortOpen).satisfied(),
            self.next(Signal::PortOpen).phase == Phase::Running,
    {
    }

    /// A ready action makes the waiting task ready at once, port or no
    /// port, and asks for no further probe.
    pub proof fn lemma_ready_action_first(self)
        requires
            self.phase == Phase::Running,
            self.readiness == Readiness::Waiting,
        ensures
            self.next(Signal::Output { action: Some(Action::Ready) }).satisfied(),
            self.command_for(Signal::Output { action: Some(Action::Ready) }) == Command::Nothing,
            forall|now: u64|
                #[trigger] self.next(Signal::Output { action: Some(Action::Ready) }).command_for(
                    Signal::PortClosed { now },
                ) == Command::Nothing,
    {
    }

    /// An action that is not known has no effect.
    pub proof fn lemma_unknown_action_ignored(self)
        ensures
            self.next(Signal::Output { action: Some(Action::Unknown) }) == self,
            self.command_for(Signal::Output { action: Some(Action::Unknown) }) == Command::Nothing,
    {
    }
}

/// The time from `since` to `now`; none if the clock stepped back.
pub fn since(now: u64, start: u64) -> (d: u64)
    ensures
        d == elapsed(now, start),
{
    if now >= start {
        now - start
    } else {
        0
    }
}

} // verus!
