//! The decisions of the scheduler.
//!
//! The scheduler holds the tasks of one run in execution order and says
//! which task may start next. A task starts once every task it depends
//! on has succeeded or runs and is ready, and while fewer tasks are in
//! flight than the concurrency cap allows. When a task fails, every task
//! that depends on it, directly or through others, is skipped; tasks on
//! other branches go on.

use vstd::prelude::*;
use crate::graph::{
    count_of, edge, is_path, lemma_count_overwrite, lemma_count_shrinks, lemma_reach_first_step,
    lemma_reach_prepend, lemma_reach_trans, reachable, step,
};
use crate::order::lemma_reach_in_graph;

verus! {

/// Where a task of a run stands.
#[derive(Clone, Copy, Debug, PartialEq, Eq, Structural)]
pub enum Status {
    /// Not started yet.
    Waiting,
    /// Starting, running or restarting: the task holds a slot.
    InFlight,
    Succeeded,
    Failed,
    /// Never started, because a task it depends on let it down.
    Skipped,
}

/// What a supervisor reports about its task.
#[derive(Clone, Copy, Debug, PartialEq, Eq, Structural)]
pub enum Report {
    /// The running task has become ready.
    Ready,
    /// The task ended with success.
    Succeeded,
    /// The task could not be started or ended with a failure.
    Failed,
    /// The running task did not become ready in time.
    TimedOut,
}

/// How a run stands as a whole.
#[derive(Clone, Copy, Debug, PartialEq, Eq, Structural)]
pub enum RunState {
    /// Tasks are in flight or may still start.
    Active,
    /// Every task has succeeded, and none became ready too late.
    Succeeded,
    /// Nothing is left to do, and some task has failed, was skipped or
    /// did not become ready in time.
    Failed,
}

/// The tasks of one run, by position in execution order.
#[derive(Debug)]
pub struct Scheduler {
    deps: Vec<Vec<usize>>,
    status: Vec<Status>,
    ready: Vec<bool>,
    late: Vec<bool>,
    in_flight: usize,
    max_parallel: usize,
}

/// The state of a run as mathematical values.
pub struct RunView {
    /// For each task, the positions of the tasks it depends on.
    pub deps: Seq<Seq<int>>,
    pub status: Seq<Status>,
    /// The task has reported readiness.
    pub ready: Seq<bool>,
    /// The task has reported a readiness timeout.
    pub late: Seq<bool>,
    pub max_parallel: int,
}

/// Dependency lists as mathematical values.
pub open spec fn dep_lists(deps: Seq<Vec<usize>>) -> Seq<Seq<int>> {
    Seq::new(deps.len(), |j: int| Seq::new(deps[j]@.len(), |k: int| deps[j]@[k] as int))
}

/// Every task depends on earlier tasks only.
pub open spec fn deps_point_back(deps: Seq<Seq<int>>) -> bool {
    forall|j: int, k: int|
        0 <= j < deps.len() && 0 <= k < deps[j].len() ==> 0 <= #[trigger] deps[j][k] < j
}

impl RunView {
    /// The number of tasks in flight.
    pub open spec fn in_flight(self) -> nat {
        count_of(self.status, Status::InFlight)
    }

    /// The task has failed, was skipped, or did not become ready in time.
    pub open spec fn bad(self, j: int) -> bool {
        self.status[j] == Status::Failed || self.status[j] == Status::Skipped || self.late[j]
    }

    /// The task, or a task it depends on directly or through others, is bad.
    pub open spec fn tainted(self, j: int) -> bool {
        exists|i: int| reachable(self.deps, j, i) && #[trigger] self.bad(i)
    }

    /// The tasks that depend on `j` may start.
    pub open spec fn satisfied(self, j: int) -> bool {
        self.status[j] == Status::Succeeded || (self.status[j] == Status::InFlight && self.ready[j]
            && !self.late[j])
    }

    /// The task waits and every task it depends on is satisfied.
    pub open spec fn startable(self, j: int) -> bool {
        &&& 0 <= j < self.status.len()
        &&& self.status[j] == Status::Waiting
        &&& forall|k: int| 0 <= k < self.deps[j].len() ==> self.satisfied(#[trigger] self.deps[j][k])
    }

    /// The state is consistent: the cap is kept, and no task that waits
    /// depends on a bad one.
    pub open spec fn wf(self) -> bool {
        &&& self.status.len() == self.deps.len()
        &&& self.ready.len() == self.deps.len()
        &&& self.late.len() == self.deps.len()
        &&& self.max_parallel >= 0
        &&& deps_point_back(self.deps)
        &&& self.in_flight() <= self.max_parallel
        &&& forall|j: int|
            0 <= j < self.status.len() && #[trigger] self.status[j] == Status::Waiting
                ==> !self.tainted(j)
    }

    /// The state with the status of task `j` replaced.
    pub open spec fn with_status(self, j: int, s: Status) -> RunView {
        RunView { status: self.status.update(j, s), ..self }
    }

    /// The state after every waiting task that is tainted was skipped.
    pub open spec fn skip_tainted(self) -> RunView {
        RunView {
            status: Seq::new(
                self.status.len(),
                |i: int|
                    if self.status[i] == Status::Waiting && self.tainted(i) {
                        Status::Skipped
                    } else {
                        self.status[i]
                    },
            ),
            ..self
        }
    }

    /// The state after task `j` reported `r`. A report about a task
    /// that is not in flight changes nothing.
    pub open spec fn after_report(self, j: int, r: Report) -> RunView {
        if 0 <= j < self.status.len() && self.status[j] == Status::InFlight {
            match r {
                Report::Ready => RunView { ready: self.ready.update(j, true), ..self },
                Report::Succeeded => self.with_status(j, Status::Succeeded),
                Report::Failed => self.with_status(j, Status::Failed).skip_tainted(),
                Report::TimedOut => (RunView { late: self.late.update(j, true), ..self }).skip_tainted(),
            }
        } else {
            self
        }
    }

    /// How the run stands.
    pub open spec fn run_state(self) -> RunState {
        if exists|j: int| 0 <= j < self.status.len() && (#[trigger] self.status[j] == Status::Waiting
            || self.status[j] == Status::InFlight) {
            RunState::Active
        } else if forall|j: int| 0 <= j < self.status.len() ==> #[trigger] self.fine(j) {
            RunState::Succeeded
        } else {
            RunState::Failed
        }
    }

    /// The task has succeeded and was ready in time.
    pub open spec fn fine(self, j: int) -> bool {
        self.status[j] == Status::Succeeded && !self.late[j]
    }
}

/// Skipping the tainted tasks that wait taints no further task.
pub proof fn lemma_skip_keeps_taint(v: RunView, j: int)
    requires
        v.status.len() == v.deps.len(),
    ensures
        v.skip_tainted().tainted(j) == v.tainted(j),
{
    let w = v.skip_tainted();
    if w.tainted(j) {
        let i = choose|i: int| reachable(w.deps, j, i) && #[trigger] w.bad(i);
        assert(0 <= i < v.deps.len()) by {
            let p = choose|p: Seq<int>| is_path(v.deps, p) && p[0] == j && p.last() == i;
            assert(0 <= p[p.len() - 1] < v.deps.len());
        }
        if !v.bad(i) {
            assert(0 <= i < v.status.len() ==> v.tainted(i));
            if 0 <= i < v.status.len() {
                let i2 = choose|i2: int| reachable(v.deps, i, i2) && #[trigger] v.bad(i2);
                lemma_reach_trans(v.deps, j, i, i2);
            }
        }
    }
    if v.tainted(j) {
        let i = choose|i: int| reachable(v.deps, j, i) && #[trigger] v.bad(i);
        assert(0 <= i < v.deps.len()) by {
            let p = choose|p: Seq<int>| is_path(v.deps, p) && p[0] == j && p.last() == i;
            assert(0 <= p[p.len() - 1] < v.deps.len());
        }
        assert(w.bad(i)) by {
            if 0 <= i < v.status.len() {
                assert(w.status[i] == if v.status[i] == Status::Waiting && v.tainted(i) {
                    Status::Skipped
                } else {
                    v.status[i]
                });
            }
        }
    }
}

/// While a task is bad, no task that depends on it, directly or through
/// others, can start.
pub proof fn lemma_dependents_held(v: RunView, i: int, j: int)
    requires
        v.wf(),
        v.bad(i),
        reachable(v.deps, j, i),
    ensures
        v.tainted(j),
        !v.startable(j),
{
}

/// A failure leaves alone what does not depend on the failed task:
/// such a task keeps its status, and if it could start before, it can
/// start after.
pub proof fn lemma_unrelated_untouched(v: RunView, j: int, i: int)
    requires
        v.wf(),
        0 <= j < v.status.len(),
        v.status[j] == Status::InFlight,
        0 <= i < v.status.len(),
        !reachable(v.deps, i, j),
    ensures
        v.after_report(j, Report::Failed).status[i] == v.status[i],
        v.startable(i) ==> v.after_report(j, Report::Failed).startable(i),
{
    let mid = v.with_status(j, Status::Failed);
    let w = mid.skip_tainted();
    assert(reachable(v.deps, i, i)) by {
        let p = seq![i];
        assert(is_path(v.deps, p) && p[0] == i && p.last() == i);
    }
    if mid.tainted(i) {
        let b = choose|b: int| reachable(mid.deps, i, b) && #[trigger] mid.bad(b);
        assert(v.bad(b));
        assert(v.tainted(i));
    }
    assert(w.status[i] == v.status[i]);
    if v.startable(i) {
        assert forall|k: int| 0 <= k < w.deps[i].len() implies w.satisfied(#[trigger] w.deps[i][k]) by {
            let d = v.deps[i][k];
            assert(v.satisfied(d));
            assert(edge(v.deps, i, d)) by {
                assert(v.deps[i].contains(d));
            }
            if d == j {
                let p = seq![i, j];
                assert forall|x: int| 0 <= x < p.len() - 1 implies #[trigger] step(v.deps, p, x) by {}
                assert(is_path(v.deps, p) && p[0] == i && p.last() == j);
            }
            assert(w.status[d] == v.status[d]);
        }
    }
}

impl View for Scheduler {
    type V = RunView;

    closed spec fn view(&self) -> RunView {
        RunView {
            deps: dep_lists(self.deps@),
            status: self.status@,
            ready: self.ready@,
            late: self.late@,
            max_parallel: self.max_parallel as int,
        }
    }
}

/// The state of a run before any task has started.
pub open spec fn initial_run(deps: Seq<Seq<int>>, max_parallel: int) -> RunView {
    RunView {
        deps,
        status: Seq::new(deps.len(), |j: int| Status::Waiting),
        ready: Seq::new(deps.len(), |j: int| false),
        late: Seq::new(deps.len(), |j: int| false),
        max_parallel,
    }
}

proof fn lemma_count_push<A>(s: Seq<A>, y: A, x: A)
    ensures
        count_of(s.push(y), x) == count_of(s, x) + if y == x { 1nat } else { 0nat },
{
    assert(s.push(y).drop_last() =~= s);
}

proof fn lemma_same_bad_same_taint(a: RunView, b: RunView)
    requires
        a.deps == b.deps,
        forall|i: int| 0 <= i < a.deps.len() ==> a.bad(i) == b.bad(i),
    ensures
        forall|j: int| a.tainted(j) == b.tainted(j),
{
    assert forall|j: int| a.tainted(j) == b.tainted(j) by {
        if a.tainted(j) {
            let i = choose|i: int| reachable(a.deps, j, i) && #[trigger] a.bad(i);
            lemma_reach_in_graph(a.deps, j, i);
            assert(b.bad(i));
        }
        if b.tainted(j) {
            let i = choose|i: int| reachable(b.deps, j, i) && #[trigger] b.bad(i);
            lemma_reach_in_graph(a.deps, j, i);
            assert(a.bad(i));
        }
    }
}

impl Scheduler {
    /// The scheduler is consistent with the run it stands for.
    pub closed spec fn wf(&self) -> bool {
        self@.wf() && self.in_flight == self@.in_flight()
    }

    /// A consistent scheduler stands for a consistent run: the cap is
    /// kept, and no waiting task depends on a bad one.
    pub proof fn lemma_wf(&self)
        requires
            self.wf(),
        ensures
            self@.wf(),
            self@.in_flight() <= self@.max_parallel,
    {
    }

    /// A scheduler for tasks in execution order, none of them started.
    /// `deps` holds for each task the positions of the tasks it depends
    /// on, which must stand before it.
    pub fn new(deps: Vec<Vec<usize>>, max_parallel: usize) -> (r: Option<Scheduler>)
        ensures
            match r {
                Some(s) => s.wf() && deps_point_back(dep_lists(deps@)) && s@ == initial_run(
                    dep_lists(deps@),
                    max_parallel as int,
                ),
                None => !deps_point_back(dep_lists(deps@)),
            },
    {
        let ghost g = dep_lists(deps@);
        let n = deps.len();
        let mut status: Vec<Status> = Vec::new();
        let mut ready: Vec<bool> = Vec::new();
        let mut late: Vec<bool> = Vec::new();
        let mut j: usize = 0;
        while j < n
            invariant
                g == dep_lists(deps@),
                n == deps@.len(),
                j <= n,
                status@.len() == j,
                ready@.len() == j,
                late@.len() == j,
                forall|i: int| 0 <= i < j ==> status@[i] == Status::Waiting && !ready@[i] && !late@[i],
                forall|i: int, k: int|
                    0 <= i < j && 0 <= k < g[i].len() ==> 0 <= #[trigger] g[i][k] < i,
                count_of(status@, Status::InFlight) == 0,
            decreases n - j,
        {
            let m = deps[j].len();
            let mut k: usize = 0;
            while k < m
                invariant
                    g == dep_lists(deps@),
                    j < n,
                    n == deps@.len(),
                    m == deps@[j as int]@.len(),
                    k <= m,
                    forall|k2: int| 0 <= k2 < k ==> 0 <= #[trigger] g[j as int][k2] < j,
                decreases m - k,
            {
                if deps[j][k] >= j {
                    assert(g[j as int][k as int] == deps@[j as int]@[k as int]);
                    return None;
                }
                assert(g[j as int][k as int] == deps@[j as int]@[k as int]);
                k = k + 1;
            }
            proof {
                lemma_count_push(status@, Status::Waiting, Status::InFlight);
            }
            status.push(Status::Waiting);
            ready.push(false);
            late.push(false);
            j = j + 1;
        }
        let s = Scheduler { deps, status, ready, late, in_flight: 0, max_parallel };
        proof {
            let v = s@;
            assert(v.status =~= initial_run(g, max_parallel as int).status);
            assert(v.ready =~= initial_run(g, max_parallel as int).ready);
            assert(v.late =~= initial_run(g, max_parallel as int).late);
            assert forall|i: int| 0 <= i < v.status.len() && #[trigger] v.status[i]
                == Status::Waiting implies !v.tainted(i) by {
                if v.tainted(i) {
                    let b = choose|b: int| reachable(v.deps, i, b) && #[trigger] v.bad(b);
                    lemma_reach_in_graph(v.deps, i, b);
                }
            }
        }
        Some(s)
    }

    /// The number of tasks of the run.
    pub fn len(&self) -> (n: usize)
        requires
            self.wf(),
        ensures
            n == self@.status.len(),
    {
        self.status.len()
    }

    /// The number of tasks in flight.
    pub fn running(&self) -> (n: usize)
        requires
            self.wf(),
        ensures
            n == self@.in_flight(),
            n <= self@.max_parallel,
    {
        self.in_flight
    }

    /// The status of task `j`.
    pub fn status_of(&self, j: usize) -> (s: Status)
        requires
            self.wf(),
            j < self@.status.len(),
        ensures
            s == self@.status[j as int],
    {
        self.status[j]
    }

    fn is_startable(&self, j: usize) -> (b: bool)
        requires
            self.wf(),
            j < self@.status.len(),
        ensures
            b == self@.startable(j as int),
    {
        match self.status[j] {
            Status::Waiting => {},
            _ => {
                return false;
            },
        }
        let ghost v = self@;
        let m = self.deps[j].len();
        let mut k: usize = 0;
        while k < m
            invariant
                self.wf(),
                v == self@,
                j < v.status.len(),
                m == self.deps@[j as int]@.len(),
                k <= m,
                forall|k2: int| 0 <= k2 < k ==> v.satisfied(#[trigger] v.deps[j as int][k2]),
            decreases m - k,
        {
            let d = self.deps[j][k];
            assert(v.deps[j as int][k as int] == d);
            let ok = match self.status[d] {
                Status::Succeeded => true,
                Status::InFlight => self.ready[d] && !self.late[d],
                _ => false,
            };
            if !ok {
                return false;
            }
            k = k + 1;
        }
        true
    }

    /// Starts the first task that may start, if the cap allows one more,
    /// and returns its position.
    pub fn dispatch(&mut self) -> (r: Option<usize>)
        requires
            old(self).wf(),
        ensures
            final(self).wf(),
            match r {
                Some(j) => old(self)@.in_flight() < old(self)@.max_parallel && old(self)@.startable(
                    j as int,
                ) && (forall|j2: int| 0 <= j2 < j ==> !old(self)@.startable(j2)) && final(self)@
                    == old(self)@.with_status(j as int, Status::InFlight),
                None => final(self)@ == old(self)@ && (old(self)@.in_flight() >= old(
                    self,
                )@.max_parallel || forall|j2: int| !old(self)@.startable(j2)),
            },
    {
        if self.in_flight >= self.max_parallel {
            return None;
        }
        let ghost v = self@;
        let n = self.status.len();
        let mut j: usize = 0;
        while j < n
            invariant
                self.wf(),
                v == self@,
                v == old(self)@,
                n == v.status.len(),
                j <= n,
                self.in_flight < self.max_parallel,
                self.in_flight == v.in_flight(),
                forall|j2: int| 0 <= j2 < j ==> !v.startable(j2),
            decreases n - j,
        {
            if self.is_startable(j) {
                self.status.set(j, Status::InFlight);
                self.in_flight = self.in_flight + 1;
                proof {
                    let w = self@;
                    assert(w == v.with_status(j as int, Status::InFlight));
                    lemma_count_overwrite(w.status, j as int, Status::InFlight, Status::Waiting);
                    assert(w.status.update(j as int, Status::Waiting) =~= v.status);
                    assert(v.tainted(j as int) == false);
                    assert(!v.bad(j as int)) by {
                        let p = seq![j as int];
                        assert(is_path(v.deps, p) && p[0] == j && p.last() == j);
                        assert(reachable(v.deps, j as int, j as int));
                    }
                    lemma_same_bad_same_taint(v, w);
                }
                return Some(j);
            }
            j = j + 1;
        }
        None
    }

    fn skip_tainted(&mut self)
        requires
            old(self)@.status.len() == old(self)@.deps.len(),
            old(self)@.late.len() == old(self)@.deps.len(),
            deps_point_back(old(self)@.deps),
        ensures
            final(self)@ == old(self)@.skip_tainted(),
            final(self).in_flight == old(self).in_flight,
    {
        let ghost v = self@;
        let n = self.status.len();
        let mut taint: Vec<bool> = Vec::new();
        let mut i: usize = 0;
        while i < n
            invariant
                n == v.status.len(),
                n == v.deps.len(),
                n == v.late.len(),
                deps_point_back(v.deps),
                self.deps == old(self).deps,
                self.ready == old(self).ready,
                self.late == old(self).late,
                self.max_parallel == old(self).max_parallel,
                self.in_flight == old(self).in_flight,
                v == old(self)@,
                self.status@.len() == n,
                i <= n,
                taint@.len() == i,
                forall|i2: int| 0 <= i2 < i ==> taint@[i2] == v.tainted(i2),
                forall|i2: int| 0 <= i2 < i ==> self.status@[i2] == v.skip_tainted().status[i2],
                forall|i2: int| i <= i2 < n ==> self.status@[i2] == v.status[i2],
            decreases n - i,
        {
            let mut t = match self.status[i] {
                Status::Failed => true,
                Status::Skipped => true,
                _ => self.late[i],
            };
            let m = self.deps[i].len();
            let mut k: usize = 0;
            while k < m
                invariant
                    n == v.deps.len(),
                    deps_point_back(v.deps),
                    v.deps == dep_lists(self.deps@),
                    i < n,
                    m == self.deps@[i as int]@.len(),
                    k <= m,
                    taint@.len() == i,
                    forall|i2: int| 0 <= i2 < i ==> taint@[i2] == v.tainted(i2),
                    t == (v.bad(i as int) || exists|k2: int|
                        0 <= k2 < k && v.tainted(#[trigger] v.deps[i as int][k2])),
                decreases m - k,
            {
                let d = self.deps[i][k];
                assert(v.deps[i as int][k as int] == d);
                if taint[d] {
                    t = true;
                }
                k = k + 1;
            }
            proof {
                let g = v.deps;
                if t {
                    if v.bad(i as int) {
                        let p = seq![i as int];
                        assert(is_path(g, p) && p[0] == i && p.last() == i);
                    } else {
                        let k2 = choose|k2: int|
                            0 <= k2 < m && v.tainted(#[trigger] v.deps[i as int][k2]);
                        let d = g[i as int][k2];
                        let b = choose|b: int| reachable(g, d, b) && #[trigger] v.bad(b);
                        assert(g[i as int].contains(d));
                        lemma_reach_prepend(g, i as int, d, b);
                    }
                    assert(v.tainted(i as int));
                }
                if v.tainted(i as int) && !v.bad(i as int) {
                    let b = choose|b: int| reachable(g, i as int, b) && #[trigger] v.bad(b);
                    let d = lemma_reach_first_step(g, i as int, b);
                    let k2 = g[i as int].index_of(d);
                    assert(g[i as int][k2] == d);
                    assert(v.tainted(d));
                    assert(t);
                }
            }
            taint.push(t);
            if t {
                if let Status::Waiting = self.status[i] {
                    self.status.set(i, Status::Skipped);
                }
            }
            i = i + 1;
        }
        proof {
            assert(self@.status =~= v.skip_tainted().status);
        }
    }

    /// Takes in what the supervisor of task `j` reports. A failure or a
    /// readiness timeout skips every waiting task that depends on `j`.
    pub fn report(&mut self, j: usize, r: Report)
        requires
            old(self).wf(),
        ensures
            final(self).wf(),
            final(self)@ == old(self)@.after_report(j as int, r),
    {
        let ghost v = self@;
        if j >= self.status.len() {
            return ;
        }
        match self.status[j] {
            Status::InFlight => {},
            _ => {
                return ;
            },
        }
        proof {
            lemma_count_overwrite(v.status, j as int, Status::InFlight, Status::Succeeded);
            lemma_count_overwrite(v.status, j as int, Status::InFlight, Status::Failed);
        }
        match r {
            Report::Ready => {
                self.ready.set(j, true);
                proof {
                    lemma_same_bad_same_taint(v, self@);
                }
            },
            Report::Succeeded => {
                self.status.set(j, Status::Succeeded);
                self.in_flight = self.in_flight - 1;
                proof {
                    lemma_same_bad_same_taint(v, self@);
                }
            },
            Report::Failed => {
                self.status.set(j, Status::Failed);
                self.in_flight = self.in_flight - 1;
                let ghost mid = self@;
                self.skip_tainted();
                proof {
                    let w = self@;
                    lemma_count_shrinks(mid.status, w.status, Status::InFlight);
                    lemma_count_shrinks(w.status, mid.status, Status::InFlight);
                    assert forall|i: int| 0 <= i < w.status.len() && #[trigger] w.status[i]
                        == Status::Waiting implies !w.tainted(i) by {
                        lemma_skip_keeps_taint(mid, i);
                    }
                }
            },
            Report::TimedOut => {
                self.late.set(j, true);
                let ghost mid = self@;
                self.skip_tainted();
                proof {
                    let w = self@;
                    lemma_count_shrinks(mid.status, w.status, Status::InFlight);
                    lemma_count_shrinks(w.status, mid.status, Status::InFlight);
                    assert forall|i: int| 0 <= i < w.status.len() && #[trigger] w.status[i]
                        == Status::Waiting implies !w.tainted(i) by {
                        lemma_skip_keeps_taint(mid, i);
                    }
                }
            },
        }
    }

    /// How the run stands.
    pub fn run_state(&self) -> (r: RunState)
        requires
            self.wf(),
        ensures
            r == self@.run_state(),
    {
        let ghost v = self@;
        let n = self.status.len();
        let mut all_good = true;
        let mut i: usize = 0;
        while i < n
            invariant
                v == self@,
                n == v.status.len(),
                n == v.late.len(),
                i <= n,
                forall|i2: int|
                    0 <= i2 < i ==> #[trigger] v.status[i2] != Status::Waiting && v.status[i2]
                        != Status::InFlight,
                all_good == forall|i2: int| 0 <= i2 < i ==> #[trigger] v.fine(i2),
            decreases n - i,
        {
            match self.status[i] {
                Status::Waiting => {
                    return RunState::Active;
                },
                Status::InFlight => {
                    return RunState::Active;
                },
                Status::Succeeded => {
                    if self.late[i] {
                        all_good = false;
                    }
                },
                _ => {
                    all_good = false;
                },
            }
            assert(v.fine(i as int) == (v.status[i as int] == Status::Succeeded && !v.late[i as int]));
            i = i + 1;
        }
        if all_good {
            RunState::Succeeded
        } else {
            RunState::Failed
        }
    }
}

} // verus!
