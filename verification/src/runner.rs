//! From a request to run a task to the plan of the run: the tasks in
//! execution order, and a scheduler that knows which of them each one
//! waits for.

use vstd::prelude::*;
use crate::classifier::{binding_ok, bound_rules, load_fails_with, ClassifierError, ParserSet};
use crate::config::{texts, Config, ConfigError};
use crate::graph::{edge, is_cycle, is_path, on_cycle, reachable, step};
use crate::names::same_name;
use crate::scheduler::{dep_lists, initial_run, Scheduler};

verus! {

/// The plan of one run.
#[derive(Debug)]
pub struct RunPlan {
    /// The tasks of the run, in execution order.
    pub order: Vec<String>,
    /// The scheduler of the run; its positions are those of `order`.
    pub scheduler: Scheduler,
}

impl Config {
    /// The concurrency cap: that of the settings in force.
    pub open spec fn parallel_cap(&self) -> int {
        self.settings().max_parallel->0 as int
    }

    /// For each task of the order `r`, the places in `r` of the tasks it
    /// depends on.
    pub open spec fn order_deps(&self, r: Seq<Seq<char>>) -> Seq<Seq<int>> {
        Seq::new(
            r.len(),
            |p: int|
                Seq::new(
                    self.task_at(self.tasks.position(r[p])).dep_names().len(),
                    |k: int| r.index_of(self.task_at(self.tasks.position(r[p])).dep_names()[k]),
                ),
        )
    }

    /// In an execution order, every direct dependency of a listed task
    /// stands before it.
    pub proof fn lemma_direct_deps_first(&self, name: Seq<char>, r: Seq<Seq<char>>, p: int, k: int)
        requires
            self.wf(),
            self.deps_resolve(),
            self.knows_task(name),
            self.is_order_of(name, r),
            0 <= p < r.len(),
            0 <= k < self.task_at(self.tasks.position(r[p])).dep_names().len(),
        ensures
            r.take(p).contains(self.task_at(self.tasks.position(r[p])).dep_names()[k]),
    {
        let g = self.graph();
        let u = self.tasks.position(r[p]);
        let d = self.task_at(u).dep_names()[k];
        let v = self.tasks.position(d);
        self.lemma_execution_order(name, r);
        assert(self.knows_task(r[p]));
        assert(!self.missing_dep(u, k));
        assert(g[u][k] == v);
        assert(edge(g, u, v)) by {
            assert(g[u].contains(v));
        }
        let path = seq![u, v];
        assert forall|i: int| 0 <= i < path.len() - 1 implies #[trigger] step(g, path, i) by {}
        assert(is_path(g, path) && path[0] == u && path.last() == v);
        assert(self.requires_task(r[p], d));
        if d == r[p] {
            assert(is_cycle(g, path) && path[0] == u);
            assert(r.contains(r[p]));
            assert(self.requires_task(name, r[p]));
            self.lemma_ordered_acyclic(name, r);
            assert(reachable(g, self.tasks.position(name), u) && on_cycle(g, u));
        }
    }

    /// Plans the run of `task_name`: the execution order, and a
    /// scheduler over it with the configured concurrency cap.
    pub fn plan_run(&self, task_name: &str) -> (r: Result<RunPlan, ConfigError>)
        ensures
            match r {
                Ok(plan) => self.is_order_of(task_name@, texts(plan.order@)) && plan.scheduler.wf()
                    && plan.scheduler@ == initial_run(
                    self.order_deps(texts(plan.order@)),
                    self.parallel_cap(),
                ),
                Err(e) => self.refuses(task_name@, e),
            },
    {
        let order = match self.get_exec_order(task_name) {
            Ok(order) => order,
            Err(e) => {
                return Err(e);
            },
        };
        self.tasks.well_formed();
        match &self.parsers {
            Some(m) => {
                m.well_formed();
            },
            None => {},
        }
        let ghost r = texts(order@);
        proof {
            self.lemma_execution_order(task_name@, r);
        }
        let n = order.len();
        let mut deps: Vec<Vec<usize>> = Vec::new();
        let mut p: usize = 0;
        while p < n
            invariant
                self.wf(),
                self.deps_resolve(),
                self.knows_task(task_name@),
                self.is_order_of(task_name@, r),
                r == texts(order@),
                r.no_duplicates(),
                n == order@.len(),
                p <= n,
                deps@.len() == p,
                forall|p2: int|
                    0 <= p2 < p ==> (#[trigger] deps@[p2])@.len() == self.order_deps(r)[p2].len(),
                forall|p2: int, k2: int|
                    0 <= p2 < p && 0 <= k2 < deps@[p2]@.len() ==> (#[trigger] deps@[p2]@[k2]) < p2
                        && deps@[p2]@[k2] == self.order_deps(r)[p2][k2],
            decreases n - p,
        {
            let mut row: Vec<usize> = Vec::new();
            assert(self.knows_task(r[p as int]));
            let task = match self.get_task(order[p].as_str()) {
                Some(t) => t,
                None => {
                    // Never taken: the order lists declared tasks only.
                    return Err(ConfigError::TaskNotFound(task_name.to_owned()));
                },
            };
            match &task.depends_on {
                Some(names) => {
                    let m = names.len();
                    let mut k: usize = 0;
                    while k < m
                        invariant
                            self.wf(),
                            self.deps_resolve(),
                            self.knows_task(task_name@),
                            self.is_order_of(task_name@, r),
                            r == texts(order@),
                            r.no_duplicates(),
                            n == order@.len(),
                            p < n,
                            self.task_at(self.tasks.position(r[p as int])).depends_on == Some(
                                *names,
                            ),
                            m == names@.len(),
                            k <= m,
                            row@.len() == k,
                            forall|k2: int|
                                0 <= k2 < k ==> (#[trigger] row@[k2]) < p && row@[k2]
                                    == self.order_deps(r)[p as int][k2],
                        decreases m - k,
                    {
                        proof {
                            self.lemma_direct_deps_first(task_name@, r, p as int, k as int);
                        }
                        let ghost d = names@[k as int]@;
                        let mut q: usize = 0;
                        while q < p && !same_name(order[q].as_str(), names[k].as_str())
                            invariant
                                r == texts(order@),
                                n == order@.len(),
                                p < n,
                                q <= p,
                                k < names@.len(),
                                d == names@[k as int]@,
                                forall|q2: int| 0 <= q2 < q ==> r[q2] != d,
                            decreases p - q,
                        {
                            q = q + 1;
                        }
                        proof {
                            let w = r.take(p as int).index_of(d);
                            assert(r[w] == d);
                            assert(q < p);
                            assert(r[q as int] == d);
                            let i = r.index_of(d);
                            assert(r.contains(d));
                            assert(i == q);
                        }
                        row.push(q);
                        k = k + 1;
                    }
                },
                None => {},
            }
            deps.push(row);
            p = p + 1;
        }
        proof {
            let g = dep_lists(deps@);
            let h = self.order_deps(r);
            assert forall|u: int| 0 <= u < g.len() implies g[u] =~= h[u] by {
                assert(deps@[u]@.len() == h[u].len());
            }
            assert(g =~= h);
            assert forall|j: int, k: int| 0 <= j < g.len() && 0 <= k < g[j].len() implies 0
                <= #[trigger] g[j][k] < j by {
                assert(g[j][k] == deps@[j]@[k]);
            }
        }
        let cap = match self.get_global_config().max_parallel {
            Some(c) => c as usize,
            // Never taken: the settings in force hold a cap.
            None => 0,
        };
        match Scheduler::new(deps, cap) {
            Some(scheduler) => Ok(RunPlan { order, scheduler }),
            // Never taken: every dependency stands before its task.
            None => Err(ConfigError::TaskNotFound(task_name.to_owned())),
        }
    }
}

impl Config {
    /// The parsers bound to the task `name`; none for a task that is
    /// not declared.
    pub open spec fn bindings_of(&self, name: Seq<char>) -> Seq<Seq<char>> {
        if self.knows_task(name) {
            self.task_at(self.tasks.position(name)).parser_names()
        } else {
            Seq::empty()
        }
    }

    /// Every parser bound to the task `name` can be used.
    pub open spec fn bindings_usable(&self, name: Seq<char>) -> bool {
        forall|k: int|
            0 <= k < self.bindings_of(name).len() ==> binding_ok(
                self.parsers,
                #[trigger] self.bindings_of(name)[k],
            )
    }

    /// The rule sets of the listed tasks, made before any of them runs:
    /// one set for each task, in the order of the list, or the first
    /// fault of the first task whose bindings cannot be used.
    pub fn rule_sets(&self, order: &Vec<String>) -> (r: Result<Vec<ParserSet>, ClassifierError>)
        ensures
            match r {
                Ok(sets) => sets@.len() == order@.len() && forall|p: int|
                    0 <= p < order@.len() ==> self.bindings_usable(#[trigger] texts(order@)[p])
                        && sets@[p]@ == bound_rules(
                        self.parsers,
                        self.bindings_of(texts(order@)[p]),
                    ),
                Err(e) => exists|p: int|
                    0 <= p < order@.len() && (forall|p2: int|
                        0 <= p2 < p ==> self.bindings_usable(#[trigger] texts(order@)[p2]))
                        && load_fails_with(
                        self.parsers,
                        self.bindings_of(#[trigger] texts(order@)[p]),
                        e,
                    ),
            },
    {
        let ghost names = texts(order@);
        let n = order.len();
        let mut sets: Vec<ParserSet> = Vec::new();
        let mut p: usize = 0;
        while p < n
            invariant
                names == texts(order@),
                n == order@.len(),
                p <= n,
                sets@.len() == p,
                forall|p2: int|
                    0 <= p2 < p ==> self.bindings_usable(#[trigger] names[p2]) && sets@[p2]@
                        == bound_rules(self.parsers, self.bindings_of(names[p2])),
            decreases n - p,
        {
            assert(names[p as int] == order@[p as int]@);
            let made = match self.get_task(order[p].as_str()) {
                Some(task) => ParserSet::for_task(&self.parsers, task),
                None => ParserSet::load(&self.parsers, &Vec::new()),
            };
            match made {
                Ok(set) => {
                    sets.push(set);
                },
                Err(e) => {
                    return Err(e);
                },
            }
            p = p + 1;
        }
        Ok(sets)
    }

}

} // verus!
