//! Execution orders by task name.

use vstd::prelude::*;
use crate::config::{texts, Config, ConfigError};
use crate::graph::{edge, is_cycle, is_path, on_cycle, reachable, step};
use crate::names::name_lt;
use crate::order::{
    candidate, chosen_at, cycle_reachable, exec_order, is_exec_order, lemma_ancestors_first, lemma_exec_order_acyclic,
    lemma_exec_order_basics, lemma_exec_order_unique, lemma_target_last, positions,
};

verus! {

impl Config {
    /// The positions of the tasks that `r` names.
    pub open spec fn positions_of(&self, r: Seq<Seq<char>>) -> Seq<int> {
        Seq::new(r.len(), |p: int| self.tasks.position(r[p]))
    }

    /// `r` is the execution order of the task `name`: the order of its
    /// position in the dependency graph, written in names.
    pub open spec fn is_order_of(&self, name: Seq<char>, r: Seq<Seq<char>>) -> bool {
        &&& forall|p: int| 0 <= p < r.len() ==> self.knows_task(#[trigger] r[p])
        &&& is_exec_order(self.graph(), self.tasks.position(name), self.positions_of(r))
    }

    /// Running `a` takes `b`: `b` is `a` itself or one of its direct or
    /// indirect dependencies.
    pub open spec fn requires_task(&self, a: Seq<char>, b: Seq<char>) -> bool {
        &&& self.knows_task(a)
        &&& self.knows_task(b)
        &&& reachable(self.graph(), self.tasks.position(a), self.tasks.position(b))
    }

    /// `e` is the error with which the order of `name` is refused: the
    /// task is not declared; or a dependency dangles somewhere in the
    /// configuration; or the task reaches a cycle, and the error names a
    /// task on such a cycle.
    pub open spec fn refuses(&self, name: Seq<char>, e: ConfigError) -> bool {
        match e {
            ConfigError::TaskNotFound(n) => !self.knows_task(name) && n@ == name,
            ConfigError::InvalidDependency { task, dependency } => self.knows_task(name)
                && self.rejects(e),
            ConfigError::CircularDependency(n) => self.knows_task(name) && self.deps_resolve()
                && self.knows_task(n@) && reachable(
                self.graph(),
                self.tasks.position(name),
                self.tasks.position(n@),
            ) && on_cycle(self.graph(), self.tasks.position(n@)),
            _ => false,
        }
    }

    /// An execution order holds no task twice, holds exactly the tasks
    /// that running the requested one takes, holds each of them after
    /// everything it depends on, and ends with the requested task.
    pub proof fn lemma_execution_order(&self, name: Seq<char>, r: Seq<Seq<char>>)
        requires
            self.wf(),
            self.knows_task(name),
            self.is_order_of(name, r),
        ensures
            r.no_duplicates(),
            forall|x: Seq<char>| r.contains(x) <==> self.requires_task(name, x),
            forall|p: int, d: Seq<char>|
                0 <= p < r.len() && #[trigger] self.requires_task(r[p], d) && d != r[p] ==> r.take(
                    p,
                ).contains(d),
            r.len() >= 1,
            r.last() == name,
    {
        let g = self.graph();
        let t = self.tasks.position(name);
        let o = self.positions_of(r);
        lemma_exec_order_basics(g, t, o);
        assert forall|p: int| 0 <= p < r.len() implies 0 <= #[trigger] o[p] < self.names().len()
            && self.names()[o[p]] == r[p] by {
            assert(self.knows_task(r[p]));
        }
        assert forall|i: int, j: int| 0 <= i < r.len() && 0 <= j < r.len() && i != j implies r[i]
            != r[j] by {
            assert(o[i] != o[j]);
        }
        assert forall|x: Seq<char>| r.contains(x) <==> self.requires_task(name, x) by {
            if r.contains(x) {
                let p = r.index_of(x);
                assert(o[p] == self.tasks.position(x));
                assert(o.contains(o[p]));
            }
            if self.requires_task(name, x) {
                let v = self.tasks.position(x);
                assert(o.contains(v));
                let p = o.index_of(v);
                assert(r[p] == x);
            }
        }
        assert forall|p: int, d: Seq<char>|
            0 <= p < r.len() && #[trigger] self.requires_task(r[p], d) && d != r[p] implies r.take(
                p,
            ).contains(d) by {
            let v = self.tasks.position(d);
            let path = choose|path: Seq<int>| is_path(g, path) && path[0] == o[p] && path.last() == v;
            assert(self.names()[v] == d);
            assert(path.len() >= 2);
            lemma_ancestors_first(g, t, o, p, path);
            let q = o.take(p).index_of(v);
            assert(o[q] == v);
            assert(r.take(p)[q] == d);
        }
        lemma_target_last(g, t, o);
        assert(self.names()[t] == name);
    }

    /// A task has at most one execution order.
    pub proof fn lemma_execution_order_unique(&self, name: Seq<char>, a: Seq<Seq<char>>, b: Seq<Seq<char>>)
        requires
            self.is_order_of(name, a),
            self.is_order_of(name, b),
        ensures
            a == b,
    {
        let g = self.graph();
        let t = self.tasks.position(name);
        lemma_exec_order_unique(g, t, self.positions_of(a), self.positions_of(b));
        assert(a.len() == b.len());
        assert forall|p: int| 0 <= p < a.len() implies a[p] == b[p] by {
            assert(self.knows_task(a[p]) && self.knows_task(b[p]));
            assert(self.positions_of(a)[p] == self.positions_of(b)[p]);
        }
        assert(a =~= b);
    }

    /// Where a task has an execution order, no cycle can be reached from it.
    pub proof fn lemma_ordered_acyclic(&self, name: Seq<char>, r: Seq<Seq<char>>)
        requires
            self.is_order_of(name, r),
        ensures
            !cycle_reachable(self.graph(), self.tasks.position(name)),
    {
        lemma_exec_order_acyclic(self.graph(), self.tasks.position(name), self.positions_of(r));
    }

    /// Where several tasks could come next, the one with the least name
    /// does: a task of the closure that is not listed before place `p`,
    /// while all it depends on is, stands at `p` or has a greater name
    /// than the task that does.
    pub proof fn lemma_ties_by_name(&self, name: Seq<char>, r: Seq<Seq<char>>, p: int, other: Seq<char>)
        requires
            self.wf(),
            self.knows_task(name),
            self.is_order_of(name, r),
            0 <= p < r.len(),
            self.requires_task(name, other),
            !r.take(p).contains(other),
            forall|d: Seq<char>| self.is_dependent(other, d) ==> r.take(p).contains(d),
        ensures
            other == r[p] || name_lt(r[p], other),
    {
        let g = self.graph();
        let t = self.tasks.position(name);
        let o = self.positions_of(r);
        let done = o.take(p);
        let v = self.tasks.position(other);
        assert(self.names()[v] == other);
        assert(self.knows_task(r[p]));
        assert(self.names()[o[p]] == r[p]);
        assert(!done.contains(v)) by {
            if done.contains(v) {
                let q = done.index_of(v);
                assert(self.knows_task(r[q]));
                assert(r.take(p)[q] == other);
            }
        }
        assert forall|k: int| 0 <= k < g[v].len() implies done.contains(#[trigger] g[v][k]) by {
            let d = self.task_at(v).dep_names()[k];
            assert(self.is_dependent(other, d));
            let q = r.take(p).index_of(d);
            assert(r[q] == d);
            assert(done[q] == g[v][k]);
        }
        assert(candidate(g, t, done, v));
        assert(chosen_at(g, t, o, p));
        if o[p] != v {
            assert(name_lt(self.names()[o[p]], self.names()[v]));
        }
    }

    /// A valid configuration refuses the order of none of its tasks.
    pub proof fn lemma_valid_is_ordered(&self, name: Seq<char>, e: ConfigError)
        requires
            self.valid(),
            self.knows_task(name),
        ensures
            !self.refuses(name, e),
    {
        if self.refuses(name, e) {
            match e {
                ConfigError::InvalidDependency { task, dependency } => {
                    self.lemma_rejected_is_invalid(e);
                },
                ConfigError::CircularDependency(n) => {
                    let g = self.graph();
                    let v = self.tasks.position(n@);
                    let c = choose|c: Seq<int>| is_cycle(g, c) && c[0] == v;
                    assert(is_cycle(g, c));
                },
                _ => {},
            }
        }
    }

    /// Two tasks that depend on each other lie on a cycle, so a
    /// configuration that holds them is never valid.
    pub proof fn lemma_mutual_dependency(&self, a: Seq<char>, b: Seq<char>)
        requires
            self.is_dependent(a, b),
            self.is_dependent(b, a),
        ensures
            on_cycle(self.graph(), self.tasks.position(a)),
            on_cycle(self.graph(), self.tasks.position(b)),
            !self.valid(),
    {
        let g = self.graph();
        let pa = self.tasks.position(a);
        let pb = self.tasks.position(b);
        let ka = self.task_at(pa).dep_names().index_of(b);
        let kb = self.task_at(pb).dep_names().index_of(a);
        assert(g[pa][ka] == pb);
        assert(g[pb][kb] == pa);
        assert(edge(g, pa, pb));
        assert(edge(g, pb, pa));
        let c = seq![pa, pb, pa];
        assert forall|i: int| 0 <= i < c.len() - 1 implies #[trigger] step(g, c, i) by {}
        assert(is_cycle(g, c) && c[0] == pa);
        let d = seq![pb, pa, pb];
        assert forall|i: int| 0 <= i < d.len() - 1 implies #[trigger] step(g, d, i) by {}
        assert(is_cycle(g, d) && d[0] == pb);
    }

    /// Where all references resolve and two tasks that depend on each
    /// other are the only ones on a cycle, the configuration is turned
    /// down for a circular dependency that names one of the two.
    pub proof fn lemma_mutual_dependency_named(&self, a: Seq<char>, b: Seq<char>, e: ConfigError)
        requires
            self.wf(),
            self.is_dependent(a, b),
            self.is_dependent(b, a),
            self.deps_resolve(),
            self.parsers_resolve(),
            forall|v: int|
                on_cycle(self.graph(), v) ==> v == self.tasks.position(a) || v
                    == self.tasks.position(b),
            self.rejects(e),
        ensures
            e matches ConfigError::CircularDependency(n) && (n@ == a || n@ == b),
    {
        match e {
            ConfigError::InvalidDependency { task, dependency } => {
                let (i, k) = choose|i: int, k: int| #[trigger] self.first_missing_dep(i, k);
                assert(self.missing_dep(i, k));
            },
            ConfigError::InvalidParser { task, parser } => {
                let (i, k) = choose|i: int, k: int| #[trigger] self.first_missing_parser(i, k);
                assert(self.missing_parser(i, k));
            },
            ConfigError::CircularDependency(n) => {
                let v = self.tasks.position(n@);
                assert(self.names()[v] == n@);
                assert(self.names()[self.tasks.position(a)] == a);
                assert(self.names()[self.tasks.position(b)] == b);
            },
            _ => {},
        }
    }

    /// The order in which to run `task_name` and everything it depends
    /// on: dependencies first, the least name first where there is a
    /// choice. Fails where the task is not declared, where a dependency
    /// dangles, and where the task reaches a cycle.
    pub fn get_exec_order(&self, task_name: &str) -> (r: Result<Vec<String>, ConfigError>)
        ensures
            match r {
                Ok(order) => self.knows_task(task_name@) && self.deps_resolve() && !cycle_reachable(
                    self.graph(),
                    self.tasks.position(task_name@),
                ) && self.is_order_of(task_name@, texts(order@)),
                Err(e) => self.refuses(task_name@, e),
            },
    {
        let t = match self.tasks.index_of(task_name) {
            Some(t) => t,
            None => {
                return Err(ConfigError::TaskNotFound(task_name.to_owned()));
            },
        };
        match self.check_dependencies() {
            Err(e) => {
                return Err(e);
            },
            Ok(()) => {},
        }
        let adj = self.dependency_lists();
        match exec_order(&adj, t) {
            Err(v) => {
                self.tasks.well_formed();
                proof {
                    self.tasks.lemma_position(v as int);
                }
                Err(ConfigError::CircularDependency(self.tasks.key_at(v).clone()))
            },
            Ok(o) => {
                self.tasks.well_formed();
                let m = o.len();
                let mut out: Vec<String> = Vec::new();
                let mut p: usize = 0;
                while p < m
                    invariant
                        self.tasks.wf(),
                        m == o@.len(),
                        p <= m,
                        out@.len() == p,
                        forall|i: int| 0 <= i < o@.len() ==> #[trigger] o@[i] < self.names().len(),
                        forall|q: int| 0 <= q < p ==> (#[trigger] out@[q])@ == self.names()[o@[q] as int],
                    decreases m - p,
                {
                    out.push(self.tasks.key_at(o[p]).clone());
                    p = p + 1;
                }
                proof {
                    let r = texts(out@);
                    assert forall|q: int| 0 <= q < r.len() implies self.knows_task(#[trigger] r[q])
                        && self.tasks.position(r[q]) == o@[q] by {
                        assert(out@[q]@ == self.names()[o@[q] as int]);
                        self.tasks.lemma_position(o@[q] as int);
                    }
                    assert(self.positions_of(r) =~= positions(o@));
                }
                Ok(out)
            },
        }
    }
}

} // verus!
