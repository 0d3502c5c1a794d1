//! The declared configuration: tasks, parsers and global settings, with
//! the checks that make a configuration loadable.

use vstd::prelude::*;
use vstd::string::StringExecFns;
use crate::graph::{adj_graph, find_cycle, graph_wf, has_cycle, on_cycle};
use crate::name_map::NameMap;
use crate::names::names_ascending;

verus! {

/// Settings that apply to a whole run.
#[derive(Debug, Clone)]
pub struct GlobalConfig {
    pub log_level: Option<String>,
    pub max_parallel: Option<u32>,
    pub output_dir: Option<String>,
}

/// A named unit of work.
#[derive(Debug, Clone)]
pub struct Task {
    pub command: String,
    pub description: Option<String>,
    pub parsers: Option<Vec<String>>,
    pub watch_files: Option<Vec<String>>,
    pub depends_on: Option<Vec<String>>,
    pub auto_restart: Option<bool>,
    pub port_check: Option<u16>,
    pub env: Option<NameMap<String>>,
    pub working_dir: Option<String>,
}

/// An ordered list of patterns, tried top to bottom on each line.
#[derive(Debug, Clone)]
pub struct Parser {
    pub patterns: Vec<Pattern>,
}

/// One rule of a parser.
#[derive(Debug, Clone)]
pub struct Pattern {
    pub regex: String,
    pub level: String,
    pub extract: Option<String>,
    pub action: Option<String>,
}

/// A configuration as declared; `validate` decides whether it can be run.
#[derive(Debug, Clone)]
pub struct Config {
    pub global: Option<GlobalConfig>,
    pub tasks: NameMap<Task>,
    pub parsers: Option<NameMap<Parser>>,
}

/// Why a configuration or a request was turned down.
#[derive(Debug, Clone)]
pub enum ConfigError {
    /// The configuration file could not be read: its path, and the cause.
    FileRead(String, String),
    /// The configuration text is not well-formed: the cause.
    ParseError(String),
    InvalidDependency { task: String, dependency: String },
    InvalidParser { task: String, parser: String },
    CircularDependency(String),
    TaskNotFound(String),
}

/// The texts that a list of strings holds.
pub open spec fn texts(v: Seq<String>) -> Seq<Seq<char>> {
    Seq::new(v.len(), |i: int| v[i]@)
}

/// The texts that a list of borrowed strings holds.
pub open spec fn ref_texts(v: Seq<&String>) -> Seq<Seq<char>> {
    Seq::new(v.len(), |i: int| v[i]@)
}

/// The text of an optional string.
pub open spec fn opt_text(o: Option<String>) -> Option<Seq<char>> {
    match o {
        Some(s) => Some(s@),
        None => None,
    }
}

/// The texts of an optional list.
pub open spec fn opt_texts(o: Option<Vec<String>>) -> Option<Seq<Seq<char>>> {
    match o {
        Some(v) => Some(texts(v@)),
        None => None,
    }
}

/// The names in an optional list; a missing list holds none.
pub open spec fn listed_names(o: Option<Vec<String>>) -> Seq<Seq<char>> {
    match o {
        Some(v) => texts(v@),
        None => Seq::empty(),
    }
}

/// Global settings as mathematical values.
pub struct GlobalConfigView {
    pub log_level: Option<Seq<char>>,
    pub max_parallel: Option<u32>,
    pub output_dir: Option<Seq<char>>,
}

impl View for GlobalConfig {
    type V = GlobalConfigView;

    open spec fn view(&self) -> GlobalConfigView {
        GlobalConfigView {
            log_level: opt_text(self.log_level),
            max_parallel: self.max_parallel,
            output_dir: opt_text(self.output_dir),
        }
    }
}

/// A pattern as mathematical values.
pub struct PatternView {
    pub regex: Seq<char>,
    pub level: Seq<char>,
    pub extract: Option<Seq<char>>,
    pub action: Option<Seq<char>>,
}

impl View for Pattern {
    type V = PatternView;

    open spec fn view(&self) -> PatternView {
        PatternView {
            regex: self.regex@,
            level: self.level@,
            extract: opt_text(self.extract),
            action: opt_text(self.action),
        }
    }
}

impl View for Parser {
    type V = Seq<PatternView>;

    open spec fn view(&self) -> Seq<PatternView> {
        Seq::new(self.patterns@.len(), |i: int| self.patterns@[i]@)
    }
}

/// A task as mathematical values.
pub struct TaskView {
    pub command: Seq<char>,
    pub description: Option<Seq<char>>,
    pub parsers: Option<Seq<Seq<char>>>,
    pub watch_files: Option<Seq<Seq<char>>>,
    pub depends_on: Option<Seq<Seq<char>>>,
    pub auto_restart: Option<bool>,
    pub port_check: Option<u16>,
    pub env: Option<Map<Seq<char>, Seq<char>>>,
    pub working_dir: Option<Seq<char>>,
}

/// The variables of an environment table, by name.
pub open spec fn env_view(o: Option<NameMap<String>>) -> Option<Map<Seq<char>, Seq<char>>> {
    match o {
        Some(m) => Some(Map::new(|k: Seq<char>| m@.dom().contains(k), |k: Seq<char>| m@[k]@)),
        None => None,
    }
}

impl View for Task {
    type V = TaskView;

    open spec fn view(&self) -> TaskView {
        TaskView {
            command: self.command@,
            description: opt_text(self.description),
            parsers: opt_texts(self.parsers),
            watch_files: opt_texts(self.watch_files),
            depends_on: opt_texts(self.depends_on),
            auto_restart: self.auto_restart,
            port_check: self.port_check,
            env: env_view(self.env),
            working_dir: opt_text(self.working_dir),
        }
    }
}

impl Task {
    /// The names of the tasks that the task depends on, as declared.
    pub open spec fn dep_names(&self) -> Seq<Seq<char>> {
        listed_names(self.depends_on)
    }

    /// The names of the parsers bound to the task, as declared.
    pub open spec fn parser_names(&self) -> Seq<Seq<char>> {
        listed_names(self.parsers)
    }
}

/// Whether `name` occurs in `list`.
pub fn list_contains(list: &Vec<String>, name: &str) -> (r: bool)
    ensures
        r == texts(list@).contains(name@),
{
    let n = list.len();
    let mut i: usize = 0;
    while i < n
        invariant
            n == list@.len(),
            i <= n,
            forall|j: int| 0 <= j < i ==> texts(list@)[j] != name@,
        decreases n - i,
    {
        if crate::names::same_name(list[i].as_str(), name) {
            assert(texts(list@)[i as int] == name@);
            return true;
        }
        i = i + 1;
    }
    false
}

/// A copy of an optional string.
pub fn copy_opt_text(o: &Option<String>) -> (r: Option<String>)
    ensures
        opt_text(r) == opt_text(*o),
{
    match o {
        Some(s) => Some(s.clone()),
        None => None,
    }
}

/// The settings of a run that declares none.
pub open spec fn default_global() -> GlobalConfigView {
    GlobalConfigView {
        log_level: Some("info"@),
        max_parallel: Some(4u32),
        output_dir: Some(".task-logs"@),
    }
}

/// The declared settings, with the default in place of each setting
/// that is left out.
pub open spec fn with_defaults(declared: GlobalConfigView) -> GlobalConfigView {
    GlobalConfigView {
        log_level: match declared.log_level {
            Some(level) => Some(level),
            None => default_global().log_level,
        },
        max_parallel: match declared.max_parallel {
            Some(cap) => Some(cap),
            None => default_global().max_parallel,
        },
        output_dir: match declared.output_dir {
            Some(dir) => Some(dir),
            None => default_global().output_dir,
        },
    }
}

impl Config {
    /// The task names, in listing order.
    pub open spec fn names(&self) -> Seq<Seq<char>> {
        self.tasks.keys()
    }

    /// The task at position `i` of the listing.
    pub open spec fn task_at(&self, i: int) -> Task {
        self.tasks.values()[i]
    }

    /// The tables of the configuration are well-formed.
    pub open spec fn wf(&self) -> bool {
        &&& self.tasks.wf()
        &&& match self.parsers {
            Some(m) => m.wf(),
            None => true,
        }
    }

    /// A task of this name is declared.
    pub open spec fn knows_task(&self, name: Seq<char>) -> bool {
        self.tasks.has(name)
    }

    /// A parser of this name is declared.
    pub open spec fn knows_parser(&self, name: Seq<char>) -> bool {
        match self.parsers {
            Some(m) => m.has(name),
            None => false,
        }
    }

    /// The declared parser of this name.
    pub open spec fn parser_of(&self, name: Seq<char>) -> Parser {
        self.parsers->0.values()[self.parsers->0.position(name)]
    }

    /// The declared task `name` depends on nothing.
    pub open spec fn is_root(&self, name: Seq<char>) -> bool {
        self.knows_task(name) && self.task_at(self.tasks.position(name)).dep_names().len() == 0
    }

    /// The declared task `name` lists `on` among its dependencies.
    pub open spec fn is_dependent(&self, name: Seq<char>, on: Seq<char>) -> bool {
        self.knows_task(name) && self.task_at(self.tasks.position(name)).dep_names().contains(on)
    }

    /// Entry `k` of the dependencies of task `i` names no declared task.
    pub open spec fn missing_dep(&self, i: int, k: int) -> bool {
        &&& 0 <= i < self.names().len()
        &&& 0 <= k < self.task_at(i).dep_names().len()
        &&& !self.knows_task(self.task_at(i).dep_names()[k])
    }

    /// Entry `k` of the parsers of task `i` names no declared parser.
    pub open spec fn missing_parser(&self, i: int, k: int) -> bool {
        &&& 0 <= i < self.names().len()
        &&& 0 <= k < self.task_at(i).parser_names().len()
        &&& !self.knows_parser(self.task_at(i).parser_names()[k])
    }

    /// Every dependency names a declared task.
    pub open spec fn deps_resolve(&self) -> bool {
        forall|i: int, k: int| !self.missing_dep(i, k)
    }

    /// Every bound parser is declared.
    pub open spec fn parsers_resolve(&self) -> bool {
        forall|i: int, k: int| !self.missing_parser(i, k)
    }

    /// `(i, k)` is the first dangling dependency: of the first task that
    /// has one, the first in its list.
    pub open spec fn first_missing_dep(&self, i: int, k: int) -> bool {
        &&& self.missing_dep(i, k)
        &&& forall|i2: int, k2: int| #[trigger]
            self.missing_dep(i2, k2) ==> i < i2 || (i == i2 && k <= k2)
    }

    /// `(i, k)` is the first dangling parser binding.
    pub open spec fn first_missing_parser(&self, i: int, k: int) -> bool {
        &&& self.missing_parser(i, k)
        &&& forall|i2: int, k2: int| #[trigger]
            self.missing_parser(i2, k2) ==> i < i2 || (i == i2 && k <= k2)
    }

    /// The dependency graph over task positions: an edge from each task
    /// to each task it depends on.
    pub open spec fn graph(&self) -> Seq<Seq<int>> {
        Seq::new(
            self.names().len(),
            |i: int|
                Seq::new(
                    self.task_at(i).dep_names().len(),
                    |k: int| self.tasks.position(self.task_at(i).dep_names()[k]),
                ),
        )
    }

    /// The configuration can be run: all references resolve and no task
    /// depends on itself, directly or through others.
    pub open spec fn valid(&self) -> bool {
        &&& self.deps_resolve()
        &&& self.parsers_resolve()
        &&& !has_cycle(self.graph())
    }

    /// `e` is the error that turns this configuration down: the first
    /// dangling dependency; or else the first dangling parser binding; or
    /// else a task on a dependency cycle.
    pub open spec fn rejects(&self, e: ConfigError) -> bool {
        match e {
            ConfigError::InvalidDependency { task, dependency } => exists|i: int, k: int|
                #[trigger] self.first_missing_dep(i, k) && task@ == self.names()[i] && dependency@
                    == self.task_at(i).dep_names()[k],
            ConfigError::InvalidParser { task, parser } => self.deps_resolve() && exists|
                i: int,
                k: int,
            |
                #[trigger] self.first_missing_parser(i, k) && task@ == self.names()[i] && parser@
                    == self.task_at(i).parser_names()[k],
            ConfigError::CircularDependency(t) => self.deps_resolve() && self.parsers_resolve()
                && self.knows_task(t@) && on_cycle(self.graph(), self.tasks.position(t@)),
            _ => false,
        }
    }

    /// No valid configuration is turned down.
    pub proof fn lemma_rejected_is_invalid(&self, e: ConfigError)
        requires
            self.rejects(e),
        ensures
            !self.valid(),
    {
        match e {
            ConfigError::InvalidDependency { task, dependency } => {
                let (i, k) = choose|i: int, k: int| #[trigger] self.first_missing_dep(i, k);
                assert(self.missing_dep(i, k));
            },
            ConfigError::InvalidParser { task, parser } => {
                let (i, k) = choose|i: int, k: int| #[trigger] self.first_missing_parser(i, k);
                assert(self.missing_parser(i, k));
            },
            ConfigError::CircularDependency(t) => {
                let v = self.tasks.position(t@);
                let p = choose|p: Seq<int>| crate::graph::is_cycle(self.graph(), p) && p[0] == v;
                assert(crate::graph::is_cycle(self.graph(), p));
            },
            _ => {},
        }
    }

    /// Whether a task of this name is declared.
    pub fn has_task(&self, name: &str) -> (b: bool)
        ensures
            b == self.knows_task(name@),
    {
        self.tasks.contains_key(name)
    }

    /// The task of this name, if it is declared.
    pub fn get_task(&self, name: &str) -> (r: Option<&Task>)
        ensures
            match r {
                Some(t) => self.knows_task(name@) && *t == self.task_at(self.tasks.position(name@)),
                None => !self.knows_task(name@),
            },
    {
        self.tasks.get(name)
    }

    /// The settings in force: the declared ones, with the default in
    /// place of each one that is left out.
    pub open spec fn settings(&self) -> GlobalConfigView {
        match self.global {
            Some(declared) => with_defaults(declared@),
            None => default_global(),
        }
    }

    /// The global settings in force. Every setting is present: what the
    /// configuration leaves out has its default.
    pub fn get_global_config(&self) -> (g: GlobalConfig)
        ensures
            g@ == self.settings(),
            g.log_level is Some,
            g.max_parallel is Some,
            g.output_dir is Some,
    {
        match &self.global {
            Some(declared) => GlobalConfig {
                log_level: match &declared.log_level {
                    Some(level) => Some(level.clone()),
                    None => Some("info".to_owned()),
                },
                max_parallel: match declared.max_parallel {
                    Some(cap) => Some(cap),
                    None => Some(4),
                },
                output_dir: match &declared.output_dir {
                    Some(dir) => Some(dir.clone()),
                    None => Some(".task-logs".to_owned()),
                },
            },
            None => GlobalConfig {
                log_level: Some("info".to_owned()),
                max_parallel: Some(4),
                output_dir: Some(".task-logs".to_owned()),
            },
        }
    }

    /// The names at the flagged positions, in listing order.
    fn names_where(&self, flags: &Vec<bool>) -> (r: Vec<&String>)
        requires
            flags@.len() == self.names().len(),
        ensures
            names_ascending(ref_texts(r@)),
            forall|n: Seq<char>|
                ref_texts(r@).contains(n) <==> self.knows_task(n) && flags@[self.tasks.position(n)],
    {
        self.tasks.well_formed();
        let n = self.tasks.len();
        let mut out: Vec<&String> = Vec::new();
        let ghost mut picked: Seq<int> = Seq::empty();
        let mut i: usize = 0;
        while i < n
            invariant
                self.tasks.wf(),
                n == self.names().len(),
                flags@.len() == n,
                i <= n,
                picked.len() == out@.len(),
                forall|a: int|
                    0 <= a < picked.len() ==> 0 <= #[trigger] picked[a] < i && flags@[picked[a]]
                        && out@[a]@ == self.names()[picked[a]],
                forall|a: int, b: int| 0 <= a < b < picked.len() ==> picked[a] < picked[b],
                forall|j: int| 0 <= j < i && flags@[j] ==> picked.contains(j),
            decreases n - i,
        {
            if flags[i] {
                let ghost before = picked;
                out.push(self.tasks.key_at(i));
                proof {
                    picked = picked.push(i as int);
                    assert(picked[before.len() as int] == i);
                    assert forall|j: int| 0 <= j < i + 1 && flags@[j] implies picked.contains(j) by {
                        if j < i {
                            assert(before.contains(j));
                            let a = before.index_of(j);
                            assert(picked[a] == j);
                        }
                    }
                }
            }
            i = i + 1;
        }
        proof {
            let got = ref_texts(out@);
            assert forall|a: int, b: int| 0 <= a < b < got.len() implies crate::names::name_lt(
                got[a],
                got[b],
            ) by {
                assert(picked[a] < picked[b]);
            }
            assert forall|name: Seq<char>| got.contains(name) <==> self.knows_task(name)
                && flags@[self.tasks.position(name)] by {
                if got.contains(name) {
                    let a = got.index_of(name);
                    self.tasks.lemma_position(picked[a]);
                }
                if self.knows_task(name) && flags@[self.tasks.position(name)] {
                    let j = self.tasks.position(name);
                    assert(picked.contains(j));
                    let a = picked.index_of(j);
                    assert(got[a] == name);
                }
            }
        }
        out
    }

    /// The tasks that depend on nothing, in name order.
    pub fn get_root_tasks(&self) -> (r: Vec<&String>)
        ensures
            names_ascending(ref_texts(r@)),
            forall|n: Seq<char>| ref_texts(r@).contains(n) <==> self.is_root(n),
    {
        let n = self.tasks.len();
        let mut flags: Vec<bool> = Vec::new();
        let mut i: usize = 0;
        while i < n
            invariant
                n == self.names().len(),
                n == self.tasks.values().len(),
                i <= n,
                flags@.len() == i,
                forall|j: int| 0 <= j < i ==> flags@[j] == (self.task_at(j).dep_names().len() == 0),
            decreases n - i,
        {
            let task = self.tasks.value_at(i);
            let root = match &task.depends_on {
                Some(deps) => deps.len() == 0,
                None => true,
            };
            flags.push(root);
            i = i + 1;
        }
        let r = self.names_where(&flags);
        proof {
            assert forall|name: Seq<char>| ref_texts(r@).contains(name) <==> self.is_root(name) by {
                if self.knows_task(name) {
                    let j = self.tasks.position(name);
                    assert(0 <= j < n);
                }
            }
        }
        r
    }

    /// The tasks that list `task_name` among their dependencies, in name order.
    pub fn get_dependent_tasks(&self, task_name: &str) -> (r: Vec<&String>)
        ensures
            names_ascending(ref_texts(r@)),
            forall|n: Seq<char>| ref_texts(r@).contains(n) <==> self.is_dependent(n, task_name@),
    {
        let n = self.tasks.len();
        let mut flags: Vec<bool> = Vec::new();
        let mut i: usize = 0;
        while i < n
            invariant
                n == self.names().len(),
                n == self.tasks.values().len(),
                i <= n,
                flags@.len() == i,
                forall|j: int|
                    0 <= j < i ==> flags@[j] == self.task_at(j).dep_names().contains(task_name@),
            decreases n - i,
        {
            let task = self.tasks.value_at(i);
            let dependent = match &task.depends_on {
                Some(deps) => list_contains(deps, task_name),
                None => false,
            };
            flags.push(dependent);
            i = i + 1;
        }
        let r = self.names_where(&flags);
        proof {
            assert forall|name: Seq<char>| ref_texts(r@).contains(name) <==> self.is_dependent(
                name,
                task_name@,
            ) by {
                if self.knows_task(name) {
                    let j = self.tasks.position(name);
                    assert(0 <= j < n);
                }
            }
        }
        r
    }

    pub(crate) fn check_dependencies(&self) -> (r: Result<(), ConfigError>)
        ensures
            match r {
                Ok(()) => self.deps_resolve(),
                Err(e) => self.rejects(e) && e is InvalidDependency,
            },
    {
        let n = self.tasks.len();
        let mut i: usize = 0;
        while i < n
            invariant
                n == self.names().len(),
                n == self.tasks.values().len(),
                i <= n,
                forall|i2: int, k2: int| 0 <= i2 < i ==> !self.missing_dep(i2, k2),
            decreases n - i,
        {
            let task = self.tasks.value_at(i);
            match &task.depends_on {
                Some(deps) => {
                    let m = deps.len();
                    let mut k: usize = 0;
                    while k < m
                        invariant
                            n == self.names().len(),
                            i < n,
                            self.task_at(i as int).depends_on == Some(*deps),
                            m == deps@.len(),
                            k <= m,
                            forall|i2: int, k2: int| 0 <= i2 < i ==> !self.missing_dep(i2, k2),
                            forall|k2: int| 0 <= k2 < k ==> !self.missing_dep(i as int, k2),
                        decreases m - k,
                    {
                        if !self.tasks.contains_key(deps[k].as_str()) {
                            let e = ConfigError::InvalidDependency {
                                task: self.tasks.key_at(i).clone(),
                                dependency: deps[k].clone(),
                            };
                            assert(self.first_missing_dep(i as int, k as int));
                            return Err(e);
                        }
                        k = k + 1;
                    }
                },
                None => {},
            }
            i = i + 1;
        }
        Ok(())
    }

    fn check_parsers(&self) -> (r: Result<(), ConfigError>)
        requires
            self.deps_resolve(),
        ensures
            match r {
                Ok(()) => self.parsers_resolve(),
                Err(e) => self.rejects(e),
            },
    {
        let n = self.tasks.len();
        let mut i: usize = 0;
        while i < n
            invariant
                self.deps_resolve(),
                n == self.names().len(),
                n == self.tasks.values().len(),
                i <= n,
                forall|i2: int, k2: int| 0 <= i2 < i ==> !self.missing_parser(i2, k2),
            decreases n - i,
        {
            let task = self.tasks.value_at(i);
            match &task.parsers {
                Some(bound) => {
                    let m = bound.len();
                    let mut k: usize = 0;
                    while k < m
                        invariant
                            self.deps_resolve(),
                            n == self.names().len(),
                            i < n,
                            self.task_at(i as int).parsers == Some(*bound),
                            m == bound@.len(),
                            k <= m,
                            forall|i2: int, k2: int| 0 <= i2 < i ==> !self.missing_parser(i2, k2),
                            forall|k2: int| 0 <= k2 < k ==> !self.missing_parser(i as int, k2),
                        decreases m - k,
                    {
                        let known = match &self.parsers {
                            Some(table) => table.contains_key(bound[k].as_str()),
                            None => false,
                        };
                        if !known {
                            let e = ConfigError::InvalidParser {
                                task: self.tasks.key_at(i).clone(),
                                parser: bound[k].clone(),
                            };
                            assert(self.first_missing_parser(i as int, k as int));
                            return Err(e);
                        }
                        k = k + 1;
                    }
                },
                None => {},
            }
            i = i + 1;
        }
        Ok(())
    }

    /// The dependency lists by position, for a configuration whose
    /// dependencies resolve.
    pub(crate) fn dependency_lists(&self) -> (adj: Vec<Vec<usize>>)
        requires
            self.deps_resolve(),
        ensures
            adj_graph(adj@) == self.graph(),
            graph_wf(self.graph()),
            adj@.len() == self.names().len(),
    {
        let n = self.tasks.len();
        let mut adj: Vec<Vec<usize>> = Vec::new();
        let mut i: usize = 0;
        while i < n
            invariant
                self.deps_resolve(),
                n == self.names().len(),
                n == self.tasks.values().len(),
                i <= n,
                adj@.len() == i,
                forall|i2: int|
                    0 <= i2 < i ==> (#[trigger] adj@[i2])@.len() == self.task_at(
                        i2,
                    ).dep_names().len(),
                forall|i2: int, k2: int|
                    0 <= i2 < i && 0 <= k2 < adj@[i2]@.len() ==> (#[trigger] adj@[i2]@[k2]) < n
                        && adj@[i2]@[k2] == self.tasks.position(self.task_at(i2).dep_names()[k2]),
            decreases n - i,
        {
            let task = self.tasks.value_at(i);
            let mut row: Vec<usize> = Vec::new();
            match &task.depends_on {
                Some(deps) => {
                    let m = deps.len();
                    let mut k: usize = 0;
                    while k < m
                        invariant
                            self.deps_resolve(),
                            n == self.names().len(),
                            i < n,
                            self.task_at(i as int).depends_on == Some(*deps),
                            m == deps@.len(),
                            k <= m,
                            row@.len() == k,
                            forall|k2: int|
                                0 <= k2 < k ==> (#[trigger] row@[k2]) < n && row@[k2]
                                    == self.tasks.position(self.task_at(i as int).dep_names()[k2]),
                        decreases m - k,
                    {
                        match self.tasks.index_of(deps[k].as_str()) {
                            Some(j) => {
                                row.push(j);
                            },
                            None => {
                                // Never taken: every dependency resolves.
                                assert(self.missing_dep(i as int, k as int));
                                row.push(0);
                            },
                        }
                        k = k + 1;
                    }
                },
                None => {},
            }
            adj.push(row);
            i = i + 1;
        }
        proof {
            let g = adj_graph(adj@);
            let h = self.graph();
            assert(g.len() == h.len());
            assert forall|u: int| 0 <= u < g.len() implies g[u] =~= h[u] by {
                assert(adj@[u]@.len() == self.task_at(u).dep_names().len());
            }
            assert(g =~= h);
            assert forall|u: int, k: int| 0 <= u < h.len() && 0 <= k < h[u].len() implies 0
                <= #[trigger] h[u][k] < h.len() by {
                assert(g[u][k] == adj@[u]@[k]);
            }
        }
        adj
    }

    /// Checks that the configuration can be run. Dependencies are checked
    /// first, then parser bindings, then the graph for cycles.
    pub fn validate(&self) -> (r: Result<(), ConfigError>)
        ensures
            match r {
                Ok(()) => self.valid(),
                Err(e) => self.rejects(e),
            },
    {
        match self.check_dependencies() {
            Err(e) => {
                return Err(e);
            },
            Ok(()) => {},
        }
        match self.check_parsers() {
            Err(e) => {
                return Err(e);
            },
            Ok(()) => {},
        }
        let adj = self.dependency_lists();
        match find_cycle(&adj) {
            Some(v) => {
                self.tasks.well_formed();
                let name = self.tasks.key_at(v).clone();
                proof {
                    self.tasks.lemma_position(v as int);
                }
                Err(ConfigError::CircularDependency(name))
            },
            None => Ok(()),
        }
    }

    /// Builds a configuration from its parts and checks it.
    pub fn load(
        global: Option<GlobalConfig>,
        tasks: NameMap<Task>,
        parsers: Option<NameMap<Parser>>,
    ) -> (r: Result<Config, ConfigError>)
        ensures
            match r {
                Ok(c) => c == (Config { global, tasks, parsers }) && c.valid(),
                Err(e) => (Config { global, tasks, parsers }).rejects(e),
            },
    {
        let c = Config { global, tasks, parsers };
        match c.validate() {
            Ok(()) => Ok(c),
            Err(e) => Err(e),
        }
    }
}

impl ConfigError {
    /// What the error says, as text.
    pub open spec fn message_text(self) -> Seq<char> {
        match self {
            ConfigError::FileRead(path, cause) => "Failed to read config file "@ + path@ + ": "@
                + cause@,
            ConfigError::ParseError(cause) => "Failed to parse TOML: "@ + cause@,
            ConfigError::InvalidDependency { task, dependency } => "Task '"@ + task@
                + "' references unknown dependency '"@ + dependency@ + "'"@,
            ConfigError::InvalidParser { task, parser } => "Task '"@ + task@
                + "' references unknown parser '"@ + parser@ + "'"@,
            ConfigError::CircularDependency(task) => "Circular dependency detected involving task '"@
                + task@ + "'"@,
            ConfigError::TaskNotFound(task) => "Task '"@ + task@
                + "' not found in project configuration"@,
        }
    }

    /// What the error says.
    pub fn message(&self) -> (m: String)
        ensures
            m@ == self.message_text(),
    {
        match self {
            ConfigError::FileRead(path, cause) => {
                let mut m = String::from_str("Failed to read config file ");
                m.append(path.as_str());
                m.append(": ");
                m.append(cause.as_str());
                m
            },
            ConfigError::ParseError(cause) => {
                let mut m = String::from_str("Failed to parse TOML: ");
                m.append(cause.as_str());
                m
            },
            ConfigError::InvalidDependency { task, dependency } => {
                let mut m = String::from_str("Task '");
                m.append(task.as_str());
                m.append("' references unknown dependency '");
                m.append(dependency.as_str());
                m.append("'");
                m
            },
            ConfigError::InvalidParser { task, parser } => {
                let mut m = String::from_str("Task '");
                m.append(task.as_str());
                m.append("' references unknown parser '");
                m.append(parser.as_str());
                m.append("'");
                m
            },
            ConfigError::CircularDependency(task) => {
                let mut m = String::from_str("Circular dependency detected involving task '");
                m.append(task.as_str());
                m.append("'");
                m
            },
            ConfigError::TaskNotFound(task) => {
                let mut m = String::from_str("Task '");
                m.append(task.as_str());
                m.append("' not found in project configuration");
                m
            },
        }
    }
}

} // verus!
