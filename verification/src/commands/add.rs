//! Adding a task: from the answers of an interview to the task they
//! describe, and the configuration that holds it.

use vstd::prelude::*;
use vstd::string::StrSliceExecFns;
use crate::config::{opt_text, opt_texts, texts, Config, Parser, Pattern, PatternView, Task, TaskView};
use crate::launch::{is_space, skip_spaces, space};
use crate::name_map::NameMap;
use crate::names::same_name;

verus! {

/// The arguments of the `add` subcommand; it has none.
#[derive(Debug, Clone, Copy, PartialEq, Eq, Structural)]
pub struct AddArgs {}

/// The end of the text before position `j` once trailing white space is
/// cut off.
pub open spec fn trim_end(s: Seq<char>, j: int) -> int
    decreases j,
{
    if 0 < j <= s.len() && is_space(s[j - 1]) {
        trim_end(s, j - 1)
    } else {
        j
    }
}

/// The text without leading and trailing white space.
pub open spec fn trimmed(s: Seq<char>) -> Seq<char> {
    let a = skip_spaces(s, 0);
    let b = trim_end(s, s.len() as int);
    if 0 <= a < b <= s.len() {
        s.subrange(a, b)
    } else {
        Seq::empty()
    }
}

/// The first position from `i` on that holds a comma.
pub open spec fn next_comma(s: Seq<char>, i: int) -> int
    decreases s.len() - i,
{
    if 0 <= i < s.len() && s[i] != ',' {
        next_comma(s, i + 1)
    } else {
        i
    }
}

/// The entries of a comma-separated list from position `i` on: each
/// piece between commas, trimmed, unless nothing is left of it.
pub open spec fn entries_from(s: Seq<char>, i: int) -> Seq<Seq<char>>
    decreases s.len() - i,
{
    let c = next_comma(s, i);
    if 0 <= i <= c <= s.len() {
        let entry = trimmed(s.subrange(i, c));
        let first = if entry.len() > 0 {
            seq![entry]
        } else {
            Seq::empty()
        };
        if c < s.len() {
            first + entries_from(s, c + 1)
        } else {
            first
        }
    } else {
        Seq::empty()
    }
}

/// The entries of a comma-separated list.
pub open spec fn list_entries(s: Seq<char>) -> Seq<Seq<char>> {
    entries_from(s, 0)
}

/// The text without leading and trailing white space.
pub fn trim(text: &str) -> (r: String)
    ensures
        r@ == trimmed(text@),
{
    let ghost s = text@;
    let n = text.unicode_len();
    let mut a: usize = 0;
    while a < n && space(text.get_char(a))
        invariant
            s == text@,
            n == s.len(),
            a <= n,
            skip_spaces(s, a as int) == skip_spaces(s, 0),
        decreases n - a,
    {
        a = a + 1;
    }
    let mut b: usize = n;
    while b > 0 && space(text.get_char(b - 1))
        invariant
            s == text@,
            n == s.len(),
            b <= n,
            trim_end(s, b as int) == trim_end(s, n as int),
        decreases b,
    {
        b = b - 1;
    }
    if a < b {
        text.substring_char(a, b).to_owned()
    } else {
        String::new()
    }
}

/// The files named in a comma-separated list.
pub fn parse_watch_files(input: &str) -> (files: Vec<String>)
    ensures
        texts(files@) == list_entries(input@),
{
    let ghost s = input@;
    let n = input.unicode_len();
    let mut files: Vec<String> = Vec::new();
    let mut i: usize = 0;
    let mut done = false;
    proof {
        assert(texts(files@) =~= Seq::<Seq<char>>::empty());
        assert(Seq::<Seq<char>>::empty() + entries_from(s, 0) =~= entries_from(s, 0));
    }
    while !done
        invariant
            s == input@,
            n == s.len(),
            i <= n,
            !done ==> list_entries(s) == texts(files@) + entries_from(s, i as int),
            done ==> list_entries(s) == texts(files@),
        decreases (if done { 0int } else { 1int }) + n - i,
    {
        let mut c = i;
        while c < n && input.get_char(c) != ','
            invariant
                s == input@,
                n == s.len(),
                i <= c <= n,
                next_comma(s, c as int) == next_comma(s, i as int),
            decreases n - c,
        {
            c = c + 1;
        }
        let entry = trim(input.substring_char(i, c));
        let ghost seen = texts(files@);
        let ghost first = if entry@.len() > 0 {
            seq![entry@]
        } else {
            Seq::<Seq<char>>::empty()
        };
        if entry.as_str().unicode_len() > 0 {
            files.push(entry);
        }
        proof {
            assert(texts(files@) =~= seen + first);
        }
        if c < n {
            proof {
                assert(seen + (first + entries_from(s, c + 1)) =~= (seen + first) + entries_from(
                    s,
                    c + 1,
                ));
            }
            i = c + 1;
        } else {
            done = true;
        }
    }
    files
}

/// The value of a decimal digit.
pub open spec fn digit_value(c: char) -> int {
    c as u32 - '0' as u32
}

/// Whether `c` is one of the digits `0` to `9`.
pub open spec fn is_digit(c: char) -> bool {
    '0' as u32 <= c as u32 <= '9' as u32
}

/// The number that a string of decimal digits writes.
pub open spec fn decimal_value(ds: Seq<char>) -> int
    decreases ds.len(),
{
    if ds.len() == 0 {
        0
    } else {
        decimal_value(ds.drop_last()) * 10 + digit_value(ds.last())
    }
}

/// The digits of a number text: the text itself, without a leading `+`.
pub open spec fn digits_of(s: Seq<char>) -> Seq<char> {
    if s.len() > 0 && s[0] == '+' {
        s.drop_first()
    } else {
        s
    }
}

/// The port that a text writes: one or more decimal digits, a `+`
/// before them or not, with a value of at most 65535.
pub open spec fn port_value(s: Seq<char>) -> Option<u16> {
    let ds = digits_of(s);
    if ds.len() > 0 && (forall|i: int| 0 <= i < ds.len() ==> is_digit(#[trigger] ds[i]))
        && decimal_value(ds) <= 65535 {
        Some(decimal_value(ds) as u16)
    } else {
        None
    }
}

proof fn lemma_decimal_grows(ds: Seq<char>, i: int)
    requires
        0 <= i <= ds.len(),
        forall|j: int| 0 <= j < ds.len() ==> is_digit(#[trigger] ds[j]),
    ensures
        0 <= decimal_value(ds.take(i)) <= decimal_value(ds),
    decreases ds.len() - i,
{
    if i == ds.len() {
        assert(ds.take(i) =~= ds);
        lemma_decimal_nonnegative(ds);
    } else {
        lemma_decimal_grows(ds, i + 1);
        assert(ds.take(i + 1).drop_last() =~= ds.take(i));
        assert(is_digit(ds[i]));
        lemma_decimal_nonnegative(ds.take(i));
    }
}

proof fn lemma_decimal_nonnegative(ds: Seq<char>)
    requires
        forall|j: int| 0 <= j < ds.len() ==> is_digit(#[trigger] ds[j]),
    ensures
        0 <= decimal_value(ds),
    decreases ds.len(),
{
    if ds.len() > 0 {
        lemma_decimal_nonnegative(ds.drop_last());
        assert(is_digit(ds[ds.len() - 1]));
    }
}

/// The port that the text writes; `None` for an empty text and for one
/// that writes no port.
pub fn parse_port(input: &str) -> (r: Option<u16>)
    ensures
        r == port_value(input@),
{
    let ghost s = input@;
    let ghost ds = digits_of(s);
    let n = input.unicode_len();
    if n == 0 {
        return None;
    }
    let start: usize = if input.get_char(0) == '+' {
        1
    } else {
        0
    };
    if start == n {
        return None;
    }
    let mut acc: u32 = 0;
    let mut i: usize = start;
    while i < n
        invariant
            s == input@,
            ds == digits_of(s),
            n == s.len(),
            start <= i <= n,
            start == s.len() - ds.len(),
            forall|j: int| 0 <= j < ds.len() ==> ds[j] == s[j + start],
            forall|j: int| 0 <= j < i - start ==> is_digit(#[trigger] ds[j]),
            acc == decimal_value(ds.take(i - start)),
            acc <= 65535,
        decreases n - i,
    {
        let c = input.get_char(i);
        let u = c as u32;
        if u < '0' as u32 || u > '9' as u32 {
            assert(!is_digit(ds[i - start]));
            return None;
        }
        let next = acc * 10 + (u - '0' as u32);
        proof {
            assert(ds.take(i - start + 1).drop_last() =~= ds.take(i - start));
            assert(ds.take(i - start + 1).last() == c);
        }
        if next > 65535 {
            proof {
                if forall|j: int| 0 <= j < ds.len() ==> is_digit(#[trigger] ds[j]) {
                    lemma_decimal_grows(ds, i - start + 1);
                }
            }
            return None;
        }
        acc = next;
        i = i + 1;
    }
    proof {
        assert(ds.take(n - start) =~= ds);
    }
    Some(acc as u16)
}

/// What the interview about a new task has brought.
#[derive(Debug, Clone)]
pub struct TaskAnswers {
    pub command: String,
    pub description: String,
    pub depends_on: Option<Vec<String>>,
    pub watch_files: String,
    pub auto_restart: bool,
    pub working_dir: String,
    pub port_check: String,
    /// The names of the parsers configured for the task.
    pub parsers: Vec<String>,
}

/// A text, unless it is empty.
pub open spec fn some_text(s: Seq<char>) -> Option<Seq<char>> {
    if s.len() == 0 {
        None
    } else {
        Some(s)
    }
}

/// A list, unless it is empty.
pub open spec fn some_list(l: Seq<Seq<char>>) -> Option<Seq<Seq<char>>> {
    if l.len() == 0 {
        None
    } else {
        Some(l)
    }
}

/// The task that the answers describe: an empty answer leaves the
/// setting out, and a task that is not to restart says nothing of it.
pub open spec fn described_task(a: TaskAnswers) -> TaskView {
    TaskView {
        command: a.command@,
        description: some_text(a.description@),
        parsers: some_list(texts(a.parsers@)),
        watch_files: some_list(list_entries(a.watch_files@)),
        depends_on: opt_texts(a.depends_on),
        auto_restart: if a.auto_restart {
            Some(true)
        } else {
            None
        },
        port_check: port_value(a.port_check@),
        env: None,
        working_dir: some_text(a.working_dir@),
    }
}

fn text_or_none(s: String) -> (r: Option<String>)
    ensures
        opt_text(r) == some_text(s@),
{
    if s.as_str().unicode_len() == 0 {
        None
    } else {
        Some(s)
    }
}

fn list_or_none(l: Vec<String>) -> (r: Option<Vec<String>>)
    ensures
        opt_texts(r) == some_list(texts(l@)),
{
    if l.len() == 0 {
        None
    } else {
        Some(l)
    }
}

/// Makes the task that the answers describe.
pub fn build_task(answers: TaskAnswers) -> (t: Task)
    ensures
        t@ == described_task(answers),
{
    let watch_files = parse_watch_files(answers.watch_files.as_str());
    let port_check = parse_port(answers.port_check.as_str());
    Task {
        command: answers.command,
        description: text_or_none(answers.description),
        parsers: list_or_none(answers.parsers),
        watch_files: list_or_none(watch_files),
        depends_on: answers.depends_on,
        auto_restart: if answers.auto_restart {
            Some(true)
        } else {
            None
        },
        port_check,
        env: None,
        working_dir: text_or_none(answers.working_dir),
    }
}

/// The names at the chosen positions of a list: `None` where nothing
/// is chosen.
pub fn selected_names(names: &Vec<String>, chosen: &Vec<usize>) -> (r: Option<Vec<String>>)
    requires
        forall|i: int| 0 <= i < chosen@.len() ==> #[trigger] chosen@[i] < names@.len(),
    ensures
        match r {
            None => chosen@.len() == 0,
            Some(picked) => chosen@.len() > 0 && picked@.len() == chosen@.len() && forall|i: int|
                0 <= i < chosen@.len() ==> (#[trigger] picked@[i])@ == names@[chosen@[i] as int]@,
        },
{
    let n = chosen.len();
    if n == 0 {
        return None;
    }
    let mut picked: Vec<String> = Vec::new();
    let mut i: usize = 0;
    while i < n
        invariant
            n == chosen@.len(),
            i <= n,
            picked@.len() == i,
            forall|j: int| 0 <= j < chosen@.len() ==> #[trigger] chosen@[j] < names@.len(),
            forall|j: int| 0 <= j < i ==> (#[trigger] picked@[j])@ == names@[chosen@[j] as int]@,
        decreases n - i,
    {
        picked.push(names[chosen[i]].clone());
        i = i + 1;
    }
    Some(picked)
}

/// The names of the declared tasks, in name order.
pub fn get_tasks_from_config(config: &Config) -> (names: Vec<String>)
    ensures
        texts(names@) == config.names(),
{
    let n = config.tasks.len();
    let mut names: Vec<String> = Vec::new();
    let mut i: usize = 0;
    while i < n
        invariant
            n == config.names().len(),
            i <= n,
            names@.len() == i,
            forall|j: int| 0 <= j < i ==> (#[trigger] names@[j])@ == config.names()[j],
        decreases n - i,
    {
        names.push(config.tasks.key_at(i).clone());
        i = i + 1;
    }
    assert(texts(names@) =~= config.names());
    names
}

/// A parser of one pattern, as the interview about a custom parser
/// describes it; an empty field name extracts nothing.
pub fn custom_parser(regex: String, level: String, extract: String) -> (p: Parser)
    ensures
        p@ == seq![
            PatternView { regex: regex@, level: level@, extract: some_text(extract@), action: None },
        ],
{
    let mut patterns: Vec<Pattern> = Vec::new();
    patterns.push(Pattern { regex, level, extract: text_or_none(extract), action: None });
    let p = Parser { patterns };
    assert(p@ =~= seq![
        PatternView { regex: regex@, level: level@, extract: some_text(extract@), action: None },
    ]);
    p
}

/// A pattern of a predefined parser.
pub open spec fn preset(regex: Seq<char>, level: Seq<char>, extract: Option<Seq<char>>) -> PatternView {
    PatternView { regex, level, extract, action: None }
}

/// The patterns of the predefined parser `name`; a name that stands
/// for none has no patterns.
pub open spec fn predefined_patterns(name: Seq<char>) -> Seq<PatternView> {
    if name == "yarn-install"@ {
        seq![
            preset("warning (.+)"@, "warn"@, Some("message"@)),
            preset("error (.+)"@, "error"@, Some("message"@)),
            preset("✨  Done in (.+)s"@, "success"@, Some("duration"@)),
        ]
    } else if name == "nextjs"@ {
        seq![
            preset("ready - started server on.+"@, "success"@, None),
            preset("event - compiled (.+)"@, "info"@, Some("status"@)),
            preset("wait  - compiling"@, "info"@, None),
            preset("Error: (.+)"@, "error"@, Some("message"@)),
        ]
    } else if name == "webpack-dev"@ {
        seq![
            preset("webpack compiled with (\\d+) warning"@, "warn"@, Some("count"@)),
            preset("webpack compiled successfully"@, "success"@, None),
            preset("Module not found: (.+)"@, "error"@, Some("message"@)),
        ]
    } else if name == "nx-serve"@ {
        seq![
            preset("Web Development Server is listening"@, "success"@, None),
            preset("Application bundle generation complete"@, "info"@, None),
            preset("ERROR in (.+)"@, "error"@, Some("message"@)),
        ]
    } else if name == "typescript"@ {
        seq![
            preset("Found (\\d+) error"@, "error"@, Some("count"@)),
            preset("Compiled successfully"@, "success"@, None),
        ]
    } else if name == "jest"@ {
        seq![
            preset("PASS (.+)"@, "success"@, Some("file"@)),
            preset("FAIL (.+)"@, "error"@, Some("file"@)),
            preset("Tests:\\s+(\\d+) passed"@, "info"@, Some("passed"@)),
        ]
    } else {
        Seq::empty()
    }
}

fn extracting(regex: &str, level: &str, field: &str) -> (p: Pattern)
    ensures
        p@ == preset(regex@, level@, Some(field@)),
{
    Pattern {
        regex: regex.to_owned(),
        level: level.to_owned(),
        extract: Some(field.to_owned()),
        action: None,
    }
}

fn plain(regex: &str, level: &str) -> (p: Pattern)
    ensures
        p@ == preset(regex@, level@, None),
{
    Pattern { regex: regex.to_owned(), level: level.to_owned(), extract: None, action: None }
}

/// The predefined parser of the given name.
pub fn get_predefined_parser(name: &str) -> (parser: Parser)
    ensures
        parser@ == predefined_patterns(name@),
{
    let mut patterns: Vec<Pattern> = Vec::new();
    if same_name(name, "yarn-install") {
        patterns.push(extracting("warning (.+)", "warn", "message"));
        patterns.push(extracting("error (.+)", "error", "message"));
        patterns.push(extracting("✨  Done in (.+)s", "success", "duration"));
    } else if same_name(name, "nextjs") {
        patterns.push(plain("ready - started server on.+", "success"));
        patterns.push(extracting("event - compiled (.+)", "info", "status"));
        patterns.push(plain("wait  - compiling", "info"));
        patterns.push(extracting("Error: (.+)", "error", "message"));
    } else if same_name(name, "webpack-dev") {
        patterns.push(extracting("webpack compiled with (\\d+) warning", "warn", "count"));
        patterns.push(plain("webpack compiled successfully", "success"));
        patterns.push(extracting("Module not found: (.+)", "error", "message"));
    } else if same_name(name, "nx-serve") {
        patterns.push(plain("Web Development Server is listening", "success"));
        patterns.push(plain("Application bundle generation complete", "info"));
        patterns.push(extracting("ERROR in (.+)", "error", "message"));
    } else if same_name(name, "typescript") {
        patterns.push(extracting("Found (\\d+) error", "error", "count"));
        patterns.push(plain("Compiled successfully", "success"));
    } else if same_name(name, "jest") {
        patterns.push(extracting("PASS (.+)", "success", "file"));
        patterns.push(extracting("FAIL (.+)", "error", "file"));
        patterns.push(extracting("Tests:\\s+(\\d+) passed", "info", "passed"));
    }
    let parser = Parser { patterns };
    assert(parser@ =~= predefined_patterns(name@));
    parser
}

/// The names of the predefined parsers, in the order in which they are
/// offered.
pub open spec fn predefined_names() -> Seq<Seq<char>> {
    seq!["yarn-install"@, "nextjs"@, "webpack-dev"@, "nx-serve"@, "typescript"@, "jest"@]
}

/// The names of the predefined parsers.
pub fn predefined_parser_names() -> (names: Vec<String>)
    ensures
        texts(names@) == predefined_names(),
{
    let mut names: Vec<String> = Vec::new();
    names.push("yarn-install".to_owned());
    names.push("nextjs".to_owned());
    names.push("webpack-dev".to_owned());
    names.push("nx-serve".to_owned());
    names.push("typescript".to_owned());
    names.push("jest".to_owned());
    assert(texts(names@) =~= predefined_names());
    names
}

/// The predefined parsers at the chosen positions of the offer, by name.
pub fn predefined_selection(chosen: &Vec<usize>) -> (parsers: NameMap<Parser>)
    requires
        forall|i: int| 0 <= i < chosen@.len() ==> #[trigger] chosen@[i] < 6,
    ensures
        forall|k: Seq<char>|
            parsers.has(k) <==> exists|i: int|
                0 <= i < chosen@.len() && predefined_names()[#[trigger] chosen@[i] as int] == k,
        forall|k: Seq<char>|
            parsers.has(k) ==> parsers.values()[parsers.position(k)]@ == predefined_patterns(k),
{
    let offer = predefined_parser_names();
    assert(offer@.len() == 6) by {
        assert(predefined_names().len() == 6);
        assert(texts(offer@).len() == offer@.len());
    }
    let mut parsers: NameMap<Parser> = NameMap::new();
    let n = chosen.len();
    let mut i: usize = 0;
    while i < n
        invariant
            n == chosen@.len(),
            i <= n,
            texts(offer@) == predefined_names(),
            offer@.len() == 6,
            forall|j: int| 0 <= j < chosen@.len() ==> #[trigger] chosen@[j] < 6,
            forall|k: Seq<char>|
                #![trigger parsers.has(k)]
                parsers.has(k) <==> exists|j: int|
                    0 <= j < i && predefined_names()[#[trigger] chosen@[j] as int] == k,
            forall|k: Seq<char>|
                #![trigger parsers.has(k)]
                parsers.has(k) ==> parsers.values()[parsers.position(k)]@ == predefined_patterns(k),
        decreases n - i,
    {
        let name = offer[chosen[i]].clone();
        assert(name@ == predefined_names()[chosen@[i as int] as int]) by {
            assert(texts(offer@)[chosen@[i as int] as int] == offer@[chosen@[i as int] as int]@);
        }
        let parser = get_predefined_parser(name.as_str());
        let ghost before = parsers;
        let ghost key = name@;
        parsers.insert(name, parser);
        proof {
            assert forall|k: Seq<char>|
                #![trigger parsers.has(k)]
                parsers.has(k) <==> exists|j: int|
                    0 <= j < i + 1 && predefined_names()[#[trigger] chosen@[j] as int] == k by {
                if k == key {
                    assert(predefined_names()[chosen@[i as int] as int] == k);
                } else {
                    if before.has(k) {
                        let j = choose|j: int|
                            0 <= j < i && predefined_names()[#[trigger] chosen@[j] as int] == k;
                        assert(0 <= j < i + 1);
                    }
                }
            }
        }
        i = i + 1;
    }
    parsers
}

impl Config {
    /// Declares the task `name` and the parsers configured with it. A
    /// task or a parser that was declared under the same name is
    /// replaced.
    pub fn insert_task(&mut self, name: String, task: Task, parsers: NameMap<Parser>)
        ensures
            final(self).global == old(self).global,
            final(self).tasks@ == old(self).tasks@.insert(name@, task),
            final(self).parsers is Some,
            forall|k: Seq<char>|
                final(self).knows_parser(k) <==> old(self).knows_parser(k) || parsers.has(k),
            forall|k: Seq<char>|
                parsers.has(k) ==> final(self).parser_of(k) == parsers.values()[parsers.position(k)],
            forall|k: Seq<char>|
                old(self).knows_parser(k) && !parsers.has(k) ==> final(self).parser_of(k) == old(self).parser_of(k),
    {
        self.tasks.insert(name, task);
        let mut table: Option<NameMap<Parser>> = None;
        core::mem::swap(&mut table, &mut self.parsers);
        let mut merged = match table {
            Some(m) => m,
            None => NameMap::new(),
        };
        let ghost base = merged;
        assert forall|k: Seq<char>| #[trigger] base.has(k) == old(self).knows_parser(k) by {}
        assert forall|k: Seq<char>| old(self).knows_parser(k) implies #[trigger] base.values()[base.position(k)]
            == old(self).parser_of(k) by {}
        merged.merge(parsers);
        let ghost all = merged;
        self.parsers = Some(merged);
        assert forall|k: Seq<char>|
            self.knows_parser(k) <==> old(self).knows_parser(k) || parsers.has(k) by {
            assert(self.knows_parser(k) == all.has(k));
            assert(all.has(k) <==> base.has(k) || parsers.has(k));
        }
    }
}

} // verus!
