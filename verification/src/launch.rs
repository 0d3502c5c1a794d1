//! From a task's declaration to what its supervisor needs: the program
//! and arguments of its command line, and its supervision policy.

use vstd::prelude::*;
use vstd::string::StrSliceExecFns;
use crate::classifier::{Action, ParserSet};
use crate::config::{texts, Task};
use crate::supervisor::Policy;

verus! {

/// White space: the characters at which a command line is split.
pub open spec fn is_space(c: char) -> bool {
    let u = c as u32;
    ||| 0x09 <= u <= 0x0D
    ||| u == 0x20
    ||| u == 0x85
    ||| u == 0xA0
    ||| u == 0x1680
    ||| 0x2000 <= u <= 0x200A
    ||| u == 0x2028
    ||| u == 0x2029
    ||| u == 0x202F
    ||| u == 0x205F
    ||| u == 0x3000
}

/// The first position from `i` on that holds no white space.
pub open spec fn skip_spaces(s: Seq<char>, i: int) -> int
    decreases s.len() - i,
{
    if 0 <= i < s.len() && is_space(s[i]) {
        skip_spaces(s, i + 1)
    } else {
        i
    }
}

/// The first position from `i` on that holds white space.
pub open spec fn skip_word(s: Seq<char>, i: int) -> int
    decreases s.len() - i,
{
    if 0 <= i < s.len() && !is_space(s[i]) {
        skip_word(s, i + 1)
    } else {
        i
    }
}

/// The words of `s` from position `i` on: the maximal runs of characters
/// that are not white space, in order.
pub open spec fn words_from(s: Seq<char>, i: int) -> Seq<Seq<char>>
    decreases s.len() - i,
{
    let a = skip_spaces(s, i);
    let b = skip_word(s, a);
    if i <= a < b <= s.len() {
        seq![s.subrange(a, b)] + words_from(s, b)
    } else {
        Seq::empty()
    }
}

/// The words of a command line.
pub open spec fn words(s: Seq<char>) -> Seq<Seq<char>> {
    words_from(s, 0)
}

/// Whether `c` is white space.
pub fn space(c: char) -> (b: bool)
    ensures
        b == is_space(c),
{
    let u = c as u32;
    (0x09 <= u && u <= 0x0D) || u == 0x20 || u == 0x85 || u == 0xA0 || u == 0x1680 || (0x2000 <= u
        && u <= 0x200A) || u == 0x2028 || u == 0x2029 || u == 0x202F || u == 0x205F || u == 0x3000
}

/// Splits a command line into its words.
pub fn split_command(command: &str) -> (parts: Vec<String>)
    ensures
        texts(parts@) == words(command@),
{
    let ghost s = command@;
    let n = command.unicode_len();
    let mut parts: Vec<String> = Vec::new();
    let mut i: usize = 0;
    proof {
        assert(texts(parts@) =~= Seq::<Seq<char>>::empty());
    }
    while i < n
        invariant
            s == command@,
            n == s.len(),
            i <= n,
            words(s) == texts(parts@) + words_from(s, i as int),
        decreases n - i,
    {
        let mut a = i;
        while a < n && space(command.get_char(a))
            invariant
                s == command@,
                n == s.len(),
                i <= a <= n,
                skip_spaces(s, a as int) == skip_spaces(s, i as int),
            decreases n - a,
        {
            a = a + 1;
        }
        let mut b = a;
        while b < n && !space(command.get_char(b))
            invariant
                s == command@,
                n == s.len(),
                a <= b <= n,
                skip_word(s, b as int) == skip_word(s, a as int),
            decreases n - b,
        {
            b = b + 1;
        }
        if a < b {
            let ghost seen = texts(parts@);
            parts.push(command.substring_char(a, b).to_owned());
            proof {
                assert(texts(parts@) =~= seen.push(s.subrange(a as int, b as int)));
                assert(words_from(s, i as int) =~= seq![s.subrange(a as int, b as int)]
                    + words_from(s, b as int));
                assert(words(s) =~= texts(parts@) + words_from(s, b as int));
            }
        } else {
            proof {
                assert(a == n);
                assert(words_from(s, i as int) =~= Seq::<Seq<char>>::empty());
                assert(words_from(s, b as int) =~= Seq::<Seq<char>>::empty());
            }
        }
        i = b;
    }
    proof {
        assert(words_from(s, n as int) =~= Seq::<Seq<char>>::empty());
        assert(texts(parts@) + Seq::<Seq<char>>::empty() =~= texts(parts@));
    }
    parts
}

/// A command line has no word: a fault of the configuration.
#[derive(Clone, Copy, Debug, PartialEq, Eq, Structural)]
pub enum LaunchError {
    EmptyCommand,
}

/// The program to run and its arguments.
#[derive(Debug, Clone)]
pub struct Launch {
    pub program: String,
    pub args: Vec<String>,
}

/// The program and the arguments of a task's command line: its first
/// word and the words after it.
pub fn plan_launch(task: &Task) -> (r: Result<Launch, LaunchError>)
    ensures
        match r {
            Ok(l) => words(task.command@).len() > 0 && l.program@ == words(task.command@)[0]
                && texts(l.args@) == words(task.command@).drop_first(),
            Err(e) => words(task.command@).len() == 0,
        },
{
    let mut parts = split_command(task.command.as_str());
    if parts.len() == 0 {
        return Err(LaunchError::EmptyCommand);
    }
    let ghost all = texts(parts@);
    let program = parts.remove(0);
    assert(texts(parts@) =~= all.drop_first());
    Ok(Launch { program, args: parts })
}

/// Some rule of the set signals readiness.
pub open spec fn signals_ready(set: ParserSet) -> bool {
    exists|i: int| 0 <= i < set.rules@.len() && (#[trigger] set.rules@[i]).action == Some(Action::Ready)
}

/// The task is restarted when a watched file changes: it watches files
/// and asks for restarts.
pub open spec fn restarts_on_change(task: Task) -> bool {
    task.auto_restart == Some(true) && task.watch_files is Some && task.watch_files->0@.len() > 0
}

/// The supervision policy of a task.
pub fn policy_for(
    task: &Task,
    set: &ParserSet,
    ready_timeout_ms: u64,
    debounce_ms: u64,
    grace_ms: u64,
) -> (p: Policy)
    ensures
        p == (Policy {
            restart_on_change: restarts_on_change(*task),
            port: task.port_check,
            ready_action: signals_ready(*set),
            ready_timeout_ms,
            debounce_ms,
            grace_ms,
        }),
{
    let watches = match &task.watch_files {
        Some(files) => files.len() > 0,
        None => false,
    };
    let restarts = match task.auto_restart {
        Some(flag) => flag,
        None => false,
    };
    let n = set.rules.len();
    let mut ready_action = false;
    let mut i: usize = 0;
    while i < n
        invariant
            n == set.rules@.len(),
            i <= n,
            ready_action == exists|j: int|
                0 <= j < i && (#[trigger] set.rules@[j]).action == Some(Action::Ready),
        decreases n - i,
    {
        if let Some(Action::Ready) = set.rules[i].action {
            ready_action = true;
        }
        i = i + 1;
    }
    Policy {
        restart_on_change: restarts && watches,
        port: task.port_check,
        ready_action,
        ready_timeout_ms,
        debounce_ms,
        grace_ms,
    }
}

} // verus!
