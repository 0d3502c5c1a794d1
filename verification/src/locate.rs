//! Where the configuration file is looked for.

use vstd::prelude::*;
use crate::config::texts;

verus! {

/// The file names under which a configuration is looked for, most
/// preferred first.
pub open spec fn config_names() -> Seq<Seq<char>> {
    seq!["taskr.toml"@, ".taskr.toml"@, "tasks.toml"@, "task_runner.toml"@]
}

/// The file names under which a configuration is looked for.
pub fn config_file_names() -> (names: Vec<String>)
    ensures
        texts(names@) == config_names(),
{
    let mut names: Vec<String> = Vec::new();
    names.push("taskr.toml".to_owned());
    names.push(".taskr.toml".to_owned());
    names.push("tasks.toml".to_owned());
    names.push("task_runner.toml".to_owned());
    assert(texts(names@) =~= config_names());
    names
}

/// The file `name` exists in the directory `dir`.
pub open spec fn present(found: Seq<Vec<bool>>, dir: int, name: int) -> bool {
    0 <= dir < found.len() && 0 <= name < found[dir]@.len() && found[dir]@[name]
}

/// Picks the configuration file. `found` says for each directory, from
/// the current one up to the root, which of the names exist in it. The
/// nearest directory that holds one wins, and in it the preferred name.
pub fn select_config_file(found: &Vec<Vec<bool>>) -> (r: Option<(usize, usize)>)
    ensures
        match r {
            Some((dir, name)) => present(found@, dir as int, name as int) && forall|d: int, n: int|
                #[trigger] present(found@, d, n) ==> dir < d || (dir == d && name <= n),
            None => forall|d: int, n: int| !present(found@, d, n),
        },
{
    let dirs = found.len();
    let mut d: usize = 0;
    while d < dirs
        invariant
            dirs == found@.len(),
            d <= dirs,
            forall|d2: int, n2: int| 0 <= d2 < d ==> !present(found@, d2, n2),
        decreases dirs - d,
    {
        let names = found[d].len();
        let mut n: usize = 0;
        while n < names
            invariant
                dirs == found@.len(),
                d < dirs,
                names == found@[d as int]@.len(),
                n <= names,
                forall|d2: int, n2: int| 0 <= d2 < d ==> !present(found@, d2, n2),
                forall|n2: int| 0 <= n2 < n ==> !present(found@, d as int, n2),
            decreases names - n,
        {
            if found[d][n] {
                return Some((d, n));
            }
            n = n + 1;
        }
        d = d + 1;
    }
    None
}

} // verus!
