//! The settings that choose the root directories and the ordering.
use vstd::prelude::*;
use crate::text::{same_chars, split_list, split_on, trimmed, views};

verus! {

/// Root directories to scan, and an optional ordering (`"tmux"`).
pub struct Config {
    pub directories: Vec<String>,
    pub sort: Option<String>,
}

impl Default for Config {
    fn default() -> (r: Config)
        ensures
            r.directories@.len() == 0,
            r.sort is None,
    {
        Config { directories: Vec::new(), sort: None }
    }
}

impl Config {
    /// Whether the worktrees are to be ordered by tmux session recency.
    pub fn sorts_by_tmux(&self) -> (r: bool)
        ensures
            r == match self.sort {
                Some(s) => s@ == "tmux"@,
                None => false,
            },
    {
        match &self.sort {
            Some(s) => same_chars(s.as_str(), "tmux"),
            None => false,
        }
    }
}

impl Config {
    /// The root directories to scan: those of a comma-separated command-line
    /// value where one is given, each trimmed, else those of the config.
    pub fn directories_from(&self, arg: Option<&str>) -> (r: Vec<String>)
        ensures
            views(r@) == match arg {
                Some(a) => split_on(a@, ',').map_values(|p: Seq<char>| trimmed(p)),
                None => views(self.directories@),
            },
    {
        match arg {
            Some(a) => split_list(a),
            None => {
                let n = self.directories.len();
                let mut out: Vec<String> = Vec::new();
                let mut i: usize = 0;
                while i < n
                    invariant
                        i <= n,
                        n == self.directories@.len(),
                        views(out@) == views(self.directories@.subrange(0, i as int)),
                    decreases n - i,
                {
                    let d = self.directories[i].clone();
                    let ghost before = out@;
                    out.push(d);
                    assert(views(out@) =~= views(self.directories@.subrange(0, i + 1))) by {
                        assert(views(out@) =~= views(before).push(d@));
                    }
                    i = i + 1;
                }
                assert(self.directories@.subrange(0, n as int) =~= self.directories@);
                out
            },
        }
    }
}

} // verus!
