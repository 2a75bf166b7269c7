//! Merging the partial results of a scan over root directories, and the
//! expansion of those roots.
use vstd::prelude::*;
use crate::git::{worktree_views, Worktree, WorktreeView};

verus! {

/// What one unit of the scan contributes: nothing where it failed.
pub open spec fn contribution(part: Option<Vec<Worktree>>) -> Seq<WorktreeView> {
    match part {
        Some(v) => worktree_views(v@),
        None => Seq::empty(),
    }
}

/// The contributions of all units, one after the other.
pub open spec fn merged(parts: Seq<Option<Vec<Worktree>>>) -> Seq<WorktreeView>
    decreases parts.len(),
{
    if parts.len() == 0 {
        Seq::empty()
    } else {
        contribution(parts[0]) + merged(parts.drop_first())
    }
}

/// Merges the results of the units of a scan; a unit that failed (`None`)
/// contributes nothing and takes nothing from the others.
pub fn merge_worktrees(results: Vec<Option<Vec<Worktree>>>) -> (r: Vec<Worktree>)
    ensures
        worktree_views(r@) == merged(results@),
{
    let ghost orig = results@;
    let mut parts = results;
    let mut out: Vec<Worktree> = Vec::new();
    assert(worktree_views(out@) =~= Seq::<WorktreeView>::empty());
    assert(worktree_views(out@) + merged(parts@) =~= merged(orig));
    while parts.len() > 0
        invariant
            worktree_views(out@) + merged(parts@) == merged(orig),
        decreases parts@.len(),
    {
        let ghost before_parts = parts@;
        let ghost before_out = out@;
        let part = parts.remove(0);
        assert(parts@ =~= before_parts.drop_first());
        match part {
            Some(v) => {
                let mut v = v;
                let ghost vs = v@;
                out.append(&mut v);
                assert(worktree_views(out@) =~= worktree_views(before_out) + worktree_views(vs));
            },
            None => {},
        }
        assert(worktree_views(out@) + merged(parts@) =~= worktree_views(before_out) + merged(
            before_parts,
        ));
    }
    assert(worktree_views(out@) + merged(parts@) =~= worktree_views(out@));
    out
}

/// A unit that contributes nothing, failed or empty, leaves the merge of the
/// other units as it is.
pub proof fn lemma_merge_isolates_failure(parts: Seq<Option<Vec<Worktree>>>, k: int)
    requires
        0 <= k < parts.len(),
        contribution(parts[k]).len() == 0,
    ensures
        merged(parts) == merged(parts.remove(k)),
    decreases parts.len(),
{
    if k == 0 {
        assert(parts.remove(0) =~= parts.drop_first());
        assert(merged(parts) =~= merged(parts.drop_first()));
    } else {
        lemma_merge_isolates_failure(parts.drop_first(), k - 1);
        assert(parts.remove(k).drop_first() =~= parts.drop_first().remove(k - 1));
        assert(parts.remove(k)[0] == parts[0]);
    }
}

/// `p` starts with a tilde that `shellexpand::tilde` replaces by the home
/// directory: `~` alone or `~/...`.
pub open spec fn home_relative(p: Seq<char>) -> bool {
    p.len() >= 1 && p[0] == '~' && (p.len() == 1 || p[1] == '/')
}

/// Relies on `shellexpand::tilde`: a path that is not home-relative comes
/// back as it is; a home-relative one comes back unchanged (no home directory
/// known) or with its `~` replaced by the home directory.
#[verifier::external_body]
fn expand_tilde(p: &str) -> (r: String)
    ensures
        !home_relative(p@) ==> r@ == p@,
        home_relative(p@) ==> exists|home: Seq<char>| r@ == home + p@.drop_first(),
{
    shellexpand::tilde(p).to_string()
}

/// Expands a leading `~` of each root directory, in order.
pub fn expand_directories(directories: &Vec<String>) -> (r: Vec<String>)
    ensures
        r@.len() == directories@.len(),
        forall|i: int|
            0 <= i < r@.len() ==> {
                &&& !home_relative(#[trigger] directories@[i]@) ==> r@[i]@ == directories@[i]@
                &&& home_relative(directories@[i]@) ==> exists|home: Seq<char>|
                    r@[i]@ == home + directories@[i]@.drop_first()
            },
{
    let n = directories.len();
    let mut out: Vec<String> = Vec::new();
    let mut i: usize = 0;
    while i < n
        invariant
            i <= n,
            n == directories@.len(),
            out@.len() == i,
            forall|k: int|
                0 <= k < i ==> {
                    &&& !home_relative(#[trigger] directories@[k]@) ==> out@[k]@
                        == directories@[k]@
                    &&& home_relative(directories@[k]@) ==> exists|home: Seq<char>|
                        out@[k]@ == home + directories@[k]@.drop_first()
                },
        decreases n - i,
    {
        let e = expand_tilde(directories[i].as_str());
        out.push(e);
        i = i + 1;
    }
    out
}

} // verus!
