//! The lines handed to the interactive picker.
use vstd::prelude::*;
use vstd::string::*;
use crate::git::{base_name, part_of, worktree_views, Worktree, WorktreeView};
use crate::text::{
    find_char, find_from, free_of, has_prefix, lemma_split_on_field, lemma_split_on_whole, split_on,
    starts_with, trim_str, trimmed, views,
};

verus! {

/// The first eight characters of a commit hash, or all of a shorter one.
pub open spec fn short_commit(commit: Seq<char>) -> Seq<char> {
    if commit.len() >= 8 {
        commit.subrange(0, 8)
    } else {
        commit
    }
}

/// A branch name without its `refs/heads/` prefix.
pub open spec fn clean_branch(branch: Seq<char>) -> Seq<char> {
    if has_prefix(branch, "refs/heads/"@) {
        branch.subrange("refs/heads/"@.len() as int, branch.len() as int)
    } else {
        branch
    }
}

/// `name \t path \t branch \t commit \t (branch) [short]`, with the branch
/// cleaned.
pub open spec fn display_line(w: WorktreeView) -> Seq<char> {
    base_name(w.path) + "\t"@ + w.path + "\t"@ + clean_branch(w.branch) + "\t"@ + w.commit
        + "\t("@ + clean_branch(w.branch) + ") ["@ + short_commit(w.commit) + "]"@
}

/// The record holds no tab, so its picker line splits back into columns.
pub open spec fn tab_free(w: WorktreeView) -> bool {
    free_of(w.path, '\t') && free_of(w.branch, '\t') && free_of(w.commit, '\t')
}

/// The tab-separated columns of a picker line: directory name, path,
/// cleaned branch, commit, and the `(branch) [short]` summary.
pub open spec fn display_columns(w: WorktreeView) -> Seq<Seq<char>> {
    seq![
        base_name(w.path),
        w.path,
        clean_branch(w.branch),
        w.commit,
        "("@ + clean_branch(w.branch) + ") ["@ + short_commit(w.commit) + "]"@,
    ]
}

proof fn lemma_part_free(part: Seq<char>, whole: Seq<char>, c: char)
    requires
        part_of(part, whole),
        free_of(whole, c),
    ensures
        free_of(part, c),
{
    let i = choose|i: int|
        0 <= i && i + part.len() <= whole.len() && #[trigger] whole.subrange(i, i + part.len())
            == part;
    assert forall|k: int| 0 <= k < part.len() implies part[k] != c by {
        assert(part[k] == whole[i + k]);
    }
}

#[verifier::rlimit(50)]
proof fn lemma_columns(w: WorktreeView)
    requires
        tab_free(w),
        free_of(base_name(w.path), '\t'),
    ensures
        split_on(display_line(w), '\t') == display_columns(w),
{
    reveal_strlit("\t");
    reveal_strlit("\t(");
    reveal_strlit("(");
    reveal_strlit(") [");
    reveal_strlit("]");
    let a0 = base_name(w.path);
    let a2 = clean_branch(w.branch);
    let a4 = "("@ + a2 + ") ["@ + short_commit(w.commit) + "]"@;
    assert(free_of(a2, '\t')) by {
        if has_prefix(w.branch, "refs/heads/"@) {
            assert forall|k: int| 0 <= k < a2.len() implies a2[k] != '\t' by {
                assert(a2[k] == w.branch[k + "refs/heads/"@.len()]);
            }
        }
    }
    assert(free_of(short_commit(w.commit), '\t')) by {
        if w.commit.len() >= 8 {
            assert forall|k: int| 0 <= k < 8 implies short_commit(w.commit)[k] != '\t' by {
                assert(short_commit(w.commit)[k] == w.commit[k]);
            }
        }
    }
    let sc = short_commit(w.commit);
    assert(free_of(a4, '\t')) by {
        assert("("@ =~= seq!['(']);
        assert(") ["@ =~= seq![')', ' ', '[']);
        assert("]"@ =~= seq![']']);
    }
    let l1 = a0.push('\t') + w.path;
    let l2 = l1.push('\t') + a2;
    let l3 = l2.push('\t') + w.commit;
    let l4 = l3.push('\t') + a4;
    assert(display_line(w) =~= l4) by {
        assert("\t"@ =~= seq!['\t']);
        assert("\t("@ =~= seq!['\t', '(']);
        assert("("@ =~= seq!['(']);
        assert(a0 + "\t"@ =~= a0.push('\t'));
        assert(a0 + "\t"@ + w.path =~= l1);
        assert(l1 + "\t"@ + a2 =~= l2);
        assert(l2 + "\t"@ + w.commit =~= l3);
        assert(l3 + "\t("@ =~= l3.push('\t') + "("@);
        assert(l3.push('\t') + "("@ + a2 + ") ["@ + sc + "]"@ =~= l4);
    }
    lemma_split_on_whole(a0, '\t');
    lemma_split_on_field(a0, w.path, '\t');
    lemma_split_on_field(l1, a2, '\t');
    lemma_split_on_field(l2, w.commit, '\t');
    lemma_split_on_field(l3, a4, '\t');
    assert(seq![a0].push(w.path).push(a2).push(w.commit).push(a4) =~= display_columns(w));
}

pub fn short_commit_of(commit: &str) -> (r: &str)
    ensures
        r@ == short_commit(commit@),
{
    let n = commit.unicode_len();
    if n >= 8 {
        commit.substring_char(0, 8)
    } else {
        commit
    }
}

pub fn clean_branch_of(branch: &str) -> (r: &str)
    ensures
        r@ == clean_branch(branch@),
{
    let prefix = "refs/heads/";
    if starts_with(branch, prefix) {
        branch.substring_char(prefix.unicode_len(), branch.unicode_len())
    } else {
        branch
    }
}

/// The picker line of one worktree.
pub fn format_worktree(w: &Worktree) -> (r: String)
    ensures
        r@ == display_line(w@),
        tab_free(w@) ==> split_on(r@, '\t') == display_columns(w@),
{
    let branch = clean_branch_of(w.branch.as_str());
    let short = short_commit_of(w.commit.as_str());
    let mut line = w.dir_name();
    proof {
        if tab_free(w@) {
            lemma_part_free(line@, w.path@, '\t');
            lemma_columns(w@);
        }
    }
    line.append("\t");
    line.append(w.path.as_str());
    line.append("\t");
    line.append(branch);
    line.append("\t");
    line.append(w.commit.as_str());
    line.append("\t(");
    line.append(branch);
    line.append(") [");
    line.append(short);
    line.append("]");
    line
}

/// One picker line per worktree, in order.
pub fn format_worktrees(worktrees: &[Worktree]) -> (r: Vec<String>)
    ensures
        views(r@) == worktree_views(worktrees@).map_values(|w: WorktreeView| display_line(w)),
        forall|i: int|
            0 <= i < r@.len() && tab_free(#[trigger] worktrees@[i]@) ==> split_on(r@[i]@, '\t')
                == display_columns(worktrees@[i]@),
{
    let n = worktrees.len();
    let mut out: Vec<String> = Vec::new();
    let mut i: usize = 0;
    while i < n
        invariant
            i <= n,
            n == worktrees@.len(),
            views(out@) == worktree_views(worktrees@.subrange(0, i as int)).map_values(
                |w: WorktreeView| display_line(w),
            ),
            out@.len() == i,
            forall|k: int|
                0 <= k < i && tab_free(#[trigger] worktrees@[k]@) ==> split_on(out@[k]@, '\t')
                    == display_columns(worktrees@[k]@),
        decreases n - i,
    {
        let line = format_worktree(&worktrees[i]);
        let ghost before = out@;
        out.push(line);
        assert(views(out@) =~= worktree_views(worktrees@.subrange(0, i + 1)).map_values(
            |w: WorktreeView| display_line(w),
        )) by {
            assert(views(out@) =~= views(before).push(line@));
        }
        i = i + 1;
    }
    assert(worktrees@.subrange(0, n as int) =~= worktrees@);
    out
}

/// The picker's answer: its output without surrounding whitespace, where
/// the picker succeeded and something is left.
pub open spec fn choice_of(success: bool, output: Seq<char>) -> Option<Seq<char>> {
    if success && trimmed(output).len() > 0 {
        Some(trimmed(output))
    } else {
        None
    }
}

pub fn picker_choice(success: bool, output: &str) -> (r: Option<String>)
    ensures
        match r {
            Some(c) => choice_of(success, output@) == Some(c@),
            None => choice_of(success, output@) is None,
        },
{
    if !success {
        return None;
    }
    let t = trim_str(output);
    if t.unicode_len() == 0 {
        None
    } else {
        Some(t.to_string())
    }
}

/// The second tab-separated column of a picker line: the worktree's path.
pub open spec fn second_column(line: Seq<char>) -> Option<Seq<char>> {
    let i = find_from(line, '\t', 0);
    if i < line.len() {
        let rest = line.subrange(i + 1, line.len() as int);
        Some(rest.subrange(0, find_from(rest, '\t', 0)))
    } else {
        None
    }
}

pub fn selected_path(line: &str) -> (r: Option<String>)
    ensures
        match r {
            Some(p) => second_column(line@) == Some(p@),
            None => second_column(line@) is None,
        },
{
    let n = line.unicode_len();
    let i = find_char(line, '\t');
    if i < n {
        let rest = line.substring_char(i + 1, n);
        let j = find_char(rest, '\t');
        Some(rest.substring_char(0, j).to_string())
    } else {
        None
    }
}

} // verus!
