//! Worktree records and the parser for `git worktree list --porcelain`.
use vstd::prelude::*;
use vstd::string::*;
use crate::text::{
    has_prefix, join_lines, lemma_lines_of_blank_after, lemma_lines_of_join, lines_of, pieces, plain_line, second_field, split_lines,
    starts_with, take_second_field, views,
};

verus! {

/// One checked-out worktree of a repository.
pub struct Worktree {
    pub path: String,
    pub branch: String,
    pub commit: String,
}

pub struct WorktreeView {
    pub path: Seq<char>,
    pub branch: Seq<char>,
    pub commit: Seq<char>,
}

impl View for Worktree {
    type V = WorktreeView;

    open spec fn view(&self) -> WorktreeView {
        WorktreeView { path: self.path@, branch: self.branch@, commit: self.commit@ }
    }
}

pub open spec fn worktree_views(v: Seq<Worktree>) -> Seq<WorktreeView> {
    v.map_values(|w: Worktree| w@)
}

/// Failure to run a git command; the field names the command.
pub enum GitError {
    FailedToExecuteCmd(String),
}

impl GitError {
    /// The human-readable message: `Failed to execute <command>`.
    pub fn message(&self) -> (r: String)
        ensures
            match self {
                GitError::FailedToExecuteCmd(cmd) => r@ == "Failed to execute "@ + cmd@,
            },
    {
        match self {
            GitError::FailedToExecuteCmd(cmd) => {
                let mut r = String::from_str("Failed to execute ");
                r.append(cmd.as_str());
                r
            },
        }
    }
}

/// The parser's accumulators between two lines of input.
pub struct ParseState {
    pub path: Seq<char>,
    pub branch: Seq<char>,
    pub commit: Seq<char>,
    /// A `bare` line was seen in the current block.
    pub bare: bool,
    pub records: Seq<WorktreeView>,
}

/// The state with empty accumulators after `records` were emitted.
pub open spec fn fresh(records: Seq<WorktreeView>) -> ParseState {
    ParseState {
        path: Seq::empty(),
        branch: Seq::empty(),
        commit: Seq::empty(),
        bare: false,
        records,
    }
}

pub open spec fn field_after(line: Seq<char>, key: Seq<char>, prev: Seq<char>) -> Seq<char> {
    if has_prefix(line, key) {
        second_field(line)
    } else {
        prev
    }
}

/// One line of porcelain output; `last` tells whether it ends the input.
/// A blank line or the end of the input closes the block, which yields a
/// record when it named a path and held no `bare` line.
pub open spec fn step(st: ParseState, line: Seq<char>, last: bool) -> ParseState {
    let bare = st.bare || has_prefix(line, "bare"@);
    let path = if has_prefix(line, "bare"@) {
        Seq::empty()
    } else {
        field_after(line, "worktree"@, st.path)
    };
    let branch = field_after(line, "branch"@, st.branch);
    let commit = field_after(line, "HEAD"@, st.commit);
    if line.len() == 0 || last {
        let records = if path.len() > 0 && !bare {
            st.records.push(WorktreeView { path, branch, commit })
        } else {
            st.records
        };
        fresh(records)
    } else {
        ParseState { path, branch, commit, bare, records: st.records }
    }
}

/// Feeds `lines` to the parser from `st`; the final line ends the input.
pub open spec fn run(st: ParseState, lines: Seq<Seq<char>>) -> ParseState
    decreases lines.len(),
{
    if lines.len() == 0 {
        st
    } else {
        run(step(st, lines[0], lines.len() == 1), lines.drop_first())
    }
}

/// The records that porcelain output made of `lines` describes.
pub open spec fn parse_lines(lines: Seq<Seq<char>>) -> Seq<WorktreeView> {
    run(fresh(Seq::empty()), lines).records
}

pub open spec fn parse_porcelain(s: Seq<char>) -> Seq<WorktreeView> {
    parse_lines(lines_of(s))
}

/// Parses the output of `git worktree list --porcelain` into worktree
/// records, in the order in which they appear.
pub fn parse_worktrees_output(output: &str) -> (r: Result<Vec<Worktree>, GitError>)
    ensures
        match r {
            Ok(v) => worktree_views(v@) == parse_porcelain(output@),
            Err(_) => false,
        },
{
    let lines = split_lines(output);
    let ghost all = views(lines@);
    let n = lines.len();
    let mut worktrees: Vec<Worktree> = Vec::new();
    let mut path = String::new();
    let mut branch = String::new();
    let mut commit = String::new();
    let mut bare = false;
    let mut i: usize = 0;
    assert(all.subrange(0, n as int) =~= all);
    assert(worktree_views(worktrees@) =~= Seq::<WorktreeView>::empty());
    assert(path@ =~= Seq::<char>::empty());
    while i < n
        invariant
            i <= n,
            n == lines@.len(),
            all == views(lines@),
            all == lines_of(output@),
            run(
                ParseState {
                    path: path@,
                    branch: branch@,
                    commit: commit@,
                    bare,
                    records: worktree_views(worktrees@),
                },
                all.subrange(i as int, n as int),
            ).records == parse_porcelain(output@),
        decreases n - i,
    {
        let ghost st = ParseState {
            path: path@,
            branch: branch@,
            commit: commit@,
            bare,
            records: worktree_views(worktrees@),
        };
        let line = lines[i].as_str();
        assert(line@ == all[i as int]);
        assert(all.subrange(i as int, n as int).drop_first() =~= all.subrange(i + 1, n as int));
        if starts_with(line, "worktree") {
            path = take_second_field(line);
        }
        if starts_with(line, "branch") {
            branch = take_second_field(line);
        }
        if starts_with(line, "HEAD") {
            commit = take_second_field(line);
        }
        if starts_with(line, "bare") {
            path = String::new();
            bare = true;
        }
        if line.unicode_len() == 0 || i + 1 == n {
            if path.as_str().unicode_len() > 0 && !bare {
                let ghost before = worktrees@;
                worktrees.push(
                    Worktree { path: path.clone(), branch: branch.clone(), commit: commit.clone() },
                );
                assert(worktree_views(worktrees@) =~= worktree_views(before).push(
                    WorktreeView { path: path@, branch: branch@, commit: commit@ },
                ));
            }
            path = String::new();
            branch = String::new();
            commit = String::new();
            bare = false;
        }
        assert(ParseState {
            path: path@,
            branch: branch@,
            commit: commit@,
            bare,
            records: worktree_views(worktrees@),
        } == step(st, all[i as int], i + 1 == n));
        i = i + 1;
    }
    Ok(worktrees)
}

} // verus!

verus! {

/// The final component of `path` as `std::path::Path::file_name` gives it.
pub uninterp spec fn file_name_of(path: Seq<char>) -> Option<Seq<char>>;

/// Relies on `std::path::Path::file_name`: it parses the path alone, so the
/// result depends on the characters of `path` and on nothing else. A name
/// that is not valid UTF-8 counts as absent, as `OsStr::to_str` reports it.
/// The name is a component of the path, so a run of its characters.
#[verifier::external_body]
fn file_name(path: &str) -> (r: Option<String>)
    ensures
        file_name_of(path@) == match r {
            Some(n) => Some(n@),
            None => None::<Seq<char>>,
        },
        match r {
            Some(n) => part_of(n@, path@),
            None => true,
        },
{
    std::path::Path::new(path).file_name().and_then(|n| n.to_str()).map(|n| n.to_string())
}

/// `part` is a run of consecutive characters of `whole`.
pub open spec fn part_of(part: Seq<char>, whole: Seq<char>) -> bool {
    exists|i: int|
        0 <= i && i + part.len() <= whole.len() && #[trigger] whole.subrange(i, i + part.len()) == part
}

/// The directory name of a worktree path: its final component, or the whole
/// path where it has none.
pub open spec fn base_name(path: Seq<char>) -> Seq<char> {
    match file_name_of(path) {
        Some(n) => n,
        None => path,
    }
}

impl Worktree {
    /// The worktree's directory name, the key into the session map.
    pub fn dir_name(&self) -> (r: String)
        ensures
            r@ == base_name(self.path@),
            part_of(r@, self.path@),
    {
        match file_name(self.path.as_str()) {
            Some(n) => n,
            None => {
                let p = self.path.clone();
                assert(self.path@.subrange(0int, 0int + p@.len()) =~= p@);
                assert(part_of(p@, self.path@));
                p
            },
        }
    }
}

} // verus!

verus! {

/// Feeds `lines` to the parser from `st`, none of them ending the input.
pub open spec fn feed(st: ParseState, lines: Seq<Seq<char>>) -> ParseState
    decreases lines.len(),
{
    if lines.len() == 0 {
        st
    } else {
        feed(step(st, lines[0], false), lines.drop_first())
    }
}

/// The value of the last line of `block` that starts with `key`, empty when
/// there is none.
pub open spec fn last_field(block: Seq<Seq<char>>, key: Seq<char>) -> Seq<char>
    decreases block.len(),
{
    if block.len() == 0 {
        Seq::empty()
    } else if has_prefix(block.last(), key) {
        second_field(block.last())
    } else {
        last_field(block.drop_last(), key)
    }
}

/// The record that a block of porcelain lines describes.
pub open spec fn block_record(block: Seq<Seq<char>>) -> WorktreeView {
    WorktreeView {
        path: last_field(block, "worktree"@),
        branch: last_field(block, "branch"@),
        commit: last_field(block, "HEAD"@),
    }
}

/// Lines with no blank line and no `bare` marker among them.
pub open spec fn plain_lines(block: Seq<Seq<char>>) -> bool {
    forall|i: int| 0 <= i < block.len() ==> block[i].len() > 0 && !has_prefix(#[trigger] block[i], "bare"@)
}

/// A block of one worktree: plain lines that name a path.
pub open spec fn worktree_block(block: Seq<Seq<char>>) -> bool {
    &&& block.len() > 0
    &&& plain_lines(block)
    &&& block_record(block).path.len() > 0
}

/// Blocks joined by one blank line each.
pub open spec fn joined(blocks: Seq<Seq<Seq<char>>>) -> Seq<Seq<char>>
    decreases blocks.len(),
{
    if blocks.len() == 0 {
        Seq::empty()
    } else if blocks.len() == 1 {
        blocks[0]
    } else {
        blocks[0].push(Seq::empty()) + joined(blocks.drop_first())
    }
}

proof fn lemma_keys_nonempty()
    ensures
        "worktree"@.len() == 8,
        "branch"@.len() == 6,
        "HEAD"@.len() == 4,
        "bare"@.len() == 4,
{
    reveal_strlit("worktree");
    reveal_strlit("branch");
    reveal_strlit("HEAD");
    reveal_strlit("bare");
}

proof fn lemma_run_split(st: ParseState, a: Seq<Seq<char>>, b: Seq<Seq<char>>)
    requires
        b.len() > 0,
    ensures
        run(st, a + b) == run(feed(st, a), b),
    decreases a.len(),
{
    if a.len() == 0 {
        assert(a + b =~= b);
    } else {
        assert((a + b).drop_first() =~= a.drop_first() + b);
        assert((a + b)[0] == a[0]);
        lemma_run_split(step(st, a[0], false), a.drop_first(), b);
    }
}

proof fn lemma_feed_push(st: ParseState, a: Seq<Seq<char>>, x: Seq<char>)
    ensures
        feed(st, a.push(x)) == step(feed(st, a), x, false),
    decreases a.len(),
{
    if a.len() == 0 {
        assert(a.push(x).drop_first() =~= Seq::<Seq<char>>::empty());
        assert(a.push(x)[0] == x);
        assert(feed(step(st, x, false), Seq::<Seq<char>>::empty()) == step(st, x, false));
        assert(feed(st, a) == st);
    } else {
        assert(a.push(x).drop_first() =~= a.drop_first().push(x));
        assert(a.push(x)[0] == a[0]);
        lemma_feed_push(step(st, a[0], false), a.drop_first(), x);
    }
}

proof fn lemma_feed_plain(records: Seq<WorktreeView>, block: Seq<Seq<char>>)
    requires
        plain_lines(block),
    ensures
        feed(fresh(records), block) == (ParseState {
            path: last_field(block, "worktree"@),
            branch: last_field(block, "branch"@),
            commit: last_field(block, "HEAD"@),
            bare: false,
            records,
        }),
    decreases block.len(),
{
    if block.len() > 0 {
        let init = block.drop_last();
        assert(plain_lines(init)) by {
            assert forall|i: int| 0 <= i < init.len() implies init[i].len() > 0 && !has_prefix(
                #[trigger] init[i],
                "bare"@,
            ) by {
                assert(init[i] == block[i]);
            }
        }
        lemma_feed_plain(records, init);
        assert(init.push(block.last()) =~= block);
        lemma_feed_push(fresh(records), init, block.last());
        assert(block.last() == block[block.len() - 1]);
    }
}

proof fn lemma_last_block(records: Seq<WorktreeView>, block: Seq<Seq<char>>)
    requires
        worktree_block(block),
    ensures
        run(fresh(records), block) == fresh(records.push(block_record(block))),
{
    let init = block.drop_last();
    assert(plain_lines(init)) by {
        assert forall|i: int| 0 <= i < init.len() implies init[i].len() > 0 && !has_prefix(
            #[trigger] init[i],
            "bare"@,
        ) by {
            assert(init[i] == block[i]);
        }
    }
    lemma_feed_plain(records, init);
    assert(init + seq![block.last()] =~= block);
    lemma_run_split(fresh(records), init, seq![block.last()]);
    assert(block.last() == block[block.len() - 1]);
    assert(seq![block.last()].drop_first() =~= Seq::<Seq<char>>::empty());
    assert(seq![block.last()][0] == block.last());
    assert(block[block.len() - 1].len() > 0);
    let st = feed(fresh(records), init);
    assert(run(step(st, block.last(), true), Seq::<Seq<char>>::empty()) == step(st, block.last(), true));
    assert(run(fresh(records), block) == step(st, block.last(), true));
}

proof fn lemma_joined_nonempty(blocks: Seq<Seq<Seq<char>>>)
    requires
        blocks.len() > 0,
        blocks[0].len() > 0,
    ensures
        joined(blocks).len() > 0,
{
}

proof fn lemma_run_blocks(records: Seq<WorktreeView>, blocks: Seq<Seq<Seq<char>>>)
    requires
        forall|i: int| 0 <= i < blocks.len() ==> worktree_block(#[trigger] blocks[i]),
    ensures
        run(fresh(records), joined(blocks)).records == records + blocks.map_values(
            |b: Seq<Seq<char>>| block_record(b),
        ),
    decreases blocks.len(),
{
    let recs = blocks.map_values(|b: Seq<Seq<char>>| block_record(b));
    if blocks.len() == 0 {
        assert(records + recs =~= records);
    } else if blocks.len() == 1 {
        assert(worktree_block(blocks[0]));
        lemma_last_block(records, blocks[0]);
        assert(records + recs =~= records.push(block_record(blocks[0])));
    } else {
        let b0 = blocks[0];
        let rest = blocks.drop_first();
        assert(worktree_block(b0));
        assert(worktree_block(rest[0]));
        lemma_joined_nonempty(rest);
        lemma_run_split(fresh(records), b0.push(Seq::empty()), joined(rest));
        lemma_feed_push(fresh(records), b0, Seq::empty());
        lemma_feed_plain(records, b0);
        lemma_keys_nonempty();
        let r1 = records.push(block_record(b0));
        assert(feed(fresh(records), b0.push(Seq::empty())) == fresh(r1));
        lemma_run_blocks(r1, rest);
        assert(r1 + rest.map_values(|b: Seq<Seq<char>>| block_record(b)) =~= records + recs);
    }
}

/// Porcelain lines made of k worktree blocks, separated by blank lines and
/// free of `bare` markers, give exactly k records, in the order of the
/// blocks, each built from its own block's `worktree`, `branch` and `HEAD`
/// lines.
pub proof fn lemma_parse_blocks(blocks: Seq<Seq<Seq<char>>>)
    requires
        forall|i: int| 0 <= i < blocks.len() ==> worktree_block(#[trigger] blocks[i]),
    ensures
        parse_lines(joined(blocks)) == blocks.map_values(|b: Seq<Seq<char>>| block_record(b)),
        parse_lines(joined(blocks)).len() == blocks.len(),
{
    lemma_run_blocks(Seq::empty(), blocks);
    assert(Seq::<WorktreeView>::empty() + blocks.map_values(|b: Seq<Seq<char>>| block_record(b))
        =~= blocks.map_values(|b: Seq<Seq<char>>| block_record(b)));
}

/// A worktree block at the end of the input is emitted without a blank line
/// after it: the end of the input closes it.
pub proof fn lemma_final_block_emitted(before: Seq<Seq<char>>, block: Seq<Seq<char>>)
    requires
        before.len() == 0 || before.last().len() == 0,
        worktree_block(block),
    ensures
        parse_lines(before + block) == feed(fresh(Seq::empty()), before).records.push(
            block_record(block),
        ),
{
    lemma_run_split(fresh(Seq::empty()), before, block);
    let st = feed(fresh(Seq::empty()), before);
    if before.len() > 0 {
        lemma_keys_nonempty();
        assert(before.drop_last().push(before.last()) =~= before);
        lemma_feed_push(fresh(Seq::empty()), before.drop_last(), before.last());
        assert(st == fresh(st.records));
    }
    lemma_last_block(st.records, block);
}

/// A block that holds a `bare` line emits no record, whatever other lines it
/// holds, whether a blank line or the end of the input closes it.
pub proof fn lemma_bare_block_emits_nothing(
    records: Seq<WorktreeView>,
    block: Seq<Seq<char>>,
    k: int,
)
    requires
        0 <= k < block.len(),
        forall|i: int| 0 <= i < block.len() ==> (#[trigger] block[i]).len() > 0,
        has_prefix(block[k], "bare"@),
    ensures
        feed(fresh(records), block.push(Seq::empty())) == fresh(records),
        run(fresh(records), block).records == records,
{
    lemma_keys_nonempty();
    let n = block.len() as int;
    assert forall|j: int| 0 <= j <= n implies {
        let st = #[trigger] feed(fresh(records), block.subrange(0, j));
        &&& st.records == records
        &&& j > k ==> st.bare
    } by {
        lemma_bare_prefix(records, block, k, j);
    }
    assert(block.subrange(0, n) =~= block);
    lemma_feed_push(fresh(records), block, Seq::empty());
    let init = block.drop_last();
    assert(block.subrange(0, n - 1) =~= init);
    assert(init + seq![block.last()] =~= block);
    lemma_run_split(fresh(records), init, seq![block.last()]);
    assert(seq![block.last()].drop_first() =~= Seq::<Seq<char>>::empty());
    assert(seq![block.last()][0] == block.last());
    assert(block.last() == block[n - 1]);
    let st = feed(fresh(records), init);
    assert(run(step(st, block.last(), true), Seq::<Seq<char>>::empty()) == step(st, block.last(), true));
    assert(run(fresh(records), block) == step(st, block.last(), true));
}

proof fn lemma_bare_prefix(records: Seq<WorktreeView>, block: Seq<Seq<char>>, k: int, j: int)
    requires
        0 <= k < block.len(),
        0 <= j <= block.len(),
        forall|i: int| 0 <= i < block.len() ==> (#[trigger] block[i]).len() > 0,
        has_prefix(block[k], "bare"@),
    ensures
        feed(fresh(records), block.subrange(0, j)).records == records,
        j > k ==> feed(fresh(records), block.subrange(0, j)).bare,
    decreases j,
{
    if j == 0 {
        assert(block.subrange(0, 0) =~= Seq::<Seq<char>>::empty());
    } else {
        lemma_bare_prefix(records, block, k, j - 1);
        assert(block.subrange(0, j - 1).push(block[j - 1]) =~= block.subrange(0, j));
        lemma_feed_push(fresh(records), block.subrange(0, j - 1), block[j - 1]);
    }
}

} // verus!

verus! {

proof fn lemma_joined_lines(blocks: Seq<Seq<Seq<char>>>)
    requires
        blocks.len() >= 1,
        forall|i: int| 0 <= i < blocks.len() ==> worktree_block(#[trigger] blocks[i]),
        forall|i: int, k: int|
            0 <= i < blocks.len() && 0 <= k < blocks[i].len() ==> plain_line(#[trigger] blocks[i][k]),
    ensures
        joined(blocks).len() >= 1,
        joined(blocks).last() == blocks.last().last(),
        forall|k: int| 0 <= k < joined(blocks).len() ==> plain_line(#[trigger] joined(blocks)[k]),
    decreases blocks.len(),
{
    assert(worktree_block(blocks[0]));
    if blocks.len() > 1 {
        let rest = blocks.drop_first();
        assert forall|i: int| 0 <= i < rest.len() implies worktree_block(#[trigger] rest[i]) by {
            assert(rest[i] == blocks[i + 1]);
        }
        assert forall|i: int, k: int|
            0 <= i < rest.len() && 0 <= k < rest[i].len() implies plain_line(#[trigger] rest[i][k]) by {
            assert(rest[i] == blocks[i + 1]);
        }
        lemma_joined_lines(rest);
        let head = blocks[0].push(Seq::<char>::empty());
        let j = joined(blocks);
        assert(j == head + joined(rest));
        assert forall|k: int| 0 <= k < j.len() implies plain_line(#[trigger] j[k]) by {
            if k < blocks[0].len() {
                assert(j[k] == blocks[0][k]);
            } else if k == blocks[0].len() {
                assert(j[k] == Seq::<char>::empty());
            } else {
                assert(j[k] == joined(rest)[k - head.len()]);
            }
        }
        assert(blocks.last() == rest.last());
    }
}

/// Porcelain text made of k worktree blocks, separated by blank lines, free
/// of `bare` markers, with or without a final newline, gives exactly k
/// records, in the order of the blocks, each built from its own block's
/// lines.
pub proof fn lemma_parse_porcelain_blocks(blocks: Seq<Seq<Seq<char>>>)
    requires
        forall|i: int| 0 <= i < blocks.len() ==> worktree_block(#[trigger] blocks[i]),
        forall|i: int, k: int|
            0 <= i < blocks.len() && 0 <= k < blocks[i].len() ==> plain_line(#[trigger] blocks[i][k]),
    ensures
        parse_porcelain(join_lines(joined(blocks))) == blocks.map_values(
            |b: Seq<Seq<char>>| block_record(b),
        ),
        blocks.len() > 0 ==> parse_porcelain(join_lines(joined(blocks)).push('\n'))
            == blocks.map_values(|b: Seq<Seq<char>>| block_record(b)),
{
    if blocks.len() == 0 {
        assert(join_lines(joined(blocks)) =~= Seq::<char>::empty());
        assert(pieces(Seq::<char>::empty()) == seq![Seq::<char>::empty()]);
        assert(lines_of(Seq::<char>::empty()) =~= Seq::<Seq<char>>::empty());
        assert(blocks.map_values(|b: Seq<Seq<char>>| block_record(b)) =~= Seq::<WorktreeView>::empty());
    } else {
        lemma_joined_lines(blocks);
        let last_block = blocks[blocks.len() - 1];
        assert(worktree_block(last_block));
        assert(last_block[last_block.len() - 1].len() > 0);
        lemma_lines_of_join(joined(blocks));
        lemma_parse_blocks(blocks);
    }
}

} // verus!

verus! {

/// The end of the input closes the last block as a blank line does: output
/// that ends in neither `'\n'` nor `'\r'` parses as it does with two
/// newlines after it.
pub proof fn lemma_end_closes_block(s: Seq<char>)
    requires
        s.len() > 0,
        s.last() != '\n',
        s.last() != '\r',
    ensures
        parse_porcelain(s) == parse_porcelain(s.push('\n').push('\n')),
{
    lemma_lines_of_blank_after(s);
    let ls = lines_of(s);
    let init = ls.drop_last();
    let x = ls.last();
    let st = feed(fresh(Seq::empty()), init);
    assert(init + seq![x] =~= ls);
    assert(init + seq![x, Seq::<char>::empty()] =~= ls.push(Seq::<char>::empty()));
    lemma_run_split(fresh(Seq::empty()), init, seq![x]);
    lemma_run_split(fresh(Seq::empty()), init, seq![x, Seq::<char>::empty()]);
    assert(seq![x].drop_first() =~= Seq::<Seq<char>>::empty());
    assert(seq![x, Seq::<char>::empty()].drop_first() =~= seq![Seq::<char>::empty()]);
    assert(seq![Seq::<char>::empty()].drop_first() =~= Seq::<Seq<char>>::empty());
    lemma_keys_nonempty();
    let a = step(st, x, false);
    assert(run(a, seq![Seq::<char>::empty()]) == run(step(a, Seq::<char>::empty(), true), Seq::<Seq<char>>::empty()));
    assert(run(st, seq![x]) == run(step(st, x, true), Seq::<Seq<char>>::empty()));
    assert(step(a, Seq::<char>::empty(), true) == step(st, x, true));
}

} // verus!
