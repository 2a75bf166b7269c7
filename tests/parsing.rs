use worktree::git::{parse_worktrees_output, GitError, Worktree};

fn parse(s: &str) -> Vec<Worktree> {
    match parse_worktrees_output(s) {
        Ok(v) => v,
        Err(_) => panic!("the parser does not fail"),
    }
}

fn fields(w: &Worktree) -> (&str, &str, &str) {
    (w.path.as_str(), w.branch.as_str(), w.commit.as_str())
}

#[test]
fn bare_block_is_skipped_in_example() {
    let out = parse("worktree /r/a\nHEAD abc123\nbranch refs/heads/main\n\nworktree /r/b\nbare\nHEAD def456\n");
    assert_eq!(out.len(), 1);
    assert_eq!(fields(&out[0]), ("/r/a", "refs/heads/main", "abc123"));
}

#[test]
fn blocks_give_records_in_order() {
    let text = "worktree /src/main\nHEAD 1111111111\nbranch refs/heads/main\n\n\
                worktree /src/feature\nHEAD 2222222222\nbranch refs/heads/feature\n\n\
                worktree /src/detached\nHEAD 3333333333\ndetached\n";
    let out = parse(text);
    assert_eq!(out.len(), 3);
    assert_eq!(fields(&out[0]), ("/src/main", "refs/heads/main", "1111111111"));
    assert_eq!(fields(&out[1]), ("/src/feature", "refs/heads/feature", "2222222222"));
    assert_eq!(fields(&out[2]), ("/src/detached", "", "3333333333"));
}

#[test]
fn final_block_without_blank_line_is_emitted() {
    let out = parse("worktree /a\nHEAD aaa\n\nworktree /b\nHEAD bbb\nbranch refs/heads/b");
    assert_eq!(out.len(), 2);
    assert_eq!(fields(&out[1]), ("/b", "refs/heads/b", "bbb"));
}

#[test]
fn bare_block_emits_nothing_wherever_it_stands() {
    let out = parse("worktree /repo.git\nbare\n\nworktree /x\nHEAD 123\nbranch refs/heads/x\n");
    assert_eq!(out.len(), 1);
    assert_eq!(fields(&out[0]), ("/x", "refs/heads/x", "123"));
    let last = parse("worktree /x\nHEAD 1\n\nworktree /repo.git\nbare");
    assert_eq!(last.len(), 1);
    assert_eq!(fields(&last[0]), ("/x", "", "1"));
}

#[test]
fn empty_input_gives_no_records() {
    assert_eq!(parse("").len(), 0);
    assert_eq!(parse("\n\n").len(), 0);
}

#[test]
fn missing_value_reads_as_empty() {
    let out = parse("worktree /p\nHEAD\nbranch\n");
    assert_eq!(out.len(), 1);
    assert_eq!(fields(&out[0]), ("/p", "", ""));
}

#[test]
fn carriage_returns_are_dropped() {
    let out = parse("worktree /p\r\nHEAD abc\r\n\r\nworktree /q\r\nHEAD def\r\n");
    assert_eq!(out.len(), 2);
    assert_eq!(fields(&out[0]), ("/p", "", "abc"));
    assert_eq!(fields(&out[1]), ("/q", "", "def"));
}

#[test]
fn value_is_second_word_after_any_whitespace() {
    let out = parse("worktree \t /spaced  extra\n");
    assert_eq!(out.len(), 1);
    assert_eq!(out[0].path, "/spaced");
}

#[test]
fn git_error_message_names_command() {
    let e = GitError::FailedToExecuteCmd(String::from("git worktree list --porcelain"));
    assert_eq!(e.message(), "Failed to execute git worktree list --porcelain");
}

#[test]
fn worktree_line_after_bare_does_not_revive_block() {
    let out = parse("bare\nworktree /x\nHEAD 1\n\nworktree /y\nHEAD 2\n");
    assert_eq!(out.len(), 1);
    assert_eq!(fields(&out[0]), ("/y", "", "2"));
    let last = parse("worktree /a\n\nworktree /b\nbare\nworktree /c");
    assert_eq!(last.len(), 1);
    assert_eq!(fields(&last[0]), ("/a", "", ""));
}

#[test]
fn end_of_input_closes_block_like_blank_line() {
    let s = "worktree /a\nHEAD 1\n\nworktree /b\nbranch refs/heads/b\nHEAD 2";
    let with_blank = format!("{}\n\n", s);
    let a: Vec<(String, String, String)> =
        parse(s).iter().map(|w| (w.path.clone(), w.branch.clone(), w.commit.clone())).collect();
    let b: Vec<(String, String, String)> =
        parse(&with_blank).iter().map(|w| (w.path.clone(), w.branch.clone(), w.commit.clone())).collect();
    assert_eq!(a, b);
    assert_eq!(a.len(), 2);
}
