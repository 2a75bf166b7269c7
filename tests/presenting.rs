use worktree::collect::{expand_directories, merge_worktrees};
use worktree::config::Config;
use worktree::display::{clean_branch_of, format_worktrees, picker_choice, selected_path, short_commit_of};
use worktree::git::Worktree;

fn wt(path: &str, branch: &str, commit: &str) -> Worktree {
    Worktree { path: path.to_string(), branch: branch.to_string(), commit: commit.to_string() }
}

#[test]
fn line_holds_all_columns() {
    let lines = format_worktrees(&[wt("/src/app", "refs/heads/main", "0123456789abcdef")]);
    assert_eq!(lines, vec!["app\t/src/app\tmain\t0123456789abcdef\t(main) [01234567]"]);
}

#[test]
fn short_commit_and_branch_edges() {
    assert_eq!(short_commit_of("12345678"), "12345678");
    assert_eq!(short_commit_of("1234567"), "1234567");
    assert_eq!(short_commit_of(""), "");
    assert_eq!(clean_branch_of("refs/heads/feat/x"), "feat/x");
    assert_eq!(clean_branch_of("refs/tags/v1"), "refs/tags/v1");
    assert_eq!(clean_branch_of(""), "");
    let lines = format_worktrees(&[wt("/d/x", "", "abc")]);
    assert_eq!(lines, vec!["x\t/d/x\t\tabc\t() [abc]"]);
}

#[test]
fn failed_unit_contributes_nothing() {
    let parts = vec![
        Some(vec![wt("/a/one", "", "1")]),
        None,
        Some(Vec::new()),
        Some(vec![wt("/b/two", "", "2"), wt("/b/three", "", "3")]),
    ];
    let all = merge_worktrees(parts);
    let paths: Vec<&str> = all.iter().map(|w| w.path.as_str()).collect();
    assert_eq!(paths, vec!["/a/one", "/b/two", "/b/three"]);
}

#[test]
fn tilde_is_expanded_and_other_paths_kept() {
    let dirs = vec![String::from("/abs/dir"), String::from("~/code"), String::from("~other/x")];
    let out = expand_directories(&dirs);
    assert_eq!(out.len(), 3);
    assert_eq!(out[0], "/abs/dir");
    assert_eq!(out[2], "~other/x");
    assert!(out[1].ends_with("/code"));
    assert_ne!(out[1], "~/code");
}

#[test]
fn config_default_and_sort_choice() {
    let c = Config::default();
    assert!(c.directories.is_empty());
    assert!(!c.sorts_by_tmux());
    let t = Config { directories: vec![], sort: Some(String::from("tmux")) };
    assert!(t.sorts_by_tmux());
    let o = Config { directories: vec![], sort: Some(String::from("name")) };
    assert!(!o.sorts_by_tmux());
}

#[test]
fn directories_argument_overrides_config() {
    let c = Config { directories: vec![String::from("~/a"), String::from("/b")], sort: None };
    assert_eq!(c.directories_from(None), vec!["~/a", "/b"]);
    assert_eq!(c.directories_from(Some(" ~/x , /y,z ")), vec!["~/x", "/y", "z"]);
    assert_eq!(c.directories_from(Some("")), vec![""]);
    assert_eq!(c.directories_from(Some("a,,b")), vec!["a", "", "b"]);
}

#[test]
fn picker_answer_and_path_column() {
    assert_eq!(picker_choice(true, "  app\t/src/app\tmain\n"), Some(String::from("app\t/src/app\tmain")));
    assert_eq!(picker_choice(true, " \n"), None);
    assert_eq!(picker_choice(false, "app\t/src/app\n"), None);
    assert_eq!(selected_path("app\t/src/app\tmain\tabc\t(main) [abc]"), Some(String::from("/src/app")));
    assert_eq!(selected_path("app\t/only"), Some(String::from("/only")));
    assert_eq!(selected_path("no tabs"), None);
}

#[test]
fn picker_line_splits_into_columns() {
    let lines = format_worktrees(&[wt("/home/u/proj/", "refs/heads/dev", "abcdef0123")]);
    let cols: Vec<&str> = lines[0].split('\t').collect();
    assert_eq!(cols, vec!["proj", "/home/u/proj/", "dev", "abcdef0123", "(dev) [abcdef01]"]);
    assert_eq!(selected_path(&lines[0]), Some(String::from("/home/u/proj/")));
}
