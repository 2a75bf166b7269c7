use worktree::git::Worktree;
use worktree::sessions::{parse_tmux_sessions, sort_worktrees_by_tmux, SessionMap};
use worktree::text::parse_u64;

fn wt(path: &str) -> Worktree {
    Worktree { path: path.to_string(), branch: String::new(), commit: String::new() }
}

fn names(v: &[Worktree]) -> Vec<String> {
    v.iter().map(|w| w.dir_name()).collect()
}

fn sessions(entries: &[(&str, u64)]) -> SessionMap {
    let mut m = SessionMap::new();
    for (n, t) in entries {
        m.insert(n.to_string(), *t);
    }
    m
}

#[test]
fn previous_session_then_current_then_rest() {
    let m = sessions(&[("proj-a", 100), ("proj-b", 200)]);
    assert_eq!(m.previous_session("proj-a"), Some(String::from("proj-b")));
    let mut v = vec![wt("/w/proj-a"), wt("/w/proj-b"), wt("/w/proj-c")];
    sort_worktrees_by_tmux(&mut v, &m, &Some(String::from("proj-a")));
    assert_eq!(names(&v), vec!["proj-b", "proj-a", "proj-c"]);
}

#[test]
fn previous_is_most_recent_other_session() {
    let m = sessions(&[("a", 50), ("cur", 900), ("b", 70), ("c", 10)]);
    let mut v = vec![wt("/x/c"), wt("/x/a"), wt("/x/cur"), wt("/x/b"), wt("/x/zzz")];
    sort_worktrees_by_tmux(&mut v, &m, &Some(String::from("cur")));
    assert_eq!(names(&v), vec!["b", "cur", "a", "c", "zzz"]);
}

#[test]
fn untracked_worktrees_follow_tracked_ones_by_name() {
    let m = sessions(&[("late", 5), ("early", 1), ("idle", 0)]);
    let mut v = vec![wt("/r/zeta"), wt("/r/idle"), wt("/r/alpha"), wt("/r/early"), wt("/r/late")];
    sort_worktrees_by_tmux(&mut v, &m, &None);
    assert_eq!(names(&v), vec!["late", "early", "alpha", "idle", "zeta"]);
}

#[test]
fn equal_times_order_by_name() {
    let m = sessions(&[("b", 7), ("a", 7), ("cur", 1)]);
    assert_eq!(m.previous_session("cur"), Some(String::from("a")));
    let mut v = vec![wt("/p/b"), wt("/p/a"), wt("/p/cur")];
    sort_worktrees_by_tmux(&mut v, &m, &Some(String::from("cur")));
    assert_eq!(names(&v), vec!["a", "cur", "b"]);
}

#[test]
fn empty_session_map_sorts_by_name() {
    let m = SessionMap::new();
    assert_eq!(m.previous_session("x"), None);
    let mut v = vec![wt("/q/b"), wt("/q/c"), wt("/q/a")];
    sort_worktrees_by_tmux(&mut v, &m, &Some(String::from("c")));
    assert_eq!(names(&v), vec!["a", "b", "c"]);
    assert!(m.is_empty());
}

#[test]
fn insert_replaces_earlier_time() {
    let mut m = SessionMap::new();
    m.insert(String::from("s"), 3);
    m.insert(String::from("s"), 9);
    m.insert(String::from("t"), 4);
    assert_eq!(m.get("s"), 9);
    assert_eq!(m.get("t"), 4);
    assert_eq!(m.get("u"), 0);
    assert!(!m.is_empty());
}

#[test]
fn dir_name_is_last_component() {
    assert_eq!(wt("/home/me/src/proj/").dir_name(), "proj");
    assert_eq!(wt("relative").dir_name(), "relative");
    assert_eq!(wt("/").dir_name(), "/");
}

#[test]
fn tmux_listing_is_read_line_by_line() {
    let m = parse_tmux_sessions("alpha:100\nbeta:notanumber\nno colon here\ngamma:+7\nalpha:300\nweird:name:5\n\ndelta:\n");
    assert_eq!(m.get("alpha"), 300);
    assert_eq!(m.get("beta"), 0);
    assert_eq!(m.get("gamma"), 7);
    assert_eq!(m.get("weird"), 0);
    assert_eq!(m.get("delta"), 0);
    assert_eq!(m.previous_session("gamma"), Some(String::from("alpha")));
}

#[test]
fn numbers_read_as_u64_from_str() {
    assert_eq!(parse_u64("0"), Some(0));
    assert_eq!(parse_u64("+12"), Some(12));
    assert_eq!(parse_u64("18446744073709551615"), Some(u64::MAX));
    assert_eq!(parse_u64("18446744073709551616"), None);
    assert_eq!(parse_u64(""), None);
    assert_eq!(parse_u64("+"), None);
    assert_eq!(parse_u64("-1"), None);
    assert_eq!(parse_u64("12a"), None);
    for s in ["0", "+5", "007", "99999999999999999999", " 1", "1 "] {
        assert_eq!(parse_u64(s), s.parse::<u64>().ok());
    }
}
