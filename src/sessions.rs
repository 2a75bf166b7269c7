//! The tmux session recency map, the choice of the previous session, and
//! the ordering of worktrees by session recency.
use vstd::prelude::*;
use vstd::multiset::Multiset;
use crate::git::{base_name, worktree_views, Worktree, WorktreeView};
use crate::text::{
    decimal_u64, find_char, find_from, lines_of, parse_u64, split_lines, views,
    lemma_lex_antisym, lemma_lex_refl, lemma_lex_total, lemma_lex_trans, lex_le, lex_le_str, same_chars,
};

verus! {

/// A tmux session and the time it was last attached.
pub struct Session {
    pub name: String,
    pub last_attached: u64,
}

/// Sessions by name, each name at most once.
pub struct SessionMap {
    entries: Vec<Session>,
}

pub open spec fn names_distinct(s: Seq<Session>) -> bool {
    forall|i: int, j: int| 0 <= i < j < s.len() ==> s[i].name@ != s[j].name@
}

pub open spec fn map_of(s: Seq<Session>) -> Map<Seq<char>, u64>
    decreases s.len(),
{
    if s.len() == 0 {
        Map::empty()
    } else {
        map_of(s.drop_last()).insert(s.last().name@, s.last().last_attached)
    }
}

/// The recorded time of session `name`, 0 when it is absent.
pub open spec fn time_of(m: Map<Seq<char>, u64>, name: Seq<char>) -> u64 {
    if m.contains_key(name) {
        m[name]
    } else {
        0
    }
}

/// `a` is at least as recent as `b`; on equal times the smaller name wins.
pub open spec fn outranks(m: Map<Seq<char>, u64>, a: Seq<char>, b: Seq<char>) -> bool {
    m[a] > m[b] || (m[a] == m[b] && lex_le(a, b))
}

/// `name` is the most recent session other than `current`.
pub open spec fn is_previous(m: Map<Seq<char>, u64>, current: Seq<char>, name: Seq<char>) -> bool {
    &&& m.contains_key(name)
    &&& name != current
    &&& forall|k: Seq<char>| m.contains_key(k) && k != current ==> outranks(m, name, k)
}

pub open spec fn chosen_previous(m: Map<Seq<char>, u64>, current: Seq<char>) -> Seq<char> {
    choose|n: Seq<char>| is_previous(m, current, n)
}

/// The previous session: the most recent one other than the current one.
/// There is none without a current session.
pub open spec fn previous_of(m: Map<Seq<char>, u64>, current: Option<Seq<char>>) -> Option<
    Seq<char>,
> {
    match current {
        Some(c) => if (exists|n: Seq<char>| is_previous(m, c, n)) {
            Some(chosen_previous(m, c))
        } else {
            None
        },
        None => None,
    }
}

proof fn lemma_map_of_index(s: Seq<Session>, i: int)
    requires
        names_distinct(s),
        0 <= i < s.len(),
    ensures
        map_of(s).contains_key(s[i].name@),
        map_of(s)[s[i].name@] == s[i].last_attached,
    decreases s.len(),
{
    if i < s.len() - 1 {
        lemma_map_of_index(s.drop_last(), i);
    }
}

proof fn lemma_map_of_absent(s: Seq<Session>, k: Seq<char>)
    requires
        forall|i: int| 0 <= i < s.len() ==> s[i].name@ != k,
    ensures
        !map_of(s).contains_key(k),
    decreases s.len(),
{
    if s.len() > 0 {
        lemma_map_of_absent(s.drop_last(), k);
    }
}

proof fn lemma_map_of_keys(s: Seq<Session>, k: Seq<char>)
    requires
        map_of(s).contains_key(k),
    ensures
        exists|i: int| 0 <= i < s.len() && s[i].name@ == k,
    decreases s.len(),
{
    if s.last().name@ != k {
        lemma_map_of_keys(s.drop_last(), k);
        let i = choose|i: int| 0 <= i < s.len() - 1 && s.drop_last()[i].name@ == k;
        assert(s[i].name@ == k);
    }
}

proof fn lemma_map_of_update(s: Seq<Session>, i: int, x: Session)
    requires
        names_distinct(s),
        0 <= i < s.len(),
        s[i].name@ == x.name@,
    ensures
        map_of(s.update(i, x)) == map_of(s).insert(x.name@, x.last_attached),
    decreases s.len(),
{
    let t = s.update(i, x);
    if i == s.len() - 1 {
        assert(t.drop_last() =~= s.drop_last());
        assert(map_of(t) =~= map_of(s).insert(x.name@, x.last_attached));
    } else {
        assert(t.drop_last() =~= s.drop_last().update(i, x));
        lemma_map_of_update(s.drop_last(), i, x);
        assert(map_of(t) =~= map_of(s).insert(x.name@, x.last_attached));
    }
}

impl View for SessionMap {
    type V = Map<Seq<char>, u64>;

    closed spec fn view(&self) -> Map<Seq<char>, u64> {
        map_of(self.entries@)
    }
}

impl SessionMap {
    pub closed spec fn wf(&self) -> bool {
        names_distinct(self.entries@)
    }

    pub fn new() -> (r: SessionMap)
        ensures
            r.wf(),
            r@ == Map::<Seq<char>, u64>::empty(),
    {
        SessionMap { entries: Vec::new() }
    }

    fn position(&self, name: &str) -> (r: Option<usize>)
        ensures
            match r {
                Some(i) => i < self.entries@.len() && self.entries@[i as int].name@ == name@,
                None => forall|i: int|
                    0 <= i < self.entries@.len() ==> self.entries@[i].name@ != name@,
            },
    {
        let n = self.entries.len();
        let mut i: usize = 0;
        while i < n
            invariant
                i <= n,
                n == self.entries@.len(),
                forall|k: int| 0 <= k < i ==> self.entries@[k].name@ != name@,
            decreases n - i,
        {
            if same_chars(self.entries[i].name.as_str(), name) {
                return Some(i);
            }
            i = i + 1;
        }
        None
    }

    /// Records `last_attached` for `name`, replacing an earlier time.
    pub fn insert(&mut self, name: String, last_attached: u64)
        requires
            old(self).wf(),
        ensures
            final(self).wf(),
            final(self)@ == old(self)@.insert(name@, last_attached),
    {
        let ghost s = self.entries@;
        match self.position(name.as_str()) {
            Some(i) => {
                let x = Session { name, last_attached };
                proof {
                    lemma_map_of_update(s, i as int, x);
                }
                self.entries.remove(i);
                self.entries.insert(i, x);
                assert(self.entries@ =~= s.update(i as int, x));
            },
            None => {
                let x = Session { name, last_attached };
                self.entries.push(x);
                assert(self.entries@.drop_last() =~= s);
            },
        }
    }

    /// The recorded time of `name`, 0 when it is absent.
    pub fn get(&self, name: &str) -> (r: u64)
        requires
            self.wf(),
        ensures
            r == time_of(self@, name@),
    {
        match self.position(name) {
            Some(i) => {
                proof {
                    lemma_map_of_index(self.entries@, i as int);
                }
                self.entries[i].last_attached
            },
            None => {
                proof {
                    lemma_map_of_absent(self.entries@, name@);
                }
                0
            },
        }
    }

    pub fn is_empty(&self) -> (r: bool)
        requires
            self.wf(),
        ensures
            r == (self@ == Map::<Seq<char>, u64>::empty()),
    {
        proof {
            if self.entries@.len() > 0 {
                lemma_map_of_index(self.entries@, 0);
            }
        }
        self.entries.len() == 0
    }

    /// The most recent session other than `current`; equal times go to the
    /// smaller name.
    pub fn previous_session(&self, current: &str) -> (r: Option<String>)
        requires
            self.wf(),
        ensures
            match r {
                Some(n) => is_previous(self@, current@, n@),
                None => !exists|n: Seq<char>| is_previous(self@, current@, n),
            },
    {
        let ghost s = self.entries@;
        let n = self.entries.len();
        let mut best: Option<usize> = None;
        let mut i: usize = 0;
        while i < n
            invariant
                i <= n,
                n == s.len(),
                s == self.entries@,
                names_distinct(s),
                match best {
                    Some(b) => {
                        &&& b < i
                        &&& s[b as int].name@ != current@
                        &&& forall|j: int|
                            0 <= j < i && s[j].name@ != current@ ==> (s[b as int].last_attached
                                > s[j].last_attached || (s[b as int].last_attached
                                == s[j].last_attached && lex_le(s[b as int].name@, s[j].name@)))
                    },
                    None => forall|j: int| 0 <= j < i ==> s[j].name@ == current@,
                },
            decreases n - i,
        {
            let e = &self.entries[i];
            if !same_chars(e.name.as_str(), current) {
                match best {
                    None => {
                        proof {
                            lemma_lex_refl(s[i as int].name@);
                        }
                        best = Some(i);
                    },
                    Some(b) => {
                        let be = &self.entries[b];
                        let take = e.last_attached > be.last_attached || (e.last_attached
                            == be.last_attached && !lex_le_str(be.name.as_str(), e.name.as_str()));
                        proof {
                            lemma_lex_total(s[b as int].name@, s[i as int].name@);
                            lemma_lex_refl(s[i as int].name@);
                            assert forall|j: int|
                                0 <= j < i + 1 && s[j].name@ != current@ implies (if take {
                                s[i as int].last_attached > s[j].last_attached || (
                                s[i as int].last_attached == s[j].last_attached && lex_le(
                                    s[i as int].name@,
                                    s[j].name@,
                                ))
                            } else {
                                s[b as int].last_attached > s[j].last_attached || (
                                s[b as int].last_attached == s[j].last_attached && lex_le(
                                    s[b as int].name@,
                                    s[j].name@,
                                ))
                            }) by {
                                if j < i && take && s[i as int].last_attached
                                    == s[j].last_attached {
                                    lemma_lex_trans(s[i as int].name@, s[b as int].name@, s[j].name@);
                                }
                            }
                        }
                        if take {
                            best = Some(i);
                        }
                    },
                }
            }
            i = i + 1;
        }
        match best {
            Some(b) => {
                let r = self.entries[b].name.clone();
                proof {
                    lemma_map_of_index(s, b as int);
                    assert forall|k: Seq<char>|
                        self@.contains_key(k) && k != current@ implies outranks(self@, r@, k) by {
                        lemma_map_of_keys(s, k);
                        let j = choose|j: int| 0 <= j < s.len() && s[j].name@ == k;
                        lemma_map_of_index(s, j);
                    }
                }
                Some(r)
            },
            None => {
                proof {
                    assert forall|m: Seq<char>| !is_previous(self@, current@, m) by {
                        if self@.contains_key(m) {
                            lemma_map_of_keys(s, m);
                        }
                    }
                }
                None
            },
        }
    }
}

proof fn lemma_previous_of_some(m: Map<Seq<char>, u64>, current: Seq<char>, n: Seq<char>)
    requires
        is_previous(m, current, n),
    ensures
        previous_of(m, Some(current)) == Some(n),
{
    assert(exists|x: Seq<char>| is_previous(m, current, x));
    lemma_previous_unique(m, current, n, chosen_previous(m, current));
}

/// Two sessions that both qualify as previous are the same.
pub proof fn lemma_previous_unique(
    m: Map<Seq<char>, u64>,
    current: Seq<char>,
    a: Seq<char>,
    b: Seq<char>,
)
    requires
        is_previous(m, current, a),
        is_previous(m, current, b),
    ensures
        a == b,
{
    assert(outranks(m, a, b));
    assert(outranks(m, b, a));
    lemma_lex_antisym(a, b);
}

} // verus!

verus! {

pub open spec fn opt_chars(o: Option<String>) -> Option<Seq<char>> {
    match o {
        Some(s) => Some(s@),
        None => None,
    }
}

/// What the ordering by recency reads: the session map, the current session
/// and the previous one.
pub struct Recency {
    pub sessions: Map<Seq<char>, u64>,
    pub current: Option<Seq<char>>,
    pub previous: Option<Seq<char>>,
}

/// With no session recorded at all, no session counts as current and the
/// order falls back to names alone.
pub open spec fn recency(m: Map<Seq<char>, u64>, current: Option<Seq<char>>) -> Recency {
    let current = if m == Map::<Seq<char>, u64>::empty() {
        None
    } else {
        current
    };
    Recency { sessions: m, current, previous: previous_of(m, current) }
}

/// 0: the previous session; 1: the current one; 2: other recorded activity;
/// 3: no recorded activity.
pub open spec fn tier(r: Recency, name: Seq<char>) -> int {
    if r.previous == Some(name) {
        0
    } else if r.current == Some(name) {
        1
    } else if time_of(r.sessions, name) > 0 {
        2
    } else {
        3
    }
}

/// A worktree named `a` may stand before one named `b`: a lower tier first;
/// within the activity tier the more recent first, then by name; elsewhere by
/// name.
pub open spec fn goes_before(r: Recency, a: Seq<char>, b: Seq<char>) -> bool {
    let ta = tier(r, a);
    let tb = tier(r, b);
    ta < tb || (ta == tb && if ta == 2 {
        time_of(r.sessions, a) > time_of(r.sessions, b) || (time_of(r.sessions, a) == time_of(
            r.sessions,
            b,
        ) && lex_le(a, b))
    } else {
        lex_le(a, b)
    })
}

pub open spec fn sorted_by_recency(r: Recency, v: Seq<WorktreeView>) -> bool {
    forall|i: int, j: int|
        0 <= i < j < v.len() ==> goes_before(r, base_name(v[i].path), base_name(v[j].path))
}

pub proof fn lemma_goes_before_total(r: Recency, a: Seq<char>, b: Seq<char>)
    ensures
        goes_before(r, a, b) || goes_before(r, b, a),
{
    lemma_lex_total(a, b);
}

pub proof fn lemma_goes_before_trans(r: Recency, a: Seq<char>, b: Seq<char>, c: Seq<char>)
    requires
        goes_before(r, a, b),
        goes_before(r, b, c),
    ensures
        goes_before(r, a, c),
{
    if tier(r, a) == tier(r, b) && tier(r, b) == tier(r, c) {
        if lex_le(a, b) && lex_le(b, c) {
            lemma_lex_trans(a, b, c);
        }
    }
}

struct SortKey {
    name: String,
    tier: u8,
    time: u64,
}

spec fn key_of(k: SortKey, r: Recency, name: Seq<char>) -> bool {
    &&& k.name@ == name
    &&& k.tier as int == tier(r, name)
    &&& k.time == time_of(r.sessions, name)
}

fn make_key(w: &Worktree, sessions: &SessionMap, current: &Option<String>, previous: &Option<
    String,
>) -> (k: SortKey)
    requires
        sessions.wf(),
    ensures
        key_of(k, Recency { sessions: sessions@, current: opt_chars(*current), previous: opt_chars(*previous) }, base_name(w.path@)),
{
    let name = w.dir_name();
    let time = sessions.get(name.as_str());
    let is_previous = match previous {
        Some(p) => same_chars(p.as_str(), name.as_str()),
        None => false,
    };
    let is_current = match current {
        Some(c) => same_chars(c.as_str(), name.as_str()),
        None => false,
    };
    let tier: u8 = if is_previous {
        0
    } else if is_current {
        1
    } else if time > 0 {
        2
    } else {
        3
    };
    SortKey { name, tier, time }
}

fn key_before(a: &SortKey, b: &SortKey) -> (res: bool)
    ensures
        forall|r: Recency, x: Seq<char>, y: Seq<char>|
            key_of(*a, r, x) && key_of(*b, r, y) ==> res == goes_before(r, x, y),
{
    a.tier < b.tier || (a.tier == b.tier && if a.tier == 2 {
        a.time > b.time || (a.time == b.time && lex_le_str(a.name.as_str(), b.name.as_str()))
    } else {
        lex_le_str(a.name.as_str(), b.name.as_str())
    })
}

proof fn lemma_insert_multiset<A>(s: Seq<A>, i: int, x: A)
    requires
        0 <= i <= s.len(),
    ensures
        s.insert(i, x).to_multiset() == s.to_multiset().insert(x),
{
    broadcast use vstd::seq_lib::group_to_multiset_ensures;

    let t = s.insert(i, x);
    assert(t.remove(i) =~= s);
    assert(t[i] == x);
    assert(t.to_multiset().count(x) > 0) by {
        assert(t.contains(x));
    }
    assert(t.to_multiset() =~= s.to_multiset().insert(x));
}

/// Orders worktrees by tmux activity: the previous session first, then the
/// current one, then the other sessions with recorded activity from the most
/// recent, then the rest by name. Directory names are the session names.
pub fn sort_worktrees_by_tmux(
    worktrees: &mut Vec<Worktree>,
    tmux_sessions: &SessionMap,
    current_session: &Option<String>,
)
    requires
        tmux_sessions.wf(),
    ensures
        sorted_by_recency(
            recency(tmux_sessions@, opt_chars(*current_session)),
            worktree_views(final(worktrees)@),
        ),
        worktree_views(final(worktrees)@).to_multiset() == worktree_views(
            old(worktrees)@,
        ).to_multiset(),
{
    let ghost m = tmux_sessions@;
    let current_session: &Option<String> = if tmux_sessions.is_empty() {
        &None
    } else {
        current_session
    };
    let previous: Option<String> = match current_session {
        Some(c) => {
            let p = tmux_sessions.previous_session(c.as_str());
            proof {
                let cc = c@;
                assert(opt_chars(*current_session) == Some(cc));
                if p is Some {
                    let n = p->0;
                    lemma_previous_of_some(m, cc, n@);
                } else {
                    assert(!exists|x: Seq<char>| is_previous(m, cc, x));
                    assert(previous_of(m, Some(cc)) == None::<Seq<char>>);
                }
            }
            p
        },
        None => None,
    };
    let ghost r = recency(m, opt_chars(*current_session));
    assert(opt_chars(previous) == r.previous);
    let ghost orig = worktree_views(worktrees@);
    let mut input: Vec<Worktree> = Vec::new();
    std::mem::swap(worktrees, &mut input);
    let mut out: Vec<Worktree> = Vec::new();
    let mut keys: Vec<SortKey> = Vec::new();
    proof {
        broadcast use vstd::seq_lib::group_to_multiset_ensures;
        assert(worktree_views(out@) =~= Seq::<WorktreeView>::empty());
        assert(worktree_views(out@).to_multiset() =~= Multiset::empty());
    }
    while input.len() > 0
        invariant
            tmux_sessions.wf(),
            m == tmux_sessions@,
            r == (Recency { sessions: m, current: opt_chars(*current_session), previous: opt_chars(previous) }),
            keys@.len() == out@.len(),
            forall|i: int| 0 <= i < out@.len() ==> key_of(#[trigger] keys@[i], r, base_name(out@[i].path@)),
            forall|i: int, j: int|
                0 <= i < j < keys@.len() ==> goes_before(r, keys@[i].name@, keys@[j].name@),
            worktree_views(out@).to_multiset().add(worktree_views(input@).to_multiset()) == orig.to_multiset(),
        decreases input@.len(),
    {
        let ghost before_in = input@;
        let w = input.remove(0);
        proof {
            broadcast use vstd::seq_lib::group_to_multiset_ensures;
            assert(worktree_views(input@) =~= worktree_views(before_in).remove(0));
            assert(worktree_views(before_in)[0] == w@);
        }
        let k = make_key(&w, tmux_sessions, current_session, &previous);
        let mut pos: usize = out.len();
        while pos > 0 && !key_before(&keys[pos - 1], &k)
            invariant
                pos <= keys@.len(),
                keys@.len() == out@.len(),
                forall|i: int| 0 <= i < out@.len() ==> key_of(#[trigger] keys@[i], r, base_name(out@[i].path@)),
                key_of(k, r, base_name(w.path@)),
                forall|j: int| pos <= j < keys@.len() ==> !goes_before(r, #[trigger] keys@[j].name@, k.name@),
            decreases pos,
        {
            pos = pos - 1;
        }
        let ghost ks = keys@;
        let ghost os = out@;
        proof {
            assert forall|i: int, j: int|
                0 <= i < j < ks.len() + 1 implies goes_before(
                r,
                ks.insert(pos as int, k)[i].name@,
                ks.insert(pos as int, k)[j].name@,
            ) by {
                let t = ks.insert(pos as int, k);
                if j == pos {
                    if i < pos - 1 {
                        lemma_goes_before_trans(r, ks[i].name@, ks[pos - 1].name@, k.name@);
                    }
                } else if i == pos {
                    lemma_goes_before_total(r, k.name@, ks[j - 1].name@);
                }
            }
            lemma_insert_multiset(worktree_views(os), pos as int, w@);
            assert(worktree_views(os.insert(pos as int, w)) =~= worktree_views(os).insert(pos as int, w@));
        }
        out.insert(pos, w);
        keys.insert(pos, k);
        proof {
            assert(forall|i: int| 0 <= i < out@.len() ==> key_of(#[trigger] keys@[i], r, base_name(out@[i].path@)));
        }
    }
    proof {
        assert(worktree_views(input@) =~= Seq::<WorktreeView>::empty());
        assert(worktree_views(out@).to_multiset().add(Multiset::empty()) =~= worktree_views(out@).to_multiset());
        let v = worktree_views(out@);
        assert forall|i: int, j: int| 0 <= i < j < v.len() implies goes_before(r, base_name(v[i].path), base_name(v[j].path)) by {
            assert(key_of(keys@[i], r, base_name(out@[i].path@)));
            assert(key_of(keys@[j], r, base_name(out@[j].path@)));
        }
    }
    *worktrees = out;
}

} // verus!

verus! {

/// In an order by recency, nothing but a worktree of the previous session
/// stands before one of the previous session, and nothing but worktrees of
/// the previous or the current session stands before one of the current
/// session.
pub proof fn lemma_previous_then_current(r: Recency, v: Seq<WorktreeView>, i: int, j: int)
    requires
        sorted_by_recency(r, v),
        0 <= i < j < v.len(),
    ensures
        r.previous == Some(base_name(v[j].path)) ==> base_name(v[i].path) == base_name(
            v[j].path,
        ),
        r.current == Some(base_name(v[j].path)) ==> r.previous == Some(base_name(v[i].path))
            || r.current == Some(base_name(v[i].path)),
{
    assert(goes_before(r, base_name(v[i].path), base_name(v[j].path)));
}

/// In an order by recency for the map of `r`, a worktree whose name is
/// absent from the map (and is not the current session) stands after every
/// worktree with a positive recorded time, and such worktrees stand by name.
pub proof fn lemma_untracked_last(r: Recency, v: Seq<WorktreeView>, i: int, j: int)
    requires
        sorted_by_recency(r, v),
        0 <= i < j < v.len(),
        r.previous is Some ==> r.sessions.contains_key(r.previous->0),
    ensures
        !r.sessions.contains_key(base_name(v[i].path)) && r.current != Some(base_name(v[i].path))
            ==> time_of(r.sessions, base_name(v[j].path)) == 0,
        !r.sessions.contains_key(base_name(v[i].path)) && r.current != Some(base_name(v[i].path))
            && !r.sessions.contains_key(base_name(v[j].path)) && r.current != Some(
            base_name(v[j].path),
        ) ==> lex_le(base_name(v[i].path), base_name(v[j].path)),
{
    assert(goes_before(r, base_name(v[i].path), base_name(v[j].path)));
}

/// The previous session that `recency` picks is a session of the map.
pub proof fn lemma_previous_in_map(m: Map<Seq<char>, u64>, current: Option<Seq<char>>)
    ensures
        recency(m, current).previous is Some ==> m.contains_key(recency(m, current).previous->0),
{
    if let Some(c) = current {
        if exists|n: Seq<char>| is_previous(m, c, n) {
            assert(is_previous(m, c, chosen_previous(m, c)));
        }
    }
}

} // verus!

verus! {

/// The session that one line of `tmux list-sessions` output names, in the
/// form `name:last_attached`: the text before the first `:` and the number
/// after it. Lines without a `:` or without a number name none.
pub open spec fn session_line(l: Seq<char>) -> Option<(Seq<char>, u64)> {
    let i = find_from(l, ':', 0);
    if i < l.len() {
        match decimal_u64(l.subrange(i + 1, l.len() as int)) {
            Some(t) => Some((l.subrange(0, i), t)),
            None => None,
        }
    } else {
        None
    }
}

/// The session map that `lines` describe; a later line for a name wins.
pub open spec fn sessions_from(lines: Seq<Seq<char>>) -> Map<Seq<char>, u64>
    decreases lines.len(),
{
    if lines.len() == 0 {
        Map::empty()
    } else {
        let m = sessions_from(lines.drop_last());
        match session_line(lines.last()) {
            Some(p) => m.insert(p.0, p.1),
            None => m,
        }
    }
}

/// Reads the output of
/// `tmux list-sessions -F '#{session_name}:#{session_last_attached}'`,
/// skipping the lines that are not of that form.
pub fn parse_tmux_sessions(output: &str) -> (r: SessionMap)
    ensures
        r.wf(),
        r@ == sessions_from(lines_of(output@)),
{
    let lines = split_lines(output);
    let ghost all = views(lines@);
    let n = lines.len();
    let mut sessions = SessionMap::new();
    let mut i: usize = 0;
    assert(all.subrange(0, 0) =~= Seq::<Seq<char>>::empty());
    while i < n
        invariant
            i <= n,
            n == lines@.len(),
            all == views(lines@),
            all == lines_of(output@),
            sessions.wf(),
            sessions@ == sessions_from(all.subrange(0, i as int)),
        decreases n - i,
    {
        let line = lines[i].as_str();
        let ghost l = all[i as int];
        assert(line@ == l);
        assert(all.subrange(0, i + 1).drop_last() =~= all.subrange(0, i as int));
        assert(all.subrange(0, i + 1).last() == l);
        let len = line.unicode_len();
        let colon = find_char(line, ':');
        if colon < len {
            let rest = line.substring_char(colon + 1, len);
            match parse_u64(rest) {
                Some(t) => {
                    let name = line.substring_char(0, colon).to_string();
                    sessions.insert(name, t);
                },
                None => {},
            }
        }
        i = i + 1;
    }
    assert(all.subrange(0, n as int) =~= all);
    sessions
}

} // verus!

verus! {

spec fn entry_outranks(s: Seq<Session>, b: int, j: int) -> bool {
    s[b].last_attached > s[j].last_attached || (s[b].last_attached == s[j].last_attached
        && lex_le(s[b].name@, s[j].name@))
}

proof fn lemma_best_entry(s: Seq<Session>, c: Seq<char>, i: int) -> (b: int)
    requires
        0 <= i < s.len(),
        s[i].name@ != c,
    ensures
        0 <= b < s.len(),
        s[b].name@ != c,
        forall|j: int| 0 <= j < s.len() && s[j].name@ != c ==> entry_outranks(s, b, j),
    decreases s.len(),
{
    let n = s.len() - 1;
    let init = s.drop_last();
    if exists|k: int| 0 <= k < n && s[k].name@ != c {
        let k = choose|k: int| 0 <= k < n && s[k].name@ != c;
        assert(init[k] == s[k]);
        let b0 = lemma_best_entry(init, c, k);
        assert(init[b0] == s[b0]);
        lemma_lex_total(s[b0].name@, s[n].name@);
        lemma_lex_refl(s[n].name@);
        let take_last = s[n].name@ != c && (s[n].last_attached > s[b0].last_attached || (
        s[n].last_attached == s[b0].last_attached && !lex_le(s[b0].name@, s[n].name@)));
        let b = if take_last {
            n
        } else {
            b0
        };
        assert forall|j: int| 0 <= j < s.len() && s[j].name@ != c implies entry_outranks(s, b, j) by {
            if j < n {
                assert(init[j] == s[j]);
                assert(entry_outranks(init, b0, j));
                if take_last && s[n].last_attached == s[j].last_attached {
                    lemma_lex_trans(s[n].name@, s[b0].name@, s[j].name@);
                }
            } else {
                lemma_lex_refl(s[b].name@);
            }
        }
        b
    } else {
        lemma_lex_refl(s[i].name@);
        assert forall|j: int| 0 <= j < s.len() && s[j].name@ != c implies entry_outranks(s, i, j) by {
            if j < n {
                assert(s[j].name@ == c);
            }
        }
        i
    }
}

/// Where the map holds a session other than the current one, there is a
/// previous session.
pub proof fn lemma_previous_exists(sessions: &SessionMap, current: Seq<char>, other: Seq<char>)
    requires
        sessions.wf(),
        sessions@.contains_key(other),
        other != current,
    ensures
        previous_of(sessions@, Some(current)) is Some,
{
    let s = sessions.entries@;
    lemma_map_of_keys(s, other);
    let i = choose|i: int| 0 <= i < s.len() && s[i].name@ == other;
    let b = lemma_best_entry(s, current, i);
    lemma_map_of_index(s, b);
    assert forall|k: Seq<char>|
        sessions@.contains_key(k) && k != current implies outranks(sessions@, s[b].name@, k) by {
        lemma_map_of_keys(s, k);
        let j = choose|j: int| 0 <= j < s.len() && s[j].name@ == k;
        lemma_map_of_index(s, j);
        assert(entry_outranks(s, b, j));
    }
    assert(is_previous(sessions@, current, s[b].name@));
}

} // verus!

verus! {

/// In an order by recency holding one worktree of the previous session, at
/// `ip`, and one of the current session, at `jc`, the first stands first and
/// the second stands second.
pub proof fn lemma_current_second(r: Recency, v: Seq<WorktreeView>, ip: int, jc: int)
    requires
        sorted_by_recency(r, v),
        0 <= ip < v.len(),
        0 <= jc < v.len(),
        r.previous == Some(base_name(v[ip].path)),
        r.current == Some(base_name(v[jc].path)),
        base_name(v[ip].path) != base_name(v[jc].path),
        forall|i: int|
            0 <= i < v.len() && base_name(#[trigger] v[i].path) == base_name(v[ip].path) ==> i
                == ip,
        forall|i: int|
            0 <= i < v.len() && base_name(#[trigger] v[i].path) == base_name(v[jc].path) ==> i
                == jc,
    ensures
        ip == 0,
        jc == 1,
{
    if ip > 0 {
        lemma_previous_then_current(r, v, 0, ip);
    }
    if jc > 1 {
        lemma_previous_then_current(r, v, 0, jc);
        lemma_previous_then_current(r, v, 1, jc);
        assert(base_name(v[0].path) == base_name(v[ip].path));
        assert(base_name(v[1].path) == base_name(v[ip].path));
    }
    if jc == 0 {
        lemma_previous_then_current(r, v, 0, ip);
    }
}

} // verus!
