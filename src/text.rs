//! Character-level helpers shared by the parsers: whitespace, line splitting,
//! prefixes, fields and lexicographic order.
use vstd::prelude::*;
use vstd::string::*;

verus! {

/// The Unicode `White_Space` property, which `char::is_whitespace` tests.
pub open spec fn is_ws(c: char) -> bool {
    c == ' ' || ('\t' <= c && c <= '\r') || c == '\u{85}' || c == '\u{a0}' || c == '\u{1680}'
        || ('\u{2000}' <= c && c <= '\u{200a}') || c == '\u{2028}' || c == '\u{2029}'
        || c == '\u{202f}' || c == '\u{205f}' || c == '\u{3000}'
}

pub fn is_whitespace(c: char) -> (r: bool)
    ensures
        r == is_ws(c),
{
    c == ' ' || ('\t' <= c && c <= '\r') || c == '\u{85}' || c == '\u{a0}' || c == '\u{1680}'
        || ('\u{2000}' <= c && c <= '\u{200a}') || c == '\u{2028}' || c == '\u{2029}'
        || c == '\u{202f}' || c == '\u{205f}' || c == '\u{3000}'
}

/// The first index at or after `i` that does not hold whitespace.
pub open spec fn skip_ws(s: Seq<char>, i: int) -> int
    decreases s.len() - i,
{
    if 0 <= i < s.len() && is_ws(s[i]) {
        skip_ws(s, i + 1)
    } else {
        i
    }
}

/// The first index at or after `i` that holds whitespace.
pub open spec fn skip_word(s: Seq<char>, i: int) -> int
    decreases s.len() - i,
{
    if 0 <= i < s.len() && !is_ws(s[i]) {
        skip_word(s, i + 1)
    } else {
        i
    }
}

/// The second whitespace-separated word of `s`, or the empty sequence when
/// `s` has fewer than two words.
pub open spec fn second_field(s: Seq<char>) -> Seq<char> {
    let a = skip_ws(s, 0);
    let b = skip_word(s, a);
    let c = skip_ws(s, b);
    let d = skip_word(s, c);
    s.subrange(c, d)
}

fn skip_ws_from(s: &str, n: usize, i: usize) -> (r: usize)
    requires
        n == s@.len(),
        i <= n,
    ensures
        r == skip_ws(s@, i as int),
        i <= r <= n,
{
    let mut j: usize = i;
    while j < n && is_whitespace(s.get_char(j))
        invariant
            i <= j <= n,
            n == s@.len(),
            skip_ws(s@, j as int) == skip_ws(s@, i as int),
        decreases n - j,
    {
        j = j + 1;
    }
    j
}

fn skip_word_from(s: &str, n: usize, i: usize) -> (r: usize)
    requires
        n == s@.len(),
        i <= n,
    ensures
        r == skip_word(s@, i as int),
        i <= r <= n,
{
    let mut j: usize = i;
    while j < n && !is_whitespace(s.get_char(j))
        invariant
            i <= j <= n,
            n == s@.len(),
            skip_word(s@, j as int) == skip_word(s@, i as int),
        decreases n - j,
    {
        j = j + 1;
    }
    j
}

/// The second whitespace-separated word of `s`; empty when there is none.
pub fn take_second_field(s: &str) -> (r: String)
    ensures
        r@ == second_field(s@),
{
    let n = s.unicode_len();
    let a = skip_ws_from(s, n, 0);
    let b = skip_word_from(s, n, a);
    let c = skip_ws_from(s, n, b);
    let d = skip_word_from(s, n, c);
    s.substring_char(c, d).to_string()
}

pub open spec fn has_prefix(s: Seq<char>, p: Seq<char>) -> bool {
    p.len() <= s.len() && s.subrange(0, p.len() as int) == p
}

pub fn starts_with(s: &str, p: &str) -> (r: bool)
    ensures
        r == has_prefix(s@, p@),
{
    let n = s.unicode_len();
    let m = p.unicode_len();
    if m > n {
        return false;
    }
    let mut i: usize = 0;
    while i < m
        invariant
            i <= m <= n,
            n == s@.len(),
            m == p@.len(),
            forall|k: int| 0 <= k < i ==> s@[k] == p@[k],
        decreases m - i,
    {
        if s.get_char(i) != p.get_char(i) {
            assert(s@.subrange(0, m as int)[i as int] != p@[i as int]);
            return false;
        }
        i = i + 1;
    }
    assert(s@.subrange(0, m as int) =~= p@);
    true
}

/// The pieces of `s` between `'\n'` characters, as `str::split('\n')` gives
/// them: one more piece than there are newlines.
pub open spec fn pieces(s: Seq<char>) -> Seq<Seq<char>>
    decreases s.len(),
{
    if s.len() == 0 {
        seq![Seq::<char>::empty()]
    } else {
        let p = pieces(s.drop_last());
        if s.last() == '\n' {
            p.push(Seq::<char>::empty())
        } else {
            p.update(p.len() - 1, p.last().push(s.last()))
        }
    }
}

pub open spec fn strip_cr(l: Seq<char>) -> Seq<char> {
    if l.len() > 0 && l.last() == '\r' {
        l.drop_last()
    } else {
        l
    }
}

/// The lines of `s` as `str::lines` yields them: split at `'\n'`, a `'\r'`
/// before the `'\n'` dropped, and no empty line after a final newline.
pub open spec fn lines_of(s: Seq<char>) -> Seq<Seq<char>> {
    let p = pieces(s);
    let body = p.drop_last().map_values(|l: Seq<char>| strip_cr(l));
    if p.last().len() == 0 {
        body
    } else {
        body.push(p.last())
    }
}

pub open spec fn views(v: Seq<String>) -> Seq<Seq<char>> {
    v.map_values(|l: String| l@)
}

/// Splits `s` into lines, as `str::lines` does.
pub fn split_lines(s: &str) -> (r: Vec<String>)
    ensures
        views(r@) == lines_of(s@),
{
    let n = s.unicode_len();
    let mut out: Vec<String> = Vec::new();
    let ghost mut raw: Seq<Seq<char>> = Seq::empty();
    let mut start: usize = 0;
    let mut i: usize = 0;
    assert(s@.subrange(0, 0) =~= Seq::<char>::empty());
    assert(raw.push(s@.subrange(0, 0)) =~= seq![Seq::<char>::empty()]);
    assert(views(out@) =~= raw.map_values(|l: Seq<char>| strip_cr(l)));
    while i < n
        invariant
            start <= i <= n,
            n == s@.len(),
            pieces(s@.subrange(0, i as int)) == raw.push(s@.subrange(start as int, i as int)),
            views(out@) == raw.map_values(|l: Seq<char>| strip_cr(l)),
        decreases n - i,
    {
        let c = s.get_char(i);
        let ghost cur = s@.subrange(start as int, i as int);
        assert(s@.subrange(0, i + 1).drop_last() =~= s@.subrange(0, i as int));
        if c == '\n' {
            let end = if i > start && s.get_char(i - 1) == '\r' {
                i - 1
            } else {
                i
            };
            let line = s.substring_char(start, end).to_string();
            assert(line@ == strip_cr(cur)) by {
                if i > start && s@[i - 1] == '\r' {
                    assert(cur.drop_last() =~= s@.subrange(start as int, end as int));
                } else {
                    assert(cur =~= s@.subrange(start as int, end as int));
                }
            }
            let ghost before = out@;
            out.push(line);
            proof {
                assert(views(out@) =~= views(before).push(line@));
                raw = raw.push(cur);
                assert(views(out@) =~= raw.map_values(|l: Seq<char>| strip_cr(l)));
                assert(s@.subrange(i + 1, i + 1) =~= Seq::<char>::empty());
            }
            start = i + 1;
        } else {
            assert(cur.push(c) =~= s@.subrange(start as int, i + 1));
            assert(raw.push(cur).update(raw.len() as int, cur.push(c)) =~= raw.push(cur.push(c)));
        }
        i = i + 1;
    }
    assert(s@.subrange(0, n as int) =~= s@);
    let ghost p = pieces(s@);
    assert(p.drop_last() =~= raw);
    if start < n {
        let last = s.substring_char(start, n).to_string();
        let ghost before = out@;
        out.push(last);
        assert(views(out@) =~= views(before).push(last@));
        assert(views(out@) =~= lines_of(s@));
    } else {
        assert(views(out@) =~= lines_of(s@));
    }
    out
}

} // verus!

verus! {

/// Lexicographic order on character sequences, as `str`'s `Ord` compares
/// (code point by code point, a proper prefix first).
pub open spec fn lex_le(a: Seq<char>, b: Seq<char>) -> bool
    decreases a.len(),
{
    if a.len() == 0 {
        true
    } else if b.len() == 0 {
        false
    } else if a[0] != b[0] {
        a[0] < b[0]
    } else {
        lex_le(a.drop_first(), b.drop_first())
    }
}

pub proof fn lemma_lex_total(a: Seq<char>, b: Seq<char>)
    ensures
        lex_le(a, b) || lex_le(b, a),
    decreases a.len(),
{
    if a.len() > 0 && b.len() > 0 && a[0] == b[0] {
        lemma_lex_total(a.drop_first(), b.drop_first());
    }
}

pub proof fn lemma_lex_antisym(a: Seq<char>, b: Seq<char>)
    requires
        lex_le(a, b),
        lex_le(b, a),
    ensures
        a == b,
    decreases a.len(),
{
    if a.len() > 0 && b.len() > 0 {
        lemma_lex_antisym(a.drop_first(), b.drop_first());
        assert(a =~= seq![a[0]] + a.drop_first());
        assert(b =~= seq![b[0]] + b.drop_first());
    } else {
        assert(a =~= b);
    }
}

pub proof fn lemma_lex_trans(a: Seq<char>, b: Seq<char>, c: Seq<char>)
    requires
        lex_le(a, b),
        lex_le(b, c),
    ensures
        lex_le(a, c),
    decreases a.len(),
{
    if a.len() > 0 && b.len() > 0 && c.len() > 0 && a[0] == b[0] && b[0] == c[0] {
        lemma_lex_trans(a.drop_first(), b.drop_first(), c.drop_first());
    }
}

pub proof fn lemma_lex_refl(a: Seq<char>)
    ensures
        lex_le(a, a),
    decreases a.len(),
{
    if a.len() > 0 {
        lemma_lex_refl(a.drop_first());
    }
}

/// Whether `a` sorts before or equal to `b`, as `str` comparison decides.
pub fn lex_le_str(a: &str, b: &str) -> (r: bool)
    ensures
        r == lex_le(a@, b@),
{
    let la = a.unicode_len();
    let lb = b.unicode_len();
    let mut i: usize = 0;
    assert(a@.subrange(0, la as int) =~= a@);
    assert(b@.subrange(0, lb as int) =~= b@);
    while i < la && i < lb && a.get_char(i) == b.get_char(i)
        invariant
            i <= la,
            i <= lb,
            la == a@.len(),
            lb == b@.len(),
            lex_le(a@.subrange(i as int, la as int), b@.subrange(i as int, lb as int)) == lex_le(
                a@,
                b@,
            ),
        decreases la - i,
    {
        assert(a@.subrange(i as int, la as int).drop_first() =~= a@.subrange(i + 1, la as int));
        assert(b@.subrange(i as int, lb as int).drop_first() =~= b@.subrange(i + 1, lb as int));
        i = i + 1;
    }
    if i == la {
        true
    } else if i == lb {
        false
    } else {
        a.get_char(i) < b.get_char(i)
    }
}

} // verus!

verus! {

/// Whether `a` and `b` hold the same characters.
pub fn same_chars(a: &str, b: &str) -> (r: bool)
    ensures
        r == (a@ == b@),
{
    let ab = lex_le_str(a, b);
    let ba = lex_le_str(b, a);
    proof {
        if ab && ba {
            lemma_lex_antisym(a@, b@);
        }
        lemma_lex_refl(a@);
    }
    ab && ba
}

} // verus!

verus! {

/// The first index at or after `i` that holds `c`, or the length of `s`.
pub open spec fn find_from(s: Seq<char>, c: char, i: int) -> int
    decreases s.len() - i,
{
    if 0 <= i < s.len() && s[i] != c {
        find_from(s, c, i + 1)
    } else {
        i
    }
}

pub fn find_char(s: &str, c: char) -> (r: usize)
    ensures
        r == find_from(s@, c, 0),
        r <= s@.len(),
{
    let n = s.unicode_len();
    let mut j: usize = 0;
    while j < n && s.get_char(j) != c
        invariant
            j <= n,
            n == s@.len(),
            find_from(s@, c, j as int) == find_from(s@, c, 0),
        decreases n - j,
    {
        j = j + 1;
    }
    j
}

pub open spec fn is_digit(c: char) -> bool {
    '0' <= c && c <= '9'
}

/// The number that a sequence of decimal digits writes.
pub open spec fn digits_value(s: Seq<char>) -> int
    decreases s.len(),
{
    if s.len() == 0 {
        0
    } else {
        digits_value(s.drop_last()) * 10 + (s.last() as int - '0' as int)
    }
}

pub open spec fn all_digits(d: Seq<char>) -> bool {
    forall|i: int| 0 <= i < d.len() ==> is_digit(#[trigger] d[i])
}

/// `s` without one leading `+`.
pub open spec fn unsigned_part(s: Seq<char>) -> Seq<char> {
    if s.len() > 0 && s[0] == '+' {
        s.drop_first()
    } else {
        s
    }
}

/// `u64`'s `FromStr`: an optional `+`, then one or more decimal digits whose
/// value fits in a `u64`.
pub open spec fn decimal_u64(s: Seq<char>) -> Option<u64> {
    let d = unsigned_part(s);
    if d.len() > 0 && all_digits(d) && digits_value(d) <= u64::MAX {
        Some(digits_value(d) as u64)
    } else {
        None
    }
}

proof fn lemma_digits_value_grows(s: Seq<char>)
    requires
        s.len() > 0,
        is_digit(s.last()),
    ensures
        digits_value(s) >= digits_value(s.drop_last()) * 10,
{
}

/// Reads a `u64` as `str::parse::<u64>` does.
pub fn parse_u64(s: &str) -> (r: Option<u64>)
    ensures
        r == decimal_u64(s@),
{
    let n = s.unicode_len();
    let start: usize = if n > 0 && s.get_char(0) == '+' {
        1
    } else {
        0
    };
    let ghost d = s@.subrange(start as int, n as int);
    assert(d =~= unsigned_part(s@));
    if start == n {
        return None;
    }
    let mut acc: u64 = 0;
    let mut i: usize = start;
    assert(s@.subrange(start as int, start as int) =~= Seq::<char>::empty());
    while i < n
        invariant
            start <= i <= n,
            n == s@.len(),
            d == s@.subrange(start as int, n as int),
            d == unsigned_part(s@),
            acc == digits_value(s@.subrange(start as int, i as int)),
            forall|k: int| start <= k < i ==> is_digit(#[trigger] s@[k]),
        decreases n - i,
    {
        let c = s.get_char(i);
        let ghost pre = s@.subrange(start as int, i as int);
        let ghost next = s@.subrange(start as int, i + 1);
        assert(next.drop_last() =~= pre);
        if !('0' <= c && c <= '9') {
            proof {
                assert(d[i - start] == s@[i as int]);
                assert(!is_digit(d[i - start]));
                assert(!all_digits(d));
            }
            return None;
        }
        let digit: u64 = ((c as u32) - ('0' as u32)) as u64;
        assert(digits_value(next) == acc * 10 + digit);
        if acc > 1844674407370955161 || (acc == 1844674407370955161 && digit > 5) {
            proof {
                assert(digits_value(next) > u64::MAX);
                assert forall|k: int| 0 <= k < next.len() implies is_digit(#[trigger] next[k]) by {
                    assert(next[k] == s@[start + k]);
                }
                lemma_digits_above(s@, start as int, i + 1, n as int);
                if all_digits(d) {
                    assert forall|k: int| start <= k < n implies is_digit(#[trigger] s@[k]) by {
                        assert(s@[k] == d[k - start]);
                    }
                }
            }
            return None;
        }
        acc = acc * 10 + digit;
        i = i + 1;
    }
    assert(s@.subrange(start as int, n as int) =~= d);
    proof {
        assert forall|k: int| 0 <= k < d.len() implies is_digit(#[trigger] d[k]) by {
            assert(d[k] == s@[start + k]);
        }
    }
    Some(acc)
}

proof fn lemma_digits_above(s: Seq<char>, start: int, j: int, n: int)
    requires
        0 <= start < j <= n <= s.len(),
        digits_value(s.subrange(start, j)) > u64::MAX,
        forall|k: int| start <= k < j ==> is_digit(#[trigger] s[k]),
    ensures
        !(forall|k: int| start <= k < n ==> is_digit(#[trigger] s[k])) || digits_value(
            s.subrange(start, n),
        ) > u64::MAX,
    decreases n - j,
{
    if j < n && is_digit(s[j]) {
        let next = s.subrange(start, j + 1);
        assert(next.drop_last() =~= s.subrange(start, j));
        lemma_digits_value_grows(next);
        lemma_digits_above(s, start, j + 1, n);
    }
}

} // verus!

verus! {

/// The pieces of `s` between the characters `c`, as `str::split(c)` gives
/// them: one more piece than there are separators.
pub open spec fn split_on(s: Seq<char>, c: char) -> Seq<Seq<char>>
    decreases s.len(),
{
    if s.len() == 0 {
        seq![Seq::<char>::empty()]
    } else {
        let p = split_on(s.drop_last(), c);
        if s.last() == c {
            p.push(Seq::<char>::empty())
        } else {
            p.update(p.len() - 1, p.last().push(s.last()))
        }
    }
}

/// The end of `s` once trailing whitespace before index `j` is dropped.
pub open spec fn trim_end_from(s: Seq<char>, j: int) -> int
    decreases j,
{
    if 0 < j <= s.len() && is_ws(s[j - 1]) {
        trim_end_from(s, j - 1)
    } else {
        j
    }
}

/// `s` without leading and trailing whitespace, as `str::trim` gives it.
pub open spec fn trimmed(s: Seq<char>) -> Seq<char> {
    let a = skip_ws(s, 0);
    if a == s.len() {
        Seq::empty()
    } else {
        s.subrange(a, trim_end_from(s, s.len() as int))
    }
}

proof fn lemma_skip_ws_bounds(s: Seq<char>, i: int)
    requires
        0 <= i <= s.len(),
    ensures
        i <= skip_ws(s, i) <= s.len(),
        skip_ws(s, i) < s.len() ==> !is_ws(s[skip_ws(s, i)]),
    decreases s.len() - i,
{
    if i < s.len() && is_ws(s[i]) {
        lemma_skip_ws_bounds(s, i + 1);
    }
}

proof fn lemma_trim_end_bounds(s: Seq<char>, a: int, j: int)
    requires
        0 <= a < j <= s.len(),
        !is_ws(s[a]),
    ensures
        a < trim_end_from(s, j) <= j,
    decreases j,
{
    if is_ws(s[j - 1]) {
        lemma_trim_end_bounds(s, a, j - 1);
    }
}

pub fn trim_str(s: &str) -> (r: &str)
    ensures
        r@ == trimmed(s@),
{
    let n = s.unicode_len();
    let a = skip_ws_from(s, n, 0);
    if a == n {
        return s.substring_char(n, n);
    }
    proof {
        lemma_skip_ws_bounds(s@, 0);
        lemma_trim_end_bounds(s@, a as int, n as int);
    }
    let mut e: usize = n;
    while e > a && is_whitespace(s.get_char(e - 1))
        invariant
            a < n,
            a < e <= n,
            n == s@.len(),
            !is_ws(s@[a as int]),
            trim_end_from(s@, e as int) == trim_end_from(s@, n as int),
        decreases e,
    {
        e = e - 1;
        proof {
            lemma_trim_end_bounds(s@, a as int, e as int + 1);
        }
    }
    s.substring_char(a, e)
}

/// Splits `s` at each `,` and trims each piece: a comma-separated list.
pub fn split_list(s: &str) -> (r: Vec<String>)
    ensures
        views(r@) == split_on(s@, ',').map_values(|p: Seq<char>| trimmed(p)),
{
    let n = s.unicode_len();
    let mut out: Vec<String> = Vec::new();
    let ghost mut raw: Seq<Seq<char>> = Seq::empty();
    let mut start: usize = 0;
    let mut i: usize = 0;
    assert(s@.subrange(0, 0) =~= Seq::<char>::empty());
    assert(raw.push(s@.subrange(0, 0)) =~= seq![Seq::<char>::empty()]);
    assert(views(out@) =~= raw.map_values(|p: Seq<char>| trimmed(p)));
    while i < n
        invariant
            start <= i <= n,
            n == s@.len(),
            split_on(s@.subrange(0, i as int), ',') == raw.push(s@.subrange(start as int, i as int)),
            views(out@) == raw.map_values(|p: Seq<char>| trimmed(p)),
        decreases n - i,
    {
        let c = s.get_char(i);
        let ghost cur = s@.subrange(start as int, i as int);
        assert(s@.subrange(0, i + 1).drop_last() =~= s@.subrange(0, i as int));
        if c == ',' {
            let piece = trim_str(s.substring_char(start, i)).to_string();
            let ghost before = out@;
            out.push(piece);
            proof {
                assert(views(out@) =~= views(before).push(piece@));
                raw = raw.push(cur);
                assert(views(out@) =~= raw.map_values(|p: Seq<char>| trimmed(p)));
                assert(s@.subrange(i + 1, i + 1) =~= Seq::<char>::empty());
            }
            start = i + 1;
        } else {
            assert(cur.push(c) =~= s@.subrange(start as int, i + 1));
            assert(raw.push(cur).update(raw.len() as int, cur.push(c)) =~= raw.push(cur.push(c)));
        }
        i = i + 1;
    }
    assert(s@.subrange(0, n as int) =~= s@);
    let last = trim_str(s.substring_char(start, n)).to_string();
    let ghost before = out@;
    out.push(last);
    assert(views(out@) =~= views(before).push(last@));
    assert(views(out@) =~= split_on(s@, ',').map_values(|p: Seq<char>| trimmed(p)));
    out
}

} // verus!

verus! {

/// Lines joined by `'\n'`, with no newline after the last one.
pub open spec fn join_lines(ls: Seq<Seq<char>>) -> Seq<char>
    decreases ls.len(),
{
    if ls.len() == 0 {
        Seq::empty()
    } else if ls.len() == 1 {
        ls[0]
    } else {
        join_lines(ls.drop_last()).push('\n') + ls.last()
    }
}

/// A line as text holds it: no `'\n'` inside and no `'\r'` at its end.
pub open spec fn plain_line(l: Seq<char>) -> bool {
    &&& forall|i: int| 0 <= i < l.len() ==> l[i] != '\n'
    &&& (l.len() > 0 ==> l.last() != '\r')
}

proof fn lemma_pieces_nonempty(s: Seq<char>)
    ensures
        pieces(s).len() >= 1,
    decreases s.len(),
{
    if s.len() > 0 {
        lemma_pieces_nonempty(s.drop_last());
    }
}

proof fn lemma_pieces_append(s: Seq<char>, t: Seq<char>)
    requires
        forall|i: int| 0 <= i < t.len() ==> t[i] != '\n',
    ensures
        pieces(s + t) == pieces(s).update(pieces(s).len() - 1, pieces(s).last() + t),
    decreases t.len(),
{
    lemma_pieces_nonempty(s);
    let p = pieces(s);
    if t.len() == 0 {
        assert(s + t =~= s);
        assert(p.last() + t =~= p.last());
        assert(p.update(p.len() - 1, p.last()) =~= p);
    } else {
        let u = t.drop_last();
        lemma_pieces_append(s, u);
        assert((s + t).drop_last() =~= s + u);
        assert((s + t).last() == t[t.len() - 1]);
        assert(p.last() + u.push(t.last()) =~= p.last() + t);
        assert(u.push(t.last()) =~= t);
        let q = p.update(p.len() - 1, p.last() + u);
        assert(q.update(q.len() - 1, q.last().push(t.last())) =~= p.update(
            p.len() - 1,
            p.last() + t,
        ));
    }
}

proof fn lemma_pieces_join(ls: Seq<Seq<char>>)
    requires
        ls.len() >= 1,
        forall|k: int| 0 <= k < ls.len() ==> plain_line(#[trigger] ls[k]),
    ensures
        pieces(join_lines(ls)) == ls,
    decreases ls.len(),
{
    let last = ls.last();
    assert(plain_line(ls[ls.len() - 1]));
    if ls.len() == 1 {
        lemma_pieces_append(Seq::empty(), last);
        assert(Seq::<char>::empty() + last =~= last);
        assert(seq![Seq::<char>::empty()].update(0, Seq::<char>::empty() + last) =~= ls);
    } else {
        let init = ls.drop_last();
        assert forall|k: int| 0 <= k < init.len() implies plain_line(#[trigger] init[k]) by {
            assert(init[k] == ls[k]);
        }
        lemma_pieces_join(init);
        let j = join_lines(init).push('\n');
        assert(j.drop_last() =~= join_lines(init));
        assert(pieces(j) == init.push(Seq::<char>::empty()));
        lemma_pieces_append(j, last);
        assert(Seq::<char>::empty() + last =~= last);
        assert(init.push(Seq::<char>::empty()).update(init.len() as int, last) =~= ls);
    }
}

/// Text made of plain lines joined by newlines, the last one not empty,
/// splits back into those lines, with or without a final newline.
pub proof fn lemma_lines_of_join(ls: Seq<Seq<char>>)
    requires
        ls.len() >= 1,
        forall|k: int| 0 <= k < ls.len() ==> plain_line(#[trigger] ls[k]),
        ls.last().len() > 0,
    ensures
        lines_of(join_lines(ls)) == ls,
        lines_of(join_lines(ls).push('\n')) == ls,
{
    lemma_pieces_join(ls);
    let j = join_lines(ls).push('\n');
    assert(j.drop_last() =~= join_lines(ls));
    assert(pieces(j) == ls.push(Seq::<char>::empty()));
    assert(pieces(j).drop_last() =~= ls);
    assert forall|k: int| 0 <= k < ls.len() implies strip_cr(ls[k]) == ls[k] by {
        assert(plain_line(ls[k]));
    }
    assert(ls.map_values(|l: Seq<char>| strip_cr(l)) =~= ls);
    let body = ls.drop_last().map_values(|l: Seq<char>| strip_cr(l));
    assert forall|k: int| 0 <= k < ls.len() - 1 implies body[k] == ls[k] by {
        assert(plain_line(ls[k]));
    }
    assert(body.push(ls.last()) =~= ls);
}

} // verus!

verus! {

pub open spec fn free_of(s: Seq<char>, c: char) -> bool {
    forall|i: int| 0 <= i < s.len() ==> s[i] != c
}

proof fn lemma_split_on_nonempty(s: Seq<char>, c: char)
    ensures
        split_on(s, c).len() >= 1,
    decreases s.len(),
{
    if s.len() > 0 {
        lemma_split_on_nonempty(s.drop_last(), c);
    }
}

proof fn lemma_split_on_append(s: Seq<char>, t: Seq<char>, c: char)
    requires
        free_of(t, c),
    ensures
        split_on(s + t, c) == split_on(s, c).update(
            split_on(s, c).len() - 1,
            split_on(s, c).last() + t,
        ),
    decreases t.len(),
{
    lemma_split_on_nonempty(s, c);
    let p = split_on(s, c);
    if t.len() == 0 {
        assert(s + t =~= s);
        assert(p.last() + t =~= p.last());
        assert(p.update(p.len() - 1, p.last()) =~= p);
    } else {
        let u = t.drop_last();
        lemma_split_on_append(s, u, c);
        assert((s + t).drop_last() =~= s + u);
        assert((s + t).last() == t[t.len() - 1]);
        assert(u.push(t.last()) =~= t);
        let q = p.update(p.len() - 1, p.last() + u);
        assert(q.update(q.len() - 1, q.last().push(t.last())) =~= p.update(
            p.len() - 1,
            p.last() + t,
        ));
    }
}

/// Splitting at `c` text that ends with `c` and a piece free of `c` adds
/// that piece as one more field.
pub proof fn lemma_split_on_field(x: Seq<char>, y: Seq<char>, c: char)
    requires
        free_of(y, c),
    ensures
        split_on(x.push(c) + y, c) == split_on(x, c).push(y),
{
    assert(x.push(c).drop_last() =~= x);
    lemma_split_on_append(x.push(c), y, c);
    assert(Seq::<char>::empty() + y =~= y);
    let p = split_on(x, c);
    assert(p.push(Seq::<char>::empty()).update(p.len() as int, y) =~= p.push(y));
}

/// Text free of `c` splits at `c` into itself alone.
pub proof fn lemma_split_on_whole(y: Seq<char>, c: char)
    requires
        free_of(y, c),
    ensures
        split_on(y, c) == seq![y],
{
    lemma_split_on_append(Seq::empty(), y, c);
    assert(Seq::<char>::empty() + y =~= y);
    assert(seq![Seq::<char>::empty()].update(0, Seq::<char>::empty() + y) =~= seq![y]);
}

} // verus!

verus! {

/// Two newlines after text that ends in neither `'\n'` nor `'\r'` add one
/// empty line to its lines.
pub proof fn lemma_lines_of_blank_after(s: Seq<char>)
    requires
        s.len() > 0,
        s.last() != '\n',
        s.last() != '\r',
    ensures
        lines_of(s.push('\n').push('\n')) == lines_of(s).push(Seq::<char>::empty()),
        lines_of(s).len() > 0,
        lines_of(s).last().len() > 0,
{
    let p = pieces(s);
    lemma_pieces_nonempty(s);
    assert(s.push('\n').drop_last() =~= s);
    assert(s.push('\n').push('\n').drop_last() =~= s.push('\n'));
    let q = pieces(s.push('\n').push('\n'));
    assert(s.push('\n').last() == '\n');
    assert(pieces(s.push('\n')) == p.push(Seq::<char>::empty()));
    assert(s.push('\n').push('\n').last() == '\n');
    assert(q == p.push(Seq::<char>::empty()).push(Seq::<char>::empty()));
    assert(p.last().len() > 0 && p.last().last() != '\r') by {
        let pp = pieces(s.drop_last());
        lemma_pieces_nonempty(s.drop_last());
        assert(p == pp.update(pp.len() - 1, pp.last().push(s.last())));
        assert(p.last() == pp.last().push(s.last()));
    }
    assert(strip_cr(p.last()) == p.last());
    assert(q.drop_last() =~= p.drop_last().push(p.last()).push(Seq::<char>::empty()));
    assert(q.drop_last().map_values(|l: Seq<char>| strip_cr(l)) =~= p.drop_last().map_values(
        |l: Seq<char>| strip_cr(l),
    ).push(p.last()).push(Seq::<char>::empty()));
}

} // verus!
