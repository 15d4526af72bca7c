//! Small verified text helpers shared by the name tables and id handling.
use vstd::prelude::*;
use vstd::string::*;

verus! {

/// Character-wise equality of two string slices.
pub fn str_eq(a: &str, b: &str) -> (r: bool)
    ensures
        r == (a@ == b@),
{
    let n = a.unicode_len();
    if n != b.unicode_len() {
        return false;
    }
    let mut i: usize = 0;
    while i < n
        invariant
            n == a@.len(),
            n == b@.len(),
            i <= n,
            forall|j: int| 0 <= j < i ==> a@[j] == b@[j],
        decreases n - i,
    {
        if a.get_char(i) != b.get_char(i) {
            return false;
        }
        i = i + 1;
    }
    assert(a@ =~= b@);
    true
}

/// Unicode White_Space, as `char::is_whitespace` reads it.
pub open spec fn is_space(c: char) -> bool {
    ('\u{9}' <= c && c <= '\u{d}') || c == ' ' || c == '\u{85}' || c == '\u{a0}' || c == '\u{1680}' || (
    '\u{2000}' <= c && c <= '\u{200a}') || c == '\u{2028}' || c == '\u{2029}' || c == '\u{202f}' || c
        == '\u{205f}' || c == '\u{3000}'
}

pub fn char_is_space(c: char) -> (r: bool)
    ensures
        r == is_space(c),
{
    ('\u{9}' <= c && c <= '\u{d}') || c == ' ' || c == '\u{85}' || c == '\u{a0}' || c == '\u{1680}' || (
    '\u{2000}' <= c && c <= '\u{200a}') || c == '\u{2028}' || c == '\u{2029}' || c == '\u{202f}' || c
        == '\u{205f}' || c == '\u{3000}'
}

/// `s` without its leading white space.
pub open spec fn trim_start(s: Seq<char>) -> Seq<char>
    decreases s.len(),
{
    if s.len() > 0 && is_space(s[0]) {
        trim_start(s.drop_first())
    } else {
        s
    }
}

/// `s` without its trailing white space.
pub open spec fn trim_end(s: Seq<char>) -> Seq<char>
    decreases s.len(),
{
    if s.len() > 0 && is_space(s.last()) {
        trim_end(s.drop_last())
    } else {
        s
    }
}

/// `s` without leading or trailing white space, as `str::trim` gives it.
pub open spec fn trimmed(s: Seq<char>) -> Seq<char> {
    trim_end(trim_start(s))
}

proof fn lemma_trim_start_at(s: Seq<char>, a: int)
    requires
        0 <= a <= s.len(),
        forall|j: int| 0 <= j < a ==> is_space(s[j]),
        a < s.len() ==> !is_space(s[a]),
    ensures
        trim_start(s) == s.skip(a),
    decreases a,
{
    if a == 0 {
        assert(s.skip(0) =~= s);
    } else {
        let t = s.drop_first();
        assert forall|j: int| 0 <= j < a - 1 implies is_space(t[j]) by {
            assert(t[j] == s[j + 1]);
        }
        if a - 1 < t.len() {
            assert(t[a - 1] == s[a]);
        }
        lemma_trim_start_at(t, a - 1);
        assert(t.skip(a - 1) =~= s.skip(a));
    }
}

proof fn lemma_trim_end_at(s: Seq<char>, b: int)
    requires
        0 <= b <= s.len(),
        forall|j: int| b <= j < s.len() ==> is_space(s[j]),
        b > 0 ==> !is_space(s[b - 1]),
    ensures
        trim_end(s) == s.take(b),
    decreases s.len() - b,
{
    if b == s.len() {
        assert(s.take(b) =~= s);
    } else {
        let t = s.drop_last();
        assert forall|j: int| b <= j < t.len() implies is_space(t[j]) by {
            assert(t[j] == s[j]);
        }
        if b > 0 {
            assert(t[b - 1] == s[b - 1]);
        }
        lemma_trim_end_at(t, b);
        assert(t.take(b) =~= s.take(b));
    }
}

/// `s` without leading or trailing white space.
pub fn trim(s: &str) -> (r: &str)
    ensures
        r@ == trimmed(s@),
{
    let n = s.unicode_len();
    let mut a: usize = 0;
    while a < n && char_is_space(s.get_char(a))
        invariant
            n == s@.len(),
            a <= n,
            forall|j: int| 0 <= j < a ==> is_space(s@[j]),
        decreases n - a,
    {
        a = a + 1;
    }
    proof {
        lemma_trim_start_at(s@, a as int);
    }
    let mut b: usize = n;
    while b > a && char_is_space(s.get_char(b - 1))
        invariant
            n == s@.len(),
            a <= b <= n,
            forall|j: int| b <= j < n ==> is_space(s@[j]),
        decreases b,
    {
        b = b - 1;
    }
    proof {
        let t = s@.skip(a as int);
        assert forall|j: int| b - a <= j < t.len() implies is_space(t[j]) by {
            assert(t[j] == s@[j + a]);
        }
        if b > a {
            assert(t[b - a - 1] == s@[b - 1]);
        }
        lemma_trim_end_at(t, b - a);
        assert(t.take(b - a) =~= s@.subrange(a as int, b as int));
    }
    s.substring_char(a, b)
}

/// At most the first `limit` characters of `s`.
pub fn first_chars(s: &str, limit: usize) -> (r: &str)
    ensures
        r@ == s@.take(if s@.len() < limit { s@.len() as int } else { limit as int }),
{
    let n = s.unicode_len();
    let end = if n < limit { n } else { limit };
    let r = s.substring_char(0, end);
    assert(r@ =~= s@.take(end as int));
    r
}

/// Trimming keeps a text with some character that is not white space
/// non-empty.
pub proof fn lemma_trim_keeps(s: Seq<char>, k: int)
    requires
        0 <= k < s.len(),
        !is_space(s[k]),
    ensures
        trimmed(s).len() > 0,
{
    lemma_choose_first_non_space(s, k);
    let a = choose_first_non_space(s, k);
    lemma_trim_start_at(s, a);
    let t = s.skip(a);
    assert(!is_space(t[0]));
    lemma_trim_end_nonempty(t);
}

spec fn choose_first_non_space(s: Seq<char>, k: int) -> int
    decreases k,
{
    if k <= 0 {
        0
    } else if !is_space(s[0]) {
        0
    } else {
        1 + choose_first_non_space(s.drop_first(), k - 1)
    }
}

proof fn lemma_choose_first_non_space(s: Seq<char>, k: int)
    requires
        0 <= k < s.len(),
        !is_space(s[k]),
    ensures
        0 <= choose_first_non_space(s, k) <= k,
        !is_space(s[choose_first_non_space(s, k)]),
        forall|j: int| 0 <= j < choose_first_non_space(s, k) ==> is_space(s[j]),
    decreases k,
{
    if k > 0 && is_space(s[0]) {
        let t = s.drop_first();
        assert(t[k - 1] == s[k]);
        lemma_choose_first_non_space(t, k - 1);
        let a = choose_first_non_space(t, k - 1);
        assert forall|j: int| 0 <= j < a + 1 implies is_space(s[j]) by {
            if j > 0 {
                assert(s[j] == t[j - 1]);
            }
        }
        assert(s[a + 1] == t[a]);
    }
}

proof fn lemma_trim_end_nonempty(t: Seq<char>)
    requires
        t.len() > 0,
        !is_space(t[0]),
    ensures
        trim_end(t).len() > 0,
    decreases t.len(),
{
    if t.len() > 1 && is_space(t.last()) {
        let u = t.drop_last();
        assert(u[0] == t[0]);
        lemma_trim_end_nonempty(u);
    }
}

/// A text that neither starts nor ends with white space trims to itself.
pub proof fn lemma_trimmed_plain(s: Seq<char>)
    requires
        s.len() > 0,
        !is_space(s[0]),
        !is_space(s.last()),
    ensures
        trimmed(s) == s,
{
    lemma_trim_start_at(s, 0);
    assert(s.skip(0) =~= s);
    lemma_trim_end_at(s, s.len() as int);
    assert(s.take(s.len() as int) =~= s);
}

/// A line without the carriage return of a "\r\n" ending.
pub open spec fn without_cr(line: Seq<char>) -> Seq<char> {
    if line.len() > 0 && line.last() == '\r' {
        line.drop_last()
    } else {
        line
    }
}

/// The lines of `s`, given that `current` was already read of the line
/// under way: each '\n' ends a line (a '\r' before it is dropped), and a
/// last line without an ending counts when it is not empty.
pub open spec fn lines_after(s: Seq<char>, current: Seq<char>) -> Seq<Seq<char>>
    decreases s.len(),
{
    if s.len() == 0 {
        if current.len() == 0 {
            Seq::empty()
        } else {
            seq![current]
        }
    } else if s[0] == '\n' {
        seq![without_cr(current)] + lines_after(s.drop_first(), Seq::empty())
    } else {
        lines_after(s.drop_first(), current.push(s[0]))
    }
}

/// The lines of a text, as `str::lines` gives them.
pub open spec fn lines_of(s: Seq<char>) -> Seq<Seq<char>> {
    lines_after(s, Seq::empty())
}

/// A line `a` without line breaks, ended by '\n', reads as one line (after
/// what was already read of it) and reading goes on with the rest.
pub proof fn lemma_lines_after_line(a: Seq<char>, current: Seq<char>, rest: Seq<char>)
    requires
        forall|j: int| 0 <= j < a.len() ==> a[j] != '\n',
    ensures
        lines_after(a + seq!['\n'] + rest, current) == seq![without_cr(current + a)] + lines_after(
            rest,
            Seq::empty(),
        ),
    decreases a.len(),
{
    let s = a + seq!['\n'] + rest;
    if a.len() == 0 {
        assert(s =~= seq!['\n'] + rest);
        assert(s.drop_first() =~= rest);
        assert(current + a =~= current);
    } else {
        assert(s[0] == a[0]);
        assert(s.drop_first() =~= a.drop_first() + seq!['\n'] + rest);
        lemma_lines_after_line(a.drop_first(), current.push(a[0]), rest);
        assert(current.push(a[0]) + a.drop_first() =~= current + a);
    }
}

/// Dropping a final carriage return does not change what a text trims to.
pub proof fn lemma_trimmed_without_cr(x: Seq<char>)
    ensures
        trimmed(without_cr(x)) == trimmed(x),
{
    if x.len() > 0 && x.last() == '\r' {
        let y = x.drop_last();
        assert(x =~= y.push('\r'));
        if exists|k: int| 0 <= k < y.len() && !is_space(y[k]) {
            let k = choose|k: int| 0 <= k < y.len() && !is_space(y[k]);
            lemma_choose_first_non_space(y, k);
            let a = choose_first_non_space(y, k);
            lemma_trim_start_at(y, a);
            lemma_trim_start_at(x, a);
            assert(x.skip(a) =~= y.skip(a).push('\r'));
            assert(trim_end(y.skip(a).push('\r')) == trim_end(y.skip(a).push('\r').drop_last()));
            assert(y.skip(a).push('\r').drop_last() =~= y.skip(a));
        } else {
            lemma_trim_start_at(y, y.len() as int);
            lemma_trim_start_at(x, x.len() as int);
            assert(y.skip(y.len() as int) =~= Seq::<char>::empty());
            assert(x.skip(x.len() as int) =~= Seq::<char>::empty());
        }
    }
}

/// The lines of a text, as `str::lines` gives them.
pub fn text_lines(s: &str) -> (r: Vec<String>)
    ensures
        r@.map_values(|l: String| l@) == lines_of(s@),
{
    let n = s.unicode_len();
    let mut out: Vec<String> = Vec::new();
    let mut start: usize = 0;
    let mut k: usize = 0;
    proof {
        assert(s@.skip(0) =~= s@);
        assert(s@.subrange(0, 0) =~= Seq::<char>::empty());
        assert(out@.map_values(|l: String| l@) =~= Seq::<Seq<char>>::empty());
        assert(Seq::<Seq<char>>::empty() + lines_of(s@) =~= lines_of(s@));
    }
    while k < n
        invariant
            n == s@.len(),
            start <= k <= n,
            out@.map_values(|l: String| l@) + lines_after(s@.skip(k as int), s@.subrange(start as int, k as int))
                == lines_of(s@),
        decreases n - k,
    {
        let ghost rest = s@.skip(k as int);
        let ghost cur = s@.subrange(start as int, k as int);
        assert(rest[0] == s@[k as int]);
        assert(rest.drop_first() =~= s@.skip(k + 1));
        if s.get_char(k) == '\n' {
            let end = if k > start && s.get_char(k - 1) == '\r' { k - 1 } else { k };
            let line = String::from_str(s.substring_char(start, end));
            proof {
                assert(line@ =~= without_cr(cur));
                assert(s@.subrange(k + 1, k + 1) =~= Seq::<char>::empty());
            }
            let ghost before = out@.map_values(|l: String| l@);
            out.push(line);
            proof {
                assert(out@.map_values(|l: String| l@) =~= before.push(without_cr(cur)));
                assert(before.push(without_cr(cur)) + lines_after(rest.drop_first(), Seq::empty()) =~= before + (
                seq![without_cr(cur)] + lines_after(rest.drop_first(), Seq::empty())));
            }
            start = k + 1;
        } else {
            proof {
                assert(s@.subrange(start as int, k + 1) =~= cur.push(rest[0]));
            }
        }
        k = k + 1;
    }
    let ghost cur = s@.subrange(start as int, n as int);
    assert(s@.skip(n as int) =~= Seq::<char>::empty());
    if start < n {
        let ghost before = out@.map_values(|l: String| l@);
        let last = String::from_str(s.substring_char(start, n));
        out.push(last);
        assert(out@.map_values(|l: String| l@) =~= before.push(cur));
        assert(before + seq![cur] =~= before.push(cur));
    } else {
        assert(out@.map_values(|l: String| l@) + Seq::<Seq<char>>::empty() =~= out@.map_values(|l: String| l@));
    }
    out
}

} // verus!
