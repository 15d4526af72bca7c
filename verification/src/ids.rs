//! Ids of grown parts. With several backbones each part id carries its
//! backbone as a `backbone-N/` prefix; the part's own id is what follows.
use vstd::prelude::*;
use vstd::string::*;
use crate::decimal::{decimal_text, index_text, parse_index, parsed_index, is_digit_char, lemma_index_text_parses};

verus! {

/// The text after the last `c` in `s` (all of `s` when it has none).
pub open spec fn after_last(s: Seq<char>, c: char) -> Seq<char>
    decreases s.len(),
{
    if s.len() == 0 {
        s
    } else if s.last() == c {
        Seq::empty()
    } else {
        after_last(s.drop_last(), c).push(s.last())
    }
}

/// The text before and after the first `c` in `s`, if it has one.
pub open spec fn split_first(s: Seq<char>, c: char) -> Option<(Seq<char>, Seq<char>)>
    decreases s.len(),
{
    if s.len() == 0 {
        None
    } else if s[0] == c {
        Some((Seq::empty(), s.drop_first()))
    } else {
        match split_first(s.drop_first(), c) {
            Some(parts) => Some((seq![s[0]] + parts.0, parts.1)),
            None => None,
        }
    }
}

/// The prefix that marks a part of backbone `b`.
pub open spec fn backbone_prefix_spec(b: nat) -> Seq<char> {
    "backbone-"@ + decimal_text(b) + seq!['/']
}

/// The id of part `local` of backbone `b` in a layout of several backbones.
pub open spec fn part_id_spec(b: nat, local: Seq<char>) -> Seq<char> {
    backbone_prefix_spec(b) + local
}

/// The backbone and local id a part id names: the number after
/// `backbone-` and before the first '/', read as an index (0 when it does not
/// read), and the rest; backbone 0 and the whole id when there is no prefix.
pub open spec fn split_id_spec(id: Seq<char>) -> (usize, Seq<char>) {
    let head = "backbone-"@;
    if id.len() >= head.len() && id.take(head.len() as int) == head {
        match split_first(id.skip(head.len() as int), '/') {
            Some(parts) => (
                match parsed_index(parts.0) {
                    Some(n) => n,
                    None => 0,
                },
                parts.1,
            ),
            None => (0, id),
        }
    } else {
        (0, id)
    }
}

/// Whether `s` starts with `prefix`.
pub fn starts_with(s: &str, prefix: &str) -> (r: bool)
    ensures
        r == (prefix@.len() <= s@.len() && s@.take(prefix@.len() as int) == prefix@),
{
    let n = prefix.unicode_len();
    if n > s.unicode_len() {
        return false;
    }
    let mut k: usize = 0;
    while k < n
        invariant
            n == prefix@.len(),
            n <= s@.len(),
            k <= n,
            forall|j: int| 0 <= j < k ==> s@[j] == prefix@[j],
        decreases n - k,
    {
        if s.get_char(k) != prefix.get_char(k) {
            return false;
        }
        k = k + 1;
    }
    assert(s@.take(n as int) =~= prefix@);
    true
}

/// The prefix `backbone-N/` of backbone `b`'s parts.
pub fn backbone_prefix(b: usize) -> (r: String)
    ensures
        r@ == backbone_prefix_spec(b as nat),
{
    let mut out = String::from_str("backbone-");
    let digits = index_text(b);
    out.append(digits.as_str());
    out.append("/");
    proof {
        reveal_strlit("/");
    }
    assert(out@ =~= backbone_prefix_spec(b as nat));
    out
}

/// The id under which part `local` of backbone `b` is grown when a layout
/// has several backbones.
pub fn part_id(b: usize, local: &str) -> (r: String)
    ensures
        r@ == part_id_spec(b as nat, local@),
{
    let mut out = backbone_prefix(b);
    out.append(local);
    out
}

/// The id a shoot edit is shown under: prefixed with its backbone when the
/// layout has several.
pub fn display_id(multi: bool, backbone: usize, id: &str) -> (r: String)
    ensures
        r@ == (if multi { part_id_spec(backbone as nat, id@) } else { id@ }),
{
    if multi {
        part_id(backbone, id)
    } else {
        String::from_str(id)
    }
}

/// The first `c` of `s` at `p` splits it into the text before and after.
pub proof fn lemma_split_first_at(s: Seq<char>, c: char, p: int)
    requires
        0 <= p < s.len(),
        s[p] == c,
        forall|j: int| 0 <= j < p ==> s[j] != c,
    ensures
        split_first(s, c) == Some((s.take(p), s.skip(p + 1))),
    decreases p,
{
    if p > 0 {
        let t = s.drop_first();
        assert forall|j: int| 0 <= j < p - 1 implies t[j] != c by {
            assert(t[j] == s[j + 1]);
        }
        lemma_split_first_at(t, c, p - 1);
        assert(seq![s[0]] + t.take(p - 1) =~= s.take(p));
        assert(t.skip(p) =~= s.skip(p + 1));
    } else {
        assert(s.take(0) =~= Seq::<char>::empty());
        assert(s.drop_first() =~= s.skip(1));
    }
}

/// Without a `c`, `s` does not split.
pub proof fn lemma_split_first_none(s: Seq<char>, c: char)
    requires
        forall|j: int| 0 <= j < s.len() ==> s[j] != c,
    ensures
        split_first(s, c) is None,
    decreases s.len(),
{
    if s.len() > 0 {
        let t = s.drop_first();
        assert forall|j: int| 0 <= j < t.len() implies t[j] != c by {
            assert(t[j] == s[j + 1]);
        }
        lemma_split_first_none(t, c);
    }
}

/// The last `c` of `s` at `p` leaves the text after it.
pub proof fn lemma_after_last_at(s: Seq<char>, c: char, p: int)
    requires
        -1 <= p < s.len(),
        p >= 0 ==> s[p] == c,
        forall|j: int| p < j < s.len() ==> s[j] != c,
    ensures
        after_last(s, c) == s.skip(p + 1),
    decreases s.len(),
{
    if s.len() == 0 {
        assert(s.skip(p + 1) =~= s);
    } else if s.last() == c {
        assert(p == s.len() - 1);
        assert(s.skip(p + 1) =~= Seq::<char>::empty());
    } else {
        let t = s.drop_last();
        assert(p < s.len() - 1);
        assert forall|j: int| p < j < t.len() implies t[j] != c by {
            assert(t[j] == s[j]);
        }
        lemma_after_last_at(t, c, p);
        assert(t.skip(p + 1).push(s.last()) =~= s.skip(p + 1));
    }
}

/// The text after the last `c` of `s`.
pub fn text_after_last(s: &str, c: char) -> (r: String)
    ensures
        r@ == after_last(s@, c),
{
    let n = s.unicode_len();
    let mut k: usize = n;
    while k > 0
        invariant
            n == s@.len(),
            k <= n,
            forall|j: int| k <= j < n ==> s@[j] != c,
        decreases k,
    {
        if s.get_char(k - 1) == c {
            proof {
                lemma_after_last_at(s@, c, k - 1);
            }
            return String::from_str(s.substring_char(k, n));
        }
        k = k - 1;
    }
    proof {
        lemma_after_last_at(s@, c, -1);
        assert(s@.skip(0) =~= s@);
    }
    String::from_str(s)
}

/// A grown part's own id: what follows the last '/'.
pub fn last_segment(id: &str) -> (r: String)
    ensures
        r@ == after_last(id@, '/'),
{
    text_after_last(id, '/')
}

/// Whether a grown part is collar leafage: its own id starts with "collar".
pub fn is_collar_id(id: &str) -> (r: bool)
    ensures
        r == ({
            let own = after_last(id@, '/');
            "collar"@.len() <= own.len() && own.take("collar"@.len() as int) == "collar"@
        }),
{
    let own = last_segment(id);
    starts_with(own.as_str(), "collar")
}

/// The backbone and local id of a grown part id.
pub fn split_id(id: &str) -> (r: (usize, String))
    ensures
        r.0 == split_id_spec(id@).0,
        r.1@ == split_id_spec(id@).1,
{
    proof {
        reveal_strlit("backbone-");
    }
    if !starts_with(id, "backbone-") {
        return (0, String::from_str(id));
    }
    let n = id.unicode_len();
    let rest = id.substring_char(9, n);
    assert(rest@ =~= id@.skip("backbone-"@.len() as int));
    let m = rest.unicode_len();
    let mut k: usize = 0;
    while k < m
        invariant
            m == rest@.len(),
            k <= m,
            forall|j: int| 0 <= j < k ==> rest@[j] != '/',
            "backbone-"@.len() == 9,
            id@.len() >= 9 && id@.take(9) == "backbone-"@,
            rest@ == id@.skip(9),
        decreases m - k,
    {
        if rest.get_char(k) == '/' {
            proof {
                lemma_split_first_at(rest@, '/', k as int);
            }
            let number = rest.substring_char(0, k);
            let local = rest.substring_char(k + 1, m);
            assert(number@ =~= rest@.take(k as int));
            assert(local@ =~= rest@.skip(k + 1));
            let b = match parse_index(number) {
                Some(v) => v,
                None => 0,
            };
            return (b, String::from_str(local));
        }
        k = k + 1;
    }
    proof {
        lemma_split_first_none(rest@, '/');
    }
    (0, String::from_str(id))
}

/// Splitting a part id gives back the backbone and the local id it was
/// made from.
pub proof fn split_id_undoes_part_id(b: usize, local: Seq<char>)
    ensures
        split_id_spec(part_id_spec(b as nat, local)) == (b, local),
{
    reveal_strlit("backbone-");
    let head = "backbone-"@;
    let digits = decimal_text(b as nat);
    let id = part_id_spec(b as nat, local);
    lemma_index_text_parses(b);
    assert(head.len() == 9);
    assert(id.take(9) =~= head);
    let rest = id.skip(9);
    assert(rest =~= digits + seq!['/'] + local);
    assert forall|j: int| 0 <= j < digits.len() implies rest[j] != '/' by {
        assert(rest[j] == digits[j]);
        assert(is_digit_char(digits[j]));
    }
    lemma_split_first_at(rest, '/', digits.len() as int);
    assert(rest.take(digits.len() as int) =~= digits);
    assert(rest.skip(digits.len() as int + 1) =~= local);
}

/// A part's own id is what follows its backbone prefix, when the local id
/// holds no '/'.
pub proof fn last_segment_of_part_id(b: usize, local: Seq<char>)
    requires
        forall|j: int| 0 <= j < local.len() ==> local[j] != '/',
    ensures
        after_last(part_id_spec(b as nat, local), '/') == local,
{
    reveal_strlit("backbone-");
    let digits = decimal_text(b as nat);
    let id = part_id_spec(b as nat, local);
    let p = 9 + digits.len();
    assert("backbone-"@.len() == 9);
    assert(id[p as int] == '/');
    assert forall|j: int| p < j < id.len() implies id[j] != '/' by {
        assert(id[j] == local[j - p - 1]);
    }
    lemma_after_last_at(id, '/', p as int);
    assert(id.skip(p as int + 1) =~= local);
}

/// A hex digit's character (lower case).
pub open spec fn hex_char(d: nat) -> char {
    if d < 10 {
        (d + '0' as nat) as char
    } else {
        (d - 10 + 'a' as nat) as char
    }
}

/// Lower-case hexadecimal text of a number, as `{:x}` writes it.
pub open spec fn hex_text(n: nat) -> Seq<char>
    decreases n,
{
    if n < 16 {
        seq![hex_char(n)]
    } else {
        hex_text(n / 16).push(hex_char(n % 16))
    }
}

fn hex_digit_text(d: u64) -> (r: &'static str)
    requires
        d < 16,
    ensures
        r@ == seq![hex_char(d as nat)],
{
    proof {
        reveal_strlit("0");
        reveal_strlit("1");
        reveal_strlit("2");
        reveal_strlit("3");
        reveal_strlit("4");
        reveal_strlit("5");
        reveal_strlit("6");
        reveal_strlit("7");
        reveal_strlit("8");
        reveal_strlit("9");
        reveal_strlit("a");
        reveal_strlit("b");
        reveal_strlit("c");
        reveal_strlit("d");
        reveal_strlit("e");
        reveal_strlit("f");
    }
    let r = match d {
        0 => "0",
        1 => "1",
        2 => "2",
        3 => "3",
        4 => "4",
        5 => "5",
        6 => "6",
        7 => "7",
        8 => "8",
        9 => "9",
        10 => "a",
        11 => "b",
        12 => "c",
        13 => "d",
        14 => "e",
        _ => "f",
    };
    assert(r@ =~= seq![hex_char(d as nat)]);
    r
}

/// Lower-case hexadecimal text of a number.
pub fn hex_of(n: u64) -> (r: String)
    ensures
        r@ == hex_text(n as nat),
    decreases n,
{
    if n < 16 {
        String::from_str(hex_digit_text(n))
    } else {
        let mut s = hex_of(n / 16);
        s.append(hex_digit_text(n % 16));
        s
    }
}

/// The id of a new shoot edit: the low 24 bits of a clock reading and a
/// running count, both in hexadecimal, after "edit-".
pub fn edit_id(clock: u64, count: u64) -> (r: String)
    ensures
        r@ == "edit-"@ + hex_text((clock % 0x100_0000) as nat) + hex_text(count as nat),
{
    let low = clock & 0xff_ffff;
    assert(low == clock % 0x100_0000) by (bit_vector)
        requires
            low == clock & 0xff_ffff,
    ;
    let mut s = String::from_str("edit-");
    let a = hex_of(low);
    s.append(a.as_str());
    let b = hex_of(count);
    s.append(b.as_str());
    s
}

/// Which shoot edit, by (backbone, id) pairs, is the one of backbone `b`
/// with id `local`: the first such.
pub fn find_edit(keys: &Vec<(usize, String)>, b: usize, local: &str) -> (r: Option<usize>)
    ensures
        match r {
            Some(i) => i < keys@.len() && keys@[i as int].0 == b && keys@[i as int].1@ == local@ && forall|j: int|
                0 <= j < i ==> !(keys@[j].0 == b && keys@[j].1@ == local@),
            None => forall|j: int| 0 <= j < keys@.len() ==> !(keys@[j].0 == b && keys@[j].1@ == local@),
        },
{
    let mut i: usize = 0;
    while i < keys.len()
        invariant
            i <= keys@.len(),
            forall|j: int| 0 <= j < i ==> !(keys@[j].0 == b && keys@[j].1@ == local@),
        decreases keys@.len() - i,
    {
        if keys[i].0 == b && crate::text::str_eq(keys[i].1.as_str(), local) {
            return Some(i);
        }
        i = i + 1;
    }
    None
}

/// The main sweep of backbone `b` among grown parts (ids, and whether each
/// has a parent): the first part without a parent whose id carries the
/// backbone's prefix.
pub open spec fn is_main_of(ids: Seq<String>, has_parent: Seq<bool>, b: nat, k: int) -> bool {
    !has_parent[k] && backbone_prefix_spec(b).len() <= ids[k]@.len() && ids[k]@.take(
        backbone_prefix_spec(b).len() as int,
    ) == backbone_prefix_spec(b)
}

/// The first main sweep of the backbone with prefix `prefix`, if any.
fn first_main(ids: &Vec<String>, has_parent: &Vec<bool>, prefix: &String, b: Ghost<nat>) -> (r: Option<usize>)
    requires
        ids@.len() == has_parent@.len(),
        prefix@ == backbone_prefix_spec(b@),
    ensures
        match r {
            Some(k) => k < ids@.len() && is_main_of(ids@, has_parent@, b@, k as int) && forall|j: int|
                0 <= j < k ==> !#[trigger] is_main_of(ids@, has_parent@, b@, j),
            None => forall|j: int| 0 <= j < ids@.len() ==> !#[trigger] is_main_of(ids@, has_parent@, b@, j),
        },
{
    let mut k: usize = 0;
    while k < ids.len() && (has_parent[k] || !starts_with(ids[k].as_str(), prefix.as_str()))
        invariant
            k <= ids@.len(),
            ids@.len() == has_parent@.len(),
            prefix@ == backbone_prefix_spec(b@),
            forall|j: int| 0 <= j < k ==> !#[trigger] is_main_of(ids@, has_parent@, b@, j),
        decreases ids@.len() - k,
    {
        k = k + 1;
    }
    if k < ids.len() {
        Some(k)
    } else {
        None
    }
}

/// For each of `count` backbones, the index of its main sweep among the
/// grown parts, if any.
pub fn main_sweeps(ids: &Vec<String>, has_parent: &Vec<bool>, count: usize) -> (r: Vec<Option<usize>>)
    requires
        ids@.len() == has_parent@.len(),
    ensures
        r@.len() == count,
        forall|b: int|
            0 <= b < count ==> match #[trigger] r@[b] {
                Some(k) => k < ids@.len() && is_main_of(ids@, has_parent@, b as nat, k as int) && forall|j: int|
                    0 <= j < k ==> !#[trigger] is_main_of(ids@, has_parent@, b as nat, j),
                None => forall|j: int| 0 <= j < ids@.len() ==> !#[trigger] is_main_of(ids@, has_parent@, b as nat, j),
            },
{
    let mut out: Vec<Option<usize>> = Vec::new();
    let mut b: usize = 0;
    while b < count
        invariant
            b <= count,
            ids@.len() == has_parent@.len(),
            out@.len() == b,
            forall|c: int|
                0 <= c < b ==> match #[trigger] out@[c] {
                    Some(k) => k < ids@.len() && is_main_of(ids@, has_parent@, c as nat, k as int) && forall|j: int|
                        0 <= j < k ==> !#[trigger] is_main_of(ids@, has_parent@, c as nat, j),
                    None => forall|j: int| 0 <= j < ids@.len() ==> !#[trigger] is_main_of(ids@, has_parent@, c as nat, j),
                },
        decreases count - b,
    {
        let prefix = backbone_prefix(b);
        let found = first_main(ids, has_parent, &prefix, Ghost(b as nat));
        let ghost before = out@;
        out.push(found);
        proof {
            assert forall|c: int| 0 <= c < b implies out@[c] == before[c] by {}
        }
        b = b + 1;
    }
    out
}

} // verus!
