//! Decimal digit strings: the values they spell, fixed-width digit strings of
//! numbers, and rounding an exact decimal expansion to thousandths with ties
//! away from zero (as JavaScript's `toFixed(3)` writes chip coordinates).
use vstd::prelude::*;
use vstd::string::*;

verus! {

pub open spec fn pow10(n: nat) -> nat
    decreases n,
{
    if n == 0 { 1 } else { 10 * pow10((n - 1) as nat) }
}

/// The value of a sequence of decimal digits (most significant first).
pub open spec fn digits_value(ds: Seq<u8>) -> nat
    decreases ds.len(),
{
    if ds.len() == 0 {
        0
    } else {
        digits_value(ds.drop_last()) * 10 + ds.last() as nat
    }
}

pub open spec fn all_digits(ds: Seq<u8>) -> bool {
    forall|k: int| 0 <= k < ds.len() ==> #[trigger] ds[k] < 10
}

pub open spec fn is_digit_char(c: char) -> bool {
    '0' <= c && c <= '9'
}

/// The digit a digit character stands for.
pub open spec fn char_digit(c: char) -> u8 {
    (c as u32 - '0' as u32) as u8
}

/// The character of a digit.
pub open spec fn digit_char(d: u8) -> char {
    (d as u32 + '0' as u32) as char
}

/// The digits spelled by a string of digit characters.
pub open spec fn char_digits(s: Seq<char>) -> Seq<u8> {
    Seq::new(s.len(), |k: int| char_digit(s[k]))
}

/// The decimal digits of `q`, left-padded with zeros to at least `width`
/// characters.
pub open spec fn fixed_digits(q: nat, width: nat) -> Seq<char>
    decreases width, q,
{
    if width == 0 {
        if q == 0 {
            Seq::empty()
        } else {
            fixed_digits(q / 10, 0).push(digit_char((q % 10) as u8))
        }
    } else {
        fixed_digits(q / 10, (width - 1) as nat).push(digit_char((q % 10) as u8))
    }
}

pub proof fn lemma_pow10_positive(n: nat)
    ensures
        pow10(n) >= 1,
    decreases n,
{
    if n > 0 {
        lemma_pow10_positive((n - 1) as nat);
    }
}

/// The value of two digit strings written one after the other.
pub proof fn lemma_digits_value_concat(a: Seq<u8>, b: Seq<u8>)
    ensures
        digits_value(a + b) == digits_value(a) * pow10(b.len()) + digits_value(b),
    decreases b.len(),
{
    if b.len() == 0 {
        assert(a + b =~= a);
        assert(pow10(0) == 1);
        assert(digits_value(b) == 0);
    } else {
        let c = a + b;
        assert(c.drop_last() =~= a + b.drop_last());
        lemma_digits_value_concat(a, b.drop_last());
        assert(c.last() == b.last());
        let p = pow10((b.len() - 1) as nat);
        let va = digits_value(a);
        let vb = digits_value(b.drop_last());
        assert(digits_value(c) == digits_value(c.drop_last()) * 10 + c.last());
        assert(digits_value(b) == vb * 10 + b.last());
        assert(digits_value(c.drop_last()) == va * p + vb);
        assert(pow10(b.len()) == 10 * p);
        assert((va * p + vb) * 10 + b.last() == va * (10 * p) + (vb * 10 + b.last())) by (nonlinear_arith);
    }
}

/// A digit string's value is below ten to the power of its length.
pub proof fn lemma_digits_value_bound(ds: Seq<u8>)
    requires
        all_digits(ds),
    ensures
        digits_value(ds) < pow10(ds.len()),
    decreases ds.len(),
{
    if ds.len() > 0 {
        let rest = ds.drop_last();
        assert(all_digits(rest)) by {
            assert forall|k: int| 0 <= k < rest.len() implies #[trigger] rest[k] < 10 by {
                assert(rest[k] == ds[k]);
            }
        }
        lemma_digits_value_bound(rest);
        assert(ds.last() < 10) by {
            assert(ds[ds.len() - 1] < 10);
        }
        let v = digits_value(rest);
        let p = pow10(rest.len());
        assert(v * 10 + ds.last() < p * 10) by (nonlinear_arith)
            requires
                v < p,
                ds.last() < 10,
        ;
    }
}

/// The fixed-width digits of a digit string's value are that string itself.
pub proof fn lemma_fixed_digits_of_value(ds: Seq<u8>)
    requires
        all_digits(ds),
    ensures
        fixed_digits(digits_value(ds), ds.len()) == ds.map_values(|d: u8| digit_char(d)),
    decreases ds.len(),
{
    if ds.len() > 0 {
        let rest = ds.drop_last();
        assert(all_digits(rest)) by {
            assert forall|k: int| 0 <= k < rest.len() implies #[trigger] rest[k] < 10 by {
                assert(rest[k] == ds[k]);
            }
        }
        lemma_fixed_digits_of_value(rest);
        let v = digits_value(ds);
        assert(ds.last() < 10) by {
            assert(ds[ds.len() - 1] < 10);
        }
        assert(v / 10 == digits_value(rest) && v % 10 == ds.last());
        assert(ds.map_values(|d: u8| digit_char(d)) =~= rest.map_values(|d: u8| digit_char(d)).push(
            digit_char(ds.last()),
        ));
    } else {
        assert(ds.map_values(|d: u8| digit_char(d)) =~= Seq::<char>::empty());
    }
}

/// The single-character text of a digit.
pub fn digit_text(d: u8) -> (r: &'static str)
    requires
        d < 10,
    ensures
        r@ == seq![digit_char(d)],
{
    proof {
        reveal_strlit("0");
        reveal_strlit("1");
        reveal_strlit("2");
        reveal_strlit("3");
        reveal_strlit("4");
        reveal_strlit("5");
        reveal_strlit("6");
        reveal_strlit("7");
        reveal_strlit("8");
        reveal_strlit("9");
    }
    let r = match d {
        0 => "0",
        1 => "1",
        2 => "2",
        3 => "3",
        4 => "4",
        5 => "5",
        6 => "6",
        7 => "7",
        8 => "8",
        _ => "9",
    };
    assert(r@ =~= seq![digit_char(d)]);
    r
}

/// Past its width, a number's fixed-width digits are its plain digits.
pub proof fn lemma_fixed_digits_wide(v: nat, w: nat)
    requires
        v >= pow10(w),
    ensures
        fixed_digits(v, w + 1) == fixed_digits(v, w),
    decreases w,
{
    if w > 0 {
        assert(v / 10 >= pow10((w - 1) as nat));
        lemma_fixed_digits_wide(v / 10, (w - 1) as nat);
    } else {
        assert(v != 0);
    }
}

/// Adds one to a digit string in place, growing it by a leading 1 when every
/// digit was 9.
pub fn increment_digits(ds: &mut Vec<u8>)
    requires
        all_digits(old(ds)@),
    ensures
        all_digits(final(ds)@),
        digits_value(final(ds)@) == digits_value(old(ds)@) + 1,
        final(ds)@.len() == (if digits_value(old(ds)@) + 1 == pow10(old(ds)@.len()) {
            old(ds)@.len() + 1
        } else {
            old(ds)@.len()
        }),
{
    let ghost orig = old(ds)@;
    let n = ds.len();
    let mut i = n;
    proof {
        lemma_digits_value_bound(orig);
        assert(orig.subrange(0, n as int) =~= orig);
        assert(orig =~= orig + Seq::<u8>::empty());
        assert(pow10(0) == 1);
        let v = digits_value(orig);
        assert(v * 1 == v) by (nonlinear_arith);
        assert((n - i) as nat == 0);
    }
    loop
        invariant
            orig == old(ds)@,
            i <= n,
            n == orig.len(),
            ds@.len() == n,
            all_digits(ds@),
            all_digits(orig),
            forall|k: int| 0 <= k < i ==> ds@[k] == orig[k],
            forall|k: int| i <= k < n ==> ds@[k] == 0,
            digits_value(orig.subrange(0, i as int)) * pow10((n - i) as nat) + pow10((n - i) as nat)
                == digits_value(orig) + 1,
        decreases i,
    {
        if i == 0 {
            proof {
                assert(orig.subrange(0, 0) =~= Seq::<u8>::empty());
                assert(digits_value(Seq::<u8>::empty()) == 0);
                assert(digits_value(orig.subrange(0, i as int)) == 0);
                assert((n - i) as nat == n as nat);
                let pn0 = pow10(n as nat);
                assert(0 * pn0 == 0) by (nonlinear_arith);
                assert(pow10(n as nat) == digits_value(orig) + 1);
            }
            let ghost zeros = ds@;
            let ghost pn = pow10(n as nat);
            ds.insert(0, 1);
            proof {
                assert(ds@ =~= seq![1u8] + zeros);
                lemma_digits_value_concat(seq![1u8], zeros);
                assert(zeros =~= Seq::new(n as nat, |k: int| 0u8));
                lemma_zero_digits(n as nat);
                assert(digits_value(seq![1u8]) == 1) by {
                    assert(seq![1u8].drop_last() =~= Seq::<u8>::empty());
                }
                assert(zeros.len() == n);
                assert(1 * pn == pn) by (nonlinear_arith);
                assert(digits_value(ds@) == pn);
                assert(all_digits(ds@)) by {
                    assert forall|k: int| 0 <= k < ds@.len() implies #[trigger] ds@[k] < 10 by {
                        if k > 0 {
                            assert(ds@[k] == zeros[k - 1]);
                        }
                    }
                }
            }
            return;
        }
        i = i - 1;
        let d = ds[i];
        proof {
            let pre = orig.subrange(0, i as int);
            assert(orig.subrange(0, i + 1) =~= pre.push(orig[i as int]));
            assert(orig.subrange(0, i + 1).drop_last() =~= pre);
            assert(orig[i as int] < 10);
        }
        if d == 9 {
            ds.set(i, 0);
            proof {
                let pre = orig.subrange(0, i as int);
                let w = (n - i - 1) as nat;
                let vp = digits_value(pre);
                let pw = pow10(w);
                assert(pow10((n - i) as nat) == 10 * pw);
                assert(digits_value(orig.subrange(0, i + 1)) == vp * 10 + 9);
                assert((vp * 10 + 9) * pw + pw == vp * (10 * pw) + 10 * pw) by (nonlinear_arith);
                assert(all_digits(ds@)) by {
                    assert forall|k: int| 0 <= k < ds@.len() implies #[trigger] ds@[k] < 10 by {}
                }
            }
        } else {
            ds.set(i, d + 1);
            proof {
                let pre = orig.subrange(0, i as int);
                let w = (n - i - 1) as nat;
                let vp = digits_value(pre);
                let pw = pow10(w);
                let tail = Seq::new(w, |k: int| 0u8);
                lemma_zero_digits(w);
                assert(ds@ =~= (pre.push((d + 1) as u8)) + tail) by {
                    assert forall|k: int| 0 <= k < ds@.len() implies ds@[k] == ((pre.push((d + 1) as u8)) + tail)[k] by {
                        if k < i {
                            assert(ds@[k] == orig[k]);
                        }
                    }
                }
                lemma_digits_value_concat(pre.push((d + 1) as u8), tail);
                assert(pre.push((d + 1) as u8).drop_last() =~= pre);
                assert(digits_value(pre.push((d + 1) as u8)) == vp * 10 + d + 1);
                assert(tail.len() == w);
                assert(digits_value(ds@) == (vp * 10 + d + 1) * pw);
                assert(orig.subrange(0, i + 1).drop_last() =~= pre);
                assert(digits_value(orig.subrange(0, i + 1)) == vp * 10 + d);
                assert(digits_value(orig) + 1 == (vp * 10 + d) * pw + pw);
                assert((vp * 10 + d) * pw + pw == (vp * 10 + d + 1) * pw) by (nonlinear_arith);
                assert(all_digits(ds@)) by {
                    assert forall|k: int| 0 <= k < ds@.len() implies #[trigger] ds@[k] < 10 by {}
                }
                lemma_digits_value_bound(orig);
                assert(digits_value(orig) + 1 != pow10(n as nat)) by {
                    lemma_digits_value_bound(pre.push((d + 1) as u8));
                    lemma_digits_value_bound(ds@);
                    assert(all_digits(pre.push((d + 1) as u8))) by {
                        assert forall|k: int| 0 <= k < i + 1 implies #[trigger] pre.push((d + 1) as u8)[k] < 10 by {
                            if k < i {
                                assert(pre[k] == orig[k]);
                            }
                        }
                    }
                    assert(all_digits(orig.subrange(0, i as int))) by {
                        assert forall|k: int| 0 <= k < i implies #[trigger] orig.subrange(0, i as int)[k] < 10 by {
                            assert(orig.subrange(0, i as int)[k] == orig[k]);
                        }
                    }
                    lemma_digits_value_bound(pre);
                    lemma_pow10_positive(w);
                    let pi = pow10(i as nat);
                    assert(digits_value(orig) + 1 == (vp * 10 + d + 1) * pw);
                    lemma_pow10_add(i as nat, (n - i) as nat);
                    assert(pow10((n - i) as nat) == 10 * pw);
                    assert(i + (n - i) == n);
                    assert(vp <= pi - 1);
                    assert(d + 1 <= 9);
                    assert((vp * 10 + d + 1) * pw < pi * 10 * pw) by (nonlinear_arith)
                        requires
                            vp <= pi - 1,
                            d + 1 <= 9,
                            pw >= 1,
                    ;
                    assert(pi * 10 * pw == pi * (10 * pw)) by (nonlinear_arith);
                }
            }
            return;
        }
    }
}

/// Ten to a sum is the product of the powers.
pub proof fn lemma_pow10_add(a: nat, b: nat)
    ensures
        pow10(a + b) == pow10(a) * pow10(b),
    decreases b,
{
    if b == 0 {
        assert(pow10(0) == 1);
        assert(a + b == a);
    } else {
        lemma_pow10_add(a, (b - 1) as nat);
        assert(pow10(a + b) == 10 * pow10((a + b - 1) as nat));
        assert(pow10(b) == 10 * pow10((b - 1) as nat));
        let pa = pow10(a);
        let pb = pow10((b - 1) as nat);
        assert(10 * (pa * pb) == pa * (10 * pb)) by (nonlinear_arith);
    }
}

/// A string of zeros is worth nothing.
pub proof fn lemma_zero_digits(n: nat)
    ensures
        digits_value(Seq::new(n, |k: int| 0u8)) == 0,
    decreases n,
{
    if n > 0 {
        assert(Seq::new(n, |k: int| 0u8).drop_last() =~= Seq::new((n - 1) as nat, |k: int| 0u8));
        lemma_zero_digits((n - 1) as nat);
    }
}

/// `s` is an exact decimal expansion with its point at `p`: digits, a point,
/// and at least four fraction digits.
pub open spec fn is_expansion(s: Seq<char>, p: int) -> bool {
    &&& 1 <= p
    &&& p + 4 < s.len()
    &&& s[p] == '.'
    &&& forall|k: int| 0 <= k < s.len() && k != p ==> is_digit_char(#[trigger] s[k])
}

/// The expansion in thousandths, rounded half away from zero.
pub open spec fn rounded_thousandths(s: Seq<char>, p: int) -> nat {
    digits_value(char_digits(s.subrange(0, p) + s.subrange(p + 1, p + 4))) + if s[p + 4] >= '5' {
        1nat
    } else {
        0nat
    }
}

/// The text of a number of thousandths with its point three digits from the
/// right, at least `width` digits, and a minus sign when `negative`.
pub open spec fn thousandths_text(q: nat, width: nat, negative: bool) -> Seq<char> {
    let d = fixed_digits(q, width);
    (if negative { seq!['-'] } else { Seq::empty() }) + d.subrange(0, d.len() - 3) + seq!['.']
        + d.subrange(d.len() - 3, d.len() as int)
}

/// The magnitude's exact expansion rounded to three decimals, ties away from
/// zero, with a minus sign when the number is negative.
pub fn fixed3_text(expansion: &str, negative: bool) -> (r: String)
    requires
        exists|p: int| is_expansion(expansion@, p),
    ensures
        forall|p: int|
            is_expansion(expansion@, p) ==> r@ == thousandths_text(
                rounded_thousandths(expansion@, p),
                (p + 3) as nat,
                negative,
            ),
{
    let ghost s = expansion@;
    let ghost pp = choose|p: int| is_expansion(s, p);
    let n = expansion.unicode_len();
    let mut p: usize = 0;
    while expansion.get_char(p) != '.'
        invariant
            s == expansion@,
            n == s.len(),
            is_expansion(s, pp),
            p <= pp,
            forall|k: int| 0 <= k < p ==> s[k] != '.',
        decreases pp - p,
    {
        p = p + 1;
    }
    assert(p == pp) by {
        if p != pp {
            assert(is_digit_char(s[p as int]));
        }
    }
    let ghost wanted = s.subrange(0, p as int) + s.subrange(p + 1, p + 4);
    let mut ds: Vec<u8> = Vec::new();
    let mut k: usize = 0;
    while k < p + 4
        invariant
            s == expansion@,
            n == s.len(),
            is_expansion(s, p as int),
            wanted == s.subrange(0, p as int) + s.subrange(p + 1, p + 4),
            k <= p + 4,
            k != p + 1 || ds@.len() == p,
            ds@.len() == (if k <= p { k as int } else { k - 1 }),
            forall|j: int| 0 <= j < ds@.len() ==> ds@[j] == char_digit(wanted[j]) && ds@[j] < 10,
        decreases p + 4 - k,
    {
        if k != p {
            let c = expansion.get_char(k);
            let d = ((c as u32) - ('0' as u32)) as u8;
            proof {
                let j = ds@.len() as int;
                assert(is_digit_char(s[k as int]));
                if k < p {
                    assert(wanted[j] == s[k as int]);
                } else {
                    assert(wanted[j] == s.subrange(p + 1, p + 4)[k - p - 1]);
                }
            }
            ds.push(d);
        }
        k = k + 1;
    }
    proof {
        assert(ds@ =~= char_digits(wanted));
        assert(all_digits(ds@));
    }
    let ghost base = ds@;
    let ghost q = rounded_thousandths(s, p as int);
    if expansion.get_char(p + 4) >= '5' {
        increment_digits(&mut ds);
        proof {
            lemma_fixed_digits_of_value(ds@);
            if ds@.len() > base.len() {
                lemma_fixed_digits_wide(q, (p + 3) as nat);
            }
        }
    } else {
        proof {
            lemma_fixed_digits_of_value(ds@);
        }
    }
    let ghost shown = ds@.map_values(|d: u8| digit_char(d));
    assert(shown == fixed_digits(q, (p + 3) as nat));
    let len = ds.len();
    let mut out = String::new();
    if negative {
        out.append("-");
    }
    proof {
        reveal_strlit("-");
        reveal_strlit(".");
    }
    let ghost sign: Seq<char> = if negative { seq!['-'] } else { Seq::empty() };
    assert(out@ =~= sign);
    let mut k: usize = 0;
    while k < len - 3
        invariant
            len == ds@.len(),
            len >= 4,
            all_digits(ds@),
            shown == ds@.map_values(|d: u8| digit_char(d)),
            k <= len - 3,
            out@ == sign + shown.subrange(0, k as int),
        decreases len - 3 - k,
    {
        let t = digit_text(ds[k]);
        out.append(t);
        k = k + 1;
        assert(out@ =~= sign + shown.subrange(0, k as int));
    }
    out.append(".");
    let ghost head = out@;
    assert(head =~= sign + shown.subrange(0, len - 3) + seq!['.']);
    while k < len
        invariant
            len == ds@.len(),
            len >= 4,
            all_digits(ds@),
            shown == ds@.map_values(|d: u8| digit_char(d)),
            len - 3 <= k <= len,
            out@ == head + shown.subrange(len - 3, k as int),
        decreases len - k,
    {
        let t = digit_text(ds[k]);
        out.append(t);
        k = k + 1;
        assert(out@ =~= head + shown.subrange(len - 3, k as int));
    }
    proof {
        assert forall|p2: int| is_expansion(s, p2) implies p2 == p by {
            if p2 != p {
                assert(is_digit_char(s[p as int]));
            }
        }
    }
    out
}

/// The decimal text of a number, as Rust's `to_string` writes it.
pub open spec fn decimal_text(n: nat) -> Seq<char> {
    fixed_digits(n, 1)
}

/// The decimal text of an index.
pub fn index_text(n: usize) -> (r: String)
    ensures
        r@ == decimal_text(n as nat),
{
    let mut m = n;
    let mut rev: Vec<u8> = Vec::new();
    let ghost mut w: nat = 1;
    assert(pow10(0) == 1);
    loop
        invariant_except_break
            rev@.len() > 0 ==> m > 0,
            m as nat == n as nat / pow10(rev@.len()),
            w == (if rev@.len() == 0 { 1nat } else { 0nat }),
            fixed_digits(n as nat, 1) == fixed_digits(m as nat, w) + Seq::new(
                rev@.len(),
                |j: int| digit_char(rev@[rev@.len() - 1 - j]),
            ),
            forall|j: int| 0 <= j < rev@.len() ==> #[trigger] rev@[j] < 10,
        ensures
            m == 0,
            fixed_digits(n as nat, 1) == Seq::new(rev@.len(), |j: int| digit_char(rev@[rev@.len() - 1 - j])),
            forall|j: int| 0 <= j < rev@.len() ==> #[trigger] rev@[j] < 10,
        decreases m,
    {
        let d = (m % 10) as u8;
        let ghost old_rev = rev@;
        let ghost old_m = m;
        proof {
            assert(d == ((m as nat) % 10) as u8);
            assert((m / 10) as nat == (m as nat) / 10);
            assert(fixed_digits(m as nat, w) == fixed_digits((m / 10) as nat, 0).push(digit_char(d))) by {
                if w == 0 {
                    assert(old_rev.len() > 0);
                    assert(m as nat != 0);
                } else {
                    assert(w == 1);
                    assert((w - 1) as nat == 0);
                }
            }
        }
        rev.push(d);
        m = m / 10;
        proof {
            w = 0;
            let tail_old = Seq::new(old_rev.len(), |j: int| digit_char(old_rev[old_rev.len() - 1 - j]));
            let tail_new = Seq::new(rev@.len(), |j: int| digit_char(rev@[rev@.len() - 1 - j]));
            assert(tail_new =~= seq![digit_char(d)] + tail_old) by {
                assert forall|j: int| 0 <= j < tail_new.len() implies tail_new[j] == (seq![digit_char(d)] + tail_old)[j] by {
                    if j > 0 {
                        assert(rev@[rev@.len() - 1 - j] == old_rev[old_rev.len() - 1 - (j - 1)]);
                    }
                }
            }
            assert(fixed_digits((m as nat), 0).push(digit_char(d)) + tail_old =~= fixed_digits(m as nat, 0) + tail_new);
            lemma_pow10_positive(old_rev.len());
            assert(pow10(rev@.len()) == 10 * pow10(old_rev.len()));
            vstd::arithmetic::div_mod::lemma_div_denominator(n as int, pow10(old_rev.len()) as int, 10);
            assert(pow10(old_rev.len()) * 10 == 10 * pow10(old_rev.len()));
        }
        if m == 0 {
            proof {
                assert(fixed_digits(0, 0) =~= Seq::<char>::empty());
                assert(Seq::<char>::empty() + Seq::new(rev@.len(), |j: int| digit_char(rev@[rev@.len() - 1 - j]))
                    =~= Seq::new(rev@.len(), |j: int| digit_char(rev@[rev@.len() - 1 - j])));
            }
            break;
        }
    }
    let ghost shown = Seq::new(rev@.len(), |j: int| digit_char(rev@[rev@.len() - 1 - j]));
    let mut out = String::new();
    let mut k: usize = rev.len();
    while k > 0
        invariant
            k <= rev@.len(),
            forall|j: int| 0 <= j < rev@.len() ==> #[trigger] rev@[j] < 10,
            shown == Seq::new(rev@.len(), |j: int| digit_char(rev@[rev@.len() - 1 - j])),
            out@ == shown.take(rev@.len() - k),
        decreases k,
    {
        k = k - 1;
        let t = digit_text(rev[k]);
        out.append(t);
        assert(out@ =~= shown.take(rev@.len() - k));
    }
    assert(shown.take(rev@.len() as int) =~= shown);
    out
}

/// The digits of an index's text: after one optional leading '+'.
pub open spec fn index_digits(s: Seq<char>) -> Seq<char> {
    if s.len() > 0 && s[0] == '+' { s.drop_first() } else { s }
}

/// What Rust's `str::parse::<usize>` reads from a text: an optional '+' and
/// one or more ASCII digits whose value fits; nothing otherwise.
pub open spec fn parsed_index(s: Seq<char>) -> Option<usize> {
    let d = index_digits(s);
    if d.len() > 0 && (forall|k: int| 0 <= k < d.len() ==> is_digit_char(#[trigger] d[k]))
        && digits_value(char_digits(d)) <= usize::MAX {
        Some(digits_value(char_digits(d)) as usize)
    } else {
        None
    }
}

/// A prefix of a digit string is worth no more than the whole.
pub proof fn lemma_prefix_value_le(d: Seq<u8>, k: int)
    requires
        0 <= k <= d.len(),
    ensures
        digits_value(d.take(k)) <= digits_value(d),
{
    let a = d.take(k);
    let b = d.skip(k);
    assert(d =~= a + b);
    lemma_digits_value_concat(a, b);
    lemma_pow10_positive(b.len());
    let va = digits_value(a);
    let p = pow10(b.len());
    assert(va <= va * p) by (nonlinear_arith)
        requires
            p >= 1,
    ;
}

/// Reads an index as `str::parse::<usize>` does.
pub fn parse_index(s: &str) -> (r: Option<usize>)
    ensures
        r == parsed_index(s@),
{
    let n = s.unicode_len();
    let mut k: usize = 0;
    if n > 0 && s.get_char(0) == '+' {
        k = 1;
    }
    let ghost d = index_digits(s@);
    let ghost skip = k as int;
    assert(d =~= s@.skip(skip));
    if k == n {
        return None;
    }
    let mut acc: usize = 0;
    while k < n
        invariant
            skip <= k <= n,
            n == s@.len(),
            skip == 0 || skip == 1,
            d == s@.skip(skip),
            d == index_digits(s@),
            d.len() > 0,
            forall|j: int| 0 <= j < k - skip ==> is_digit_char(#[trigger] d[j]),
            acc == digits_value(char_digits(d.take(k - skip))),
        decreases n - k,
    {
        let c = s.get_char(k);
        assert(c == d[k - skip]);
        if c < '0' || c > '9' {
            assert(!is_digit_char(d[k - skip]));
            return None;
        }
        let digit = ((c as u32) - ('0' as u32)) as usize;
        let ghost before = char_digits(d.take(k - skip));
        proof {
            assert(char_digits(d.take(k - skip + 1)) =~= before.push(char_digit(c)));
            assert(char_digits(d.take(k - skip + 1)).drop_last() =~= before);
            assert(digits_value(char_digits(d.take(k - skip + 1))) == acc * 10 + digit);
            lemma_prefix_value_le(char_digits(d), k - skip + 1);
            assert(char_digits(d).take(k - skip + 1) =~= char_digits(d.take(k - skip + 1)));
            assert(digits_value(char_digits(d)) >= acc * 10 + digit);
        }
        match acc.checked_mul(10) {
            None => {
                proof {
                    lemma_prefix_value_le(char_digits(d), k - skip + 1);
                    assert(char_digits(d).take(k - skip + 1) =~= char_digits(d.take(k - skip + 1)));
                }
                return None;
            },
            Some(t) => {
                match t.checked_add(digit) {
                    None => {
                        proof {
                            lemma_prefix_value_le(char_digits(d), k - skip + 1);
                            assert(char_digits(d).take(k - skip + 1) =~= char_digits(d.take(k - skip + 1)));
                        }
                        return None;
                    },
                    Some(v) => {
                        acc = v;
                    },
                }
            },
        }
        k = k + 1;
    }
    assert(d.take(d.len() as int) =~= d);
    Some(acc)
}

/// Fixed-width digits are digit characters spelling the number back.
pub proof fn lemma_fixed_digits_read_back(q: nat, w: nat)
    ensures
        forall|k: int| 0 <= k < fixed_digits(q, w).len() ==> is_digit_char(#[trigger] fixed_digits(q, w)[k]),
        digits_value(char_digits(fixed_digits(q, w))) == q,
        w > 0 ==> fixed_digits(q, w).len() > 0,
    decreases w, q,
{
    let f = fixed_digits(q, w);
    if w == 0 && q == 0 {
        assert(char_digits(f) =~= Seq::<u8>::empty());
    } else {
        let w2: nat = if w == 0 { 0 } else { (w - 1) as nat };
        lemma_fixed_digits_read_back(q / 10, w2);
        let g = fixed_digits(q / 10, w2);
        let d = (q % 10) as u8;
        assert(f == g.push(digit_char(d)));
        assert(char_digit(digit_char(d)) == d);
        assert(char_digits(f) =~= char_digits(g).push(d));
        assert(char_digits(f).drop_last() =~= char_digits(g));
        assert forall|k: int| 0 <= k < f.len() implies is_digit_char(#[trigger] f[k]) by {
            if k < g.len() {
                assert(f[k] == g[k]);
            }
        }
    }
}

/// An index's decimal text reads back as that index.
pub proof fn lemma_index_text_parses(b: usize)
    ensures
        parsed_index(decimal_text(b as nat)) == Some(b),
        forall|k: int| 0 <= k < decimal_text(b as nat).len() ==> is_digit_char(#[trigger] decimal_text(b as nat)[k]),
        decimal_text(b as nat).len() > 0,
{
    lemma_fixed_digits_read_back(b as nat, 1);
    let t = decimal_text(b as nat);
    assert(is_digit_char(t[0]));
    assert(index_digits(t) == t);
}

} // verus!
