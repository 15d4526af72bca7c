//! Backbones grown from other backbones: each backbone's growth settings may
//! attach it to a parent backbone, and a backbone moves together with
//! everything that grows (directly or indirectly) from it.
use vstd::prelude::*;

verus! {

/// A sequence of distinct values below `n` has at most `n` elements.
pub proof fn lemma_distinct_below_len(s: Seq<usize>, n: nat)
    requires
        s.no_duplicates(),
        forall|k: int| 0 <= k < s.len() ==> s[k] < n,
    ensures
        s.len() <= n,
    decreases n,
{
    if n == 0 {
        if s.len() > 0 {
            assert(s[0] < 0);
        }
    } else {
        let top = (n - 1) as usize;
        if exists|k: int| 0 <= k < s.len() && s[k] == top {
            let k = choose|k: int| 0 <= k < s.len() && s[k] == top;
            let t = s.subrange(0, k) + s.subrange(k + 1, s.len() as int);
            assert forall|a: int| 0 <= a < t.len() implies t[a] < n - 1 by {
                let src = if a < k { a } else { a + 1 };
                assert(t[a] == s[src]);
                assert(src != k);
            }
            assert forall|a: int, b: int| 0 <= a < t.len() && 0 <= b < t.len() && a != b implies t[a] != t[b] by {
                let sa = if a < k { a } else { a + 1 };
                let sb = if b < k { b } else { b + 1 };
                assert(t[a] == s[sa] && t[b] == s[sb]);
            }
            lemma_distinct_below_len(t, (n - 1) as nat);
        } else {
            assert forall|a: int| 0 <= a < s.len() implies s[a] < n - 1 by {
                assert(s[a] != top);
            }
            lemma_distinct_below_len(s, (n - 1) as nat);
        }
    }
}

/// Whether `v` holds `x`.
pub fn contains_index(v: &Vec<usize>, x: usize) -> (r: bool)
    ensures
        r == v@.contains(x),
{
    let mut k: usize = 0;
    while k < v.len()
        invariant
            k <= v.len(),
            forall|j: int| 0 <= j < k ==> v@[j] != x,
        decreases v.len() - k,
    {
        if v[k] == x {
            return true;
        }
        k = k + 1;
    }
    false
}

/// How the backbones of a layout hang together: the number of backbones and,
/// for each stored growth setting, the backbone it is attached to.
pub struct Links {
    pub count: usize,
    pub attach: Vec<Option<usize>>,
}

impl Links {
    /// The attachment of backbone `i`: its own setting, else the first
    /// setting, else none.
    pub open spec fn attach_spec(&self, i: int) -> Option<usize> {
        if 0 <= i < self.attach@.len() {
            self.attach@[i]
        } else if self.attach@.len() > 0 {
            self.attach@[0]
        } else {
            None
        }
    }

    /// Backbone `j` grows from `index` through at most `n + 1` attachments,
    /// none of them through `index` itself before the last.
    pub open spec fn descends_within(&self, j: int, index: usize, n: nat) -> bool
        decreases n,
    {
        &&& 0 <= j < self.count
        &&& j != index
        &&& match self.attach_spec(j) {
            Some(b) => b == index || (n > 0 && self.descends_within(b as int, index, (n - 1) as nat)),
            None => false,
        }
    }

    /// Backbone `j` grows, directly or indirectly, from backbone `index`.
    pub open spec fn descends(&self, j: int, index: usize) -> bool {
        exists|n: nat| self.descends_within(j, index, n)
    }

    /// The parent a backbone really hangs from: its attachment, unless that is
    /// itself or no backbone at all.
    pub open spec fn parent_spec(&self, i: int) -> Option<usize> {
        match self.attach_spec(i) {
            Some(p) => if p != i && p < self.count { Some(p) } else { None },
            None => None,
        }
    }

    /// Every backbone in `out` grows from `index` or from a backbone earlier in
    /// `out`.
    pub open spec fn parents_first(&self, index: usize, out: Seq<usize>) -> bool {
        forall|k: int|
            #![trigger out[k]]
            0 <= k < out.len() ==> (self.attach_spec(out[k] as int) == Some(index) || exists|m: int|
                0 <= m < k && self.attach_spec(out[k] as int) == Some(#[trigger] out[m]))
    }

    /// Backbone `j` is a child of `b` that the walk from `index` has not yet
    /// found in `out`.
    pub open spec fn new_child(&self, index: usize, out: Seq<usize>, b: usize, j: usize) -> bool {
        j != index && !out.contains(j) && self.attach_spec(j as int) == Some(b)
    }

    /// The walk from `index` over the attachments, with `out` found so far and
    /// `frontier` still to look at: the last backbone of the frontier is
    /// looked at next, and its children not yet found join both lists in
    /// index order; at most `fuel` backbones are looked at.
    pub open spec fn walk(&self, index: usize, out: Seq<usize>, frontier: Seq<usize>, fuel: nat) -> Seq<usize>
        decreases fuel,
    {
        if fuel == 0 || frontier.len() == 0 {
            out
        } else {
            let b = frontier.last();
            let kids = Seq::new(self.count as nat, |j: int| j as usize).filter(
                |j: usize| self.new_child(index, out, b, j),
            );
            self.walk(index, out + kids, frontier.drop_last() + kids, (fuel - 1) as nat)
        }
    }

    /// The backbones growing from `index` in the order the walk finds them.
    pub open spec fn descendants_spec(&self, index: usize) -> Seq<usize> {
        self.walk(index, Seq::empty(), seq![index], (self.count + 1) as nat)
    }

    /// Every backbone that grows from a backbone of `done` is in `out`.
    pub open spec fn covers_children(&self, index: usize, done: spec_fn(usize) -> bool, out: Seq<usize>) -> bool {
        forall|i: int|
            0 <= i < self.count && i != index && #[trigger] self.attach_spec(i) is Some && done(self.attach_spec(i)->0)
                ==> out.contains(i as usize)
    }

    pub proof fn lemma_descends_more(&self, j: int, index: usize, n: nat, m: nat)
        requires
            self.descends_within(j, index, n),
            n <= m,
        ensures
            self.descends_within(j, index, m),
        decreases n,
    {
        match self.attach_spec(j) {
            Some(b) => {
                if b != index {
                    self.lemma_descends_more(b as int, index, (n - 1) as nat, (m - 1) as nat);
                }
            },
            None => {},
        }
    }

    /// With parents listed first, each member of `out` descends from `index`.
    pub proof fn lemma_parents_first_descend(&self, index: usize, out: Seq<usize>, k: int)
        requires
            self.parents_first(index, out),
            forall|a: int| 0 <= a < out.len() ==> out[a] < self.count && out[a] != index,
            0 <= k < out.len(),
        ensures
            self.descends_within(out[k] as int, index, k as nat),
        decreases k,
    {
        let j = out[k];
        if self.attach_spec(j as int) == Some(index) {
        } else {
            let m = choose|m: int| 0 <= m < k && self.attach_spec(j as int) == Some(#[trigger] out[m]);
            self.lemma_parents_first_descend(index, out, m);
            self.lemma_descends_more(out[m] as int, index, m as nat, (k - 1) as nat);
        }
    }

    /// When every child of `index` and of the members of `out` is in `out`,
    /// every backbone descending from `index` is in `out`.
    pub proof fn lemma_closed_holds_descendants(&self, index: usize, out: Seq<usize>, j: int, n: nat)
        requires
            self.covers_children(index, |b: usize| b == index || out.contains(b), out),
            self.descends_within(j, index, n),
        ensures
            out.contains(j as usize),
        decreases n,
    {
        let b = self.attach_spec(j)->0;
        if b != index {
            self.lemma_closed_holds_descendants(index, out, b as int, (n - 1) as nat);
        }
        assert(self.attach_spec(j) is Some);
    }

    pub fn attach_of(&self, i: usize) -> (r: Option<usize>)
        ensures
            r == self.attach_spec(i as int),
    {
        if i < self.attach.len() {
            self.attach[i]
        } else if self.attach.len() > 0 {
            self.attach[0]
        } else {
            None
        }
    }

    /// The backbone that backbone `i` grows from, if it is attached to
    /// another existing backbone.
    pub fn parent_of(&self, i: usize) -> (r: Option<usize>)
        ensures
            r == self.parent_spec(i as int),
    {
        match self.attach_of(i) {
            Some(p) => if p != i && p < self.count { Some(p) } else { None },
            None => None,
        }
    }

    /// Backbone `index` and every backbone that grows from it: the backbones
    /// that move together with it.
    pub fn group(&self, index: usize) -> (r: Vec<usize>)
        ensures
            r@ == seq![index] + self.descendants_spec(index),
            r@.len() > 0,
            r@[0] == index,
            forall|j: usize| r@.drop_first().contains(j) <==> self.descends(j as int, index),
            r@.no_duplicates(),
    {
        let rest = self.descendants(index);
        let mut out: Vec<usize> = Vec::new();
        out.push(index);
        let mut k: usize = 0;
        while k < rest.len()
            invariant
                k <= rest@.len(),
                out@ == seq![index] + rest@.take(k as int),
            decreases rest@.len() - k,
        {
            out.push(rest[k]);
            k = k + 1;
            assert(out@ =~= seq![index] + rest@.take(k as int));
        }
        assert(rest@.take(k as int) =~= rest@);
        assert(out@.drop_first() =~= rest@);
        assert(out@.no_duplicates()) by {
            assert forall|a: int, b: int| 0 <= a < out@.len() && 0 <= b < out@.len() && a != b implies out@[a] != out@[b] by {
                if a > 0 && b > 0 {
                    assert(out@[a] == rest@[a - 1] && out@[b] == rest@[b - 1]);
                } else if a == 0 {
                    assert(out@[b] == rest@[b - 1]);
                } else {
                    assert(out@[a] == rest@[a - 1]);
                }
            }
        }
        out
    }

    /// Backbones that grow (directly or indirectly) from `index`, each once,
    /// parents before their children, in the order the walk finds them.
    pub fn descendants(&self, index: usize) -> (r: Vec<usize>)
        ensures
            r@ == self.descendants_spec(index),
            r@.no_duplicates(),
            forall|k: int| 0 <= k < r@.len() ==> r@[k] < self.count && r@[k] != index,
            self.parents_first(index, r@),
            forall|j: usize| #[trigger] r@.contains(j) <==> self.descends(j as int, index),
    {
        let count = self.count;
        let mut out: Vec<usize> = Vec::new();
        let mut frontier: Vec<usize> = Vec::new();
        frontier.push(index);
        assert(frontier@[0] == index);
        while frontier.len() > 0
            invariant
                count == self.count,
                out@.no_duplicates(),
                frontier@.no_duplicates(),
                forall|k: int| 0 <= k < out@.len() ==> out@[k] < count && out@[k] != index,
                forall|k: int| 0 <= k < frontier@.len() ==> #[trigger] frontier@[k] == index || out@.contains(frontier@[k]),
                self.parents_first(index, out@),
                self.covers_children(index, |b: usize| (b == index || out@.contains(b)) && !frontier@.contains(b), out@),
                out@.len() <= count,
                self.walk(index, out@, frontier@, (count - out@.len() + frontier@.len()) as nat) == self.descendants_spec(index),
            decreases 2 * (count - out@.len()) + frontier@.len(),
        {
            proof {
                lemma_distinct_below_len(out@, count as nat);
            }
            let ghost out0 = out@;
            let ghost before_pop = frontier@;
            let b = frontier[frontier.len() - 1];
            frontier.pop();
            let ghost front0 = frontier@;
            proof {
                assert(front0 =~= before_pop.drop_last());
                assert(!front0.contains(b)) by {
                    if front0.contains(b) {
                        let k = choose|k: int| 0 <= k < front0.len() && front0[k] == b;
                        assert(before_pop[k] == before_pop[before_pop.len() - 1]);
                    }
                }
                assert(b == index || out0.contains(b)) by {
                    assert(before_pop[before_pop.len() - 1] == b);
                }
                assert forall|k: int| 0 <= k < front0.len() implies #[trigger] front0[k] == index || out0.contains(front0[k]) by {
                    assert(front0[k] == before_pop[k]);
                }
            }
            let mut i: usize = 0;
            while i < count
                invariant
                    count == self.count,
                    i <= count,
                    b == index || out0.contains(b),
                    !front0.contains(b),
                    out0.no_duplicates(),
                    forall|k: int| 0 <= k < out0.len() ==> out0[k] < count && out0[k] != index,
                    forall|k: int| 0 <= k < front0.len() ==> #[trigger] front0[k] == index || out0.contains(front0[k]),
                    front0.no_duplicates(),
                    front0 =~= before_pop.drop_last(),
                    before_pop.len() > 0,
                    before_pop[before_pop.len() - 1] == b,
                    self.covers_children(index, |c: usize| (c == index || out0.contains(c)) && !before_pop.contains(c), out0),
                    out@.len() >= out0.len(),
                    out@.subrange(0, out0.len() as int) == out0,
                    frontier@ == front0 + out@.subrange(out0.len() as int, out@.len() as int),
                    out@.no_duplicates(),
                    forall|k: int| 0 <= k < out@.len() ==> out@[k] < count && out@[k] != index,
                    forall|k: int| out0.len() <= k < out@.len() ==> out@[k] < i,
                    self.parents_first(index, out@),
                    forall|c: int| 0 <= c < i && c != index && self.attach_spec(c) == Some(b) ==> out@.contains(c as usize),
                    out@.subrange(out0.len() as int, out@.len() as int) == Seq::new(i as nat, |j: int| j as usize).filter(
                        |j: usize| self.new_child(index, out0, b, j),
                    ),
                decreases count - i,
            {
                let ghost out_it = out@;
                proof {
                    let all_i = Seq::new(i as nat, |j: int| j as usize);
                    let pred = |j: usize| self.new_child(index, out0, b, j);
                    assert(Seq::new((i + 1) as nat, |j: int| j as usize) =~= all_i.push(i));
                    all_i.lemma_filter_push(i, pred);
                    if out_it.contains(i) {
                        let k = choose|k: int| 0 <= k < out_it.len() && out_it[k] == i;
                        if k < out0.len() {
                            assert(out0[k] == out_it.subrange(0, out0.len() as int)[k]);
                        }
                    }
                    if out0.contains(i) {
                        let k = choose|k: int| 0 <= k < out0.len() && out0[k] == i;
                        assert(out0[k] == out_it.subrange(0, out0.len() as int)[k]);
                    }
                    assert(out_it.contains(i) == out0.contains(i));
                }
                let a = self.attach_of(i);
                if i != index && !contains_index(&out, i) && a == Some(b) {
                    proof {
                        lemma_distinct_below_len(out@, count as nat);
                    }
                    let ghost out1 = out@;
                    out.push(i);
                    frontier.push(i);
                    proof {
                        let nk = out1.len() as int;
                        assert(out@[nk] == i);
                        assert forall|k: int| 0 <= k < nk implies #[trigger] out@[k] == out1[k] by {}
                        assert(out@.subrange(0, out0.len() as int) =~= out1.subrange(0, out0.len() as int));
                        assert(out@.subrange(out0.len() as int, out@.len() as int) =~= out1.subrange(out0.len() as int, out1.len() as int).push(i));
                        assert(out@.no_duplicates()) by {
                            assert forall|x: int, y: int| 0 <= x < out@.len() && 0 <= y < out@.len() && x != y implies out@[x] != out@[y] by {
                                if x == nk {
                                    assert(out@[y] == out1[y]);
                                } else if y == nk {
                                    assert(out@[x] == out1[x]);
                                } else {
                                    assert(out@[x] == out1[x] && out@[y] == out1[y]);
                                }
                            }
                        }
                        assert(self.parents_first(index, out@)) by {
                            assert forall|k: int| #![trigger out@[k]] 0 <= k < out@.len() implies
                                (self.attach_spec(out@[k] as int) == Some(index) || exists|m: int|
                                0 <= m < k && self.attach_spec(out@[k] as int) == Some(#[trigger] out@[m])) by {
                                if k < nk {
                                    assert(out@[k] == out1[k]);
                                    if self.attach_spec(out1[k] as int) != Some(index) {
                                        let m = choose|m: int| 0 <= m < k && self.attach_spec(out1[k] as int) == Some(#[trigger] out1[m]);
                                        assert(out@[m] == out1[m]);
                                    }
                                } else if b != index {
                                    let m = choose|m: int| 0 <= m < out0.len() && out0[m] == b;
                                    assert(out1[m] == out0[m]);
                                    assert(out@[m] == b);
                                }
                            }
                        }
                    }
                    proof {
                        assert(out@.subrange(out0.len() as int, out@.len() as int) =~= out_it.subrange(
                            out0.len() as int,
                            out_it.len() as int,
                        ).push(i));
                    }
                }
                proof {
                    assert(out@.len() >= out_it.len());
                    assert forall|k: int| 0 <= k < out_it.len() implies out@[k] == out_it[k] by {}
                    assert forall|c: int| 0 <= c < i + 1 && c != index && self.attach_spec(c) == Some(b)
                        implies out@.contains(c as usize) by {
                        if c < i {
                            let k = choose|k: int| 0 <= k < out_it.len() && out_it[k] == c as usize;
                            assert(out@[k] == out_it[k]);
                        } else if out@.len() > out_it.len() {
                            assert(out@[out_it.len() as int] == i);
                        } else {
                            assert(out_it.contains(i));
                        }
                    }
                }
                i = i + 1;
            }
            proof {
                lemma_distinct_below_len(out@, count as nat);
                let tail = out@.subrange(out0.len() as int, out@.len() as int);
                assert forall|x: usize| out0.contains(x) implies out@.contains(x) by {
                    let k = choose|k: int| 0 <= k < out0.len() && out0[k] == x;
                    assert(out@[k] == out@.subrange(0, out0.len() as int)[k]);
                }
                assert forall|k: int| 0 <= k < frontier@.len() implies #[trigger] frontier@[k] == index || out@.contains(frontier@[k]) by {
                    if k < front0.len() {
                        assert(frontier@[k] == front0[k]);
                    } else {
                        let q = k - front0.len() + out0.len();
                        assert(frontier@[k] == out@[q]);
                    }
                }
                assert(frontier@.no_duplicates()) by {
                    assert forall|x: int, y: int| 0 <= x < frontier@.len() && 0 <= y < frontier@.len() && x != y implies frontier@[x] != frontier@[y] by {
                        if x < front0.len() && y < front0.len() {
                            assert(frontier@[x] == front0[x] && frontier@[y] == front0[y]);
                        } else if x >= front0.len() && y >= front0.len() {
                            assert(frontier@[x] == out@[x - front0.len() + out0.len()]);
                            assert(frontier@[y] == out@[y - front0.len() + out0.len()]);
                        } else {
                            let f = if x < front0.len() { x } else { y };
                            let t = if x < front0.len() { y } else { x };
                            let q = t - front0.len() + out0.len();
                            assert(frontier@[t] == out@[q]);
                            assert(frontier@[f] == front0[f]);
                            assert(out@[q] != index);
                            if front0[f] != index {
                                let p = choose|p: int| 0 <= p < out0.len() && out0[p] == front0[f];
                                assert(out@[p] == out0[p]);
                            }
                        }
                    }
                }
                assert forall|c: int|
                    0 <= c < count && c != index && #[trigger] self.attach_spec(c) is Some
                    && (self.attach_spec(c)->0 == index || out@.contains(self.attach_spec(c)->0))
                    && !frontier@.contains(self.attach_spec(c)->0)
                    implies out@.contains(c as usize) by {
                    let p = self.attach_spec(c)->0;
                    if p == b {
                    } else {
                        assert(!front0.contains(p)) by {
                            if front0.contains(p) {
                                let k = choose|k: int| 0 <= k < front0.len() && front0[k] == p;
                                assert(frontier@[k] == front0[k]);
                            }
                        }
                        assert(!before_pop.contains(p)) by {
                            if before_pop.contains(p) {
                                let k = choose|k: int| 0 <= k < before_pop.len() && before_pop[k] == p;
                                if k < before_pop.len() - 1 {
                                    assert(front0[k] == p);
                                }
                            }
                        }
                        if p != index && !out0.contains(p) {
                            let k = choose|k: int| 0 <= k < out@.len() && out@[k] == p;
                            assert(k >= out0.len()) by {
                                if k < out0.len() {
                                    assert(out0[k] == out@.subrange(0, out0.len() as int)[k]);
                                }
                            }
                            let q = k - out0.len() + front0.len();
                            assert(frontier@[q] == p);
                        }
                    }
                }
                let kids = Seq::new(count as nat, |j: int| j as usize).filter(
                    |j: usize| self.new_child(index, out0, b, j),
                );
                assert(out@ =~= out0 + kids);
                assert(frontier@ =~= front0 + kids);
                assert(before_pop.last() == b);
                assert(before_pop.drop_last() =~= front0);
                let fuel0 = (count - out0.len() + before_pop.len()) as nat;
                assert(self.walk(index, out0, before_pop, fuel0) == self.walk(
                    index,
                    out0 + kids,
                    front0 + kids,
                    (fuel0 - 1) as nat,
                ));
            }
        }
        proof {
            assert(self.walk(index, out@, frontier@, (count - out@.len() + frontier@.len()) as nat) == out@);
            assert(frontier@.len() == 0);
            assert(self.covers_children(index, |b: usize| b == index || out@.contains(b), out@)) by {
                assert forall|i: int|
                    0 <= i < self.count && i != index && #[trigger] self.attach_spec(i) is Some && (
                    self.attach_spec(i)->0 == index || out@.contains(self.attach_spec(i)->0))
                    implies out@.contains(i as usize) by {
                    assert(!frontier@.contains(self.attach_spec(i)->0));
                }
            }
            assert forall|j: usize| #[trigger] out@.contains(j) <==> self.descends(j as int, index) by {
                if out@.contains(j) {
                    let k = choose|k: int| 0 <= k < out@.len() && out@[k] == j;
                    self.lemma_parents_first_descend(index, out@, k);
                }
                if self.descends(j as int, index) {
                    let n = choose|n: nat| self.descends_within(j as int, index, n);
                    self.lemma_closed_holds_descendants(index, out@, j as int, n);
                }
            }
        }
        out
    }
}

/// The join an attached backbone makes: (backbone, its main sweep's part,
/// its parent's main sweep's part), when it is attached and both sweeps grew.
pub open spec fn sweep_join(links: &Links, mains: Seq<Option<usize>>, i: int) -> Option<(usize, usize, usize)> {
    match links.parent_spec(i) {
        Some(p) => match (mains[i], mains[p as int]) {
            (Some(c), Some(q)) => Some((i as usize, c, q)),
            _ => None,
        },
        None => None,
    }
}

impl Links {
    /// Where attached backbones merge: for each backbone in order that hangs
    /// from another and whose sweep and parent's sweep both grew, the
    /// backbone and the two sweeps (`mains` holds each backbone's main sweep).
    pub fn sweep_joins(&self, mains: &Vec<Option<usize>>) -> (r: Vec<(usize, usize, usize)>)
        requires
            mains@.len() == self.count,
        ensures
            r@ == Seq::new(self.count as nat, |i: int| sweep_join(self, mains@, i)).filter(
                |j: Option<(usize, usize, usize)>| j is Some,
            ).map_values(|j: Option<(usize, usize, usize)>| j->0),
    {
        let ghost all = Seq::new(self.count as nat, |i: int| sweep_join(self, mains@, i));
        let ghost keep = |j: Option<(usize, usize, usize)>| j is Some;
        let mut out: Vec<(usize, usize, usize)> = Vec::new();
        let mut i: usize = 0;
        while i < self.count
            invariant
                i <= self.count,
                mains@.len() == self.count,
                all == Seq::new(self.count as nat, |i: int| sweep_join(self, mains@, i)),
                keep == (|j: Option<(usize, usize, usize)>| j is Some),
                out@ == all.take(i as int).filter(keep).map_values(|j: Option<(usize, usize, usize)>| j->0),
            decreases self.count - i,
        {
            proof {
                assert(all.take(i + 1) =~= all.take(i as int).push(all[i as int]));
                all.take(i as int).lemma_filter_push(all[i as int], keep);
            }
            let join = match self.parent_of(i) {
                Some(p) => match (mains[i], mains[p]) {
                    (Some(c), Some(q)) => Some((i, c, q)),
                    _ => None,
                },
                None => None,
            };
            assert(join == all[i as int]);
            if let Some(t) = join {
                out.push(t);
                proof {
                    let f = all.take(i as int).filter(keep);
                    assert(f.push(join).map_values(|j: Option<(usize, usize, usize)>| j->0) =~= f.map_values(
                        |j: Option<(usize, usize, usize)>| j->0,
                    ).push(t));
                }
            }
            i = i + 1;
        }
        assert(all.take(i as int) =~= all);
        out
    }
}

} // verus!
