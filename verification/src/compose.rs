//! The composed chip grammar in grid units: seeded border phrases and a
//! centre, each drawn once for the top of the square and turned a quarter
//! turn at a time about the centre; pieces that would leave the square are
//! dropped.
use vstd::prelude::*;
use crate::chip::{border_phrases, border_phrases_spec, border_phrases_stay_in_band, band_depth, poly_view, polys_view, turned, ChipChoices, GridPoly};
use crate::names::ChipFamily;
use crate::rng::{mulberry_draw, scaled_draw};

verus! {

broadcast use vstd::seq_lib::group_seq_properties;

/// The largest coordinate the composed grammar handles.
pub const COORD_LIMIT: i64 = 0x10_0000;

/// A grid point turned `k` quarter turns about the centre (c, c).
pub open spec fn turn_about(p: (int, int), k: int, c: int) -> (int, int) {
    let t = turned(p.0, p.1, k);
    (c + t.0, c + t.1)
}

/// Every point of `q` lies on the square [0, n] x [0, n].
pub open spec fn on_board(q: Seq<(int, int)>, n: int) -> bool {
    forall|j: int| 0 <= j < q.len() ==> 0 <= #[trigger] q[j].0 <= n && 0 <= q[j].1 <= n
}

/// A piece turned `k` quarter turns about the centre (c, c).
pub open spec fn turned_piece(p: Seq<(int, int)>, k: int, c: int) -> Seq<(int, int)> {
    p.map_values(|a: (int, int)| turn_about(a, k, c))
}

/// The `k`-th quarter turn of a piece, if it stays on the square.
pub open spec fn turn_on_board(p: Seq<(int, int)>, k: int, c: int, n: int) -> Seq<Seq<(int, int)>> {
    let q = turned_piece(p, k, c);
    if on_board(q, n) {
        seq![q]
    } else {
        Seq::empty()
    }
}

/// The four quarter turns of a piece that stay on the square, in turn order.
pub open spec fn four_turns(p: Seq<(int, int)>, c: int, n: int) -> Seq<Seq<(int, int)>> {
    turn_on_board(p, 0, c, n) + turn_on_board(p, 1, c, n) + turn_on_board(p, 2, c, n) + turn_on_board(p, 3, c, n)
}

/// The four quarter turns of each piece, piece by piece.
pub open spec fn all_four_turns(ps: Seq<Seq<(int, int)>>, c: int, n: int) -> Seq<Seq<(int, int)>>
    decreases ps.len(),
{
    if ps.len() == 0 {
        Seq::empty()
    } else {
        all_four_turns(ps.drop_last(), c, n) + four_turns(ps.last(), c, n)
    }
}

/// Every piece of `ps` lies on the square [0, n] x [0, n].
pub open spec fn all_on_board(ps: Seq<Seq<(int, int)>>, n: int) -> bool {
    forall|i: int| 0 <= i < ps.len() ==> on_board(#[trigger] ps[i], n)
}

proof fn lemma_four_turns_on_board(p: Seq<(int, int)>, c: int, n: int)
    ensures
        all_on_board(four_turns(p, c, n), n),
{
    let t0 = turn_on_board(p, 0, c, n);
    let t1 = turn_on_board(p, 1, c, n);
    let t2 = turn_on_board(p, 2, c, n);
    let t3 = turn_on_board(p, 3, c, n);
    assert(all_on_board(t0, n) && all_on_board(t1, n) && all_on_board(t2, n) && all_on_board(t3, n));
    lemma_on_board_concat(t0, t1, n);
    lemma_on_board_concat(t0 + t1, t2, n);
    lemma_on_board_concat(t0 + t1 + t2, t3, n);
}

proof fn lemma_on_board_concat(x: Seq<Seq<(int, int)>>, y: Seq<Seq<(int, int)>>, n: int)
    requires
        all_on_board(x, n),
        all_on_board(y, n),
    ensures
        all_on_board(x + y, n),
{
    assert forall|i: int| 0 <= i < (x + y).len() implies on_board(#[trigger] (x + y)[i], n) by {
        if i < x.len() {
            assert((x + y)[i] == x[i]);
        } else {
            assert((x + y)[i] == y[i - x.len()]);
        }
    }
}

proof fn lemma_all_four_turns_on_board(ps: Seq<Seq<(int, int)>>, c: int, n: int)
    ensures
        all_on_board(all_four_turns(ps, c, n), n),
    decreases ps.len(),
{
    if ps.len() > 0 {
        lemma_all_four_turns_on_board(ps.drop_last(), c, n);
        lemma_four_turns_on_board(ps.last(), c, n);
        lemma_on_board_concat(all_four_turns(ps.drop_last(), c, n), four_turns(ps.last(), c, n), n);
    }
}

/// Every coordinate of a piece is at most `COORD_LIMIT` in size.
pub open spec fn bounded(p: Seq<(i64, i64)>) -> bool {
    forall|j: int| 0 <= j < p.len() ==> -COORD_LIMIT <= #[trigger] p[j].0 <= COORD_LIMIT && -COORD_LIMIT <= p[j].1
        <= COORD_LIMIT
}

pub proof fn lemma_all_four_turns_push(ps: Seq<Seq<(int, int)>>, p: Seq<(int, int)>, c: int, n: int)
    ensures
        all_four_turns(ps.push(p), c, n) == all_four_turns(ps, c, n) + four_turns(p, c, n),
{
    assert(ps.push(p).drop_last() =~= ps);
}

pub proof fn lemma_all_four_turns_concat(x: Seq<Seq<(int, int)>>, y: Seq<Seq<(int, int)>>, c: int, n: int)
    ensures
        all_four_turns(x + y, c, n) == all_four_turns(x, c, n) + all_four_turns(y, c, n),
    decreases y.len(),
{
    if y.len() == 0 {
        assert(x + y =~= x);
        assert(all_four_turns(x, c, n) + all_four_turns(y, c, n) =~= all_four_turns(x, c, n));
    } else {
        assert((x + y).drop_last() =~= x + y.drop_last());
        lemma_all_four_turns_concat(x, y.drop_last(), c, n);
        assert(all_four_turns(x + y, c, n) =~= all_four_turns(x, c, n) + all_four_turns(y, c, n));
    }
}

/// (x, y) turned `k` quarter turns about the origin.
fn turn_point(x: i64, y: i64, k: u32) -> (r: (i64, i64))
    requires
        -COORD_LIMIT <= x <= COORD_LIMIT,
        -COORD_LIMIT <= y <= COORD_LIMIT,
        k < 4,
    ensures
        (r.0 as int, r.1 as int) == turned(x as int, y as int, k as int),
{
    if k == 0 {
        (x, y)
    } else if k == 1 {
        (-y, x)
    } else if k == 2 {
        (-x, -y)
    } else {
        (y, -x)
    }
}

/// Appends the `k`-th quarter turn of `p` about (c, c) if it stays on the
/// square [0, n] x [0, n].
fn push_turn(out: &mut Vec<GridPoly>, p: &GridPoly, k: u32, c: i64, n: i64)
    requires
        bounded(p@),
        0 <= c <= COORD_LIMIT,
        k < 4,
    ensures
        polys_view(final(out)@) == polys_view(old(out)@) + turn_on_board(poly_view(p@), k as int, c as int, n as int),
{
    let ghost want = turned_piece(poly_view(p@), k as int, c as int);
    let mut q: GridPoly = Vec::new();
    let mut inside = true;
    let mut j: usize = 0;
    while j < p.len()
        invariant
            j <= p@.len(),
            bounded(p@),
            0 <= c <= COORD_LIMIT,
            k < 4,
            want == turned_piece(poly_view(p@), k as int, c as int),
            poly_view(q@) == want.take(j as int),
            inside == on_board(want.take(j as int), n as int),
        decreases p@.len() - j,
    {
        let (x, y) = p[j];
        assert(-COORD_LIMIT <= p@[j as int].0 <= COORD_LIMIT);
        let t = turn_point(x, y, k);
        let pt = (c + t.0, c + t.1);
        let ghost before = q@;
        q.push(pt);
        proof {
            assert(poly_view(before).len() == before.len());
            assert(before.len() == j);
            assert(want[j as int] == (pt.0 as int, pt.1 as int));
            assert(poly_view(q@) =~= want.take(j + 1)) by {
                assert forall|i: int| 0 <= i < j implies poly_view(q@)[i] == want.take(j + 1)[i] by {
                    assert(q@[i] == before[i]);
                    assert(poly_view(before)[i] == want.take(j as int)[i]);
                }
            }
        }
        if pt.0 < 0 || pt.1 < 0 || pt.0 > n || pt.1 > n {
            inside = false;
        }
        proof {
            let w = want.take(j + 1);
            assert(w.take(j as int) =~= want.take(j as int));
            if on_board(w, n as int) {
                assert forall|i: int| 0 <= i < j implies 0 <= #[trigger] want.take(j as int)[i].0 <= n && 0
                    <= want.take(j as int)[i].1 <= n by {
                    assert(w[i] == want.take(j as int)[i]);
                }
                assert(w[j as int] == want[j as int]);
            }
            if inside {
                assert forall|i: int| 0 <= i < w.len() implies 0 <= #[trigger] w[i].0 <= n && 0 <= w[i].1 <= n by {
                    if i < j {
                        assert(w[i] == want.take(j as int)[i]);
                    }
                }
            }
        }
        j = j + 1;
    }
    assert(want.take(j as int) =~= want);
    if inside {
        out.push(q);
        proof {
            let ghost o = polys_view(old(out)@);
            assert(polys_view(out@) =~= o + seq![poly_view(q@)]) by {
                assert forall|i: int| 0 <= i < o.len() implies polys_view(out@)[i] == o[i] by {
                    assert(out@[i] == old(out)@[i]);
                }
            }
        }
    } else {
        assert(polys_view(out@) =~= polys_view(old(out)@) + Seq::<Seq<(int, int)>>::empty());
    }
}

/// Appends the quarter turns of `p` about (c, c) that stay on the square
/// [0, n] x [0, n].
fn push_four(out: &mut Vec<GridPoly>, p: &GridPoly, c: i64, n: i64)
    requires
        bounded(p@),
        0 <= c <= COORD_LIMIT,
    ensures
        polys_view(final(out)@) == polys_view(old(out)@) + four_turns(poly_view(p@), c as int, n as int),
{
    push_turn(out, p, 0, c, n);
    push_turn(out, p, 1, c, n);
    push_turn(out, p, 2, c, n);
    push_turn(out, p, 3, c, n);
    assert(polys_view(out@) =~= polys_view(old(out)@) + four_turns(poly_view(p@), c as int, n as int));
}

/// Every coordinate of every piece is at most `COORD_LIMIT` in size.
pub open spec fn all_bounded(ps: Seq<GridPoly>) -> bool {
    forall|i: int| 0 <= i < ps.len() ==> bounded(#[trigger] ps[i]@)
}

/// Appends the quarter turns that stay on the square of each piece in turn.
fn push_all_four(out: &mut Vec<GridPoly>, pieces: &Vec<GridPoly>, c: i64, n: i64)
    requires
        all_bounded(pieces@),
        0 <= c <= COORD_LIMIT,
    ensures
        polys_view(final(out)@) == polys_view(old(out)@) + all_four_turns(polys_view(pieces@), c as int, n as int),
{
    let ghost start = polys_view(out@);
    let ghost ps = polys_view(pieces@);
    let mut i: usize = 0;
    while i < pieces.len()
        invariant
            i <= pieces@.len(),
            all_bounded(pieces@),
            0 <= c <= COORD_LIMIT,
            ps == polys_view(pieces@),
            polys_view(out@) == start + all_four_turns(ps.take(i as int), c as int, n as int),
        decreases pieces@.len() - i,
    {
        push_four(out, &pieces[i], c, n);
        proof {
            assert(ps.take(i + 1) =~= ps.take(i as int).push(ps[i as int]));
            lemma_all_four_turns_push(ps.take(i as int), ps[i as int], c as int, n as int);
        }
        i = i + 1;
    }
    assert(ps.take(i as int) =~= ps);
}

/// The larger of two integers.
pub open spec fn larger(a: int, b: int) -> int {
    if a >= b { a } else { b }
}

/// The radius of the medallion on a square `cells` grid cells across.
pub open spec fn medallion_radius(cells: int) -> int {
    larger(2, cells / 2 - 1)
}

/// How far the centre reaches from the middle of the square.
pub open spec fn centre_inner_spec(cells: int) -> int {
    larger(2, medallion_radius(cells) - 4)
}

/// One repeat of the earlier border, starting at `t` on the top side.
pub open spec fn earlier_phrase(style: int, t: int, pitch: int, r: int) -> Seq<(int, int)> {
    let mid = t + 1;
    let depth = if r >= 7 { 2int } else { 1int };
    if style == 2 && depth == 1 {
        seq![(t, -r), (t + pitch, -r), (mid, -r + 1)]
    } else if style == 0 {
        seq![(t, -r), (t + pitch, -r), (mid, -r + depth)]
    } else if style == 1 {
        seq![(t, -r + depth), (mid, -r), (t + pitch, -r + depth)]
    } else {
        seq![(t, -r + 1), (mid, -r), (t + pitch, -r + 1), (mid, -r + depth)]
    }
}

/// How many repeats of the earlier border fit between the corners.
pub open spec fn earlier_count(pitch: int, r: int) -> int {
    (2 * r - 4) / pitch
}

/// The earlier border of the top side: its repeats left to right and the
/// corner diamond; nothing on a medallion of radius under 4.
pub open spec fn earlier_border(style: int, pitch: int, r: int) -> Seq<Seq<(int, int)>> {
    if r >= 4 {
        Seq::new(earlier_count(pitch, r) as nat, |i: int| earlier_phrase(style, -r + 2 + i * pitch, pitch, r)).push(
            seq![(-r, -r + 1), (-r + 1, -r), (-r + 2, -r + 1), (-r + 1, -r + 2)],
        )
    } else {
        Seq::empty()
    }
}

/// The centre pieces of the top quarter: compass petals for a rosette, a
/// faceted heart otherwise. `a`, `b` and `d` are the petal's length and half
/// width and the diagonal facet's reach.
pub open spec fn centre_pieces(rosette: bool, heart: int, inner: int, a: int, b: int, d: int) -> Seq<Seq<(int, int)>> {
    if rosette {
        seq![seq![(0, 0), (-b, -a), (0, -inner), (b, -a)]] + (if inner >= 4 {
            seq![seq![(0, 0), (a, -b), (a, -a), (b, -a)]]
        } else {
            Seq::empty()
        })
    } else {
        let tip = if heart == 0 { inner } else { larger(2, inner - 1) };
        seq![seq![(0, 0), (-b, -a), (0, -tip)], seq![(0, 0), (0, -tip), (b, -a)]] + (if inner >= 5 {
            seq![seq![(-1, -1), (-a, -b), (-d, -d)], seq![(-1, -1), (-d, -d), (-b, -a)]]
        } else {
            Seq::empty()
        })
    }
}

/// A diamond of the rosette's outer ring at `t`.
pub open spec fn ring_diamond(t: int, ring: int) -> Seq<(int, int)> {
    seq![(t, -ring), (t + 1, -ring + 1), (t, -ring + 2), (t - 1, -ring + 1)]
}

/// The places along the ring, `step` apart from `2 - ring` to `ring - 2`.
pub open spec fn ring_places(ring: int, step: int) -> Seq<int> {
    Seq::new(((2 * ring - 4) / step + 1) as nat, |i: int| -ring + 2 + i * step)
}

/// The outer ring of diamonds, leaving out those within `a` of the middle.
pub open spec fn ring_pieces(ring: int, step: int, a: int) -> Seq<Seq<(int, int)>> {
    ring_places(ring, step).filter(|t: int| t > a || -t > a).map_values(|t: int| ring_diamond(t, ring))
}

/// The border chips of the composed medallion on a square `cells` grid
/// cells across: the border of the top side, turned about the centre.
pub open spec fn composed_border(seed: u32, border_seed: u32, modern: bool, cells: int) -> Seq<Seq<(int, int)>> {
    let r = medallion_radius(cells);
    let style = scaled_draw(mulberry_draw(seed, 0), 3) as int;
    let pitch = 2 + scaled_draw(mulberry_draw(seed, 1), 2) as int;
    all_four_turns(
        if modern { border_phrases_spec(r, border_seed) } else { earlier_border(style, pitch, r) },
        cells / 2,
        cells,
    )
}

/// The composed medallion on a square `cells` grid cells across, in grid
/// units. The pattern's seed draws the border style, the repeat pitch and the
/// heart; `modern` selects the seeded border phrases over the earlier border.
/// `floors` are the centre's proportions, read from the centre's reach
/// `inner` in floating point: the floors of `inner` times 0.47 and 0.16, and
/// of `inner` times 0.7 (heart 2) or 0.8 (other hearts).
pub open spec fn compose_chips_spec(
    family: ChipFamily,
    seed: u32,
    border_seed: u32,
    modern: bool,
    cells: int,
    floors: (int, int, int),
) -> Seq<Seq<(int, int)>> {
    let c = cells / 2;
    let r = medallion_radius(cells);
    let pitch = 2 + scaled_draw(mulberry_draw(seed, 1), 2) as int;
    let heart = scaled_draw(mulberry_draw(seed, 2), 3) as int;
    let border = composed_border(seed, border_seed, modern, cells);
    if family == ChipFamily::Border {
        if border.len() == 0 {
            four_turns(seq![(-1, -r), (1, -r), (0, -r + 1)], c, cells)
        } else {
            border
        }
    } else {
        let inner = centre_inner_spec(cells);
        let a = larger(1, floors.0);
        let b = larger(1, floors.1);
        let d = larger(a + 1, floors.2);
        let rosette = family == ChipFamily::Rosette;
        border + all_four_turns(
            centre_pieces(rosette, heart, inner, a, b, d) + (if inner >= 8 && rosette {
                ring_pieces(inner - 1, pitch + 1, a)
            } else {
                Seq::empty()
            }),
            c,
            cells,
        )
    }
}

/// The pieces of the earlier border of the top side.
fn earlier_border_pieces(style: u32, pitch: i64, r: i64) -> (out: Vec<GridPoly>)
    requires
        style < 3,
        2 <= pitch <= 3,
        2 <= r <= 0x4_0000,
    ensures
        polys_view(out@) == earlier_border(style as int, pitch as int, r as int),
        all_bounded(out@),
{
    let mut out: Vec<GridPoly> = Vec::new();
    if r < 4 {
        assert(polys_view(out@) =~= earlier_border(style as int, pitch as int, r as int));
        return out;
    }
    let count = (2 * r - 4) / pitch;
    let depth: i64 = if r >= 7 { 2 } else { 1 };
    let ghost phrases = Seq::new(
        earlier_count(pitch as int, r as int) as nat,
        |i: int| earlier_phrase(style as int, -r + 2 + i * pitch, pitch as int, r as int),
    );
    let mut i: i64 = 0;
    while i < count
        invariant
            0 <= i <= count,
            count == earlier_count(pitch as int, r as int),
            2 <= pitch <= 3,
            4 <= r <= 0x4_0000,
            style < 3,
            depth == (if r >= 7 { 2int } else { 1int }),
            phrases == Seq::new(
                earlier_count(pitch as int, r as int) as nat,
                |i: int| earlier_phrase(style as int, -r + 2 + i * pitch, pitch as int, r as int),
            ),
            polys_view(out@) == phrases.take(i as int),
            all_bounded(out@),
        decreases count - i,
    {
        assert(0 <= i * pitch && i * pitch + pitch <= 2 * r - 4) by (nonlinear_arith)
            requires
                0 <= i < count,
                count == (2 * r - 4) / (pitch as int),
                2 <= pitch,
                2 * r - 4 >= 0,
        ;
        let t = -r + 2 + i * pitch;
        let mid = t + 1;
        let top = -r;
        let one = 1 - r;
        let low = depth - r;
        let end = t + pitch;
        let p: GridPoly = if style == 2 && depth == 1 {
            vec![(t, top), (end, top), (mid, one)]
        } else if style == 0 {
            vec![(t, top), (end, top), (mid, low)]
        } else if style == 1 {
            vec![(t, low), (mid, top), (end, low)]
        } else {
            vec![(t, one), (mid, top), (end, one), (mid, low)]
        };
        assert(poly_view(p@) =~= phrases[i as int]);
        let ghost before = out@;
        out.push(p);
        proof {
            assert(polys_view(before).len() == before.len());
            assert(before.len() == i);
            assert(polys_view(out@) =~= phrases.take(i + 1)) by {
                assert forall|j: int| 0 <= j < i implies polys_view(out@)[j] == phrases.take(i + 1)[j] by {
                    assert(out@[j] == before[j]);
                    assert(polys_view(before)[j] == phrases.take(i as int)[j]);
                }
            }
            assert forall|j: int| 0 <= j < out@.len() implies bounded(#[trigger] out@[j]@) by {
                if j < i {
                    assert(out@[j] == before[j]);
                }
            }
        }
        i = i + 1;
    }
    let edge = -r;
    let one = 1 - r;
    let two = 2 - r;
    let corner: GridPoly = vec![(edge, one), (one, edge), (two, one), (one, two)];
    let ghost before = out@;
    out.push(corner);
    proof {
        assert(polys_view(before).len() == before.len());
        assert(before.len() == i);
        assert(phrases.take(i as int) =~= phrases);
        let want = earlier_border(style as int, pitch as int, r as int);
        let ri = r as int;
        assert(poly_view(corner@) =~= seq![(-ri, -ri + 1), (-ri + 1, -ri), (-ri + 2, -ri + 1), (-ri + 1, -ri + 2)]);
        assert(want =~= phrases.push(poly_view(corner@)));
        assert(polys_view(out@) =~= want) by {
            assert forall|j: int| 0 <= j < i implies polys_view(out@)[j] == want[j] by {
                assert(out@[j] == before[j]);
                assert(polys_view(before)[j] == phrases[j]);
            }
        }
        assert forall|j: int| 0 <= j < out@.len() implies bounded(#[trigger] out@[j]@) by {
            if j < i {
                assert(out@[j] == before[j]);
            }
        }
    }
    out
}

/// The centre pieces of the top quarter.
fn centre_piece_list(rosette: bool, heart: u32, inner: i64, a: i64, b: i64, d: i64) -> (out: Vec<GridPoly>)
    requires
        2 <= inner <= 0x4_0000,
        1 <= a <= 0x8_0000,
        1 <= b <= 0x8_0000,
        1 <= d <= 0x8_0000,
    ensures
        polys_view(out@) == centre_pieces(rosette, heart as int, inner as int, a as int, b as int, d as int),
        all_bounded(out@),
{
    let na = -a;
    let nb = -b;
    let ni = -inner;
    let out: Vec<GridPoly> = if rosette {
        let mut v: Vec<GridPoly> = vec![vec![(0, 0), (nb, na), (0, ni), (b, na)]];
        if inner >= 4 {
            v.push(vec![(0, 0), (a, nb), (a, na), (b, na)]);
        }
        v
    } else {
        let tip: i64 = if heart == 0 {
            inner
        } else if inner - 1 >= 2 {
            inner - 1
        } else {
            2
        };
        let nt = -tip;
        let nd = -d;
        let mut v: Vec<GridPoly> = vec![vec![(0, 0), (nb, na), (0, nt)], vec![(0, 0), (0, nt), (b, na)]];
        if inner >= 5 {
            v.push(vec![(-1, -1), (na, nb), (nd, nd)]);
            v.push(vec![(-1, -1), (nd, nd), (nb, na)]);
        }
        v
    };
    assert(polys_view(out@) =~~= centre_pieces(rosette, heart as int, inner as int, a as int, b as int, d as int));
    out
}

/// The outer ring of diamonds of a rosette.
fn ring_piece_list(ring: i64, step: i64, a: i64) -> (out: Vec<GridPoly>)
    requires
        2 <= ring <= 0x4_0000,
        3 <= step <= 4,
        1 <= a <= 0x8_0000,
    ensures
        polys_view(out@) == ring_pieces(ring as int, step as int, a as int),
        all_bounded(out@),
{
    let count = (2 * ring - 4) / step + 1;
    let ghost places = ring_places(ring as int, step as int);
    let ghost keep = |t: int| t > a || -t > a;
    let ghost shape = |t: int| ring_diamond(t, ring as int);
    let mut out: Vec<GridPoly> = Vec::new();
    let mut i: i64 = 0;
    while i < count
        invariant
            0 <= i <= count,
            count == (2 * ring - 4) / (step as int) + 1,
            2 <= ring <= 0x4_0000,
            3 <= step <= 4,
            1 <= a <= 0x8_0000,
            places == ring_places(ring as int, step as int),
            keep == (|t: int| t > a || -t > a),
            shape == (|t: int| ring_diamond(t, ring as int)),
            polys_view(out@) == places.take(i as int).filter(keep).map_values(shape),
            all_bounded(out@),
        decreases count - i,
    {
        assert(0 <= i * step && i * step <= 2 * ring - 4) by (nonlinear_arith)
            requires
                0 <= i < count,
                count == (2 * ring - 4) / (step as int) + 1,
                3 <= step,
                2 * ring - 4 >= 0,
        ;
        let t = -ring + 2 + i * step;
        proof {
            assert(places[i as int] == t);
            assert(places.take(i + 1) =~= places.take(i as int).push(t as int));
            places.take(i as int).lemma_filter_push(t as int, keep);
        }
        if t > a || -t > a {
            let top = -ring;
            let one = 1 - ring;
            let two = 2 - ring;
            let p: GridPoly = vec![(t, top), (t + 1, one), (t, two), (t - 1, one)];
            let ghost before = out@;
            let ghost f = places.take(i as int).filter(keep);
            out.push(p);
            proof {
                assert(poly_view(p@) =~= ring_diamond(t as int, ring as int));
                assert(f.push(t as int).map_values(shape) =~= f.map_values(shape).push(poly_view(p@)));
                assert(polys_view(before).len() == before.len());
                assert(polys_view(out@) =~= polys_view(before).push(poly_view(p@))) by {
                    assert forall|j: int| 0 <= j < before.len() implies polys_view(out@)[j] == polys_view(before)[j] by {
                        assert(out@[j] == before[j]);
                    }
                }
                assert forall|j: int| 0 <= j < out@.len() implies bounded(#[trigger] out@[j]@) by {
                    if j < before.len() {
                        assert(out@[j] == before[j]);
                    }
                }
            }
        }
        i = i + 1;
    }
    assert(places.take(i as int) =~= places);
    out
}

/// The seeded border phrases of the top side of a medallion of radius `r`.
fn seeded_border_pieces(r: i64, bs: u32) -> (phrases: Vec<GridPoly>)
    requires
        2 <= r <= 0x4_0000,
    ensures
        polys_view(phrases@) == border_phrases_spec(r as int, bs),
        all_bounded(phrases@),
{
    let phrases = border_phrases(r, bs);
    proof {
        border_phrases_stay_in_band(r as int, bs);
        let pv = polys_view(phrases@);
        assert forall|i: int| 0 <= i < phrases@.len() implies bounded(#[trigger] phrases@[i]@) by {
            assert(pv[i] == poly_view(phrases@[i]@));
            assert forall|j: int| 0 <= j < phrases@[i]@.len() implies -COORD_LIMIT <= #[trigger] phrases@[i]@[j].0
                <= COORD_LIMIT && -COORD_LIMIT <= phrases@[i]@[j].1 <= COORD_LIMIT by {
                assert(pv[i][j] == (phrases@[i]@[j].0 as int, phrases@[i]@[j].1 as int));
                assert(-r <= pv[i][j].0 <= r);
                assert(-r <= pv[i][j].1 <= -r + band_depth(r as int));
            }
        }
    }
    phrases
}

/// Appends the turned centre pieces and, for a large enough rosette, the
/// turned outer ring.
fn push_centre(
    out: &mut Vec<GridPoly>,
    rosette: bool,
    heart: u32,
    pitch: u32,
    inner: i64,
    spans: (i64, i64, i64),
    c: i64,
    cells: i64,
)
    requires
        2 <= inner <= 0x4_0000,
        2 <= pitch <= 3,
        1 <= spans.0 <= 0x8_0000,
        1 <= spans.1 <= 0x8_0000,
        1 <= spans.2 <= 0x8_0000,
        0 <= c <= COORD_LIMIT,
    ensures
        polys_view(final(out)@) == polys_view(old(out)@) + all_four_turns(
            centre_pieces(rosette, heart as int, inner as int, spans.0 as int, spans.1 as int, spans.2 as int) + (
            if inner >= 8 && rosette {
                ring_pieces(inner - 1, pitch + 1, spans.0 as int)
            } else {
                Seq::empty()
            }),
            c as int,
            cells as int,
        ),
{
    let (a, b, d) = spans;
    let centre = centre_piece_list(rosette, heart, inner, a, b, d);
    push_all_four(out, &centre, c, cells);
    let ghost cp = polys_view(centre@);
    if inner >= 8 && rosette {
        let ring = ring_piece_list(inner - 1, pitch as i64 + 1, a);
        push_all_four(out, &ring, c, cells);
        proof {
            lemma_all_four_turns_concat(cp, polys_view(ring@), c as int, cells as int);
        }
    } else {
        assert(cp + Seq::<Seq<(int, int)>>::empty() =~= cp);
    }
}

/// How far the centre of a composed medallion on a square `cells` grid
/// cells across reaches from the middle (its proportions are read from this).
pub fn centre_inner(cells: i64) -> (r: i64)
    requires
        0 <= cells <= 0x4_0000,
    ensures
        r == centre_inner_spec(cells as int),
{
    let c = cells / 2;
    let r = if c - 1 > 2 { c - 1 } else { 2 };
    if r - 4 > 2 { r - 4 } else { 2 }
}

/// The composed medallion of `s` on a square `cells` grid cells across, in
/// grid units (the caller scales by the grid step): the border phrases of
/// the top side turned about the centre, and, but for the border family, the
/// centre pieces and a rosette's outer ring, turned likewise. `floors` are
/// the centre's proportions as `compose_chips_spec` reads them.
pub fn compose_chips(s: &ChipChoices, cells: i64, floors: (i64, i64, i64)) -> (out: Vec<GridPoly>)
    requires
        0 <= cells <= 0x4_0000,
        0 <= floors.0 <= 0x4_0000,
        0 <= floors.1 <= 0x4_0000,
        0 <= floors.2 <= 0x4_0000,
    ensures
        polys_view(out@) == compose_chips_spec(
            s.family,
            s.seed_spec(),
            s.border_seed_spec(),
            s.border_version == Some(1u8),
            cells as int,
            (floors.0 as int, floors.1 as int, floors.2 as int),
        ),
{
    let c = cells / 2;
    let r: i64 = if c - 1 > 2 { c - 1 } else { 2 };
    let (style, pitch, heart) = s.compose_plan();
    let base: Vec<GridPoly> = if s.border_version == Some(1) {
        seeded_border_pieces(r, s.border_seed())
    } else {
        earlier_border_pieces(style, pitch as i64, r)
    };
    let mut out: Vec<GridPoly> = Vec::new();
    push_all_four(&mut out, &base, c, cells);
    assert(polys_view(out@) =~= all_four_turns(polys_view(base@), c as int, cells as int));
    if s.family == ChipFamily::Border {
        if out.len() == 0 {
            let top = -r;
            let one = 1 - r;
            let fallback: GridPoly = vec![(-1, top), (1, top), (0, one)];
            let ghost ri = r as int;
            assert(poly_view(fallback@) =~= seq![(-1, -ri), (1, -ri), (0, -ri + 1)]);
            assert(polys_view(out@).len() == 0);
            push_four(&mut out, &fallback, c, cells);
            assert(polys_view(out@) =~= four_turns(poly_view(fallback@), c as int, cells as int));
        }
        return out;
    }
    let inner = centre_inner(cells);
    let a = if floors.0 > 1 { floors.0 } else { 1 };
    let b = if floors.1 > 1 { floors.1 } else { 1 };
    let d = if floors.2 > a + 1 { floors.2 } else { a + 1 };
    push_centre(&mut out, s.family == ChipFamily::Rosette, heart, pitch, inner, (a, b, d), c, cells);
    out
}

/// Every chip of a composed medallion lies on its square: no coordinate is
/// below 0 or beyond the number of grid cells across.
pub proof fn compose_chips_stay_on_board(
    family: ChipFamily,
    seed: u32,
    border_seed: u32,
    modern: bool,
    cells: int,
    floors: (int, int, int),
)
    ensures
        all_on_board(compose_chips_spec(family, seed, border_seed, modern, cells, floors), cells),
{
    let c = cells / 2;
    let r = medallion_radius(cells);
    let style = scaled_draw(mulberry_draw(seed, 0), 3) as int;
    let pitch = 2 + scaled_draw(mulberry_draw(seed, 1), 2) as int;
    let base = if modern { border_phrases_spec(r, border_seed) } else { earlier_border(style, pitch, r) };
    lemma_all_four_turns_on_board(base, c, cells);
    lemma_four_turns_on_board(seq![(-1, -r), (1, -r), (0, -r + 1)], c, cells);
    if family != ChipFamily::Border {
        let heart = scaled_draw(mulberry_draw(seed, 2), 3) as int;
        let inner = centre_inner_spec(cells);
        let a = larger(1, floors.0);
        let b = larger(1, floors.1);
        let d = larger(a + 1, floors.2);
        let rosette = family == ChipFamily::Rosette;
        let rest = centre_pieces(rosette, heart, inner, a, b, d) + (if inner >= 8 && rosette {
            ring_pieces(inner - 1, pitch + 1, a)
        } else {
            Seq::empty()
        });
        lemma_all_four_turns_on_board(rest, c, cells);
        lemma_on_board_concat(all_four_turns(base, c, cells), all_four_turns(rest, c, cells), cells);
    }
}

/// A chip turned a quarter turn about the centre (c, c).
pub open spec fn quarter_turn(q: Seq<(int, int)>, c: int) -> Seq<(int, int)> {
    q.map_values(|a: (int, int)| turn_about((a.0 - c, a.1 - c), 1, c))
}

/// A quarter turn about the centre takes every chip of `ps` to a chip of `ps`.
pub open spec fn closed_under_quarter_turn(ps: Seq<Seq<(int, int)>>, c: int) -> bool {
    forall|i: int| 0 <= i < ps.len() ==> ps.contains(#[trigger] quarter_turn(ps[i], c))
}

proof fn lemma_quarter_turn_of_turn(p: Seq<(int, int)>, k: int, c: int)
    requires
        0 <= k < 4,
    ensures
        quarter_turn(turned_piece(p, k, c), c) == turned_piece(p, (k + 1) % 4, c),
{
    assert(quarter_turn(turned_piece(p, k, c), c) =~= turned_piece(p, (k + 1) % 4, c));
}

proof fn lemma_quarter_turn_on_board(q: Seq<(int, int)>, c: int)
    requires
        on_board(q, 2 * c),
    ensures
        on_board(quarter_turn(q, c), 2 * c),
{
    let t = quarter_turn(q, c);
    assert forall|j: int| 0 <= j < t.len() implies 0 <= #[trigger] t[j].0 <= 2 * c && 0 <= t[j].1 <= 2 * c by {
        assert(t[j] == (c - (q[j].1 - c), c + (q[j].0 - c)));
    }
}

/// On a square an even number of cells across, a piece's quarter turns are
/// all on the square or none is.
proof fn lemma_turns_on_board_together(p: Seq<(int, int)>, c: int, k: int)
    requires
        0 <= k < 4,
        on_board(turned_piece(p, k, c), 2 * c),
    ensures
        on_board(turned_piece(p, (k + 1) % 4, c), 2 * c),
{
    lemma_quarter_turn_of_turn(p, k, c);
    lemma_quarter_turn_on_board(turned_piece(p, k, c), c);
}

proof fn lemma_four_turns_closed(p: Seq<(int, int)>, c: int)
    ensures
        closed_under_quarter_turn(four_turns(p, c, 2 * c), c),
{
    let n = 2 * c;
    let f = four_turns(p, c, n);
    let q0 = turned_piece(p, 0, c);
    let q1 = turned_piece(p, 1, c);
    let q2 = turned_piece(p, 2, c);
    let q3 = turned_piece(p, 3, c);
    if on_board(q0, n) || on_board(q1, n) || on_board(q2, n) || on_board(q3, n) {
        if on_board(q1, n) {
            lemma_turns_on_board_together(p, c, 1);
            lemma_turns_on_board_together(p, c, 2);
            lemma_turns_on_board_together(p, c, 3);
        } else if on_board(q2, n) {
            lemma_turns_on_board_together(p, c, 2);
            lemma_turns_on_board_together(p, c, 3);
        } else if on_board(q3, n) {
            lemma_turns_on_board_together(p, c, 3);
        }
        assert(on_board(q0, n));
        lemma_turns_on_board_together(p, c, 0);
        lemma_turns_on_board_together(p, c, 1);
        lemma_turns_on_board_together(p, c, 2);
        assert(f =~= seq![q0, q1, q2, q3]);
        lemma_quarter_turn_of_turn(p, 0, c);
        lemma_quarter_turn_of_turn(p, 1, c);
        lemma_quarter_turn_of_turn(p, 2, c);
        lemma_quarter_turn_of_turn(p, 3, c);
        assert forall|i: int| 0 <= i < f.len() implies f.contains(#[trigger] quarter_turn(f[i], c)) by {
            assert(quarter_turn(f[i], c) == f[(i + 1) % 4]);
        }
    } else {
        assert(f.len() == 0);
    }
}

proof fn lemma_closed_concat(x: Seq<Seq<(int, int)>>, y: Seq<Seq<(int, int)>>, c: int)
    requires
        closed_under_quarter_turn(x, c),
        closed_under_quarter_turn(y, c),
    ensures
        closed_under_quarter_turn(x + y, c),
{
    let z = x + y;
    assert forall|i: int| 0 <= i < z.len() implies z.contains(#[trigger] quarter_turn(z[i], c)) by {
        if i < x.len() {
            assert(z[i] == x[i]);
            let j = choose|j: int| 0 <= j < x.len() && #[trigger] x[j] == quarter_turn(x[i], c);
            assert(z[j] == x[j]);
        } else {
            let k = i - x.len();
            assert(z[i] == y[k]);
            let j = choose|j: int| 0 <= j < y.len() && #[trigger] y[j] == quarter_turn(y[k], c);
            assert(z[j + x.len()] == y[j]);
        }
    }
}

proof fn lemma_all_four_turns_closed(ps: Seq<Seq<(int, int)>>, c: int)
    ensures
        closed_under_quarter_turn(all_four_turns(ps, c, 2 * c), c),
    decreases ps.len(),
{
    if ps.len() > 0 {
        lemma_all_four_turns_closed(ps.drop_last(), c);
        lemma_four_turns_closed(ps.last(), c);
        lemma_closed_concat(all_four_turns(ps.drop_last(), c, 2 * c), four_turns(ps.last(), c, 2 * c), c);
    }
}

/// On a square an even number of grid cells across, the composed medallion
/// has fourfold symmetry: a quarter turn about the centre takes every chip to
/// a chip of the pattern.
pub proof fn compose_chips_fourfold(
    family: ChipFamily,
    seed: u32,
    border_seed: u32,
    modern: bool,
    cells: int,
    floors: (int, int, int),
)
    requires
        cells % 2 == 0,
    ensures
        closed_under_quarter_turn(compose_chips_spec(family, seed, border_seed, modern, cells, floors), cells / 2),
{
    let c = cells / 2;
    assert(cells == 2 * c);
    let r = medallion_radius(cells);
    let style = scaled_draw(mulberry_draw(seed, 0), 3) as int;
    let pitch = 2 + scaled_draw(mulberry_draw(seed, 1), 2) as int;
    let base = if modern { border_phrases_spec(r, border_seed) } else { earlier_border(style, pitch, r) };
    lemma_all_four_turns_closed(base, c);
    lemma_four_turns_closed(seq![(-1, -r), (1, -r), (0, -r + 1)], c);
    if family != ChipFamily::Border {
        let heart = scaled_draw(mulberry_draw(seed, 2), 3) as int;
        let inner = centre_inner_spec(cells);
        let a = larger(1, floors.0);
        let b = larger(1, floors.1);
        let d = larger(a + 1, floors.2);
        let rosette = family == ChipFamily::Rosette;
        let rest = centre_pieces(rosette, heart, inner, a, b, d) + (if inner >= 8 && rosette {
            ring_pieces(inner - 1, pitch + 1, a)
        } else {
            Seq::empty()
        });
        lemma_all_four_turns_closed(rest, c);
        lemma_closed_concat(all_four_turns(base, c, cells), all_four_turns(rest, c, cells), c);
    }
}

/// Varying the border keeps the centre: two composed medallions that differ
/// only in their border seed are each their own border chips followed by the
/// same centre chips.
pub proof fn vary_border_keeps_centre(
    family: ChipFamily,
    seed: u32,
    first: u32,
    second: u32,
    modern: bool,
    cells: int,
    floors: (int, int, int),
)
    requires
        family != ChipFamily::Border,
    ensures
        exists|centre: Seq<Seq<(int, int)>>|
            compose_chips_spec(family, seed, first, modern, cells, floors) == composed_border(seed, first, modern, cells)
                + centre && compose_chips_spec(family, seed, second, modern, cells, floors) == composed_border(
                seed,
                second,
                modern,
                cells,
            ) + centre,
{
    let pitch = 2 + scaled_draw(mulberry_draw(seed, 1), 2) as int;
    let heart = scaled_draw(mulberry_draw(seed, 2), 3) as int;
    let inner = centre_inner_spec(cells);
    let a = larger(1, floors.0);
    let b = larger(1, floors.1);
    let d = larger(a + 1, floors.2);
    let rosette = family == ChipFamily::Rosette;
    let centre = all_four_turns(
        centre_pieces(rosette, heart, inner, a, b, d) + (if inner >= 8 && rosette {
            ring_pieces(inner - 1, pitch + 1, a)
        } else {
            Seq::empty()
        }),
        cells / 2,
        cells,
    );
    assert(compose_chips_spec(family, seed, first, modern, cells, floors) == composed_border(seed, first, modern, cells)
        + centre);
}

/// Every turn of a piece that stays on the square is among the turned pieces.
proof fn lemma_turn_in_four(p: Seq<(int, int)>, k: int, c: int, n: int)
    requires
        0 <= k < 4,
        on_board(turned_piece(p, k, c), n),
    ensures
        four_turns(p, c, n).contains(turned_piece(p, k, c)),
{
    let t0 = turn_on_board(p, 0, c, n);
    let t1 = turn_on_board(p, 1, c, n);
    let t2 = turn_on_board(p, 2, c, n);
    let t3 = turn_on_board(p, 3, c, n);
    let f = four_turns(p, c, n);
    let q = turned_piece(p, k, c);
    assert(f == t0 + t1 + t2 + t3);
    if k == 0 {
        assert(f[0] == q);
    } else if k == 1 {
        assert(f[t0.len() as int] == q);
    } else if k == 2 {
        assert(f[(t0.len() + t1.len()) as int] == q);
    } else {
        assert(f[(t0.len() + t1.len() + t2.len()) as int] == q);
    }
}

/// Every turn that stays on the square of every piece is among the turned
/// pieces.
proof fn lemma_turn_in_all(ps: Seq<Seq<(int, int)>>, i: int, k: int, c: int, n: int)
    requires
        0 <= i < ps.len(),
        0 <= k < 4,
        on_board(turned_piece(ps[i], k, c), n),
    ensures
        all_four_turns(ps, c, n).contains(turned_piece(ps[i], k, c)),
    decreases ps.len(),
{
    let q = turned_piece(ps[i], k, c);
    let front = all_four_turns(ps.drop_last(), c, n);
    let back = four_turns(ps.last(), c, n);
    assert(all_four_turns(ps, c, n) == front + back);
    if i == ps.len() - 1 {
        lemma_turn_in_four(ps.last(), k, c, n);
        let m = choose|m: int| 0 <= m < back.len() && back[m] == q;
        assert((front + back)[front.len() + m] == q);
    } else {
        assert(ps.drop_last()[i] == ps[i]);
        lemma_turn_in_all(ps.drop_last(), i, k, c, n);
        let m = choose|m: int| 0 <= m < front.len() && front[m] == q;
        assert((front + back)[m] == q);
    }
}

/// `result` holds every quarter turn of `p` about (c, c) that stays on the
/// square [0, n] x [0, n].
pub open spec fn holds_turns(result: Seq<Seq<(int, int)>>, p: Seq<(int, int)>, c: int, n: int) -> bool {
    forall|k: int| 0 <= k < 4 && on_board(turned_piece(p, k, c), n) ==> result.contains(#[trigger] turned_piece(p, k, c))
}

/// The centre of a composed star or rosette. With `a` and `b` the larger of 1
/// and the first two floors, `d` the larger of `a + 1` and the third, and
/// `inner` the centre's reach: a star's heart is the two facets
/// (0,0),(-b,-a),(0,-tip) and (0,0),(0,-tip),(b,-a), with the tip at `inner`
/// for heart 0 and one short of it (but at least 2) otherwise, and from a
/// reach of 5 on, whatever the heart, the two diagonal facets
/// (-1,-1),(-a,-b),(-d,-d) and (-1,-1),(-d,-d),(-b,-a); a rosette's petal is
/// (0,0),(-b,-a),(0,-inner),(b,-a), with from a reach of 4 on the side petal
/// (0,0),(a,-b),(a,-a),(b,-a). Each piece appears turned a quarter turn at a
/// time about the centre, wherever the turn stays on the square.
pub proof fn compose_chips_centre(
    family: ChipFamily,
    seed: u32,
    border_seed: u32,
    modern: bool,
    cells: int,
    floors: (int, int, int),
)
    requires
        family != ChipFamily::Border,
    ensures
        ({
            let result = compose_chips_spec(family, seed, border_seed, modern, cells, floors);
            let c = cells / 2;
            let r = if c - 1 >= 2 { c - 1 } else { 2 };
            let inner = if r - 4 >= 2 { r - 4 } else { 2 };
            let heart = scaled_draw(mulberry_draw(seed, 2), 3) as int;
            let a = if floors.0 >= 1 { floors.0 } else { 1 };
            let b = if floors.1 >= 1 { floors.1 } else { 1 };
            let d = if floors.2 >= a + 1 { floors.2 } else { a + 1 };
            let tip = if heart == 0 { inner } else if inner - 1 >= 2 { inner - 1 } else { 2 };
            &&& family == ChipFamily::Star ==> holds_turns(result, seq![(0, 0), (-b, -a), (0, -tip)], c, cells)
                && holds_turns(result, seq![(0, 0), (0, -tip), (b, -a)], c, cells)
            &&& family == ChipFamily::Star && inner >= 5 ==> holds_turns(
                result,
                seq![(-1, -1), (-a, -b), (-d, -d)],
                c,
                cells,
            ) && holds_turns(result, seq![(-1, -1), (-d, -d), (-b, -a)], c, cells)
            &&& family == ChipFamily::Rosette ==> holds_turns(result, seq![(0, 0), (-b, -a), (0, -inner), (b, -a)], c, cells)
            &&& family == ChipFamily::Rosette && inner >= 4 ==> holds_turns(
                result,
                seq![(0, 0), (a, -b), (a, -a), (b, -a)],
                c,
                cells,
            )
        }),
{
    let c = cells / 2;
    let pitch = 2 + scaled_draw(mulberry_draw(seed, 1), 2) as int;
    let heart = scaled_draw(mulberry_draw(seed, 2), 3) as int;
    let inner = centre_inner_spec(cells);
    let a = larger(1, floors.0);
    let b = larger(1, floors.1);
    let d = larger(a + 1, floors.2);
    let rosette = family == ChipFamily::Rosette;
    let cp = centre_pieces(rosette, heart, inner, a, b, d);
    let ring = if inner >= 8 && rosette { ring_pieces(inner - 1, pitch + 1, a) } else { Seq::empty() };
    let ps = cp + ring;
    let border = composed_border(seed, border_seed, modern, cells);
    let result = compose_chips_spec(family, seed, border_seed, modern, cells, floors);
    assert(result == border + all_four_turns(ps, c, cells));
    assert forall|i: int, k: int|
        0 <= i < cp.len() && 0 <= k < 4 && on_board(turned_piece(cp[i], k, c), cells) implies result.contains(
        turned_piece(cp[i], k, c),
    ) by {
        assert(ps[i] == cp[i]);
        lemma_turn_in_all(ps, i, k, c, cells);
        let q = turned_piece(cp[i], k, c);
        let turned_all = all_four_turns(ps, c, cells);
        let m = choose|m: int| 0 <= m < turned_all.len() && turned_all[m] == q;
        assert((border + turned_all)[border.len() + m] == q);
    }
    if rosette {
        assert(cp[0] == seq![(0, 0), (-b, -a), (0, -inner), (b, -a)]);
        if inner >= 4 {
            assert(cp[1] == seq![(0, 0), (a, -b), (a, -a), (b, -a)]);
        }
    } else {
        let tip = if heart == 0 { inner } else { larger(2, inner - 1) };
        assert(cp[0] == seq![(0, 0), (-b, -a), (0, -tip)]);
        assert(cp[1] == seq![(0, 0), (0, -tip), (b, -a)]);
        if inner >= 5 {
            assert(cp[2] == seq![(-1, -1), (-a, -b), (-d, -d)]);
            assert(cp[3] == seq![(-1, -1), (-d, -d), (-b, -a)]);
        }
    }
}

/// A composed rosette with a reach of 8 or more has an outer ring of
/// diamonds (t,-ring),(t+1,-ring+1),(t,-ring+2),(t-1,-ring+1) one row inside
/// the reach (`ring` = inner - 1), at `t` = 2 - ring, then every pitch + 1
/// cells up to ring - 2, leaving out those within the petal length `a` of
/// the middle; each appears turned about the centre wherever the turn stays
/// on the square.
pub proof fn compose_chips_ring(
    seed: u32,
    border_seed: u32,
    modern: bool,
    cells: int,
    floors: (int, int, int),
    i: int,
)
    requires
        ({
            let r = if cells / 2 - 1 >= 2 { cells / 2 - 1 } else { 2 };
            r - 4 >= 8
        }),
        0 <= i,
        ({
            let ring = (if cells / 2 - 1 >= 2 { cells / 2 - 1 } else { 2 }) - 5;
            let step = 3 + scaled_draw(mulberry_draw(seed, 1), 2) as int;
            let t = 2 - ring + i * step;
            let a = if floors.0 >= 1 { floors.0 } else { 1 };
            t <= ring - 2 && (t > a || -t > a)
        }),
    ensures
        ({
            let ring = (if cells / 2 - 1 >= 2 { cells / 2 - 1 } else { 2 }) - 5;
            let step = 3 + scaled_draw(mulberry_draw(seed, 1), 2) as int;
            let t = 2 - ring + i * step;
            holds_turns(
                compose_chips_spec(ChipFamily::Rosette, seed, border_seed, modern, cells, floors),
                seq![(t, -ring), (t + 1, -ring + 1), (t, -ring + 2), (t - 1, -ring + 1)],
                cells / 2,
                cells,
            )
        }),
{
    let c = cells / 2;
    let pitch = 2 + scaled_draw(mulberry_draw(seed, 1), 2) as int;
    let step = pitch + 1;
    let heart = scaled_draw(mulberry_draw(seed, 2), 3) as int;
    let inner = centre_inner_spec(cells);
    let ring = inner - 1;
    let a = larger(1, floors.0);
    let b = larger(1, floors.1);
    let d = larger(a + 1, floors.2);
    let t = 2 - ring + i * step;
    let cp = centre_pieces(true, heart, inner, a, b, d);
    let places = ring_places(ring, step);
    let keep = |x: int| x > a || -x > a;
    let rp = ring_pieces(ring, step, a);
    let ps = cp + rp;
    let border = composed_border(seed, border_seed, modern, cells);
    let result = compose_chips_spec(ChipFamily::Rosette, seed, border_seed, modern, cells, floors);
    assert(result == border + all_four_turns(ps, c, cells));
    assert(i < (2 * ring - 4) / step + 1) by (nonlinear_arith)
        requires
            2 - ring + i * step <= ring - 2,
            step >= 3,
            0 <= i,
    ;
    assert(places[i] == t);
    places.lemma_filter_contains(keep, i);
    let f = places.filter(keep);
    let m = choose|m: int| 0 <= m < f.len() && f[m] == t;
    let diamond = seq![(t, -ring), (t + 1, -ring + 1), (t, -ring + 2), (t - 1, -ring + 1)];
    assert(rp[m] == ring_diamond(t, ring));
    assert(ps[cp.len() + m] == diamond);
    assert forall|k: int| 0 <= k < 4 && on_board(turned_piece(diamond, k, c), cells) implies result.contains(
        #[trigger] turned_piece(diamond, k, c),
    ) by {
        lemma_turn_in_all(ps, cp.len() + m, k, c, cells);
        let q = turned_piece(diamond, k, c);
        let turned_all = all_four_turns(ps, c, cells);
        let w = choose|w: int| 0 <= w < turned_all.len() && turned_all[w] == q;
        assert((border + turned_all)[border.len() + w] == q);
    }
}

/// Every chip of the border is a chip of the composed medallion, whatever
/// the family.
proof fn lemma_border_in_result(
    family: ChipFamily,
    seed: u32,
    border_seed: u32,
    modern: bool,
    cells: int,
    floors: (int, int, int),
    q: Seq<(int, int)>,
)
    requires
        composed_border(seed, border_seed, modern, cells).contains(q),
    ensures
        compose_chips_spec(family, seed, border_seed, modern, cells, floors).contains(q),
{
    let border = composed_border(seed, border_seed, modern, cells);
    let result = compose_chips_spec(family, seed, border_seed, modern, cells, floors);
    let m = choose|m: int| 0 <= m < border.len() && border[m] == q;
    if family != ChipFamily::Border {
        let pitch = 2 + scaled_draw(mulberry_draw(seed, 1), 2) as int;
        let heart = scaled_draw(mulberry_draw(seed, 2), 3) as int;
        let inner = centre_inner_spec(cells);
        let a = larger(1, floors.0);
        let rest = all_four_turns(
            centre_pieces(family == ChipFamily::Rosette, heart, inner, a, larger(1, floors.1), larger(a + 1, floors.2))
                + (if inner >= 8 && family == ChipFamily::Rosette {
                ring_pieces(inner - 1, pitch + 1, a)
            } else {
                Seq::empty()
            }),
            cells / 2,
            cells,
        );
        assert(result == border + rest);
        assert(result[m] == q);
    } else {
        assert(result == border);
    }
}

/// The border of a composed medallion without the seeded phrases (on a
/// radius `r` of 4 or more, `r` being one less than half the cells across but
/// at least 2): repeats of `pitch` cells (2 plus the seed's second draw of 2)
/// from t = 2 - r while they end by r - 2, each by the border style (the
/// seed's first draw of 3) with `mid` = t + 1 and a band `depth` of 2 from a
/// radius of 7, else 1: style 0 the triangle (t,-r),(t+pitch,-r),(mid,depth-r);
/// style 1 the triangle (t,depth-r),(mid,-r),(t+pitch,depth-r); style 2 the
/// quadrilateral (t,1-r),(mid,-r),(t+pitch,1-r),(mid,depth-r), or in a band 1
/// deep the triangle (t,-r),(t+pitch,-r),(mid,1-r); and the corner diamond
/// (-r,1-r),(1-r,-r),(2-r,1-r),(1-r,2-r). Each appears turned about the
/// centre wherever the turn stays on the square, for every family.
pub proof fn compose_chips_earlier_border(
    family: ChipFamily,
    seed: u32,
    border_seed: u32,
    cells: int,
    floors: (int, int, int),
    i: int,
)
    requires
        ({
            let r = if cells / 2 - 1 >= 2 { cells / 2 - 1 } else { 2 };
            r >= 4
        }),
    ensures
        ({
            let result = compose_chips_spec(family, seed, border_seed, false, cells, floors);
            let r = if cells / 2 - 1 >= 2 { cells / 2 - 1 } else { 2 };
            let style = scaled_draw(mulberry_draw(seed, 0), 3) as int;
            let pitch = 2 + scaled_draw(mulberry_draw(seed, 1), 2) as int;
            let depth = if r >= 7 { 2int } else { 1int };
            let t = 2 - r + i * pitch;
            let mid = t + 1;
            let piece = if style == 0 {
                seq![(t, 0 - r), (t + pitch, 0 - r), (mid, depth - r)]
            } else if style == 1 {
                seq![(t, depth - r), (mid, 0 - r), (t + pitch, depth - r)]
            } else if depth == 2 {
                seq![(t, 1 - r), (mid, 0 - r), (t + pitch, 1 - r), (mid, depth - r)]
            } else {
                seq![(t, 0 - r), (t + pitch, 0 - r), (mid, 1 - r)]
            };
            &&& 0 <= i && t + pitch <= r - 2 ==> holds_turns(result, piece, cells / 2, cells)
            &&& holds_turns(result, seq![(0 - r, 1 - r), (1 - r, 0 - r), (2 - r, 1 - r), (1 - r, 2 - r)], cells / 2, cells)
        }),
{
    let c = cells / 2;
    let r = medallion_radius(cells);
    let style = scaled_draw(mulberry_draw(seed, 0), 3) as int;
    let pitch = 2 + scaled_draw(mulberry_draw(seed, 1), 2) as int;
    let base = earlier_border(style, pitch, r);
    let count = earlier_count(pitch, r);
    let t = 2 - r + i * pitch;
    assert(composed_border(seed, border_seed, false, cells) == all_four_turns(base, c, cells));
    if 0 <= i && t + pitch <= r - 2 {
        assert(i < count) by (nonlinear_arith)
            requires
                2 - r + i * pitch + pitch <= r - 2,
                count == (2 * r - 4) / pitch,
                pitch >= 2,
                0 <= i,
        ;
        let piece = base[i];
        assert(piece == earlier_phrase(style, t, pitch, r));
        assert forall|k: int| 0 <= k < 4 && on_board(turned_piece(piece, k, c), cells) implies compose_chips_spec(
            family,
            seed,
            border_seed,
            false,
            cells,
            floors,
        ).contains(#[trigger] turned_piece(piece, k, c)) by {
            lemma_turn_in_all(base, i, k, c, cells);
            lemma_border_in_result(family, seed, border_seed, false, cells, floors, turned_piece(piece, k, c));
        }
    }
    let corner = base[count];
    assert forall|k: int| 0 <= k < 4 && on_board(turned_piece(corner, k, c), cells) implies compose_chips_spec(
        family,
        seed,
        border_seed,
        false,
        cells,
        floors,
    ).contains(#[trigger] turned_piece(corner, k, c)) by {
        lemma_turn_in_all(base, count, k, c, cells);
        lemma_border_in_result(family, seed, border_seed, false, cells, floors, turned_piece(corner, k, c));
    }
}

/// A composed border-family pattern whose border leaves no chip on the
/// square (a very small square) draws the small triangle
/// (-1,-r),(1,-r),(0,1-r) instead, turned about the centre wherever the turn
/// stays on the square; any other composed pattern holds every on-square turn
/// of each seeded border phrase.
pub proof fn compose_chips_border_family(
    family: ChipFamily,
    seed: u32,
    border_seed: u32,
    modern: bool,
    cells: int,
    floors: (int, int, int),
    i: int,
)
    ensures
        ({
            let result = compose_chips_spec(family, seed, border_seed, modern, cells, floors);
            let r = if cells / 2 - 1 >= 2 { cells / 2 - 1 } else { 2 };
            let phrases = border_phrases_spec(r, border_seed);
            &&& family == ChipFamily::Border && composed_border(seed, border_seed, modern, cells).len() == 0
                ==> holds_turns(result, seq![(-1, 0 - r), (1, 0 - r), (0, 1 - r)], cells / 2, cells)
            &&& modern && 0 <= i < phrases.len() ==> holds_turns(result, phrases[i], cells / 2, cells)
        }),
{
    let c = cells / 2;
    let r = medallion_radius(cells);
    let result = compose_chips_spec(family, seed, border_seed, modern, cells, floors);
    let fallback = seq![(-1, 0 - r), (1, 0 - r), (0, 1 - r)];
    if family == ChipFamily::Border && composed_border(seed, border_seed, modern, cells).len() == 0 {
        assert(result == four_turns(seq![(-1, -r), (1, -r), (0, -r + 1)], c, cells));
        assert(fallback =~= seq![(-1, -r), (1, -r), (0, -r + 1)]);
        assert forall|k: int| 0 <= k < 4 && on_board(turned_piece(fallback, k, c), cells) implies result.contains(
            #[trigger] turned_piece(fallback, k, c),
        ) by {
            lemma_turn_in_four(fallback, k, c, cells);
        }
    }
    let phrases = border_phrases_spec(r, border_seed);
    if modern && 0 <= i < phrases.len() {
        assert(composed_border(seed, border_seed, true, cells) == all_four_turns(phrases, c, cells));
        assert forall|k: int| 0 <= k < 4 && on_board(turned_piece(phrases[i], k, c), cells) implies result.contains(
            #[trigger] turned_piece(phrases[i], k, c),
        ) by {
            lemma_turn_in_all(phrases, i, k, c, cells);
            lemma_border_in_result(family, seed, border_seed, true, cells, floors, turned_piece(phrases[i], k, c));
        }
    }
}

} // verus!
