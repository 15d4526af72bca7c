//! Chip-carving patterns in grid units: the running-border phrases, the
//! tiled medallion, seeds and border names, which
//! chips are shown, and the handles offered for editing a chip.
use vstd::prelude::*;
use crate::names::ChipFamily;
use crate::decimal::{decimal_text, index_text};
use vstd::string::*;
use crate::rng::{mulberry_after, mulberry_draw, scaled_draw, lemma_mulberry_after_step, Mulberry};

verus! {

broadcast use vstd::seq_lib::group_seq_properties;

/// A polygon in grid units.
pub type GridPoly = Vec<(i64, i64)>;

/// The mathematical view of a grid polygon.
pub open spec fn poly_view(p: Seq<(i64, i64)>) -> Seq<(int, int)> {
    p.map_values(|q: (i64, i64)| (q.0 as int, q.1 as int))
}

/// The mathematical view of grid polygons.
pub open spec fn polys_view(v: Seq<GridPoly>) -> Seq<Seq<(int, int)>> {
    v.map_values(|p: GridPoly| poly_view(p@))
}

/// A polygon moved by (dx, dy).
pub open spec fn shifted(poly: Seq<(int, int)>, dx: int, dy: int) -> Seq<(int, int)> {
    poly.map_values(|q: (int, int)| (q.0 + dx, q.1 + dy))
}

/// Every polygon of a list moved by (dx, dy).
pub open spec fn shifted_all(polys: Seq<Seq<(int, int)>>, dx: int, dy: int) -> Seq<Seq<(int, int)>> {
    polys.map_values(|p: Seq<(int, int)>| shifted(p, dx, dy))
}

/// Depth of the border band for a medallion of the given radius.
pub open spec fn band_depth(radius: int) -> int {
    if radius >= 8 { 3 } else if radius >= 5 { 2 } else { 1 }
}

/// Width of one repeat of the border rhythm.
pub open spec fn phrase_pitch(depth: int) -> int {
    if depth == 3 { 6 } else { 4 }
}

/// How many repeats fit along one side between the corners.
pub open spec fn phrase_count(radius: int) -> int {
    let depth = band_depth(radius);
    let available = radius * 2 - depth * 2;
    if available > 0 { available / phrase_pitch(depth) } else { 0 }
}

/// Where the first repeat starts, so the repeats sit centred.
pub open spec fn phrase_start(radius: int) -> int {
    -((phrase_count(radius) * phrase_pitch(band_depth(radius))) / 2)
}

/// One repeat of the border rhythm, in grid units from its left end and the
/// outer edge of the band.
pub open spec fn phrase_motif(style: int, depth: int) -> Seq<Seq<(int, int)>> {
    if depth == 3 {
        if style == 0 {
            seq![seq![(0, 1), (2, 0), (4, 1), (2, 3)], seq![(4, 1), (5, 0), (6, 1), (5, 2)]]
        } else if style == 1 {
            seq![seq![(0, 0), (2, 0), (4, 2), (2, 2)], seq![(2, 3), (4, 1), (6, 1), (4, 3)]]
        } else if style == 2 {
            seq![
                seq![(0, 0), (2, 0), (4, 2), (2, 2)],
                seq![(0, 3), (1, 2), (2, 3)],
                seq![(3, 1), (4, 0), (6, 2), (6, 3)],
            ]
        } else if style == 3 {
            seq![
                seq![(0, 1), (1, 0), (2, 1), (1, 2)],
                seq![(2, 1), (4, 0), (6, 1), (4, 3)],
                seq![(2, 3), (3, 2), (4, 3)],
            ]
        } else if style == 4 {
            seq![
                seq![(0, 0), (3, 0), (3, 1), (1, 1), (1, 3), (0, 3)],
                seq![(2, 3), (5, 3), (5, 2), (3, 2), (3, 1), (2, 1)],
            ]
        } else {
            seq![
                seq![(0, 0), (3, 0), (3, 2)],
                seq![(0, 1), (0, 3), (2, 3)],
                seq![(3, 3), (6, 3), (6, 1)],
                seq![(4, 0), (6, 0), (6, 2)],
            ]
        }
    } else if style % 2 == 0 {
        let e = if depth == 2 { 1int } else { 0int };
        seq![seq![(0, e), (2, 0), (4, e), (2, depth)]]
    } else {
        seq![seq![(0, 0), (2, 0), (1, depth)], seq![(2, depth), (4, depth), (3, 0)]]
    }
}

/// The corner pieces, in grid units from the corner.
pub open spec fn corner_motif(depth: int) -> Seq<Seq<(int, int)>> {
    if depth == 3 {
        seq![seq![(0, 1), (1, 0), (2, 1), (1, 2)], seq![(1, 2), (2, 1), (3, 2), (2, 3)]]
    } else if depth == 2 {
        seq![seq![(0, 1), (1, 0), (2, 1), (1, 2)]]
    } else {
        seq![seq![(0, 0), (1, 0), (0, 1)]]
    }
}

/// The border phrases of the top side: the repeats left to right, then the
/// corner pieces.
pub open spec fn border_phrases_spec(radius: int, seed: u32) -> Seq<Seq<(int, int)>> {
    let depth = band_depth(radius);
    let motif = phrase_motif((seed % 6) as int, depth);
    Seq::new(
        phrase_count(radius) as nat,
        |i: int| shifted_all(motif, phrase_start(radius) + i * phrase_pitch(depth), -radius),
    ).flatten() + shifted_all(corner_motif(depth), -radius, -radius)
}

/// Appends every polygon of `motif` moved by (dx, dy).
fn push_shifted(out: &mut Vec<GridPoly>, motif: &Vec<GridPoly>, dx: i64, dy: i64)
    requires
        forall|k: int, t: int|
            0 <= k < motif@.len() && 0 <= t < motif@[k]@.len() ==> -8 <= #[trigger] motif@[k]@[t].0 <= 8
                && -8 <= motif@[k]@[t].1 <= 8,
        -0x1000_0000_0000 <= dx <= 0x1000_0000_0000,
        -0x1000_0000_0000 <= dy <= 0x1000_0000_0000,
    ensures
        polys_view(final(out)@) == polys_view(old(out)@) + shifted_all(polys_view(motif@), dx as int, dy as int),
{
    let ghost start = polys_view(out@);
    let mut k: usize = 0;
    while k < motif.len()
        invariant
            0 <= k <= motif@.len(),
            forall|k: int, t: int|
                0 <= k < motif@.len() && 0 <= t < motif@[k]@.len() ==> -8 <= #[trigger] motif@[k]@[t].0 <= 8
                    && -8 <= motif@[k]@[t].1 <= 8,
            -0x1000_0000_0000 <= dx <= 0x1000_0000_0000,
            -0x1000_0000_0000 <= dy <= 0x1000_0000_0000,
            polys_view(out@) == start + shifted_all(polys_view(motif@), dx as int, dy as int).take(k as int),
        decreases motif@.len() - k,
    {
        let src = &motif[k];
        let mut poly: GridPoly = Vec::new();
        let mut t: usize = 0;
        while t < src.len()
            invariant
                0 <= t <= src@.len(),
                src == motif@[k as int],
                0 <= k < motif@.len(),
                forall|k: int, t: int|
                    0 <= k < motif@.len() && 0 <= t < motif@[k]@.len() ==> -8 <= #[trigger] motif@[k]@[t].0 <= 8
                        && -8 <= motif@[k]@[t].1 <= 8,
                -0x1000_0000_0000 <= dx <= 0x1000_0000_0000,
                -0x1000_0000_0000 <= dy <= 0x1000_0000_0000,
                poly_view(poly@) == shifted(poly_view(src@), dx as int, dy as int).take(t as int),
            decreases src@.len() - t,
        {
            let q = src[t];
            assert(-8 <= motif@[k as int]@[t as int].0 <= 8);
            let ghost before = poly@;
            poly.push((q.0 + dx, q.1 + dy));
            proof {
                let want = shifted(poly_view(src@), dx as int, dy as int);
                assert(poly_view(before).len() == before.len());
                assert(before.len() == t);
                assert(poly@.len() == t + 1);
                assert(want[t as int] == (q.0 + dx, q.1 + dy));
                assert(poly_view(poly@)[t as int] == want[t as int]);
                assert forall|j: int| 0 <= j < t implies poly_view(poly@)[j] == poly_view(before)[j] by {
                    assert(poly@[j] == before[j]);
                }
            }
            t = t + 1;
            assert(poly_view(poly@) =~= shifted(poly_view(src@), dx as int, dy as int).take(t as int));
        }
        proof {
            let full = shifted(poly_view(src@), dx as int, dy as int);
            assert(full.take(t as int) =~= full);
            assert(poly_view(poly@) == full);
        }
        let ghost out_before = out@;
        out.push(poly);
        proof {
            let want = shifted_all(polys_view(motif@), dx as int, dy as int);
            assert(polys_view(out_before).len() == out_before.len());
            assert(out_before.len() == start.len() + k);
            assert(polys_view(out@)[out_before.len() as int] == want[k as int]);
            assert forall|j: int| 0 <= j < out_before.len() implies polys_view(out@)[j] == polys_view(out_before)[j] by {
                assert(out@[j] == out_before[j]);
            }
        }
        proof {
            let want = shifted_all(polys_view(motif@), dx as int, dy as int);
            let lhs = polys_view(out@);
            let rhs = start + want.take(k + 1);
            assert(lhs.len() == rhs.len());
            assert forall|j: int| 0 <= j < lhs.len() implies lhs[j] == rhs[j] by {
                if j < out_before.len() {
                    assert(polys_view(out_before)[j] == (start + want.take(k as int))[j]);
                    if j >= start.len() {
                        assert(want.take(k as int)[j - start.len()] == want[j - start.len()]);
                    }
                }
            }
            assert(lhs =~= rhs);
        }
        k = k + 1;
    }
    assert(shifted_all(polys_view(motif@), dx as int, dy as int).take(k as int) =~= shifted_all(
        polys_view(motif@),
        dx as int,
        dy as int,
    ));
}

/// Every coordinate of the polygons lies in [-8, 8].
pub open spec fn small_coords(motif: Seq<GridPoly>) -> bool {
    forall|k: int, t: int|
        0 <= k < motif.len() && 0 <= t < motif[k]@.len() ==> -8 <= #[trigger] motif[k]@[t].0 <= 8 && -8
            <= motif[k]@[t].1 <= 8
}

fn phrase_motif_polys(style: u32, depth: i64) -> (r: Vec<GridPoly>)
    requires
        style < 6,
        1 <= depth <= 3,
    ensures
        polys_view(r@) == phrase_motif(style as int, depth as int),
        small_coords(r@),
{
    let r: Vec<GridPoly> = if depth == 3 {
        if style == 0 {
            vec![vec![(0, 1), (2, 0), (4, 1), (2, 3)], vec![(4, 1), (5, 0), (6, 1), (5, 2)]]
        } else if style == 1 {
            vec![vec![(0, 0), (2, 0), (4, 2), (2, 2)], vec![(2, 3), (4, 1), (6, 1), (4, 3)]]
        } else if style == 2 {
            vec![
                vec![(0, 0), (2, 0), (4, 2), (2, 2)],
                vec![(0, 3), (1, 2), (2, 3)],
                vec![(3, 1), (4, 0), (6, 2), (6, 3)],
            ]
        } else if style == 3 {
            vec![
                vec![(0, 1), (1, 0), (2, 1), (1, 2)],
                vec![(2, 1), (4, 0), (6, 1), (4, 3)],
                vec![(2, 3), (3, 2), (4, 3)],
            ]
        } else if style == 4 {
            vec![
                vec![(0, 0), (3, 0), (3, 1), (1, 1), (1, 3), (0, 3)],
                vec![(2, 3), (5, 3), (5, 2), (3, 2), (3, 1), (2, 1)],
            ]
        } else {
            vec![
                vec![(0, 0), (3, 0), (3, 2)],
                vec![(0, 1), (0, 3), (2, 3)],
                vec![(3, 3), (6, 3), (6, 1)],
                vec![(4, 0), (6, 0), (6, 2)],
            ]
        }
    } else if style % 2 == 0 {
        let e: i64 = if depth == 2 { 1 } else { 0 };
        vec![vec![(0, e), (2, 0), (4, e), (2, depth)]]
    } else {
        vec![vec![(0, 0), (2, 0), (1, depth)], vec![(2, depth), (4, depth), (3, 0)]]
    };
    assert(polys_view(r@) =~~= phrase_motif(style as int, depth as int));
    r
}

fn corner_polys(depth: i64) -> (r: Vec<GridPoly>)
    requires
        1 <= depth <= 3,
    ensures
        polys_view(r@) == corner_motif(depth as int),
        small_coords(r@),
{
    let r: Vec<GridPoly> = if depth == 3 {
        vec![vec![(0, 1), (1, 0), (2, 1), (1, 2)], vec![(1, 2), (2, 1), (3, 2), (2, 3)]]
    } else if depth == 2 {
        vec![vec![(0, 1), (1, 0), (2, 1), (1, 2)]]
    } else {
        vec![vec![(0, 0), (1, 0), (0, 1)]]
    };
    assert(polys_view(r@) =~~= corner_motif(depth as int));
    r
}

/// Border phrases in grid units for the top side of a medallion of the given
/// radius (the caller repeats them on all four sides); the corners use the
/// same band depth.
pub fn border_phrases(radius: i64, seed: u32) -> (r: Vec<GridPoly>)
    requires
        -0x100_0000_0000 <= radius <= 0x100_0000_0000,
    ensures
        polys_view(r@) == border_phrases_spec(radius as int, seed),
{
    let style = seed % 6;
    let depth: i64 = if radius >= 8 {
        3
    } else if radius >= 5 {
        2
    } else {
        1
    };
    let pitch: i64 = if depth == 3 { 6 } else { 4 };
    let available = radius * 2 - depth * 2;
    let count: i64 = if available > 0 { available / pitch } else { 0 };
    assert(count * pitch <= available || count == 0) by (nonlinear_arith)
        requires
            available > 0 ==> count == available / pitch,
            available <= 0 ==> count == 0,
            pitch > 0,
    ;
    assert(0 <= count * pitch) by (nonlinear_arith)
        requires
            count >= 0,
            pitch > 0,
    ;
    let start = -((count * pitch) / 2);
    let motif = phrase_motif_polys(style, depth);
    let ghost m = phrase_motif(style as int, depth as int);
    let ghost blocks = Seq::new(
        count as nat,
        |j: int| shifted_all(m, start + j * pitch, -radius),
    );
    let mut out: Vec<GridPoly> = Vec::new();
    let mut i: i64 = 0;
    assert(blocks.take(0).flatten() =~= Seq::<Seq<(int, int)>>::empty());
    while i < count
        invariant
            0 <= i <= count,
            0 <= count * pitch <= 0x400_0000_0000,
            pitch == 4 || pitch == 6,
            start == -((count * pitch) / 2),
            -0x100_0000_0000 <= radius <= 0x100_0000_0000,
            small_coords(motif@),
            polys_view(motif@) == m,
            blocks == Seq::new(count as nat, |j: int| shifted_all(m, start + j * pitch, -radius)),
            polys_view(out@) == blocks.take(i as int).flatten(),
        decreases count - i,
    {
        assert(0 <= i * pitch <= count * pitch) by (nonlinear_arith)
            requires
                0 <= i < count,
                pitch > 0,
        ;
        let dx = start + i * pitch;
        push_shifted(&mut out, &motif, dx, -radius);
        proof {
            assert(blocks.take(i + 1) =~= blocks.take(i as int).push(blocks[i as int]));
            blocks.take(i as int).lemma_flatten_push(blocks[i as int]);
        }
        i = i + 1;
    }
    assert(blocks.take(count as int) =~= blocks);
    let corner = corner_polys(depth);
    push_shifted(&mut out, &corner, -radius, -radius);
    proof {
        assert(band_depth(radius as int) == depth);
        assert(phrase_pitch(depth as int) == pitch);
        assert(phrase_count(radius as int) == count);
        assert(phrase_start(radius as int) == start);
        assert(blocks =~= Seq::new(
            phrase_count(radius as int) as nat,
            |j: int| shifted_all(m, phrase_start(radius as int) + j * phrase_pitch(band_depth(radius as int)), -radius),
        ));
    }
    out
}

/// Every point of the polygons lies in the box [lox, hix] x [loy, hiy].
pub open spec fn within(polys: Seq<Seq<(int, int)>>, lox: int, hix: int, loy: int, hiy: int) -> bool {
    forall|k: int, t: int|
        0 <= k < polys.len() && 0 <= t < polys[k].len() ==> lox <= #[trigger] polys[k][t].0 <= hix && loy
            <= polys[k][t].1 <= hiy
}

proof fn lemma_within_wider(p: Seq<Seq<(int, int)>>, a: int, b: int, c: int, d: int, a2: int, b2: int, c2: int, d2: int)
    requires
        within(p, a, b, c, d),
        a2 <= a,
        b <= b2,
        c2 <= c,
        d <= d2,
    ensures
        within(p, a2, b2, c2, d2),
{
}

proof fn lemma_within_shifted(p: Seq<Seq<(int, int)>>, a: int, b: int, c: int, d: int, dx: int, dy: int)
    requires
        within(p, a, b, c, d),
    ensures
        within(shifted_all(p, dx, dy), a + dx, b + dx, c + dy, d + dy),
{
    let q = shifted_all(p, dx, dy);
    assert forall|k: int, t: int| 0 <= k < q.len() && 0 <= t < q[k].len() implies a + dx <= #[trigger] q[k][t].0
        <= b + dx && c + dy <= q[k][t].1 <= d + dy by {
        assert(q[k][t] == (p[k][t].0 + dx, p[k][t].1 + dy));
    }
}

proof fn lemma_within_concat(p: Seq<Seq<(int, int)>>, q: Seq<Seq<(int, int)>>, a: int, b: int, c: int, d: int)
    requires
        within(p, a, b, c, d),
        within(q, a, b, c, d),
    ensures
        within(p + q, a, b, c, d),
{
    let r = p + q;
    assert forall|k: int, t: int| 0 <= k < r.len() && 0 <= t < r[k].len() implies a <= #[trigger] r[k][t].0 <= b
        && c <= r[k][t].1 <= d by {
        if k < p.len() {
            assert(r[k] == p[k]);
        } else {
            assert(r[k] == q[k - p.len()]);
        }
    }
}

proof fn lemma_within_flatten(blocks: Seq<Seq<Seq<(int, int)>>>, a: int, b: int, c: int, d: int)
    requires
        forall|i: int| 0 <= i < blocks.len() ==> within(#[trigger] blocks[i], a, b, c, d),
    ensures
        within(blocks.flatten(), a, b, c, d),
    decreases blocks.len(),
{
    if blocks.len() > 0 {
        let rest = blocks.drop_first();
        assert forall|i: int| 0 <= i < rest.len() implies within(#[trigger] rest[i], a, b, c, d) by {
            assert(rest[i] == blocks[i + 1]);
        }
        lemma_within_flatten(rest, a, b, c, d);
        assert(within(blocks[0], a, b, c, d));
        lemma_within_concat(blocks.first(), rest.flatten(), a, b, c, d);
    }
}

proof fn lemma_motif_bounds(style: int, depth: int)
    requires
        0 <= style < 6,
        1 <= depth <= 3,
    ensures
        within(phrase_motif(style, depth), 0, phrase_pitch(depth), 0, depth),
        within(corner_motif(depth), 0, depth, 0, depth),
{
    let m = phrase_motif(style, depth);
    assert forall|k: int, t: int| 0 <= k < m.len() && 0 <= t < m[k].len() implies 0 <= #[trigger] m[k][t].0
        <= phrase_pitch(depth) && 0 <= m[k][t].1 <= depth by {
        if depth == 3 {
            if style == 0 {
                assert(k == 0 || k == 1);
            }
        }
    }
    let cm = corner_motif(depth);
    assert forall|k: int, t: int| 0 <= k < cm.len() && 0 <= t < cm[k].len() implies 0 <= #[trigger] cm[k][t].0
        <= depth && 0 <= cm[k][t].1 <= depth by {
    }
}

/// Every border phrase of a medallion of radius at least 1 lies within the
/// top band of the square: across the full width, and no deeper than the
/// band depth from the outer edge.
pub proof fn border_phrases_stay_in_band(radius: int, seed: u32)
    requires
        radius >= 1,
    ensures
        within(border_phrases_spec(radius, seed), -radius, radius, -radius, -radius + band_depth(radius)),
{
    let depth = band_depth(radius);
    let pitch = phrase_pitch(depth);
    let count = phrase_count(radius);
    let start = phrase_start(radius);
    let style = (seed % 6) as int;
    let m = phrase_motif(style, depth);
    lemma_motif_bounds(style, depth);
    let available = radius * 2 - depth * 2;
    assert(0 <= count * pitch <= available || count == 0) by (nonlinear_arith)
        requires
            available > 0 ==> count == available / pitch,
            available <= 0 ==> count == 0,
            pitch > 0,
    ;
    let blocks = Seq::new(count as nat, |j: int| shifted_all(m, start + j * pitch, -radius));
    assert forall|i: int| 0 <= i < blocks.len() implies within(#[trigger] blocks[i], -radius, radius, -radius, -radius + depth) by {
        let dx = start + i * pitch;
        lemma_within_shifted(m, 0, pitch, 0, depth, dx, -radius);
        assert(0 <= i * pitch && (i + 1) * pitch <= count * pitch) by (nonlinear_arith)
            requires
                0 <= i < count,
                pitch > 0,
        ;
        lemma_within_wider(shifted_all(m, dx, -radius), dx, dx + pitch, -radius, -radius + depth, -radius, radius, -radius, -radius + depth);
    }
    lemma_within_flatten(blocks, -radius, radius, -radius, -radius + depth);
    lemma_within_shifted(corner_motif(depth), 0, depth, 0, depth, -radius, -radius);
    lemma_within_wider(shifted_all(corner_motif(depth), -radius, -radius), -radius, -radius + depth, -radius, -radius + depth, -radius, radius, -radius, -radius + depth);
    lemma_within_concat(blocks.flatten(), shifted_all(corner_motif(depth), -radius, -radius), -radius, radius, -radius, -radius + depth);
}

/// The pieces of one repeat of border style `style` for a band `depth`
/// deep, starting at `x` on the top edge y = -r, each piece listed by its
/// corners.
pub open spec fn border_repeat_at(style: int, depth: int, x: int, r: int) -> Seq<Seq<(int, int)>> {
    if depth == 3 {
        if style == 0 {
            // Diamond chain: a wide diamond and a small one.
            seq![
                seq![(x, 1 - r), (x + 2, -r), (x + 4, 1 - r), (x + 2, 3 - r)],
                seq![(x + 4, 1 - r), (x + 5, -r), (x + 6, 1 - r), (x + 5, 2 - r)],
            ]
        } else if style == 1 {
            // Paired chevrons.
            seq![
                seq![(x, -r), (x + 2, -r), (x + 4, 2 - r), (x + 2, 2 - r)],
                seq![(x + 2, 3 - r), (x + 4, 1 - r), (x + 6, 1 - r), (x + 4, 3 - r)],
            ]
        } else if style == 2 {
            // Braided band: a chevron, a small triangle and a slanted strand.
            seq![
                seq![(x, -r), (x + 2, -r), (x + 4, 2 - r), (x + 2, 2 - r)],
                seq![(x, 3 - r), (x + 1, 2 - r), (x + 2, 3 - r)],
                seq![(x + 3, 1 - r), (x + 4, -r), (x + 6, 2 - r), (x + 6, 3 - r)],
            ]
        } else if style == 3 {
            // Alternating rosettes: a small diamond, a wide one, a triangle.
            seq![
                seq![(x, 1 - r), (x + 1, -r), (x + 2, 1 - r), (x + 1, 2 - r)],
                seq![(x + 2, 1 - r), (x + 4, -r), (x + 6, 1 - r), (x + 4, 3 - r)],
                seq![(x + 2, 3 - r), (x + 3, 2 - r), (x + 4, 3 - r)],
            ]
        } else if style == 4 {
            // Stepped ribbon: two interlocking steps.
            seq![
                seq![(x, -r), (x + 3, -r), (x + 3, 1 - r), (x + 1, 1 - r), (x + 1, 3 - r), (x, 3 - r)],
                seq![(x + 2, 3 - r), (x + 5, 3 - r), (x + 5, 2 - r), (x + 3, 2 - r), (x + 3, 1 - r), (x + 2, 1 - r)],
            ]
        } else {
            // Paired fans: four corner triangles.
            seq![
                seq![(x, -r), (x + 3, -r), (x + 3, 2 - r)],
                seq![(x, 1 - r), (x, 3 - r), (x + 2, 3 - r)],
                seq![(x + 3, 3 - r), (x + 6, 3 - r), (x + 6, 1 - r)],
                seq![(x + 4, -r), (x + 6, -r), (x + 6, 2 - r)],
            ]
        }
    } else if style % 2 == 0 {
        // One diamond, its sides on the edge for a band two deep.
        let e = if depth == 2 { 1int } else { 0int };
        seq![seq![(x, e - r), (x + 2, -r), (x + 4, e - r), (x + 2, depth - r)]]
    } else {
        // Two facing triangles.
        seq![
            seq![(x, -r), (x + 2, -r), (x + 1, depth - r)],
            seq![(x + 2, depth - r), (x + 4, depth - r), (x + 3, -r)],
        ]
    }
}

/// The corner pieces of the top-left corner at (-r, -r) of a band `depth`
/// deep.
pub open spec fn border_corner_at(depth: int, r: int) -> Seq<Seq<(int, int)>> {
    if depth == 3 {
        seq![
            seq![(-r, 1 - r), (1 - r, -r), (2 - r, 1 - r), (1 - r, 2 - r)],
            seq![(1 - r, 2 - r), (2 - r, 1 - r), (3 - r, 2 - r), (2 - r, 3 - r)],
        ]
    } else if depth == 2 {
        seq![seq![(-r, 1 - r), (1 - r, -r), (2 - r, 1 - r), (1 - r, 2 - r)]]
    } else {
        seq![seq![(-r, -r), (1 - r, -r), (-r, 1 - r)]]
    }
}

proof fn lemma_flatten_uniform_len<A>(blocks: Seq<Seq<A>>, l: int)
    requires
        l >= 0,
        forall|i: int| 0 <= i < blocks.len() ==> #[trigger] blocks[i].len() == l,
    ensures
        blocks.flatten().len() == blocks.len() * l,
    decreases blocks.len(),
{
    if blocks.len() > 0 {
        let rest = blocks.drop_first();
        assert forall|i: int| 0 <= i < rest.len() implies #[trigger] rest[i].len() == l by {
            assert(rest[i] == blocks[i + 1]);
        }
        lemma_flatten_uniform_len(rest, l);
        assert(blocks[0].len() == l);
        assert(rest.len() * l + l == blocks.len() * l) by (nonlinear_arith)
            requires
                rest.len() == blocks.len() - 1,
        ;
    }
}

/// The running border of the top side of a medallion of radius `r` under
/// border seed `seed`: the band is 3 cells deep from a radius of 8, 2 from
/// a radius of 5, else 1; a repeat is 6 cells long in a band 3 deep, else 4;
/// as many repeats as fit between the corners (2r less twice the depth) sit
/// centred, starting at minus half their total length (rounded down). Each
/// repeat holds the pieces of style `seed % 6` (`border_repeat_at`) and the
/// corner the corner pieces (`border_corner_at`); the border holds each of
/// them, and nothing more: its length is the number of repeats times the
/// pieces per repeat, plus the corner pieces.
pub proof fn border_phrases_hold_their_pieces(radius: int, seed: u32)
    ensures
        ({
            let r = radius;
            let style = (seed % 6) as int;
            let depth = if r >= 8 { 3int } else if r >= 5 { 2int } else { 1int };
            let pitch = if depth == 3 { 6int } else { 4int };
            let count = if 2 * r - 2 * depth > 0 { (2 * r - 2 * depth) / pitch } else { 0 };
            let start = -((count * pitch) / 2);
            let border = border_phrases_spec(r, seed);
            &&& forall|i: int, k: int|
                0 <= i < count && 0 <= k < border_repeat_at(style, depth, start + i * pitch, r).len()
                    ==> border.contains(#[trigger] border_repeat_at(style, depth, start + i * pitch, r)[k])
            &&& forall|k: int| 0 <= k < border_corner_at(depth, r).len() ==> border.contains(
                #[trigger] border_corner_at(depth, r)[k],
            )
            &&& border.len() == count * border_repeat_at(style, depth, start, r).len() + border_corner_at(
                depth,
                r,
            ).len()
        }),
{
    let r = radius;
    let style = (seed % 6) as int;
    let depth = band_depth(r);
    let pitch = phrase_pitch(depth);
    let count = phrase_count(r);
    let start = phrase_start(r);
    let motif = phrase_motif(style, depth);
    let blocks = Seq::new(count as nat, |i: int| shifted_all(motif, start + i * pitch, -r));
    let corners = shifted_all(corner_motif(depth), -r, -r);
    let border = border_phrases_spec(r, seed);
    assert(border == blocks.flatten() + corners);
    assert forall|x: int| shifted_all(motif, x, -r) =~~= border_repeat_at(style, depth, x, r) by {}
    assert(corners =~~= border_corner_at(depth, r));
    assert forall|i: int, k: int|
        0 <= i < count && 0 <= k < border_repeat_at(style, depth, start + i * pitch, r).len()
            implies border.contains(#[trigger] border_repeat_at(style, depth, start + i * pitch, r)[k]) by {
        let piece = border_repeat_at(style, depth, start + i * pitch, r)[k];
        assert(blocks[i] == border_repeat_at(style, depth, start + i * pitch, r));
        assert(blocks[i][k] == piece);
        lemma_flatten_holds(blocks, i, piece);
        let f = blocks.flatten();
        let m = choose|m: int| 0 <= m < f.len() && f[m] == piece;
        assert(border[m] == piece);
    }
    assert forall|k: int| 0 <= k < border_corner_at(depth, r).len() implies border.contains(
        #[trigger] border_corner_at(depth, r)[k],
    ) by {
        assert(border[blocks.flatten().len() + k] == corners[k]);
    }
    lemma_flatten_uniform_len(blocks, motif.len() as int);
    assert(motif.len() == border_repeat_at(style, depth, start, r).len());
}

/// The tile vocabulary of the tiled grammar, drawn on a 4 x 4 tile.
pub open spec fn tile_vocabulary(motif: int) -> Seq<Seq<(int, int)>> {
    if motif == 0 {
        seq![seq![(2, 0), (3, 2), (2, 4), (1, 2)]]
    } else if motif == 1 {
        seq![seq![(0, 0), (4, 0), (2, 2)], seq![(0, 4), (4, 4), (2, 2)]]
    } else if motif == 2 {
        seq![seq![(2, 0), (4, 2), (2, 2)], seq![(2, 4), (0, 2), (2, 2)]]
    } else if motif == 3 {
        seq![
            seq![(2, 0), (3, 1), (2, 2), (1, 1)],
            seq![(4, 2), (3, 3), (2, 2), (3, 1)],
            seq![(2, 4), (1, 3), (2, 2), (3, 3)],
            seq![(0, 2), (1, 1), (2, 2), (1, 3)],
        ]
    } else {
        seq![seq![(0, 1), (2, 1), (1, 3)], seq![(2, 1), (4, 1), (3, 3)]]
    }
}

/// (a, b) turned a quarter turn `turn` times.
pub open spec fn turned(a: int, b: int, turn: int) -> (int, int) {
    if turn == 0 {
        (a, b)
    } else if turn == 1 {
        (-b, a)
    } else if turn == 2 {
        (-a, -b)
    } else {
        (b, -a)
    }
}

/// A point turned no times stays put; one quarter turn takes (a, b) to
/// (-b, a), and each further turn is one more quarter turn, four of them
/// bringing the point back.
pub proof fn turns_are_quarter_turns(a: int, b: int, k: int)
    requires
        0 <= k < 4,
    ensures
        turned(a, b, 0) == (a, b),
        turned(a, b, 1) == (-b, a),
        turned(a, b, (k + 1) % 4) == (-turned(a, b, k).1, turned(a, b, k).0),
{
}

/// Tiles along each side of a medallion `cells` grid cells across.
pub open spec fn medallion_tiles(cells: int) -> int {
    (cells - 2) / 4
}

/// Grid cells left between the edge and the first tile.
pub open spec fn medallion_offset(cells: int) -> int {
    (cells - medallion_tiles(cells) * 4) / 2
}

/// Tiles in each direction of one quarter (the others mirror it).
pub open spec fn medallion_half(cells: int) -> int {
    (medallion_tiles(cells) + 1) / 2
}

/// The motif and turn the seed chooses for quarter tile `r`.
pub open spec fn tile_recipe(seed: u32, r: nat) -> (nat, nat) {
    (scaled_draw(mulberry_draw(seed, 2 * r), 5), scaled_draw(mulberry_draw(seed, 2 * r + 1), 4))
}

/// A tile point placed in tile (x, y): turned, mirrored into the tile's
/// quarter, and moved to the tile.
pub open spec fn place_tile_point(p: (int, int), turn: int, x: int, y: int, cells: int) -> (int, int) {
    let n = medallion_tiles(cells);
    let t = turned(p.0 - 2, p.1 - 2, turn);
    let a = if 2 * x >= n { -t.0 } else { t.0 };
    let b = if 2 * y >= n { -t.1 } else { t.1 };
    (medallion_offset(cells) + 4 * x + 2 + a, medallion_offset(cells) + 4 * y + 2 + b)
}

/// Whether a border-only medallion leaves tile (x, y) empty.
pub open spec fn skips_tile(family: ChipFamily, x: int, y: int, n: int) -> bool {
    family == ChipFamily::Border && x > 0 && y > 0 && x < n - 1 && y < n - 1
}

/// The chips of tile (x, y).
pub open spec fn tile_polys(cells: int, seed: u32, family: ChipFamily, x: int, y: int) -> Seq<Seq<(int, int)>> {
    let n = medallion_tiles(cells);
    if skips_tile(family, x, y, n) {
        Seq::empty()
    } else {
        let mx = if x <= n - 1 - x { x } else { n - 1 - x };
        let my = if y <= n - 1 - y { y } else { n - 1 - y };
        let recipe = tile_recipe(seed, (my * medallion_half(cells) + mx) as nat);
        let motif = if family == ChipFamily::Rosette && mx == my { 3 } else { recipe.0 as int };
        tile_vocabulary(motif).map_values(
            |poly: Seq<(int, int)>| poly.map_values(|p: (int, int)| place_tile_point(p, recipe.1 as int, x, y, cells)),
        )
    }
}

/// The chips of row `y`, left to right.
pub open spec fn row_polys(cells: int, seed: u32, family: ChipFamily, y: int, upto: int) -> Seq<Seq<(int, int)>> {
    Seq::new(upto as nat, |x: int| tile_polys(cells, seed, family, x, y)).flatten()
}

/// The medallion of the tiled grammar, in grid units: rows top to bottom,
/// tiles left to right; empty when fewer than six cells fit.
pub open spec fn grid_medallion_spec(cells: int, seed: u32, family: ChipFamily) -> Seq<Seq<(int, int)>> {
    if cells < 6 {
        Seq::empty()
    } else {
        let n = medallion_tiles(cells);
        Seq::new(n as nat, |y: int| row_polys(cells, seed, family, y, n)).flatten()
    }
}

fn tile_vocabulary_polys(motif: u32) -> (r: Vec<GridPoly>)
    ensures
        polys_view(r@) == tile_vocabulary(motif as int),
        small_coords(r@),
{
    let r: Vec<GridPoly> = if motif == 0 {
        vec![vec![(2, 0), (3, 2), (2, 4), (1, 2)]]
    } else if motif == 1 {
        vec![vec![(0, 0), (4, 0), (2, 2)], vec![(0, 4), (4, 4), (2, 2)]]
    } else if motif == 2 {
        vec![vec![(2, 0), (4, 2), (2, 2)], vec![(2, 4), (0, 2), (2, 2)]]
    } else if motif == 3 {
        vec![
            vec![(2, 0), (3, 1), (2, 2), (1, 1)],
            vec![(4, 2), (3, 3), (2, 2), (3, 1)],
            vec![(2, 4), (1, 3), (2, 2), (3, 3)],
            vec![(0, 2), (1, 1), (2, 2), (1, 3)],
        ]
    } else {
        vec![vec![(0, 1), (2, 1), (1, 3)], vec![(2, 1), (4, 1), (3, 3)]]
    };
    assert(polys_view(r@) =~~= tile_vocabulary(motif as int));
    r
}

/// Appends the chips of one tile: each vocabulary polygon placed in tile (x, y).
fn push_tile(out: &mut Vec<GridPoly>, vocab: &Vec<GridPoly>, turn: u32, x: i64, y: i64, cells: i64, n: i64, offset: i64)
    requires
        small_coords(vocab@),
        6 <= cells <= 0x4_0000,
        n == medallion_tiles(cells as int),
        offset == medallion_offset(cells as int),
        0 <= x < n,
        0 <= y < n,
    ensures
        polys_view(final(out)@) == polys_view(old(out)@) + polys_view(vocab@).map_values(
            |poly: Seq<(int, int)>| poly.map_values(|p: (int, int)| place_tile_point(p, turn as int, x as int, y as int, cells as int)),
        ),
{
    let ghost start = polys_view(out@);
    let ghost want = polys_view(vocab@).map_values(
        |poly: Seq<(int, int)>| poly.map_values(|p: (int, int)| place_tile_point(p, turn as int, x as int, y as int, cells as int)),
    );
    let mut k: usize = 0;
    while k < vocab.len()
        invariant
            0 <= k <= vocab@.len(),
            small_coords(vocab@),
            6 <= cells <= 0x4_0000,
            n == medallion_tiles(cells as int),
            offset == medallion_offset(cells as int),
            0 <= x < n,
            0 <= y < n,
            want == polys_view(vocab@).map_values(
                |poly: Seq<(int, int)>| poly.map_values(|p: (int, int)| place_tile_point(p, turn as int, x as int, y as int, cells as int)),
            ),
            polys_view(out@) == start + want.take(k as int),
        decreases vocab@.len() - k,
    {
        let src = &vocab[k];
        let ghost want_poly = want[k as int];
        let mut poly: GridPoly = Vec::new();
        let mut t: usize = 0;
        while t < src.len()
            invariant
                0 <= t <= src@.len(),
                src == vocab@[k as int],
                0 <= k < vocab@.len(),
                small_coords(vocab@),
                6 <= cells <= 0x4_0000,
                n == medallion_tiles(cells as int),
                offset == medallion_offset(cells as int),
                0 <= x < n,
                0 <= y < n,
                want_poly == poly_view(src@).map_values(|p: (int, int)| place_tile_point(p, turn as int, x as int, y as int, cells as int)),
                poly_view(poly@) == want_poly.take(t as int),
            decreases src@.len() - t,
        {
            let q = src[t];
            assert(-8 <= vocab@[k as int]@[t as int].0 <= 8 && -8 <= vocab@[k as int]@[t as int].1 <= 8);
            let a0 = q.0 - 2;
            let b0 = q.1 - 2;
            let (mut a, mut b) = if turn == 0 {
                (a0, b0)
            } else if turn == 1 {
                (-b0, a0)
            } else if turn == 2 {
                (-a0, -b0)
            } else {
                (b0, -a0)
            };
            if 2 * x >= n {
                a = -a;
            }
            if 2 * y >= n {
                b = -b;
            }
            let ghost before = poly@;
            poly.push((offset + 4 * x + 2 + a, offset + 4 * y + 2 + b));
            proof {
                assert(poly_view(before).len() == before.len());
                assert(before.len() == t);
                assert(want_poly[t as int] == place_tile_point(poly_view(src@)[t as int], turn as int, x as int, y as int, cells as int));
                assert(poly_view(poly@)[t as int] == want_poly[t as int]);
                assert forall|j: int| 0 <= j < t implies poly_view(poly@)[j] == poly_view(before)[j] by {
                    assert(poly@[j] == before[j]);
                }
                assert(poly_view(poly@) =~= want_poly.take(t + 1));
            }
            t = t + 1;
        }
        proof {
            assert(want_poly.take(t as int) =~= want_poly);
        }
        let ghost out_before = out@;
        out.push(poly);
        proof {
            let lhs = polys_view(out@);
            let rhs = start + want.take(k + 1);
            assert(polys_view(out_before).len() == out_before.len());
            assert(lhs.len() == rhs.len());
            assert forall|j: int| 0 <= j < lhs.len() implies lhs[j] == rhs[j] by {
                if j < out_before.len() {
                    assert(out@[j] == out_before[j]);
                    assert(polys_view(out_before)[j] == (start + want.take(k as int))[j]);
                    if j >= start.len() {
                        assert(want.take(k as int)[j - start.len()] == want[j - start.len()]);
                    }
                }
            }
            assert(lhs =~= rhs);
        }
        k = k + 1;
    }
    assert(want.take(k as int) =~= want);
}

/// Appends the chips of tile (x, y) of the medallion.
fn push_medallion_tile(
    out: &mut Vec<GridPoly>,
    recipes: &Vec<(u32, u32)>,
    x: i64,
    y: i64,
    cells: i64,
    n: i64,
    offset: i64,
    half: i64,
    seed: u32,
    family: ChipFamily,
)
    requires
        6 <= cells <= 0x4_0000,
        n == medallion_tiles(cells as int),
        offset == medallion_offset(cells as int),
        half == medallion_half(cells as int),
        recipes@.len() == half * half,
        forall|j: int| 0 <= j < recipes@.len() ==> (#[trigger] recipes@[j]).0 == tile_recipe(seed, j as nat).0
            && recipes@[j].1 == tile_recipe(seed, j as nat).1,
        0 <= x < n,
        0 <= y < n,
    ensures
        polys_view(final(out)@) == polys_view(old(out)@) + tile_polys(cells as int, seed, family, x as int, y as int),
{
    let skip = family == ChipFamily::Border && x > 0 && y > 0 && x < n - 1 && y < n - 1;
    if skip {
        assert(polys_view(out@) + tile_polys(cells as int, seed, family, x as int, y as int) =~= polys_view(out@));
        return;
    }
    let mx = if x <= n - 1 - x { x } else { n - 1 - x };
    let my = if y <= n - 1 - y { y } else { n - 1 - y };
    assert(n <= 0x1_0000);
    assert(half <= 0x8000);
    assert(0 <= mx < half && 0 <= my < half);
    assert(0 <= my * half <= half * half && 0 <= my * half + mx < half * half && half * half <= 0x4000_0000)
        by (nonlinear_arith)
        requires
            0 <= mx < half,
            0 <= my < half,
            half <= 0x8000,
    ;
    let idx = (my * half + mx) as usize;
    let (m0, turn) = recipes[idx];
    let motif = if family == ChipFamily::Rosette && mx == my { 3 } else { m0 };
    let vocab = tile_vocabulary_polys(motif);
    push_tile(out, &vocab, turn, x, y, cells, n, offset);
}

/// The medallion of the tiled chip grammar, in grid units, for a
/// square `cells` grid cells across (the caller scales by the grid step).
/// The seed picks a motif and a turn for each tile of one quarter; the other
/// quarters mirror it; rosettes put the star motif on the diagonals, and the
/// border family keeps only the outer ring of tiles.
pub fn grid_medallion(cells: i64, seed: u32, family: ChipFamily) -> (r: Vec<GridPoly>)
    requires
        cells <= 0x4_0000,
    ensures
        polys_view(r@) == grid_medallion_spec(cells as int, seed, family),
{
    let mut out: Vec<GridPoly> = Vec::new();
    if cells < 6 {
        assert(polys_view(out@) =~= Seq::<Seq<(int, int)>>::empty());
        return out;
    }
    let n: i64 = (cells - 2) / 4;
    let offset: i64 = (cells - n * 4) / 2;
    let half: i64 = (n + 1) / 2;
    assert(1 <= half <= 0x8000);
    assert(0 <= half * half <= 0x4000_0000) by (nonlinear_arith)
        requires
            1 <= half <= 0x8000,
    ;
    let total: usize = (half * half) as usize;
    assert(total == half * half);
    let mut rng = Mulberry(seed);
    let mut recipes: Vec<(u32, u32)> = Vec::new();
    let mut r: usize = 0;
    while r < total
        invariant
            r <= total,
            rng.0 == mulberry_after(seed, 2 * r as nat),
            recipes@.len() == r,
            forall|j: int| 0 <= j < r ==> (#[trigger] recipes@[j]).0 == tile_recipe(seed, j as nat).0
                && recipes@[j].1 == tile_recipe(seed, j as nat).1,
        decreases total - r,
    {
        proof {
            lemma_mulberry_after_step(seed, 2 * r as nat);
            lemma_mulberry_after_step(seed, 2 * r as nat + 1);
        }
        let m = rng.below(5);
        let t = rng.below(4);
        recipes.push((m, t));
        r = r + 1;
    }
    let ghost rows = Seq::new(n as nat, |y: int| row_polys(cells as int, seed, family, y, n as int));
    let mut y: i64 = 0;
    assert(rows.take(0).flatten() =~= Seq::<Seq<(int, int)>>::empty());
    while y < n
        invariant
            6 <= cells <= 0x4_0000,
            n == medallion_tiles(cells as int),
            offset == medallion_offset(cells as int),
            half == medallion_half(cells as int),
            recipes@.len() == half * half,
            forall|j: int| 0 <= j < recipes@.len() ==> (#[trigger] recipes@[j]).0 == tile_recipe(seed, j as nat).0
                && recipes@[j].1 == tile_recipe(seed, j as nat).1,
            0 <= y <= n,
            rows == Seq::new(n as nat, |y: int| row_polys(cells as int, seed, family, y, n as int)),
            polys_view(out@) == rows.take(y as int).flatten(),
        decreases n - y,
    {
        let ghost prefix = polys_view(out@);
        let ghost tiles = Seq::new(n as nat, |x: int| tile_polys(cells as int, seed, family, x, y as int));
        let mut x: i64 = 0;
        assert(tiles.take(0).flatten() =~= Seq::<Seq<(int, int)>>::empty());
        assert(prefix + tiles.take(0).flatten() =~= prefix);
        while x < n
            invariant
                6 <= cells <= 0x4_0000,
                n == medallion_tiles(cells as int),
                offset == medallion_offset(cells as int),
                half == medallion_half(cells as int),
                recipes@.len() == half * half,
                forall|j: int| 0 <= j < recipes@.len() ==> (#[trigger] recipes@[j]).0 == tile_recipe(seed, j as nat).0
                    && recipes@[j].1 == tile_recipe(seed, j as nat).1,
                0 <= y < n,
                0 <= x <= n,
                tiles == Seq::new(n as nat, |x: int| tile_polys(cells as int, seed, family, x, y as int)),
                polys_view(out@) == prefix + tiles.take(x as int).flatten(),
            decreases n - x,
        {
            push_medallion_tile(&mut out, &recipes, x, y, cells, n, offset, half, seed, family);
            proof {
                assert(tiles.take(x + 1) =~= tiles.take(x as int).push(tiles[x as int]));
                tiles.take(x as int).lemma_flatten_push(tiles[x as int]);
            }
            x = x + 1;
        }
        proof {
            assert(tiles.take(n as int) =~= tiles);
            assert(rows[y as int] == tiles.flatten());
            assert(rows.take(y + 1) =~= rows.take(y as int).push(rows[y as int]));
            rows.take(y as int).lemma_flatten_push(rows[y as int]);
        }
        y = y + 1;
    }
    assert(rows.take(n as int) =~= rows);
    out
}

/// Polygons reflected across the vertical line x = w / 2.
pub open spec fn mirrored_x(polys: Seq<Seq<(int, int)>>, w: int) -> Seq<Seq<(int, int)>> {
    polys.map_values(|p: Seq<(int, int)>| p.map_values(|q: (int, int)| (w - q.0, q.1)))
}

/// Polygons reflected across the horizontal line y = w / 2.
pub open spec fn mirrored_y(polys: Seq<Seq<(int, int)>>, w: int) -> Seq<Seq<(int, int)>> {
    polys.map_values(|p: Seq<(int, int)>| p.map_values(|q: (int, int)| (q.0, w - q.1)))
}

/// The medallion of the tiled grammar is mirror-symmetric: a tile in the
/// left half, reflected across the medallion's vertical centre line, is the
/// tile in the matching place of the right half; likewise top and bottom.
pub proof fn grid_medallion_is_mirror_symmetric(cells: int, seed: u32, family: ChipFamily, x: int, y: int)
    requires
        cells >= 6,
        0 <= x,
        2 * x + 1 < medallion_tiles(cells),
        0 <= y < medallion_tiles(cells),
    ensures
        tile_polys(cells, seed, family, medallion_tiles(cells) - 1 - x, y) == mirrored_x(
            tile_polys(cells, seed, family, x, y),
            2 * medallion_offset(cells) + 4 * medallion_tiles(cells),
        ),
        tile_polys(cells, seed, family, y, medallion_tiles(cells) - 1 - x) == mirrored_y(
            tile_polys(cells, seed, family, y, x),
            2 * medallion_offset(cells) + 4 * medallion_tiles(cells),
        ),
{
    let n = medallion_tiles(cells);
    let w = 2 * medallion_offset(cells) + 4 * n;
    let a = tile_polys(cells, seed, family, n - 1 - x, y);
    let b = mirrored_x(tile_polys(cells, seed, family, x, y), w);
    assert(a =~~= b);
    let c = tile_polys(cells, seed, family, y, n - 1 - x);
    let d = mirrored_y(tile_polys(cells, seed, family, y, x), w);
    assert(c =~~= d);
}

/// A piece of the 4 x 4 tile placed in tile (x, y) with the given turn.
pub open spec fn placed_piece(piece: Seq<(int, int)>, turn: int, x: int, y: int, cells: int) -> Seq<(int, int)> {
    piece.map_values(|p: (int, int)| place_tile_point(p, turn, x, y, cells))
}

/// Whatever `blocks[i]` holds, the blocks laid end to end hold.
pub proof fn lemma_flatten_holds<A>(blocks: Seq<Seq<A>>, i: int, e: A)
    requires
        0 <= i < blocks.len(),
        blocks[i].contains(e),
    ensures
        blocks.flatten().contains(e),
    decreases blocks.len(),
{
    let f = blocks.flatten();
    assert(f == blocks.first() + blocks.drop_first().flatten());
    if i == 0 {
        let m = choose|m: int| 0 <= m < blocks[0].len() && blocks[0][m] == e;
        assert(f[m] == e);
    } else {
        assert(blocks.drop_first()[i - 1] == blocks[i]);
        lemma_flatten_holds(blocks.drop_first(), i - 1, e);
        let rest = blocks.drop_first().flatten();
        let m = choose|m: int| 0 <= m < rest.len() && rest[m] == e;
        assert(f[blocks.first().len() + m] == e);
    }
}

/// Each tile of the tiled medallion that the pattern keeps holds exactly
/// the pieces of the motif chosen for it, placed in the tile with the
/// chosen turn, and the medallion holds each of them. The seed chooses a
/// motif and a turn per tile of the top-left quarter (tile (x, y) takes the
/// choice of its mirror image there); a rosette's diagonal tiles take
/// motif 3. On the 4 x 4 tile the motifs are: 0, one narrow diamond
/// (2,0),(3,2),(2,4),(1,2); 1, two triangles (0,0),(4,0),(2,2) and
/// (0,4),(4,4),(2,2); 2, two triangles (2,0),(4,2),(2,2) and (2,4),(0,2),(2,2);
/// 3, four small diamonds around the middle; 4, two triangles
/// (0,1),(2,1),(1,3) and (2,1),(4,1),(3,3).
pub proof fn tiles_hold_their_motif(cells: int, seed: u32, family: ChipFamily, x: int, y: int)
    requires
        cells >= 6,
        0 <= x < medallion_tiles(cells),
        0 <= y < medallion_tiles(cells),
        !skips_tile(family, x, y, medallion_tiles(cells)),
    ensures
        ({
            let n = medallion_tiles(cells);
            let mx = if x <= n - 1 - x { x } else { n - 1 - x };
            let my = if y <= n - 1 - y { y } else { n - 1 - y };
            let recipe = tile_recipe(seed, (my * medallion_half(cells) + mx) as nat);
            let motif = if family == ChipFamily::Rosette && mx == my { 3 } else { recipe.0 as int };
            let pieces: Seq<Seq<(int, int)>> = if motif == 0 {
                seq![
                    seq![(2, 0), (3, 2), (2, 4), (1, 2)],
                ]
            } else if motif == 1 {
                seq![
                    seq![(0, 0), (4, 0), (2, 2)],
                    seq![(0, 4), (4, 4), (2, 2)],
                ]
            } else if motif == 2 {
                seq![
                    seq![(2, 0), (4, 2), (2, 2)],
                    seq![(2, 4), (0, 2), (2, 2)],
                ]
            } else if motif == 3 {
                seq![
                    seq![(2, 0), (3, 1), (2, 2), (1, 1)], seq![(4, 2), (3, 3), (2, 2), (3, 1)],
                    seq![(2, 4), (1, 3), (2, 2), (3, 3)], seq![(0, 2), (1, 1), (2, 2), (1, 3)],
                ]
            } else {
                seq![
                    seq![(0, 1), (2, 1), (1, 3)],
                    seq![(2, 1), (4, 1), (3, 3)],
                ]
            };
            &&& tile_polys(cells, seed, family, x, y) == pieces.map_values(
                |q: Seq<(int, int)>| placed_piece(q, recipe.1 as int, x, y, cells),
            )
            &&& forall|k: int|
                0 <= k < pieces.len() ==> grid_medallion_spec(cells, seed, family).contains(
                    #[trigger] placed_piece(pieces[k], recipe.1 as int, x, y, cells),
                )
        }),
{
    let n = medallion_tiles(cells);
    let mx = if x <= n - 1 - x { x } else { n - 1 - x };
    let my = if y <= n - 1 - y { y } else { n - 1 - y };
    let recipe = tile_recipe(seed, (my * medallion_half(cells) + mx) as nat);
    let motif = if family == ChipFamily::Rosette && mx == my { 3 } else { recipe.0 as int };
    let tile = tile_polys(cells, seed, family, x, y);
    let want = tile_vocabulary(motif).map_values(
        |q: Seq<(int, int)>| placed_piece(q, recipe.1 as int, x, y, cells),
    );
    assert(tile =~= want);
    let rows = Seq::new(n as nat, |yy: int| row_polys(cells, seed, family, yy, n));
    let tiles = Seq::new(n as nat, |xx: int| tile_polys(cells, seed, family, xx, y));
    assert forall|k: int| 0 <= k < tile.len() implies grid_medallion_spec(cells, seed, family).contains(#[trigger] tile[k]) by {
        assert(tiles[x] == tile);
        assert(tile.contains(tile[k]));
        lemma_flatten_holds(tiles, x, tile[k]);
        assert(rows[y] == tiles.flatten());
        lemma_flatten_holds(rows, y, tile[k]);
    }
    assert forall|k: int| 0 <= k < tile_vocabulary(motif).len() implies grid_medallion_spec(cells, seed, family).contains(
        #[trigger] placed_piece(tile_vocabulary(motif)[k], recipe.1 as int, x, y, cells),
    ) by {
        assert(tile[k] == placed_piece(tile_vocabulary(motif)[k], recipe.1 as int, x, y, cells));
    }
}

/// Names of the border rhythms of the composed grammar.
pub const BORDER_NAMES: [&'static str; 6] = [
    "Diamond chain",
    "Paired chevrons",
    "Braided band",
    "Alternating rosettes",
    "Stepped ribbon",
    "Paired fans",
];

/// The seed a chip pattern uses when it has none of its own.
pub const DEFAULT_CHIP_SEED: u32 = 1248;

/// How a chip pattern's outlines are constructed.
#[derive(Clone, Copy, PartialEq, Eq, Debug, Structural)]
pub enum Construction {
    /// Sector and repeat constructions on the grid.
    Traditional,
    /// The composed grammar: seeded border phrases and centre.
    Composed,
    /// The tiled grammar (`grid_medallion`).
    Tiled,
    /// The first, gridless generator.
    Gridless,
}

/// The discrete choices of a chip pattern: everything but its size, grid step
/// and hand edits.
#[derive(Clone)]
pub struct ChipChoices {
    pub family: ChipFamily,
    pub count: u32,
    /// Indices of chips taken out of the pattern.
    pub removed: Vec<usize>,
    pub seed: Option<u32>,
    pub grammar: Option<u8>,
    pub border_seed: Option<u32>,
    pub border_version: Option<u8>,
    pub traditional: Option<bool>,
}

/// The border rhythm a pattern's choices name.
pub open spec fn border_name_spec(traditional: Option<bool>, border_version: Option<u8>, border_seed: u32) -> Seq<char> {
    if traditional == Some(true) {
        seq!["Linked petals"@, "Alternating fans"@, "Curved facet chain"@][(border_seed % 3) as int]
    } else if border_version == Some(1u8) {
        seq![
            "Diamond chain"@,
            "Paired chevrons"@,
            "Braided band"@,
            "Alternating rosettes"@,
            "Stepped ribbon"@,
            "Paired fans"@,
        ][(border_seed % 6) as int]
    } else {
        "Earlier border (vary to update)"@
    }
}

impl ChipChoices {
    pub open spec fn seed_spec(&self) -> u32 {
        match self.seed {
            Some(s) => s,
            None => DEFAULT_CHIP_SEED,
        }
    }

    pub open spec fn border_seed_spec(&self) -> u32 {
        match self.border_seed {
            Some(s) => s,
            None => self.seed_spec(),
        }
    }

    /// A new star pattern of six chips with the current construction rules.
    pub fn new() -> (r: ChipChoices)
        ensures
            r.family == ChipFamily::Star,
            r.count == 6,
            r.removed@.len() == 0,
            r.seed == Some(DEFAULT_CHIP_SEED),
            r.grammar == Some(2u8),
            r.border_seed == None::<u32>,
            r.border_version == Some(1u8),
            r.traditional == Some(true),
    {
        ChipChoices {
            family: ChipFamily::Star,
            count: 6,
            removed: Vec::new(),
            seed: Some(DEFAULT_CHIP_SEED),
            grammar: Some(2),
            border_seed: None,
            border_version: Some(1),
            traditional: Some(true),
        }
    }

    pub fn seed(&self) -> (r: u32)
        ensures
            r == self.seed_spec(),
    {
        match self.seed {
            Some(s) => s,
            None => DEFAULT_CHIP_SEED,
        }
    }

    pub fn border_seed(&self) -> (r: u32)
        ensures
            r == self.border_seed_spec(),
    {
        match self.border_seed {
            Some(s) => s,
            None => self.seed(),
        }
    }

    /// Name of the current border rhythm.
    pub fn border_name(&self) -> (r: &'static str)
        ensures
            r@ == border_name_spec(self.traditional, self.border_version, self.border_seed_spec()),
    {
        let bs = self.border_seed();
        if self.traditional == Some(true) {
            let k = bs % 3;
            if k == 0 {
                "Linked petals"
            } else if k == 1 {
                "Alternating fans"
            } else {
                "Curved facet chain"
            }
        } else if self.border_version == Some(1) {
            let names = BORDER_NAMES;
            let name = names[(bs % 6) as usize];
            proof {
                assert(names@ =~= seq!["Diamond chain", "Paired chevrons", "Braided band", "Alternating rosettes", "Stepped ribbon", "Paired fans"]);
            }
            name
        } else {
            "Earlier border (vary to update)"
        }
    }

    /// Which construction draws the pattern; `has_grid` tells whether the
    /// pattern is laid out on a grid step.
    pub fn construction(&self, has_grid: bool) -> (r: Construction)
        ensures
            r == (if !has_grid {
                Construction::Gridless
            } else if self.traditional == Some(true) {
                Construction::Traditional
            } else if self.grammar == Some(2u8) {
                Construction::Composed
            } else {
                Construction::Tiled
            }),
    {
        if !has_grid {
            Construction::Gridless
        } else if self.traditional == Some(true) {
            Construction::Traditional
        } else if self.grammar == Some(2) {
            Construction::Composed
        } else {
            Construction::Tiled
        }
    }

    /// A fresh generation with the current construction rules: same family,
    /// count and seeds, no removed chips (the caller also clears hand edits
    /// and fixes the grid step).
    pub fn regenerated(&self) -> (r: ChipChoices)
        ensures
            r.family == self.family,
            r.count == self.count,
            r.seed == self.seed,
            r.border_seed == self.border_seed,
            r.removed@.len() == 0,
            r.traditional == Some(true),
            r.grammar == Some(2u8),
            r.border_version == Some(1u8),
    {
        ChipChoices {
            family: self.family,
            count: self.count,
            removed: Vec::new(),
            seed: self.seed,
            grammar: Some(2),
            border_seed: self.border_seed,
            border_version: Some(1),
            traditional: Some(true),
        }
    }

    /// The sector construction's choices: petal count, centre style (0 plain
    /// lens, 1 lens from a hub, 2 split facets) and border rhythm.
    pub fn traditional_plan(&self) -> (r: (u32, u32, u32))
        ensures
            r.0 == seq![6u32, 8u32, 10u32, 12u32][(self.seed_spec() % 4) as int],
            r.1 == (self.seed_spec() / 4) % 3,
            r.2 == self.border_seed_spec() % 3,
    {
        let seed = self.seed();
        let k = seed % 4;
        let petals: u32 = if k == 0 {
            6
        } else if k == 1 {
            8
        } else if k == 2 {
            10
        } else {
            12
        };
        (petals, (seed / 4) % 3, self.border_seed() % 3)
    }

    /// The composed grammar's first three seeded choices: the border style
    /// (of 3), the repeat pitch (2 or 3) and the heart (of 3).
    pub fn compose_plan(&self) -> (r: (u32, u32, u32))
        ensures
            r.0 == scaled_draw(mulberry_draw(self.seed_spec(), 0), 3),
            r.1 == 2 + scaled_draw(mulberry_draw(self.seed_spec(), 1), 2),
            r.2 == scaled_draw(mulberry_draw(self.seed_spec(), 2), 3),
            r.0 < 3 && 2 <= r.1 < 4 && r.2 < 3,
    {
        let seed = self.seed();
        let mut rng = Mulberry(seed);
        proof {
            lemma_mulberry_after_step(seed, 0);
            lemma_mulberry_after_step(seed, 1);
            lemma_mulberry_after_step(seed, 2);
        }
        let style = rng.below(3);
        let pitch = 2 + rng.below(2);
        let heart = rng.below(3);
        (style, pitch, heart)
    }

    /// Whether a selected chip stays selected once `regions` chips are
    /// generated: it must still exist and not be removed.
    pub fn keeps_selection(&self, selected: usize, regions: usize) -> (r: bool)
        ensures
            r == (selected < regions && !self.removed@.contains(selected)),
    {
        selected < regions && !crate::links::contains_index(&self.removed, selected)
    }

    /// Takes chip `i` out of the pattern.
    pub fn remove_chip(&mut self, i: usize)
        ensures
            final(self).removed@ == old(self).removed@.push(i),
            final(self).family == old(self).family,
            final(self).count == old(self).count,
            final(self).seed == old(self).seed,
            final(self).grammar == old(self).grammar,
            final(self).border_seed == old(self).border_seed,
            final(self).border_version == old(self).border_version,
            final(self).traditional == old(self).traditional,
    {
        self.removed.push(i);
    }

    /// Indices of the chips still shown among `regions` generated ones, in order.
    pub fn visible(&self, regions: usize) -> (r: Vec<usize>)
        ensures
            r@ == Seq::new(regions as nat, |i: int| i as usize).filter(|i: usize| !self.removed@.contains(i)),
    {
        let ghost all = Seq::new(regions as nat, |i: int| i as usize);
        let ghost keep = |i: usize| !self.removed@.contains(i);
        let mut out: Vec<usize> = Vec::new();
        let mut i: usize = 0;
        while i < regions
            invariant
                i <= regions,
                all == Seq::new(regions as nat, |i: int| i as usize),
                keep == (|i: usize| !self.removed@.contains(i)),
                out@ == all.take(i as int).filter(keep),
            decreases regions - i,
        {
            proof {
                assert(all.take(i + 1) =~= all.take(i as int).push(i));
                all.take(i as int).lemma_filter_push(i, keep);
            }
            if !crate::links::contains_index(&self.removed, i) {
                out.push(i);
            }
            i = i + 1;
        }
        assert(all.take(regions as int) =~= all);
        out
    }

    /// How many chips are still shown among `regions` generated ones.
    pub fn chip_count(&self, regions: usize) -> (r: usize)
        ensures
            r == Seq::new(regions as nat, |i: int| i as usize).filter(|i: usize| !self.removed@.contains(i)).len(),
    {
        self.visible(regions).len()
    }
}

/// The editing handles of a chip outline with `len` points: a sampled
/// curved piece (21 or 42 points) gets Start, Middle and End handles at
/// points 0, 10 and 20; a straight piece gets one handle per corner,
/// labelled from 1.
pub open spec fn handle_slots_spec(len: nat) -> Seq<(usize, Seq<char>)> {
    if len == 21 || len == 42 {
        seq![(0usize, "Start"@), (10usize, "Middle"@), (20usize, "End"@)]
    } else {
        Seq::new(len, |i: int| (i as usize, "Corner "@ + decimal_text((i + 1) as nat)))
    }
}

/// The handles of a chip outline: a curved piece sampled in 21 or 42 points
/// (its first curve being points 0 to 20) gets three handles on that first
/// curve, Start at its first point 0, Middle at its middle point 10 and End
/// at its last point 20; any other piece gets one handle per corner, the
/// handle of corner `k` moving point `k`. Every handle moves a point of the
/// piece, and no two handles move the same point.
pub proof fn handles_sit_on_the_piece(len: nat)
    requires
        len <= usize::MAX,
    ensures
        forall|k: int| 0 <= k < handle_slots_spec(len).len() ==> #[trigger] handle_slots_spec(len)[k].0 < len,
        forall|k: int, m: int|
            0 <= k < m < handle_slots_spec(len).len() ==> #[trigger] handle_slots_spec(len)[k].0
                != #[trigger] handle_slots_spec(len)[m].0,
        len == 21 || len == 42 ==> handle_slots_spec(len).len() == 3 && handle_slots_spec(len)[0].0 == 0
            && handle_slots_spec(len)[0].1 == "Start"@ && handle_slots_spec(len)[1].0 == 10
            && handle_slots_spec(len)[1].1 == "Middle"@ && handle_slots_spec(len)[2].0 == 20
            && handle_slots_spec(len)[2].1 == "End"@,
        len != 21 && len != 42 ==> handle_slots_spec(len).len() == len && forall|k: int|
            0 <= k < len ==> #[trigger] handle_slots_spec(len)[k].0 == k && handle_slots_spec(len)[k].1 == "Corner "@
                + decimal_text((k + 1) as nat),
{
    let h = handle_slots_spec(len);
    if len != 21 && len != 42 {
        assert forall|k: int| 0 <= k < len implies #[trigger] h[k].0 == k by {
            assert(h[k].0 == k as usize);
        }
    }
}

/// The handles offered for editing a chip outline of `len` points: the
/// point each handle moves and its label.
pub fn handle_slots(len: usize) -> (r: Vec<(usize, String)>)
    ensures
        r@.len() == handle_slots_spec(len as nat).len(),
        forall|k: int| 0 <= k < r@.len() ==> (#[trigger] r@[k]).0 == handle_slots_spec(len as nat)[k].0
            && r@[k].1@ == handle_slots_spec(len as nat)[k].1,
{
    let mut out: Vec<(usize, String)> = Vec::new();
    if len == 21 || len == 42 {
        out.push((0, String::from_str("Start")));
        out.push((10, String::from_str("Middle")));
        out.push((20, String::from_str("End")));
        return out;
    }
    let mut i: usize = 0;
    while i < len
        invariant
            i <= len,
            len != 21 && len != 42,
            out@.len() == i,
            forall|k: int| 0 <= k < i ==> (#[trigger] out@[k]).0 == handle_slots_spec(len as nat)[k].0
                && out@[k].1@ == handle_slots_spec(len as nat)[k].1,
        decreases len - i,
    {
        let mut label = String::from_str("Corner ");
        let number = index_text(i + 1);
        label.append(number.as_str());
        out.push((i, label));
        i = i + 1;
    }
    out
}

} // verus!
