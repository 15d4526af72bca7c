use scroll_core::chip::ChipChoices;
use scroll_core::compose::{centre_inner, compose_chips};
use scroll_core::names::ChipFamily;

fn choices(family: ChipFamily, seed: u32, border_seed: Option<u32>, border_version: u8) -> ChipChoices {
    ChipChoices {
        family,
        count: 6,
        removed: vec![],
        seed: Some(seed),
        grammar: Some(2),
        border_seed,
        border_version: Some(border_version),
        traditional: Some(false),
    }
}

/// The centre's proportions, read in floating point as the pattern does.
fn floors(s: &ChipChoices, cells: i64) -> (i64, i64, i64) {
    let inner = centre_inner(cells) as f64;
    let heart = s.compose_plan().2;
    let k = if heart == 2 { 0.7 } else { 0.8 };
    ((inner * 0.47).floor() as i64, (inner * 0.16).floor() as i64, (inner * k).floor() as i64)
}

fn grid_cells(size: f64, step: f64) -> i64 {
    (size / step).floor() as i64
}

#[test]
fn star_pattern_with_seeded_border() {
    let s = choices(ChipFamily::Star, 1248, None, 1);
    let cells = grid_cells(100.0, 5.0);
    let want: Vec<Vec<(i64, i64)>> = vec![
        vec![(4, 2), (6, 1), (8, 2), (6, 4)],
        vec![(18, 4), (19, 6), (18, 8), (16, 6)],
        vec![(16, 18), (14, 19), (12, 18), (14, 16)],
        vec![(2, 16), (1, 14), (2, 12), (4, 14)],
        vec![(8, 2), (9, 1), (10, 2), (9, 3)],
        vec![(18, 8), (19, 9), (18, 10), (17, 9)],
        vec![(12, 18), (11, 19), (10, 18), (11, 17)],
        vec![(2, 12), (1, 11), (2, 10), (3, 11)],
        vec![(10, 2), (12, 1), (14, 2), (12, 4)],
        vec![(18, 10), (19, 12), (18, 14), (16, 12)],
        vec![(10, 18), (8, 19), (6, 18), (8, 16)],
        vec![(2, 10), (1, 8), (2, 6), (4, 8)],
        vec![(14, 2), (15, 1), (16, 2), (15, 3)],
        vec![(18, 14), (19, 15), (18, 16), (17, 15)],
        vec![(6, 18), (5, 19), (4, 18), (5, 17)],
        vec![(2, 6), (1, 5), (2, 4), (3, 5)],
        vec![(1, 2), (2, 1), (3, 2), (2, 3)],
        vec![(18, 1), (19, 2), (18, 3), (17, 2)],
        vec![(19, 18), (18, 19), (17, 18), (18, 17)],
        vec![(2, 19), (1, 18), (2, 17), (3, 18)],
        vec![(2, 3), (3, 2), (4, 3), (3, 4)],
        vec![(17, 2), (18, 3), (17, 4), (16, 3)],
        vec![(18, 17), (17, 18), (16, 17), (17, 16)],
        vec![(3, 18), (2, 17), (3, 16), (4, 17)],
        vec![(10, 10), (9, 8), (10, 6)],
        vec![(10, 10), (12, 9), (14, 10)],
        vec![(10, 10), (11, 12), (10, 14)],
        vec![(10, 10), (8, 11), (6, 10)],
        vec![(10, 10), (10, 6), (11, 8)],
        vec![(10, 10), (14, 10), (12, 11)],
        vec![(10, 10), (10, 14), (9, 12)],
        vec![(10, 10), (6, 10), (8, 9)],
        vec![(9, 9), (8, 9), (6, 6)],
        vec![(11, 9), (11, 8), (14, 6)],
        vec![(11, 11), (12, 11), (14, 14)],
        vec![(9, 11), (9, 12), (6, 14)],
        vec![(9, 9), (6, 6), (9, 8)],
        vec![(11, 9), (14, 6), (12, 9)],
        vec![(11, 11), (14, 14), (11, 12)],
        vec![(9, 11), (6, 14), (8, 11)],
    ];
    assert_eq!(compose_chips(&s, cells, floors(&s, cells)), want);
}

#[test]
fn rosette_with_seeded_border() {
    let s = choices(ChipFamily::Rosette, 7, None, 1);
    let cells = grid_cells(100.0, 5.0);
    let want: Vec<Vec<(i64, i64)>> = vec![
        vec![(4, 1), (6, 1), (8, 3), (6, 3)],
        vec![(19, 4), (19, 6), (17, 8), (17, 6)],
        vec![(16, 19), (14, 19), (12, 17), (14, 17)],
        vec![(1, 16), (1, 14), (3, 12), (3, 14)],
        vec![(6, 4), (8, 2), (10, 2), (8, 4)],
        vec![(16, 6), (18, 8), (18, 10), (16, 8)],
        vec![(14, 16), (12, 18), (10, 18), (12, 16)],
        vec![(4, 14), (2, 12), (2, 10), (4, 12)],
        vec![(10, 1), (12, 1), (14, 3), (12, 3)],
        vec![(19, 10), (19, 12), (17, 14), (17, 12)],
        vec![(10, 19), (8, 19), (6, 17), (8, 17)],
        vec![(1, 10), (1, 8), (3, 6), (3, 8)],
        vec![(12, 4), (14, 2), (16, 2), (14, 4)],
        vec![(16, 12), (18, 14), (18, 16), (16, 14)],
        vec![(8, 16), (6, 18), (4, 18), (6, 16)],
        vec![(4, 8), (2, 6), (2, 4), (4, 6)],
        vec![(1, 2), (2, 1), (3, 2), (2, 3)],
        vec![(18, 1), (19, 2), (18, 3), (17, 2)],
        vec![(19, 18), (18, 19), (17, 18), (18, 17)],
        vec![(2, 19), (1, 18), (2, 17), (3, 18)],
        vec![(2, 3), (3, 2), (4, 3), (3, 4)],
        vec![(17, 2), (18, 3), (17, 4), (16, 3)],
        vec![(18, 17), (17, 18), (16, 17), (17, 16)],
        vec![(3, 18), (2, 17), (3, 16), (4, 17)],
        vec![(10, 10), (9, 8), (10, 5), (11, 8)],
        vec![(10, 10), (12, 9), (15, 10), (12, 11)],
        vec![(10, 10), (11, 12), (10, 15), (9, 12)],
        vec![(10, 10), (8, 11), (5, 10), (8, 9)],
        vec![(10, 10), (12, 9), (12, 8), (11, 8)],
        vec![(10, 10), (11, 12), (12, 12), (12, 11)],
        vec![(10, 10), (8, 11), (8, 12), (9, 12)],
        vec![(10, 10), (9, 8), (8, 8), (8, 9)],
    ];
    assert_eq!(compose_chips(&s, cells, floors(&s, cells)), want);
}

#[test]
fn border_frame_with_earlier_border() {
    let s = choices(ChipFamily::Border, 3, Some(9), 0);
    let cells = grid_cells(100.0, 5.0);
    let want: Vec<Vec<(i64, i64)>> = vec![
        vec![(3, 2), (4, 1), (5, 2), (4, 3)],
        vec![(18, 3), (19, 4), (18, 5), (17, 4)],
        vec![(17, 18), (16, 19), (15, 18), (16, 17)],
        vec![(2, 17), (1, 16), (2, 15), (3, 16)],
        vec![(5, 2), (6, 1), (7, 2), (6, 3)],
        vec![(18, 5), (19, 6), (18, 7), (17, 6)],
        vec![(15, 18), (14, 19), (13, 18), (14, 17)],
        vec![(2, 15), (1, 14), (2, 13), (3, 14)],
        vec![(7, 2), (8, 1), (9, 2), (8, 3)],
        vec![(18, 7), (19, 8), (18, 9), (17, 8)],
        vec![(13, 18), (12, 19), (11, 18), (12, 17)],
        vec![(2, 13), (1, 12), (2, 11), (3, 12)],
        vec![(9, 2), (10, 1), (11, 2), (10, 3)],
        vec![(18, 9), (19, 10), (18, 11), (17, 10)],
        vec![(11, 18), (10, 19), (9, 18), (10, 17)],
        vec![(2, 11), (1, 10), (2, 9), (3, 10)],
        vec![(11, 2), (12, 1), (13, 2), (12, 3)],
        vec![(18, 11), (19, 12), (18, 13), (17, 12)],
        vec![(9, 18), (8, 19), (7, 18), (8, 17)],
        vec![(2, 9), (1, 8), (2, 7), (3, 8)],
        vec![(13, 2), (14, 1), (15, 2), (14, 3)],
        vec![(18, 13), (19, 14), (18, 15), (17, 14)],
        vec![(7, 18), (6, 19), (5, 18), (6, 17)],
        vec![(2, 7), (1, 6), (2, 5), (3, 6)],
        vec![(15, 2), (16, 1), (17, 2), (16, 3)],
        vec![(18, 15), (19, 16), (18, 17), (17, 16)],
        vec![(5, 18), (4, 19), (3, 18), (4, 17)],
        vec![(2, 5), (1, 4), (2, 3), (3, 4)],
        vec![(1, 2), (2, 1), (3, 2), (2, 3)],
        vec![(18, 1), (19, 2), (18, 3), (17, 2)],
        vec![(19, 18), (18, 19), (17, 18), (18, 17)],
        vec![(2, 19), (1, 18), (2, 17), (3, 18)],
    ];
    assert_eq!(compose_chips(&s, cells, floors(&s, cells)), want);
}

#[test]
fn rosette_ring_with_earlier_border() {
    let s = choices(ChipFamily::Rosette, 42, None, 0);
    let cells = grid_cells(60.0, 2.0);
    let want: Vec<Vec<(i64, i64)>> = vec![
        vec![(3, 3), (4, 1), (5, 3)],
        vec![(27, 3), (29, 4), (27, 5)],
        vec![(27, 27), (26, 29), (25, 27)],
        vec![(3, 27), (1, 26), (3, 25)],
        vec![(5, 3), (6, 1), (7, 3)],
        vec![(27, 5), (29, 6), (27, 7)],
        vec![(25, 27), (24, 29), (23, 27)],
        vec![(3, 25), (1, 24), (3, 23)],
        vec![(7, 3), (8, 1), (9, 3)],
        vec![(27, 7), (29, 8), (27, 9)],
        vec![(23, 27), (22, 29), (21, 27)],
        vec![(3, 23), (1, 22), (3, 21)],
        vec![(9, 3), (10, 1), (11, 3)],
        vec![(27, 9), (29, 10), (27, 11)],
        vec![(21, 27), (20, 29), (19, 27)],
        vec![(3, 21), (1, 20), (3, 19)],
        vec![(11, 3), (12, 1), (13, 3)],
        vec![(27, 11), (29, 12), (27, 13)],
        vec![(19, 27), (18, 29), (17, 27)],
        vec![(3, 19), (1, 18), (3, 17)],
        vec![(13, 3), (14, 1), (15, 3)],
        vec![(27, 13), (29, 14), (27, 15)],
        vec![(17, 27), (16, 29), (15, 27)],
        vec![(3, 17), (1, 16), (3, 15)],
        vec![(15, 3), (16, 1), (17, 3)],
        vec![(27, 15), (29, 16), (27, 17)],
        vec![(15, 27), (14, 29), (13, 27)],
        vec![(3, 15), (1, 14), (3, 13)],
        vec![(17, 3), (18, 1), (19, 3)],
        vec![(27, 17), (29, 18), (27, 19)],
        vec![(13, 27), (12, 29), (11, 27)],
        vec![(3, 13), (1, 12), (3, 11)],
        vec![(19, 3), (20, 1), (21, 3)],
        vec![(27, 19), (29, 20), (27, 21)],
        vec![(11, 27), (10, 29), (9, 27)],
        vec![(3, 11), (1, 10), (3, 9)],
        vec![(21, 3), (22, 1), (23, 3)],
        vec![(27, 21), (29, 22), (27, 23)],
        vec![(9, 27), (8, 29), (7, 27)],
        vec![(3, 9), (1, 8), (3, 7)],
        vec![(23, 3), (24, 1), (25, 3)],
        vec![(27, 23), (29, 24), (27, 25)],
        vec![(7, 27), (6, 29), (5, 27)],
        vec![(3, 7), (1, 6), (3, 5)],
        vec![(25, 3), (26, 1), (27, 3)],
        vec![(27, 25), (29, 26), (27, 27)],
        vec![(5, 27), (4, 29), (3, 27)],
        vec![(3, 5), (1, 4), (3, 3)],
        vec![(1, 2), (2, 1), (3, 2), (2, 3)],
        vec![(28, 1), (29, 2), (28, 3), (27, 2)],
        vec![(29, 28), (28, 29), (27, 28), (28, 27)],
        vec![(2, 29), (1, 28), (2, 27), (3, 28)],
        vec![(15, 15), (14, 11), (15, 5), (16, 11)],
        vec![(15, 15), (19, 14), (25, 15), (19, 16)],
        vec![(15, 15), (16, 19), (15, 25), (14, 19)],
        vec![(15, 15), (11, 16), (5, 15), (11, 14)],
        vec![(15, 15), (19, 14), (19, 11), (16, 11)],
        vec![(15, 15), (16, 19), (19, 19), (19, 16)],
        vec![(15, 15), (11, 16), (11, 19), (14, 19)],
        vec![(15, 15), (14, 11), (11, 11), (11, 14)],
        vec![(8, 6), (9, 7), (8, 8), (7, 7)],
        vec![(24, 8), (23, 9), (22, 8), (23, 7)],
        vec![(22, 24), (21, 23), (22, 22), (23, 23)],
        vec![(6, 22), (7, 21), (8, 22), (7, 23)],
        vec![(20, 6), (21, 7), (20, 8), (19, 7)],
        vec![(24, 20), (23, 21), (22, 20), (23, 19)],
        vec![(10, 24), (9, 23), (10, 22), (11, 23)],
        vec![(6, 10), (7, 9), (8, 10), (7, 11)],
    ];
    assert_eq!(compose_chips(&s, cells, floors(&s, cells)), want);
}

#[test]
fn small_star_with_earlier_border() {
    let s = choices(ChipFamily::Star, 5, None, 0);
    let cells = grid_cells(30.0, 5.0);
    let want: Vec<Vec<(i64, i64)>> = vec![
        vec![(3, 3), (2, 2), (3, 1)],
        vec![(3, 3), (4, 2), (5, 3)],
        vec![(3, 3), (4, 4), (3, 5)],
        vec![(3, 3), (2, 4), (1, 3)],
        vec![(3, 3), (3, 1), (4, 2)],
        vec![(3, 3), (5, 3), (4, 4)],
        vec![(3, 3), (3, 5), (2, 4)],
        vec![(3, 3), (1, 3), (2, 2)],
    ];
    assert_eq!(compose_chips(&s, cells, floors(&s, cells)), want);
}

#[test]
fn too_small_border_frame_is_empty() {
    let s = choices(ChipFamily::Border, 1, None, 0);
    let cells = grid_cells(10.0, 5.0);
    let want: Vec<Vec<(i64, i64)>> = Vec::<Vec<(i64, i64)>>::new();
    assert_eq!(compose_chips(&s, cells, floors(&s, cells)), want);
}

#[test]
fn centre_reach() {
    assert_eq!(centre_inner(0), 2);
    assert_eq!(centre_inner(20), 5);
    assert_eq!(centre_inner(30), 10);
    assert_eq!(centre_inner(31), 10);
}

fn quarter_turn(q: &[(i64, i64)], c: i64) -> Vec<(i64, i64)> {
    q.iter().map(|&(x, y)| (c - (y - c), c + (x - c))).collect()
}

#[test]
fn composed_patterns_are_fourfold_and_fit() {
    for family in [ChipFamily::Star, ChipFamily::Rosette, ChipFamily::Border] {
        for seed in [1u32, 7, 42, 1248, 99999] {
            for version in [0u8, 1] {
                for cells in [12i64, 20, 34, 40, 41] {
                    let s = choices(family, seed, None, version);
                    let chips = compose_chips(&s, cells, floors(&s, cells));
                    for q in &chips {
                        assert!(q.iter().all(|&(x, y)| 0 <= x && x <= cells && 0 <= y && y <= cells));
                        if cells % 2 == 0 {
                            assert!(chips.contains(&quarter_turn(q, cells / 2)));
                        }
                    }
                }
            }
        }
    }
}

#[test]
fn varying_the_border_keeps_the_centre() {
    for family in [ChipFamily::Star, ChipFamily::Rosette] {
        for version in [0u8, 1] {
            let cells = 30;
            let a = choices(family, 1248, Some(3), version);
            let b = choices(family, 1248, Some(4), version);
            let border_a = compose_chips(&choices(ChipFamily::Border, 1248, Some(3), version), cells, (0, 0, 0));
            let border_b = compose_chips(&choices(ChipFamily::Border, 1248, Some(4), version), cells, (0, 0, 0));
            let whole_a = compose_chips(&a, cells, floors(&a, cells));
            let whole_b = compose_chips(&b, cells, floors(&b, cells));
            assert!(!border_a.is_empty() && !border_b.is_empty());
            assert_eq!(&whole_a[..border_a.len()], &border_a[..]);
            assert_eq!(&whole_b[..border_b.len()], &border_b[..]);
            assert_eq!(&whole_a[border_a.len()..], &whole_b[border_b.len()..]);
            assert!(whole_a.len() > border_a.len());
        }
    }
}
