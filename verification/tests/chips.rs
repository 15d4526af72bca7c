use scroll_core::chip::{border_phrases, grid_medallion, handle_slots, ChipChoices, Construction, BORDER_NAMES};
use scroll_core::names::ChipFamily;

fn polys(v: &[&[(i64, i64)]]) -> Vec<Vec<(i64, i64)>> {
    v.iter().map(|p| p.to_vec()).collect()
}

#[test]
fn small_medallion_border_is_one_corner() {
    assert_eq!(border_phrases(2, 0), polys(&[&[(-2, -2), (-1, -2), (-2, -1)]]));
}

#[test]
fn border_phrases_for_depth_two() {
    assert_eq!(
        border_phrases(5, 1),
        polys(&[
            &[(-2, -5), (0, -5), (-1, -3)],
            &[(0, -3), (2, -3), (1, -5)],
            &[(-5, -4), (-4, -5), (-3, -4), (-4, -3)],
        ])
    );
}

#[test]
fn border_phrases_for_depth_three() {
    assert_eq!(
        border_phrases(9, 4),
        polys(&[
            &[(-6, -9), (-3, -9), (-3, -8), (-5, -8), (-5, -6), (-6, -6)],
            &[(-4, -6), (-1, -6), (-1, -7), (-3, -7), (-3, -8), (-4, -8)],
            &[(0, -9), (3, -9), (3, -8), (1, -8), (1, -6), (0, -6)],
            &[(2, -6), (5, -6), (5, -7), (3, -7), (3, -8), (2, -8)],
            &[(-9, -8), (-8, -9), (-7, -8), (-8, -7)],
            &[(-8, -7), (-7, -8), (-6, -7), (-7, -6)],
        ])
    );
    assert_eq!(border_phrases(20, 5).len(), 22);
}

#[test]
fn border_phrases_stay_in_the_band() {
    for radius in 1..40i64 {
        for seed in 0..12u32 {
            let depth = if radius >= 8 { 3 } else if radius >= 5 { 2 } else { 1 };
            for p in border_phrases(radius, seed) {
                for (x, y) in p {
                    assert!(-radius <= x && x <= radius, "r {radius} seed {seed}: x {x}");
                    assert!(-radius <= y && y <= -radius + depth, "r {radius} seed {seed}: y {y}");
                }
            }
        }
    }
}

#[test]
fn tiled_medallion_expected_chips() {
    assert_eq!(
        grid_medallion(14, 1248, ChipFamily::Star),
        polys(&[
            &[(1, 1), (5, 1), (3, 3)],
            &[(1, 5), (5, 5), (3, 3)],
            &[(7, 1), (9, 3), (7, 3)],
            &[(7, 5), (5, 3), (7, 3)],
            &[(13, 1), (9, 1), (11, 3)],
            &[(13, 5), (9, 5), (11, 3)],
            &[(3, 9), (1, 7), (3, 7)],
            &[(3, 5), (5, 7), (3, 7)],
            &[(5, 6), (7, 6), (6, 8)],
            &[(7, 6), (9, 6), (8, 8)],
            &[(11, 9), (13, 7), (11, 7)],
            &[(11, 5), (9, 7), (11, 7)],
            &[(1, 13), (5, 13), (3, 11)],
            &[(1, 9), (5, 9), (3, 11)],
            &[(7, 13), (9, 11), (7, 11)],
            &[(7, 9), (5, 11), (7, 11)],
            &[(13, 13), (9, 13), (11, 11)],
            &[(13, 9), (9, 9), (11, 11)],
        ])
    );
    assert_eq!(grid_medallion(30, 7, ChipFamily::Border).len(), 42);
    assert_eq!(grid_medallion(30, 7, ChipFamily::Rosette).len(), 124);
}

#[test]
fn tiled_medallion_needs_six_cells() {
    assert!(grid_medallion(5, 1, ChipFamily::Star).is_empty());
    assert!(grid_medallion(-3, 1, ChipFamily::Star).is_empty());
    assert!(!grid_medallion(6, 1, ChipFamily::Star).is_empty());
}

#[test]
fn tiled_medallion_is_mirror_symmetric() {
    let cells = 30i64;
    let n = (cells - 2) / 4;
    let offset = (cells - n * 4) / 2;
    let w = 2 * offset + 4 * n;
    let regions = grid_medallion(cells, 99, ChipFamily::Rosette);
    for p in &regions {
        let mirrored: Vec<(i64, i64)> = p.iter().map(|&(x, y)| (w - x, y)).collect();
        let centre = p.iter().all(|&(x, _)| 4 * (n / 2) + offset <= x && x <= 4 * (n / 2) + offset + 4);
        if n % 2 == 1 && centre {
            continue;
        }
        assert!(regions.contains(&mirrored), "{p:?} has no mirror image");
    }
}

#[test]
fn chip_choices_defaults_and_border_names() {
    let c = ChipChoices::new();
    assert_eq!(c.family, ChipFamily::Star);
    assert_eq!(c.count, 6);
    assert_eq!(c.seed(), 1248);
    assert_eq!(c.border_seed(), 1248);
    assert_eq!(c.border_name(), "Linked petals");
    let mut d = ChipChoices::new();
    d.traditional = None;
    d.border_seed = Some(5);
    assert_eq!(d.border_name(), BORDER_NAMES[5]);
    assert_eq!(d.border_name(), "Paired fans");
    d.border_version = None;
    assert_eq!(d.border_name(), "Earlier border (vary to update)");
    d.seed = None;
    d.border_seed = None;
    assert_eq!(d.border_seed(), 1248);
}

#[test]
fn constructions_by_choice() {
    let mut c = ChipChoices::new();
    assert_eq!(c.construction(false), Construction::Gridless);
    assert_eq!(c.construction(true), Construction::Traditional);
    c.traditional = Some(false);
    assert_eq!(c.construction(true), Construction::Composed);
    c.grammar = None;
    assert_eq!(c.construction(true), Construction::Tiled);
    let r = c.regenerated();
    assert_eq!(r.construction(true), Construction::Traditional);
    assert_eq!(r.grammar, Some(2));
    assert_eq!(r.border_version, Some(1));
}

#[test]
fn seeded_plans() {
    let mut c = ChipChoices::new();
    c.seed = Some(7);
    c.border_seed = Some(4);
    assert_eq!(c.traditional_plan(), (12, 1, 1));
    c.seed = Some(1248);
    let (style, pitch, heart) = c.compose_plan();
    // the generator's first three draws for seed 1248, scaled as floor(u * k / 2^32)
    assert_eq!(style, (1628519944u64 * 3 >> 32) as u32);
    assert_eq!(pitch, 2 + (1049130340u64 * 2 >> 32) as u32);
    assert_eq!(heart, (1828507633u64 * 3 >> 32) as u32);
}

#[test]
fn removed_chips_are_hidden() {
    let mut c = ChipChoices::new();
    c.remove_chip(1);
    c.remove_chip(3);
    assert_eq!(c.visible(5), vec![0, 2, 4]);
    assert_eq!(c.chip_count(5), 3);
    assert_eq!(c.chip_count(0), 0);
    assert!(c.keeps_selection(2, 5));
    assert!(!c.keeps_selection(3, 5));
    assert!(!c.keeps_selection(5, 5));
}

#[test]
fn chip_handles_for_curves_and_corners() {
    let curve: Vec<(usize, String)> = handle_slots(21);
    assert_eq!(curve, vec![(0, "Start".to_string()), (10, "Middle".to_string()), (20, "End".to_string())]);
    assert_eq!(handle_slots(42).len(), 3);
    let corners = handle_slots(4);
    assert_eq!(corners[0], (0, "Corner 1".to_string()));
    assert_eq!(corners[3], (3, "Corner 4".to_string()));
    assert_eq!(handle_slots(12)[11].1, "Corner 12");
}

#[test]
fn chip_choices_copy_keeps_removed_chips() {
    let mut a = ChipChoices::new();
    a.remove_chip(3);
    let b = a.clone();
    a.remove_chip(5);
    assert_eq!(b.removed, vec![3]);
    assert_eq!(a.removed, vec![3, 5]);
    assert_eq!(b.family, ChipFamily::Star);
}
