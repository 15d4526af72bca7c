use scroll_core::names::{
    alt, family_in, family_label, family_name, is_bud, other, side_in, side_name, ChipFamily, CollarStyle, Family,
    Joins, Side, Skeleton, ThemeId,
};

#[test]
fn chip_family_keys_round_trip() {
    for f in [ChipFamily::Rosette, ChipFamily::Star, ChipFamily::Border] {
        assert_eq!(ChipFamily::from_key(f.key()), Some(f));
    }
    assert_eq!(ChipFamily::Rosette.key(), "rosette");
    assert_eq!(ChipFamily::from_key("star"), Some(ChipFamily::Star));
    assert_eq!(ChipFamily::from_key("Star"), None);
    assert_eq!(ChipFamily::from_key(""), None);
    assert_eq!(ChipFamily::Star.label(), "Faceted centre and running border");
    assert_eq!(ChipFamily::Rosette.label(), "Compass petals and running border");
    assert_eq!(ChipFamily::Border.label(), "Border frame");
}

#[test]
fn collar_styles_by_id() {
    for c in CollarStyle::ALL {
        assert_eq!(CollarStyle::from_id(c.id()), Some(c));
    }
    assert_eq!(CollarStyle::from_id("split"), Some(CollarStyle::Split));
    assert_eq!(CollarStyle::from_id("cuff"), None);
    assert_eq!(CollarStyle::Axil.name(), "Axil leaf");
    assert_eq!(CollarStyle::Split.name(), "Split sheath");
}

#[test]
fn skeleton_names() {
    assert_eq!(Skeleton::ALL.len(), 7);
    assert_eq!(Skeleton::Fan.name(), "Point of origin");
    assert_eq!(Skeleton::Fan.detail(), "Scrolls fanning from one root, sized 100 / 66 / 33");
    for (i, s) in Skeleton::ALL.iter().enumerate() {
        assert_eq!(s.index() as usize, i);
    }
}

#[test]
fn theme_and_join_keys() {
    for t in ThemeId::ALL {
        assert_eq!(ThemeId::from_key(t.key()), Some(t));
    }
    assert_eq!(ThemeId::from_key("sage"), Some(ThemeId::Sage));
    assert_eq!(ThemeId::from_key("solarized"), None);
    for j in [Joins::Classic, Joins::Smooth, Joins::Exact] {
        assert_eq!(Joins::from_key(j.key()), Some(j));
    }
    assert_eq!(Joins::from_key("round"), None);
}

#[test]
fn sides_and_families() {
    assert_eq!(side_in("left"), Side::Left);
    assert_eq!(side_in("right"), Side::Right);
    assert_eq!(side_in("anything"), Side::Alternate);
    assert_eq!(side_name(Side::Alternate), "alternate");
    assert_eq!(alt(), "alternate");
    assert_eq!(other(Side::Right), Side::Left);
    assert_eq!(other(Side::Left), Side::Right);
    assert_eq!(other(Side::Alternate), Side::Right);
    for f in [Family::Spiral, Family::Spray, Family::Border, Family::Fan, Family::Branching] {
        assert_eq!(family_in(family_name(f)), Some(f));
    }
    assert_eq!(family_in("vine"), None);
    assert_eq!(family_label(Family::Fan), "Fan flourish");
}

#[test]
fn buds_are_known_by_id() {
    assert!(is_bud("bud-husk"));
    assert!(is_bud("bud-trefoil"));
    assert!(is_bud("bud-berries"));
    assert!(!is_bud("returning-leaf"));
    assert!(!is_bud("bud"));
}
