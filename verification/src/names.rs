//! The named choices of the tools: chip families, collar styles, scroll
//! constructions, interface themes, join engines, growth families and sides,
//! with the keys under which files and settings store them.
use vstd::prelude::*;
use crate::text::str_eq;
use vstd::string::*;

verus! {

/// Chip-carving pattern families.
#[derive(Clone, Copy, PartialEq, Eq, Debug, Structural)]
pub enum ChipFamily {
    Rosette,
    Star,
    Border,
}

/// The key a chip family is stored under.
pub open spec fn chip_family_key(f: ChipFamily) -> Seq<char> {
    match f {
        ChipFamily::Rosette => "rosette"@,
        ChipFamily::Star => "star"@,
        ChipFamily::Border => "border"@,
    }
}

/// The chip family stored under a key, if any.
pub open spec fn chip_family_of(k: Seq<char>) -> Option<ChipFamily> {
    if k == "rosette"@ {
        Some(ChipFamily::Rosette)
    } else if k == "star"@ {
        Some(ChipFamily::Star)
    } else if k == "border"@ {
        Some(ChipFamily::Border)
    } else {
        None
    }
}

/// The menu label of a chip family.
pub open spec fn chip_family_label(f: ChipFamily) -> Seq<char> {
    match f {
        ChipFamily::Star => "Faceted centre and running border"@,
        ChipFamily::Rosette => "Compass petals and running border"@,
        ChipFamily::Border => "Border frame"@,
    }
}

impl ChipFamily {
    pub fn key(self) -> (r: &'static str)
        ensures
            r@ == chip_family_key(self),
    {
        match self {
            ChipFamily::Rosette => "rosette",
            ChipFamily::Star => "star",
            ChipFamily::Border => "border",
        }
    }

    pub fn from_key(k: &str) -> (r: Option<ChipFamily>)
        ensures
            r == chip_family_of(k@),
    {
        if str_eq(k, "rosette") {
            Some(ChipFamily::Rosette)
        } else if str_eq(k, "star") {
            Some(ChipFamily::Star)
        } else if str_eq(k, "border") {
            Some(ChipFamily::Border)
        } else {
            None
        }
    }

    pub fn label(self) -> (r: &'static str)
        ensures
            r@ == chip_family_label(self),
    {
        match self {
            ChipFamily::Star => "Faceted centre and running border",
            ChipFamily::Rosette => "Compass petals and running border",
            ChipFamily::Border => "Border frame",
        }
    }
}

/// A chip family's key reads back as that family, and only a family's own key
/// reads back as it.
pub proof fn chip_family_key_round_trip(f: ChipFamily, k: Seq<char>)
    ensures
        chip_family_of(chip_family_key(f)) == Some(f),
        chip_family_of(k) == Some(f) ==> k == chip_family_key(f),
{
    reveal_strlit("rosette");
    reveal_strlit("star");
    reveal_strlit("border");
    assert("rosette"@.len() == 7 && "star"@.len() == 4 && "border"@.len() == 6);
}


/// Collar styles dressing the fork where one stem grows from another.
#[derive(Clone, Copy, PartialEq, Eq, Debug, Structural)]
pub enum CollarStyle {
    Axil,
    Split,
}

/// The id a collar style is stored under.
pub open spec fn collar_style_id(c: CollarStyle) -> Seq<char> {
    match c {
        CollarStyle::Axil => "axil"@,
        CollarStyle::Split => "split"@,
    }
}

/// The collar style stored under an id, if any.
pub open spec fn collar_style_of(k: Seq<char>) -> Option<CollarStyle> {
    if k == "axil"@ {
        Some(CollarStyle::Axil)
    } else if k == "split"@ {
        Some(CollarStyle::Split)
    } else {
        None
    }
}

impl CollarStyle {
    pub const ALL: [CollarStyle; 2] = [CollarStyle::Axil, CollarStyle::Split];

    pub fn id(self) -> (r: &'static str)
        ensures
            r@ == collar_style_id(self),
    {
        match self {
            CollarStyle::Axil => "axil",
            CollarStyle::Split => "split",
        }
    }

    pub fn name(self) -> (r: &'static str)
        ensures
            r@ == (match self {
                CollarStyle::Axil => "Axil leaf"@,
                CollarStyle::Split => "Split sheath"@,
            }),
    {
        match self {
            CollarStyle::Axil => "Axil leaf",
            CollarStyle::Split => "Split sheath",
        }
    }

    /// The first style in `ALL` whose id is `s`.
    pub fn from_id(s: &str) -> (r: Option<CollarStyle>)
        ensures
            r == collar_style_of(s@),
    {
        let all = CollarStyle::ALL;
        let mut i: usize = 0;
        while i < 2
            invariant
                all == CollarStyle::ALL,
                i <= 2,
                forall|j: int| 0 <= j < i ==> collar_style_id(#[trigger] all[j]) != s@,
            decreases 2 - i,
        {
            let c = all[i];
            if str_eq(c.id(), s) {
                proof {
                    collar_style_id_round_trip(c, s@);
                }
                return Some(c);
            }
            i = i + 1;
        }
        proof {
            assert(collar_style_id(all[0]) != s@);
            assert(collar_style_id(all[1]) != s@);
        }
        None
    }
}

/// A collar style's id reads back as that style, and only its own id does.
pub proof fn collar_style_id_round_trip(c: CollarStyle, k: Seq<char>)
    ensures
        collar_style_of(collar_style_id(c)) == Some(c),
        collar_style_of(k) == Some(c) <==> k == collar_style_id(c),
{
    reveal_strlit("axil");
    reveal_strlit("split");
    assert("axil"@.len() == 4 && "split"@.len() == 5);
}


/// The named scroll constructions.
#[derive(Clone, Copy, PartialEq, Eq, Debug, Structural)]
pub enum Skeleton {
    Single,
    ParentChild,
    SScroll,
    MirroredPair,
    RunningBorder,
    Fan,
    Corner,
}

impl Skeleton {
    pub const ALL: [Skeleton; 7] = [
        Skeleton::Single,
        Skeleton::ParentChild,
        Skeleton::SScroll,
        Skeleton::MirroredPair,
        Skeleton::RunningBorder,
        Skeleton::Fan,
        Skeleton::Corner,
    ];

    pub fn name(self) -> (r: &'static str)
        ensures
            r@ == (match self {
                Skeleton::Single => "Single scroll"@,
                Skeleton::ParentChild => "Parent and child"@,
                Skeleton::SScroll => "S-scroll"@,
                Skeleton::MirroredPair => "Mirrored pair"@,
                Skeleton::RunningBorder => "Running border"@,
                Skeleton::Fan => "Point of origin"@,
                Skeleton::Corner => "Corner"@,
            }),
    {
        match self {
            Skeleton::Single => "Single scroll",
            Skeleton::ParentChild => "Parent and child",
            Skeleton::SScroll => "S-scroll",
            Skeleton::MirroredPair => "Mirrored pair",
            Skeleton::RunningBorder => "Running border",
            Skeleton::Fan => "Point of origin",
            Skeleton::Corner => "Corner",
        }
    }

    pub fn detail(self) -> (r: &'static str)
        ensures
            r@ == (match self {
                Skeleton::Single => "One backbone rising into a volute: the original construction"@,
                Skeleton::ParentChild => "A main volute with a smaller scroll forking from its sweep"@,
                Skeleton::SScroll => "One stem, a volute at each end turning opposite ways"@,
                Skeleton::MirroredPair => "Two scrolls meeting at a centre bud"@,
                Skeleton::RunningBorder => "Scrolls chained along a band, each smaller than the last"@,
                Skeleton::Fan => "Scrolls fanning from one root, sized 100 / 66 / 33"@,
                Skeleton::Corner => "Two scrolls along the edges from a corner bud"@,
            }),
    {
        match self {
            Skeleton::Single => "One backbone rising into a volute: the original construction",
            Skeleton::ParentChild => "A main volute with a smaller scroll forking from its sweep",
            Skeleton::SScroll => "One stem, a volute at each end turning opposite ways",
            Skeleton::MirroredPair => "Two scrolls meeting at a centre bud",
            Skeleton::RunningBorder => "Scrolls chained along a band, each smaller than the last",
            Skeleton::Fan => "Scrolls fanning from one root, sized 100 / 66 / 33",
            Skeleton::Corner => "Two scrolls along the edges from a corner bud",
        }
    }

    /// The seed of the generator that varies this construction.
    pub fn design_seed(self, seed: u32) -> (r: u32)
        ensures
            r == crate::rng::add32(crate::rng::mul32(seed, 2654435761), self.index() as u32),
    {
        seed.wrapping_mul(2654435761).wrapping_add(self.index())
    }

    /// The construction's place in `ALL`, which also seeds its variations.
    pub open spec fn index_spec(self) -> u32 {
        match self {
            Skeleton::Single => 0,
            Skeleton::ParentChild => 1,
            Skeleton::SScroll => 2,
            Skeleton::MirroredPair => 3,
            Skeleton::RunningBorder => 4,
            Skeleton::Fan => 5,
            Skeleton::Corner => 6,
        }
    }

    #[verifier::when_used_as_spec(index_spec)]
    pub fn index(self) -> (r: u32)
        ensures
            r == self.index_spec(),
            r < 7,
            Skeleton::ALL[r as int] == self,
    {
        match self {
            Skeleton::Single => 0,
            Skeleton::ParentChild => 1,
            Skeleton::SScroll => 2,
            Skeleton::MirroredPair => 3,
            Skeleton::RunningBorder => 4,
            Skeleton::Fan => 5,
            Skeleton::Corner => 6,
        }
    }
}

/// The growth seed of the `i`-th backbone of a construction built from `seed`.
pub fn backbone_seed(seed: u32, i: u32) -> (r: u32)
    requires
        i * 7919 <= u32::MAX,
    ensures
        r == crate::rng::add32(seed, (i * 7919) as u32),
{
    seed.wrapping_add(i * 7919)
}

/// Interface themes.
#[derive(Clone, Copy, PartialEq, Eq, Debug, Structural)]
pub enum ThemeId {
    Graphite,
    Midnight,
    Slate,
    Studio,
    Paper,
    Sage,
}

/// The key a theme is saved under in the settings.
pub open spec fn theme_key(t: ThemeId) -> Seq<char> {
    match t {
        ThemeId::Graphite => "graphite"@,
        ThemeId::Midnight => "midnight"@,
        ThemeId::Slate => "slate"@,
        ThemeId::Studio => "studio"@,
        ThemeId::Paper => "paper"@,
        ThemeId::Sage => "sage"@,
    }
}

/// The theme saved under a key, if any.
pub open spec fn theme_of(k: Seq<char>) -> Option<ThemeId> {
    if k == "graphite"@ {
        Some(ThemeId::Graphite)
    } else if k == "midnight"@ {
        Some(ThemeId::Midnight)
    } else if k == "slate"@ {
        Some(ThemeId::Slate)
    } else if k == "studio"@ {
        Some(ThemeId::Studio)
    } else if k == "paper"@ {
        Some(ThemeId::Paper)
    } else if k == "sage"@ {
        Some(ThemeId::Sage)
    } else {
        None
    }
}

impl ThemeId {
    pub const ALL: [ThemeId; 6] = [
        ThemeId::Graphite,
        ThemeId::Midnight,
        ThemeId::Slate,
        ThemeId::Studio,
        ThemeId::Paper,
        ThemeId::Sage,
    ];

    pub fn key(self) -> (r: &'static str)
        ensures
            r@ == theme_key(self),
    {
        match self {
            ThemeId::Graphite => "graphite",
            ThemeId::Midnight => "midnight",
            ThemeId::Slate => "slate",
            ThemeId::Studio => "studio",
            ThemeId::Paper => "paper",
            ThemeId::Sage => "sage",
        }
    }

    pub fn from_key(k: &str) -> (r: Option<ThemeId>)
        ensures
            r == theme_of(k@),
    {
        if str_eq(k, "graphite") {
            Some(ThemeId::Graphite)
        } else if str_eq(k, "midnight") {
            Some(ThemeId::Midnight)
        } else if str_eq(k, "slate") {
            Some(ThemeId::Slate)
        } else if str_eq(k, "studio") {
            Some(ThemeId::Studio)
        } else if str_eq(k, "paper") {
            Some(ThemeId::Paper)
        } else if str_eq(k, "sage") {
            Some(ThemeId::Sage)
        } else {
            None
        }
    }
}

/// A theme's key reads back as that theme, and only its own key does.
pub proof fn theme_key_round_trip(t: ThemeId, k: Seq<char>)
    ensures
        theme_of(theme_key(t)) == Some(t),
        theme_of(k) == Some(t) <==> k == theme_key(t),
{
    reveal_strlit("graphite");
    reveal_strlit("midnight");
    reveal_strlit("slate");
    reveal_strlit("studio");
    reveal_strlit("paper");
    reveal_strlit("sage");
    assert("graphite"@[0] != "midnight"@[0]);
    assert("slate"@[0] != "paper"@[0]);
    assert("graphite"@.len() == 8 && "midnight"@.len() == 8 && "slate"@.len() == 5);
    assert("studio"@.len() == 6 && "paper"@.len() == 5 && "sage"@.len() == 4);
}

/// The root-join drawing engines.
#[derive(Clone, Copy, PartialEq, Eq, Debug, Structural)]
pub enum Joins {
    Classic,
    Smooth,
    Exact,
}

/// The key a join engine is saved under in the settings.
pub open spec fn joins_key(j: Joins) -> Seq<char> {
    match j {
        Joins::Classic => "classic"@,
        Joins::Smooth => "smooth"@,
        Joins::Exact => "exact"@,
    }
}

/// The join engine saved under a key, if any.
pub open spec fn joins_of(k: Seq<char>) -> Option<Joins> {
    if k == "classic"@ {
        Some(Joins::Classic)
    } else if k == "smooth"@ {
        Some(Joins::Smooth)
    } else if k == "exact"@ {
        Some(Joins::Exact)
    } else {
        None
    }
}

impl Joins {
    pub fn key(self) -> (r: &'static str)
        ensures
            r@ == joins_key(self),
    {
        match self {
            Joins::Classic => "classic",
            Joins::Smooth => "smooth",
            Joins::Exact => "exact",
        }
    }

    pub fn from_key(k: &str) -> (r: Option<Joins>)
        ensures
            r == joins_of(k@),
    {
        if str_eq(k, "classic") {
            Some(Joins::Classic)
        } else if str_eq(k, "smooth") {
            Some(Joins::Smooth)
        } else if str_eq(k, "exact") {
            Some(Joins::Exact)
        } else {
            None
        }
    }
}

/// A join engine's key reads back as that engine, and only its own key does.
pub proof fn joins_key_round_trip(j: Joins, k: Seq<char>)
    ensures
        joins_of(joins_key(j)) == Some(j),
        joins_of(k) == Some(j) <==> k == joins_key(j),
{
    reveal_strlit("classic");
    reveal_strlit("smooth");
    reveal_strlit("exact");
    assert("classic"@.len() == 7 && "smooth"@.len() == 6 && "exact"@.len() == 5);
}

/// Tabs of the chip workspace's side panel.
#[derive(Clone, Copy, PartialEq, Eq, Debug, Structural)]
pub enum ChipTab {
    Generate,
    Presets,
    Theme,
}

/// Which way a backbone's shoots turn.
#[derive(Clone, Copy, PartialEq, Eq, Debug, Structural)]
pub enum Side {
    Alternate,
    Left,
    Right,
}

/// The name a side is saved under in layout files.
pub open spec fn side_name_spec(s: Side) -> Seq<char> {
    match s {
        Side::Left => "left"@,
        Side::Right => "right"@,
        Side::Alternate => "alternate"@,
    }
}

/// The side a layout file's name stands for: anything but "left" or
/// "right" is alternate.
pub open spec fn side_of(k: Seq<char>) -> Side {
    if k == "left"@ {
        Side::Left
    } else if k == "right"@ {
        Side::Right
    } else {
        Side::Alternate
    }
}

pub fn side_name(s: Side) -> (r: &'static str)
    ensures
        r@ == side_name_spec(s),
{
    match s {
        Side::Left => "left",
        Side::Right => "right",
        Side::Alternate => "alternate",
    }
}

pub fn side_in(k: &str) -> (r: Side)
    ensures
        r == side_of(k@),
{
    if str_eq(k, "left") {
        Side::Left
    } else if str_eq(k, "right") {
        Side::Right
    } else {
        Side::Alternate
    }
}

/// A side's saved name reads back as that side.
pub proof fn side_name_round_trip(s: Side)
    ensures
        side_of(side_name_spec(s)) == s,
{
    reveal_strlit("left");
    reveal_strlit("right");
    reveal_strlit("alternate");
    assert("left"@.len() == 4 && "right"@.len() == 5 && "alternate"@.len() == 9);
}

/// The side a mirrored stem curls to: right becomes left, anything else right.
pub fn other(side: Side) -> (r: Side)
    ensures
        r == (if side == Side::Right { Side::Left } else { Side::Right }),
{
    if side == Side::Right {
        Side::Left
    } else {
        Side::Right
    }
}

/// The default side name of a layout file's growth settings.
pub fn alt() -> (r: &'static str)
    ensures
        r@ == "alternate"@,
{
    "alternate"
}

/// Whether a flag is off (layout files leave such flags out).
pub fn is_false(b: &bool) -> (r: bool)
    ensures
        r == !*b,
{
    !*b
}

/// Growth families.
#[derive(Clone, Copy, PartialEq, Eq, Debug, Structural)]
pub enum Family {
    Spiral,
    Spray,
    Border,
    Fan,
    Branching,
}

/// The name a growth family is saved under in layout files.
pub open spec fn family_key(f: Family) -> Seq<char> {
    match f {
        Family::Spiral => "spiral"@,
        Family::Spray => "spray"@,
        Family::Border => "border"@,
        Family::Fan => "fan"@,
        Family::Branching => "branching"@,
    }
}

/// The growth family saved under a name, if any.
pub open spec fn family_of(k: Seq<char>) -> Option<Family> {
    if k == "spiral"@ {
        Some(Family::Spiral)
    } else if k == "spray"@ {
        Some(Family::Spray)
    } else if k == "border"@ {
        Some(Family::Border)
    } else if k == "fan"@ {
        Some(Family::Fan)
    } else if k == "branching"@ {
        Some(Family::Branching)
    } else {
        None
    }
}

pub fn family_in(s: &str) -> (r: Option<Family>)
    ensures
        r == family_of(s@),
{
    if str_eq(s, "spiral") {
        Some(Family::Spiral)
    } else if str_eq(s, "spray") {
        Some(Family::Spray)
    } else if str_eq(s, "border") {
        Some(Family::Border)
    } else if str_eq(s, "fan") {
        Some(Family::Fan)
    } else if str_eq(s, "branching") {
        Some(Family::Branching)
    } else {
        None
    }
}

pub fn family_name(f: Family) -> (r: &'static str)
    ensures
        r@ == family_key(f),
{
    match f {
        Family::Spiral => "spiral",
        Family::Spray => "spray",
        Family::Border => "border",
        Family::Fan => "fan",
        Family::Branching => "branching",
    }
}

/// The label a growth family is shown under.
pub fn family_label(f: Family) -> (r: &'static str)
    ensures
        r@ == (match f {
            Family::Spiral => "Enclosing spiral"@,
            Family::Branching => "Branching scroll"@,
            Family::Border => "Rolling border"@,
            Family::Spray => "Flowing spray"@,
            Family::Fan => "Fan flourish"@,
        }),
{
    match f {
        Family::Spiral => "Enclosing spiral",
        Family::Branching => "Branching scroll",
        Family::Border => "Rolling border",
        Family::Spray => "Flowing spray",
        Family::Fan => "Fan flourish",
    }
}

/// A growth family's saved name reads back as that family, and only its own
/// name does.
pub proof fn family_name_round_trip(f: Family, k: Seq<char>)
    ensures
        family_of(family_key(f)) == Some(f),
        family_of(k) == Some(f) <==> k == family_key(f),
{
    reveal_strlit("spiral");
    reveal_strlit("spray");
    reveal_strlit("border");
    reveal_strlit("fan");
    reveal_strlit("branching");
    assert("spiral"@.len() == 6 && "spray"@.len() == 5 && "border"@.len() == 6);
    assert("fan"@.len() == 3 && "branching"@.len() == 9);
    assert("spiral"@[0] != "border"@[0]);
}

/// Roles of grown parts.
#[derive(Clone, Copy, PartialEq, Eq, Debug, Structural)]
pub enum Kind {
    Backbone,
    Primary,
    Secondary,
    Leaf,
}

/// Free transforms of a backbone.
#[derive(Clone, Copy, PartialEq, Eq, Debug, Structural)]
pub enum TransformKind {
    Move,
    Scale,
    Rotate,
}

/// Mirror axes.
#[derive(Clone, Copy, PartialEq, Eq, Debug, Structural)]
pub enum Axis {
    Horizontal,
    Vertical,
}

/// Ids of the terminal bud presets.
pub open spec fn is_bud_id(id: Seq<char>) -> bool {
    id == "bud-husk"@ || id == "bud-trefoil"@ || id == "bud-berries"@
}

/// Whether a preset id names one of the terminal buds.
pub fn is_bud(id: &str) -> (r: bool)
    ensures
        r == is_bud_id(id@),
{
    str_eq(id, "bud-husk") || str_eq(id, "bud-trefoil") || str_eq(id, "bud-berries")
}

/// The scroll window's title: the file's name (or "Untitled"), a dot while
/// there are unsaved changes, and the program's name.
pub fn window_title(file_stem: Option<&str>, dirty: bool) -> (r: String)
    ensures
        r@ == (match file_stem {
            Some(n) => n@,
            None => "Untitled"@,
        }) + (if dirty { " •"@ } else { ""@ }) + " — ScrollWorks"@,
{
    let mut out = match file_stem {
        Some(n) => String::from_str(n),
        None => String::from_str("Untitled"),
    };
    if dirty {
        out.append(" •");
    } else {
        out.append("");
    }
    out.append(" — ScrollWorks");
    out
}

/// The chip window's title: the file's name (or "Chip pattern") and the
/// program's name.
pub fn chip_window_title(file_stem: Option<&str>) -> (r: String)
    ensures
        r@ == (match file_stem {
            Some(n) => n@,
            None => "Chip pattern"@,
        }) + " — ScrollWorks"@,
{
    let mut out = match file_stem {
        Some(n) => String::from_str(n),
        None => String::from_str("Chip pattern"),
    };
    out.append(" — ScrollWorks");
    out
}

} // verus!
