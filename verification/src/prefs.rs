//! Preferences kept between sessions as `key=value` lines: the theme, the
//! white page, the last workspace, the join engine, and two numbers (the
//! interface scale and the fillet radius) that the caller reads and writes.
use vstd::prelude::*;
use vstd::string::*;
use crate::ids::split_first;
use crate::names::{joins_key, joins_of, theme_key, theme_of, Joins, ThemeId};
use crate::text::{lines_of, str_eq, text_lines, trim, trimmed, without_cr};

verus! {

/// The discrete preferences.
#[derive(Clone, Copy, PartialEq, Eq, Debug, Structural)]
pub struct PrefChoices {
    pub theme: ThemeId,
    pub white_page: bool,
    /// The last workspace was the chip workspace.
    pub chip: bool,
    pub joins: Joins,
}

/// What one settings line asks for.
pub enum LineEffect {
    Theme(Option<ThemeId>),
    WhitePage(bool),
    Workspace(bool),
    Joins(Option<Joins>),
    /// The fillet radius, as written.
    Fillet(Seq<char>),
    /// The interface scale, as written.
    UiScale(Seq<char>),
    Other,
}

/// What a settings line leaves for the caller to read.
pub enum PrefLine {
    /// The line set (or kept) one of the choices, or was not understood.
    Done,
    /// A fillet radius to read.
    Fillet(String),
    /// An interface scale to read.
    UiScale(String),
}

/// How a settings line reads: `key=value`, both trimmed.
pub open spec fn line_effect(line: Seq<char>) -> LineEffect {
    match split_first(line, '=') {
        None => LineEffect::Other,
        Some(parts) => {
            let k = trimmed(parts.0);
            let v = trimmed(parts.1);
            if k == "theme"@ {
                LineEffect::Theme(theme_of(v))
            } else if k == "white_page"@ {
                LineEffect::WhitePage(v == "true"@)
            } else if k == "workspace"@ {
                LineEffect::Workspace(v == "chip"@)
            } else if k == "joins"@ {
                LineEffect::Joins(joins_of(v))
            } else if k == "fillet"@ {
                LineEffect::Fillet(v)
            } else if k == "ui_scale"@ {
                LineEffect::UiScale(v)
            } else {
                LineEffect::Other
            }
        },
    }
}

/// The choices after reading one settings line; an unknown theme or engine
/// leaves the choice as it was.
pub open spec fn apply_line_spec(p: PrefChoices, line: Seq<char>) -> PrefChoices {
    match line_effect(line) {
        LineEffect::Theme(Some(t)) => PrefChoices { theme: t, ..p },
        LineEffect::WhitePage(b) => PrefChoices { white_page: b, ..p },
        LineEffect::Workspace(b) => PrefChoices { chip: b, ..p },
        LineEffect::Joins(Some(j)) => PrefChoices { joins: j, ..p },
        _ => p,
    }
}

/// The choices after reading the lines in order.
pub open spec fn apply_lines_spec(p: PrefChoices, lines: Seq<Seq<char>>) -> PrefChoices
    decreases lines.len(),
{
    if lines.len() == 0 {
        p
    } else {
        apply_lines_spec(apply_line_spec(p, lines[0]), lines.drop_first())
    }
}

/// The lines the choices are saved as (the numbers go between them).
pub open spec fn choice_lines(p: PrefChoices) -> Seq<Seq<char>> {
    seq![
        "theme="@ + theme_key(p.theme),
        "white_page="@ + (if p.white_page { "true"@ } else { "false"@ }),
        "workspace="@ + (if p.chip { "chip"@ } else { "scroll"@ }),
        "joins="@ + joins_key(p.joins),
    ]
}

/// The settings file: the choices and the two numbers as written by the
/// caller, one `key=value` per line.
pub open spec fn settings_text(p: PrefChoices, ui_scale: Seq<char>, fillet: Seq<char>) -> Seq<char> {
    let l = choice_lines(p);
    l[0] + seq!['\n'] + l[1] + seq!['\n'] + "ui_scale="@ + ui_scale + seq!['\n'] + l[2] + seq!['\n'] + l[3]
        + seq!['\n'] + "fillet="@ + fillet + seq!['\n']
}

/// The lines of the settings file, in file order.
pub open spec fn settings_lines(p: PrefChoices, ui_scale: Seq<char>, fillet: Seq<char>) -> Seq<Seq<char>> {
    let l = choice_lines(p);
    seq![l[0], l[1], "ui_scale="@ + ui_scale, l[2], l[3], "fillet="@ + fillet]
}

/// The choices before any settings are read.
pub open spec fn default_choices() -> PrefChoices {
    PrefChoices { theme: ThemeId::Graphite, white_page: false, chip: false, joins: Joins::Exact }
}

/// What a line leaves for the caller, as the line's effect.
pub open spec fn pref_line_view(l: PrefLine) -> LineEffect {
    match l {
        PrefLine::Fillet(s) => LineEffect::Fillet(s@),
        PrefLine::UiScale(s) => LineEffect::UiScale(s@),
        PrefLine::Done => LineEffect::Other,
    }
}

/// Whether a line's effect is a number for the caller to read.
pub open spec fn is_number(e: LineEffect) -> bool {
    e is Fillet || e is UiScale
}

/// The numbers the lines carry, in order.
pub open spec fn number_effects(lines: Seq<Seq<char>>) -> Seq<LineEffect> {
    lines.map_values(|l: Seq<char>| line_effect(l)).filter(|e: LineEffect| is_number(e))
}

proof fn lemma_apply_lines_push(p: PrefChoices, lines: Seq<Seq<char>>, l: Seq<char>)
    ensures
        apply_lines_spec(p, lines.push(l)) == apply_line_spec(apply_lines_spec(p, lines), l),
    decreases lines.len(),
{
    if lines.len() == 0 {
        assert(lines.push(l).drop_first() =~= Seq::<Seq<char>>::empty());
    } else {
        assert(lines.push(l).drop_first() =~= lines.drop_first().push(l));
        assert(lines.push(l)[0] == lines[0]);
        lemma_apply_lines_push(apply_line_spec(p, lines[0]), lines.drop_first(), l);
    }
}

impl PrefChoices {
    /// Graphite, no white page, the scroll workspace, exact joins.
    pub fn new() -> (r: PrefChoices)
        ensures
            r == default_choices(),
    {
        PrefChoices { theme: ThemeId::Graphite, white_page: false, chip: false, joins: Joins::Exact }
    }

    /// Reads one settings line.
    pub fn apply_line(&mut self, line: &str) -> (r: PrefLine)
        ensures
            *final(self) == apply_line_spec(*old(self), line@),
            match line_effect(line@) {
                LineEffect::Fillet(v) => r matches PrefLine::Fillet(s) && s@ == v,
                LineEffect::UiScale(v) => r matches PrefLine::UiScale(s) && s@ == v,
                _ => r is Done,
            },
    {
        let n = line.unicode_len();
        let mut k: usize = 0;
        while k < n && line.get_char(k) != '='
            invariant
                n == line@.len(),
                k <= n,
                forall|j: int| 0 <= j < k ==> line@[j] != '=',
            decreases n - k,
        {
            k = k + 1;
        }
        if k == n {
            proof {
                crate::ids::lemma_split_first_none(line@, '=');
            }
            return PrefLine::Done;
        }
        proof {
            crate::ids::lemma_split_first_at(line@, '=', k as int);
        }
        let key_text = line.substring_char(0, k);
        let value_text = line.substring_char(k + 1, n);
        assert(key_text@ =~= line@.take(k as int));
        assert(value_text@ =~= line@.skip(k + 1));
        let key = trim(key_text);
        let value = trim(value_text);
        if str_eq(key, "theme") {
            if let Some(t) = ThemeId::from_key(value) {
                self.theme = t;
            }
            PrefLine::Done
        } else if str_eq(key, "white_page") {
            self.white_page = str_eq(value, "true");
            PrefLine::Done
        } else if str_eq(key, "workspace") {
            self.chip = str_eq(value, "chip");
            PrefLine::Done
        } else if str_eq(key, "joins") {
            if let Some(j) = Joins::from_key(value) {
                self.joins = j;
            }
            PrefLine::Done
        } else if str_eq(key, "fillet") {
            PrefLine::Fillet(String::from_str(value))
        } else if str_eq(key, "ui_scale") {
            PrefLine::UiScale(String::from_str(value))
        } else {
            PrefLine::Done
        }
    }

    /// Reads a settings file: the choices its lines set, starting from the
    /// defaults, and the numbers it carries, in file order, for the caller to
    /// read.
    pub fn from_settings(text: &str) -> (r: (PrefChoices, Vec<PrefLine>))
        ensures
            r.0 == apply_lines_spec(default_choices(), lines_of(text@)),
            r.1@.map_values(|l: PrefLine| pref_line_view(l)) == number_effects(lines_of(text@)),
    {
        let lines = text_lines(text);
        let ghost ls = lines@.map_values(|l: String| l@);
        let ghost effects = ls.map_values(|l: Seq<char>| line_effect(l));
        let ghost keep = |e: LineEffect| is_number(e);
        let mut p = PrefChoices::new();
        let mut numbers: Vec<PrefLine> = Vec::new();
        let mut i: usize = 0;
        proof {
            assert(ls.take(0) =~= Seq::<Seq<char>>::empty());
            assert(effects.take(0) =~= Seq::<LineEffect>::empty());
            assert(numbers@.map_values(|l: PrefLine| pref_line_view(l)) =~= Seq::<LineEffect>::empty());
        }
        while i < lines.len()
            invariant
                i <= lines@.len(),
                ls == lines@.map_values(|l: String| l@),
                effects == ls.map_values(|l: Seq<char>| line_effect(l)),
                keep == (|e: LineEffect| is_number(e)),
                p == apply_lines_spec(default_choices(), ls.take(i as int)),
                numbers@.map_values(|l: PrefLine| pref_line_view(l)) == effects.take(i as int).filter(keep),
            decreases lines@.len() - i,
        {
            let ghost before = p;
            let r = p.apply_line(lines[i].as_str());
            proof {
                assert(ls[i as int] == lines@[i as int]@);
                assert(ls.take(i + 1) =~= ls.take(i as int).push(ls[i as int]));
                lemma_apply_lines_push(default_choices(), ls.take(i as int), ls[i as int]);
                assert(effects.take(i + 1) =~= effects.take(i as int).push(effects[i as int]));
                effects.take(i as int).lemma_filter_push(effects[i as int], keep);
            }
            match r {
                PrefLine::Done => {},
                _ => {
                    let ghost seen = numbers@.map_values(|l: PrefLine| pref_line_view(l));
                    numbers.push(r);
                    proof {
                        assert(numbers@.map_values(|l: PrefLine| pref_line_view(l)) =~= seen.push(
                            effects[i as int],
                        ));
                    }
                },
            }
            i = i + 1;
        }
        assert(ls.take(i as int) =~= ls);
        assert(effects.take(i as int) =~= effects);
        (p, numbers)
    }

    /// The settings file for these choices, with the two numbers as the
    /// caller wrote them.
    pub fn settings_text(&self, ui_scale: &str, fillet: &str) -> (r: String)
        ensures
            r@ == settings_text(*self, ui_scale@, fillet@),
    {
        let mut out = String::from_str("theme=");
        out.append(self.theme.key());
        out.append("\nwhite_page=");
        out.append(if self.white_page { "true" } else { "false" });
        out.append("\nui_scale=");
        out.append(ui_scale);
        out.append("\nworkspace=");
        out.append(if self.chip { "chip" } else { "scroll" });
        out.append("\njoins=");
        out.append(self.joins.key());
        out.append("\nfillet=");
        out.append(fillet);
        out.append("\n");
        proof {
            reveal_strlit("\nwhite_page=");
            reveal_strlit("white_page=");
            reveal_strlit("\nui_scale=");
            reveal_strlit("ui_scale=");
            reveal_strlit("\nworkspace=");
            reveal_strlit("workspace=");
            reveal_strlit("\njoins=");
            reveal_strlit("joins=");
            reveal_strlit("\nfillet=");
            reveal_strlit("fillet=");
            reveal_strlit("\n");
        }
        assert(out@ =~= settings_text(*self, ui_scale@, fillet@));
        out
    }
}

proof fn lemma_key_splits(key: Seq<char>, value: Seq<char>)
    requires
        key.len() > 0,
        forall|j: int| 0 <= j < key.len() ==> key[j] != '=' && !crate::text::is_space(#[trigger] key[j]),
    ensures
        split_first(key + seq!['='] + value, '=') == Some((key, value)),
        trimmed(key) == key,
{
    let line = key + seq!['='] + value;
    assert forall|j: int| 0 <= j < key.len() implies line[j] != '=' by {
        assert(line[j] == key[j]);
    }
    crate::ids::lemma_split_first_at(line, '=', key.len() as int);
    assert(line.take(key.len() as int) =~= key);
    assert(line.skip(key.len() as int + 1) =~= value);
    crate::text::lemma_trimmed_plain(key);
}

proof fn lemma_line_reads(key: Seq<char>, value: Seq<char>)
    requires
        key.len() > 0,
        value.len() > 0,
        forall|j: int| 0 <= j < key.len() ==> key[j] != '=' && !crate::text::is_space(#[trigger] key[j]),
        !crate::text::is_space(value[0]),
        !crate::text::is_space(value.last()),
    ensures
        split_first(key + seq!['='] + value, '=') == Some((key, value)),
        trimmed(key) == key,
        trimmed(value) == value,
{
    lemma_key_splits(key, value);
    crate::text::lemma_trimmed_plain(value);
}

/// What each saved choice line reads as.
proof fn lemma_choice_line_effects(saved: PrefChoices)
    ensures
        line_effect(choice_lines(saved)[0]) == LineEffect::Theme(Some(saved.theme)),
        line_effect(choice_lines(saved)[1]) == LineEffect::WhitePage(saved.white_page),
        line_effect(choice_lines(saved)[2]) == LineEffect::Workspace(saved.chip),
        line_effect(choice_lines(saved)[3]) == LineEffect::Joins(Some(saved.joins)),
{
    reveal_strlit("theme=");
    reveal_strlit("theme");
    reveal_strlit("white_page=");
    reveal_strlit("white_page");
    reveal_strlit("workspace=");
    reveal_strlit("workspace");
    reveal_strlit("joins=");
    reveal_strlit("joins");
    reveal_strlit("true");
    reveal_strlit("false");
    reveal_strlit("chip");
    reveal_strlit("scroll");
    reveal_strlit("graphite");
    reveal_strlit("midnight");
    reveal_strlit("slate");
    reveal_strlit("studio");
    reveal_strlit("paper");
    reveal_strlit("sage");
    reveal_strlit("classic");
    reveal_strlit("smooth");
    reveal_strlit("exact");
    let lines = choice_lines(saved);
    let tk = theme_key(saved.theme);
    let wv = if saved.white_page { "true"@ } else { "false"@ };
    let sv = if saved.chip { "chip"@ } else { "scroll"@ };
    let jk = joins_key(saved.joins);
    lemma_line_reads("theme"@, tk);
    lemma_line_reads("white_page"@, wv);
    lemma_line_reads("workspace"@, sv);
    lemma_line_reads("joins"@, jk);
    assert(lines[0] =~= "theme"@ + seq!['='] + tk);
    assert(lines[1] =~= "white_page"@ + seq!['='] + wv);
    assert(lines[2] =~= "workspace"@ + seq!['='] + sv);
    assert(lines[3] =~= "joins"@ + seq!['='] + jk);
    crate::names::theme_key_round_trip(saved.theme, tk);
    crate::names::joins_key_round_trip(saved.joins, jk);
    assert("theme"@ != "white_page"@ && "theme"@ != "workspace"@ && "theme"@ != "joins"@);
    assert("white_page"@ != "workspace"@ && "white_page"@ != "joins"@ && "workspace"@ != "joins"@);
    assert("true"@ != "false"@ && "chip"@ != "scroll"@);
}

/// What a number line reads as.
proof fn lemma_number_line_effects(ui_scale: Seq<char>, fillet: Seq<char>)
    ensures
        line_effect("ui_scale="@ + ui_scale) == LineEffect::UiScale(trimmed(ui_scale)),
        line_effect("fillet="@ + fillet) == LineEffect::Fillet(trimmed(fillet)),
{
    reveal_strlit("ui_scale=");
    reveal_strlit("ui_scale");
    reveal_strlit("fillet=");
    reveal_strlit("fillet");
    reveal_strlit("theme");
    reveal_strlit("white_page");
    reveal_strlit("workspace");
    reveal_strlit("joins");
    lemma_key_splits("ui_scale"@, ui_scale);
    lemma_key_splits("fillet"@, fillet);
    assert("ui_scale="@ + ui_scale =~= "ui_scale"@ + seq!['='] + ui_scale);
    assert("fillet="@ + fillet =~= "fillet"@ + seq!['='] + fillet);
    assert("ui_scale"@ != "theme"@ && "ui_scale"@ != "white_page"@ && "ui_scale"@ != "workspace"@);
    assert("ui_scale"@ != "joins"@ && "ui_scale"@ != "fillet"@);
    assert("fillet"@ != "theme"@ && "fillet"@ != "white_page"@ && "fillet"@ != "workspace"@ && "fillet"@ != "joins"@);
}

/// Reading back the saved choice lines, from any starting choices, gives
/// the saved choices.
pub proof fn saved_choices_read_back(start: PrefChoices, saved: PrefChoices)
    ensures
        apply_lines_spec(start, choice_lines(saved)) == saved,
{
    let lines = choice_lines(saved);
    lemma_choice_line_effects(saved);
    assert(lines.drop_first().drop_first().drop_first().drop_first() =~= Seq::<Seq<char>>::empty());
    assert(lines.drop_first()[0] == lines[1]);
    assert(lines.drop_first().drop_first()[0] == lines[2]);
    assert(lines.drop_first().drop_first().drop_first()[0] == lines[3]);
    reveal_with_fuel(apply_lines_spec, 5);
}

/// Reading back a saved settings file, from any starting choices, gives the
/// saved choices, and the file hands back the two numbers as they were
/// written, without surrounding white space, interface scale first; each
/// number must be written without a line break.
pub proof fn saved_settings_read_back(start: PrefChoices, saved: PrefChoices, ui_scale: Seq<char>, fillet: Seq<char>)
    requires
        forall|j: int| 0 <= j < ui_scale.len() ==> ui_scale[j] != '\n',
        forall|j: int| 0 <= j < fillet.len() ==> fillet[j] != '\n',
    ensures
        apply_lines_spec(start, lines_of(settings_text(saved, ui_scale, fillet))) == saved,
        number_effects(lines_of(settings_text(saved, ui_scale, fillet))) == seq![
            LineEffect::UiScale(trimmed(ui_scale)),
            LineEffect::Fillet(trimmed(fillet)),
        ],
{
    let u = without_cr(ui_scale);
    let f = without_cr(fillet);
    lemma_file_lines(saved, ui_scale, fillet);
    let lines = settings_lines(saved, u, f);
    let cl = choice_lines(saved);
    lemma_choice_line_effects(saved);
    lemma_number_line_effects(u, f);
    crate::text::lemma_trimmed_without_cr(ui_scale);
    crate::text::lemma_trimmed_without_cr(fillet);
    // The number lines leave the choices as they are.
    saved_choices_read_back(start, saved);
    let p1 = apply_line_spec(start, cl[0]);
    let p2 = apply_line_spec(p1, cl[1]);
    assert(apply_line_spec(p2, lines[2]) == p2);
    let p4 = apply_line_spec(apply_line_spec(p2, cl[2]), cl[3]);
    assert(apply_line_spec(p4, lines[5]) == p4);
    assert(lines.drop_first()[0] == lines[1]);
    assert(lines.drop_first().drop_first()[0] == lines[2]);
    assert(lines.drop_first().drop_first().drop_first()[0] == lines[3]);
    assert(lines.drop_first().drop_first().drop_first().drop_first()[0] == lines[4]);
    assert(lines.drop_first().drop_first().drop_first().drop_first().drop_first()[0] == lines[5]);
    assert(lines.drop_first().drop_first().drop_first().drop_first().drop_first().drop_first() =~= Seq::<
        Seq<char>,
    >::empty());
    assert(cl.drop_first().drop_first().drop_first().drop_first() =~= Seq::<Seq<char>>::empty());
    assert(cl.drop_first()[0] == cl[1]);
    assert(cl.drop_first().drop_first()[0] == cl[2]);
    assert(cl.drop_first().drop_first().drop_first()[0] == cl[3]);
    reveal_with_fuel(apply_lines_spec, 7);
    let effects = lines.map_values(|l: Seq<char>| line_effect(l));
    let keep = |e: LineEffect| is_number(e);
    reveal_with_fuel(Seq::filter, 7);
    assert(effects =~= seq![
        LineEffect::Theme(Some(saved.theme)),
        LineEffect::WhitePage(saved.white_page),
        LineEffect::UiScale(trimmed(u)),
        LineEffect::Workspace(saved.chip),
        LineEffect::Joins(Some(saved.joins)),
        LineEffect::Fillet(trimmed(f)),
    ]);
    assert(effects.filter(keep) =~= seq![LineEffect::UiScale(trimmed(u)), LineEffect::Fillet(trimmed(f))]);
}

/// The saved file splits back into its lines; a final carriage return of a
/// number is read as part of the line ending.
#[verifier::rlimit(40)]
proof fn lemma_file_lines(saved: PrefChoices, ui_scale: Seq<char>, fillet: Seq<char>)
    requires
        forall|j: int| 0 <= j < ui_scale.len() ==> ui_scale[j] != '\n',
        forall|j: int| 0 <= j < fillet.len() ==> fillet[j] != '\n',
    ensures
        lines_of(settings_text(saved, ui_scale, fillet)) == settings_lines(saved, without_cr(ui_scale), without_cr(fillet)),
{
    reveal_strlit("ui_scale=");
    reveal_strlit("fillet=");
    let cl = choice_lines(saved);
    let u = "ui_scale="@ + ui_scale;
    let f = "fillet="@ + fillet;
    let e = Seq::<char>::empty();
    let br = seq!['\n'];
    lemma_choice_lines_plain(saved);
    lemma_one_line("ui_scale="@, ui_scale);
    lemma_one_line("fillet="@, fillet);
    let r5 = f + br + e;
    let r4 = cl[3] + br + r5;
    let r3 = cl[2] + br + r4;
    let r2 = u + br + r3;
    let r1 = cl[1] + br + r2;
    assert(settings_text(saved, ui_scale, fillet) =~= cl[0] + br + r1);
    crate::text::lemma_lines_after_line(cl[0], e, r1);
    crate::text::lemma_lines_after_line(cl[1], e, r2);
    crate::text::lemma_lines_after_line(u, e, r3);
    crate::text::lemma_lines_after_line(cl[2], e, r4);
    crate::text::lemma_lines_after_line(cl[3], e, r5);
    crate::text::lemma_lines_after_line(f, e, e);
    assert(e + cl[0] =~= cl[0]);
    assert(e + cl[1] =~= cl[1]);
    assert(e + cl[2] =~= cl[2]);
    assert(e + cl[3] =~= cl[3]);
    assert(e + u =~= u);
    assert(e + f =~= f);
    assert(lines_of(settings_text(saved, ui_scale, fillet)) =~= settings_lines(
        saved,
        without_cr(ui_scale),
        without_cr(fillet),
    ));
}

/// The saved choice lines hold no line break and end in no carriage return.
proof fn lemma_choice_lines_plain(saved: PrefChoices)
    ensures
        forall|k: int, j: int| 0 <= k < 4 && 0 <= j < choice_lines(saved)[k].len() ==> #[trigger] choice_lines(saved)[k][j] != '\n',
        forall|k: int| 0 <= k < 4 ==> without_cr(#[trigger] choice_lines(saved)[k]) == choice_lines(saved)[k],
{
    reveal_strlit("theme=");
    reveal_strlit("white_page=");
    reveal_strlit("workspace=");
    reveal_strlit("joins=");
    reveal_strlit("true");
    reveal_strlit("false");
    reveal_strlit("chip");
    reveal_strlit("scroll");
    reveal_strlit("graphite");
    reveal_strlit("midnight");
    reveal_strlit("slate");
    reveal_strlit("studio");
    reveal_strlit("paper");
    reveal_strlit("sage");
    reveal_strlit("classic");
    reveal_strlit("smooth");
    reveal_strlit("exact");
    let w = if saved.white_page { "true"@ } else { "false"@ };
    let c = if saved.chip { "chip"@ } else { "scroll"@ };
    lemma_plain_value(theme_key(saved.theme));
    lemma_plain_value(w);
    lemma_plain_value(c);
    lemma_plain_value(joins_key(saved.joins));
    lemma_one_line("theme="@, theme_key(saved.theme));
    lemma_one_line("white_page="@, w);
    lemma_one_line("workspace="@, c);
    lemma_one_line("joins="@, joins_key(saved.joins));
}

/// A value made of lower-case letters holds no line break and ends in no
/// carriage return.
proof fn lemma_plain_value(v: Seq<char>)
    requires
        forall|j: int| 0 <= j < v.len() ==> 'a' <= #[trigger] v[j] <= 'z',
    ensures
        forall|j: int| 0 <= j < v.len() ==> v[j] != '\n',
        without_cr(v) == v,
{
}

/// A line made of a key with its '=' and a value without line breaks has no
/// line break, and its final carriage return, if any, is the value's.
proof fn lemma_one_line(key: Seq<char>, value: Seq<char>)
    requires
        key.len() > 0,
        forall|j: int| 0 <= j < key.len() ==> key[j] != '\n',
        key.last() != '\r',
        forall|j: int| 0 <= j < value.len() ==> value[j] != '\n',
    ensures
        forall|j: int| 0 <= j < (key + value).len() ==> (key + value)[j] != '\n',
        without_cr(key + value) == key + without_cr(value),
{
    let line = key + value;
    assert forall|j: int| 0 <= j < line.len() implies line[j] != '\n' by {
        if j < key.len() {
            assert(line[j] == key[j]);
        } else {
            assert(line[j] == value[j - key.len()]);
        }
    }
    if value.len() == 0 {
        assert(line =~= key);
        assert(key + value =~= key);
    } else {
        assert(line.last() == value.last());
        if value.last() == '\r' {
            assert(line.drop_last() =~= key + value.drop_last());
        }
    }
}

} // verus!
