use scroll_core::history::History;
use scroll_core::names::{backbone_seed, chip_window_title, window_title, Joins, Skeleton, ThemeId};
use scroll_core::prefs::{PrefChoices, PrefLine};
use scroll_core::text::text_lines;
use scroll_core::presets::{clean_name_of, new_preset_name_of, Preset, Shelf, StoreOutcome, LIMIT, NAME_CHARS};

#[test]
fn history_undo_and_redo() {
    let mut h = History::new(0, 2);
    assert!(!h.can_undo());
    assert!(!h.can_redo());
    h.commit(1);
    h.commit(2);
    h.commit(3);
    assert_eq!(*h.current(), 3);
    assert!(h.undo());
    assert_eq!(*h.current(), 2);
    assert!(h.undo());
    assert_eq!(*h.current(), 1);
    // The oldest design fell out of the limit of two.
    assert!(!h.undo());
    assert_eq!(*h.current(), 1);
    assert!(h.can_redo());
    assert!(h.redo());
    assert_eq!(*h.current(), 2);
    h.commit(9);
    assert!(!h.can_redo());
    assert!(!h.redo());
    assert!(h.undo());
    assert_eq!(*h.current(), 2);
    assert!(h.redo());
    assert_eq!(*h.current(), 9);
}

#[test]
fn undo_after_commit_gives_back_the_design() {
    let mut h = History::new("a", 10);
    h.commit("b");
    assert!(h.undo());
    assert_eq!(*h.current(), "a");
    assert!(h.redo());
    assert_eq!(*h.current(), "b");
}

fn preset(name: &str, data: i32) -> Preset<i32> {
    Preset { name: name.to_string(), data }
}

fn names(shelf: &Shelf<i32>) -> Vec<String> {
    shelf.entries.iter().map(|p| p.name.clone()).collect()
}

#[test]
fn preset_names() {
    assert_eq!(clean_name_of("  Vine  leaf \t"), "Vine  leaf");
    assert_eq!(clean_name_of("\u{3000}wide\u{2003}"), "wide");
    assert_eq!(clean_name_of(&"x".repeat(100)), "x".repeat(NAME_CHARS));
    assert_eq!(clean_name_of(&"é".repeat(90)).chars().count(), 80);
    assert_eq!(new_preset_name_of("   ", "Preset", 3), "Preset 4");
    assert_eq!(new_preset_name_of("", "Bud", 0), "Bud 1");
    assert_eq!(new_preset_name_of(" Kept ", "Preset", 3), "Kept");
}

#[test]
fn shelf_keeps_at_most_the_limit() {
    let entries: Vec<Preset<i32>> = (0..45).map(|i| preset(&format!("p{i}"), i)).collect();
    let shelf = Shelf::new(entries);
    assert_eq!(shelf.entries.len(), LIMIT);
    assert_eq!(shelf.entries[39].name, "p39");
    assert_eq!(shelf.selected, None);
}

#[test]
fn adding_presets() {
    let mut shelf = Shelf::new(vec![preset("first", 1)]);
    shelf.name = "  My design ".to_string();
    assert!(shelf.add(7, "Preset"));
    assert_eq!(names(&shelf), vec!["first", "My design"]);
    shelf.added(StoreOutcome::Stored);
    assert_eq!(shelf.selected, Some(1));
    assert_eq!(shelf.name, "My design");
    assert_eq!(shelf.message, "Preset saved.");
    assert_eq!(shelf.entries[1].data, 7);

    shelf.name = " ".to_string();
    assert!(shelf.add(8, "Preset"));
    assert_eq!(shelf.entries[2].name, "Preset 3");
    shelf.added(StoreOutcome::Failed("disk full".to_string()));
    assert_eq!(names(&shelf), vec!["first", "My design"]);
    assert_eq!(shelf.message, "Could not save presets: disk full");
    assert_eq!(shelf.selected, Some(1));

    assert!(shelf.add(9, "Preset"));
    shelf.added(StoreOutcome::NoFolder);
    assert_eq!(shelf.message, "No settings folder available.");
    assert_eq!(shelf.entries.len(), 2);
}

#[test]
fn a_full_library_refuses() {
    let entries: Vec<Preset<i32>> = (0..40).map(|i| preset("p", i)).collect();
    let mut shelf = Shelf::new(entries);
    assert!(!shelf.add(1, "Preset"));
    assert_eq!(shelf.message, "The library holds 40 presets. Remove one first.");
    assert_eq!(shelf.entries.len(), 40);
}

#[test]
fn renaming_presets() {
    let mut shelf = Shelf::new(vec![preset("a", 1), preset("b", 2)]);
    shelf.name = "new".to_string();
    assert!(!shelf.rename());
    shelf.selected = Some(1);
    shelf.name = "   ".to_string();
    assert!(!shelf.rename());
    assert_eq!(names(&shelf), vec!["a", "b"]);
    shelf.name = "  renamed ".to_string();
    assert!(shelf.rename());
    assert_eq!(names(&shelf), vec!["a", "renamed"]);
    assert_eq!(shelf.entries[1].data, 2);
    assert_eq!(shelf.message, "Renamed.");
    assert_eq!(shelf.name, "  renamed ");
}

#[test]
fn duplicating_presets() {
    let mut shelf = Shelf::new(vec![preset("leaf", 5)]);
    assert!(!shelf.duplicate());
    shelf.selected = Some(0);
    assert!(shelf.duplicate());
    assert_eq!(shelf.name, "leaf copy");
    assert_eq!(names(&shelf), vec!["leaf", "leaf copy"]);
    assert_eq!(shelf.entries[1].data, 5);
    shelf.added(StoreOutcome::Stored);
    assert_eq!(shelf.selected, Some(1));
}

#[test]
fn deleting_and_restoring_presets() {
    let mut shelf = Shelf::new(vec![preset("a", 1), preset("b", 2), preset("c", 3)]);
    assert!(!shelf.delete());
    assert!(!shelf.undo_delete());
    shelf.selected = Some(0);
    assert!(shelf.delete());
    assert_eq!(names(&shelf), vec!["b", "c"]);
    shelf.removed(StoreOutcome::Stored);
    assert_eq!(shelf.selected, None);
    assert_eq!(shelf.message, "Preset removed.");
    assert!(shelf.undo_delete());
    assert_eq!(names(&shelf), vec!["b", "c", "a"]);
    assert_eq!(shelf.message, "Preset restored.");
    assert!(!shelf.undo_delete());

    shelf.selected = Some(2);
    assert!(shelf.delete());
    shelf.removed(StoreOutcome::Failed("locked".to_string()));
    assert_eq!(shelf.message, "Could not save presets: locked");
    assert_eq!(shelf.selected, Some(2));
    assert!(!shelf.undo_delete());
    assert_eq!(names(&shelf), vec!["b", "c"]);
}

fn fillet_of(line: PrefLine) -> Option<String> {
    match line {
        PrefLine::Fillet(s) => Some(s),
        _ => None,
    }
}

fn scale_of(line: PrefLine) -> Option<String> {
    match line {
        PrefLine::UiScale(s) => Some(s),
        _ => None,
    }
}

#[test]
fn settings_lines() {
    let mut p = PrefChoices::new();
    assert_eq!(p, PrefChoices { theme: ThemeId::Graphite, white_page: false, chip: false, joins: Joins::Exact });
    assert!(matches!(p.apply_line(" theme = paper "), PrefLine::Done));
    assert_eq!(p.theme, ThemeId::Paper);
    p.apply_line("theme=neon");
    assert_eq!(p.theme, ThemeId::Paper);
    p.apply_line("white_page=true");
    assert!(p.white_page);
    p.apply_line("white_page=yes");
    assert!(!p.white_page);
    p.apply_line("workspace=chip");
    assert!(p.chip);
    p.apply_line("joins=smooth");
    assert_eq!(p.joins, Joins::Smooth);
    p.apply_line("joins=round");
    assert_eq!(p.joins, Joins::Smooth);
    let before = p;
    assert!(matches!(p.apply_line("no equals sign"), PrefLine::Done));
    assert!(matches!(p.apply_line("colour=red"), PrefLine::Done));
    assert_eq!(p, before);
    assert_eq!(fillet_of(p.apply_line("fillet= 0.75 ")), Some("0.75".to_string()));
    assert_eq!(scale_of(p.apply_line("ui_scale=1.25")), Some("1.25".to_string()));
    assert_eq!(p, before);
}

#[test]
fn settings_file_reads_back() {
    let saved = PrefChoices { theme: ThemeId::Sage, white_page: true, chip: true, joins: Joins::Classic };
    let text = saved.settings_text("1.10", "0.80");
    assert_eq!(text, "theme=sage\nwhite_page=true\nui_scale=1.10\nworkspace=chip\njoins=classic\nfillet=0.80\n");
    let mut back = PrefChoices::new();
    let mut scale = None;
    let mut fillet = None;
    for line in text.lines() {
        match back.apply_line(line) {
            PrefLine::UiScale(s) => scale = Some(s),
            PrefLine::Fillet(s) => fillet = Some(s),
            PrefLine::Done => {}
        }
    }
    assert_eq!(back, saved);
    assert_eq!(scale.as_deref(), Some("1.10"));
    assert_eq!(fillet.as_deref(), Some("0.80"));
}

#[test]
fn settings_read_in_one_go() {
    let saved = PrefChoices { theme: ThemeId::Midnight, white_page: false, chip: true, joins: Joins::Smooth };
    let text = saved.settings_text("0.90", "1.20");
    let (back, numbers) = PrefChoices::from_settings(&text);
    assert_eq!(back, saved);
    assert_eq!(numbers.len(), 2);
    assert_eq!(scale_of(numbers.into_iter().next().unwrap()), Some("0.90".to_string()));
    // Windows line endings read the same.
    let crlf = text.replace('\n', "\r\n");
    let (back, numbers) = PrefChoices::from_settings(&crlf);
    assert_eq!(back, saved);
    let numbers: Vec<Option<String>> = numbers.into_iter().map(fillet_of).collect();
    assert_eq!(numbers, vec![None, Some("1.20".to_string())]);
    // An empty file leaves the defaults; later lines win.
    let (none, numbers) = PrefChoices::from_settings("");
    assert_eq!(none, PrefChoices::new());
    assert!(numbers.is_empty());
    let (p, _) = PrefChoices::from_settings("theme=paper\ntheme=sage\nfillet=1\nfillet=2");
    assert_eq!(p.theme, ThemeId::Sage);
}

#[test]
fn lines_as_str_lines_gives_them() {
    for text in ["", "a", "a\n", "a\nb", "a\r\nb\r\n", "\n\n", "x\r", "x\ry\n", "\r\n", "one\n\ntwo\r"] {
        let want: Vec<String> = text.lines().map(|l| l.to_string()).collect();
        assert_eq!(text_lines(text), want, "{text:?}");
    }
}

#[test]
fn window_titles() {
    assert_eq!(window_title(None, false), "Untitled — ScrollWorks");
    assert_eq!(window_title(Some("vine"), true), "vine • — ScrollWorks");
    assert_eq!(chip_window_title(None), "Chip pattern — ScrollWorks");
    assert_eq!(chip_window_title(Some("tile")), "tile — ScrollWorks");
}

#[test]
fn construction_seeds() {
    assert_eq!(Skeleton::Single.design_seed(1), 2654435761);
    assert_eq!(Skeleton::Fan.design_seed(2), 1013904231);
    assert_eq!(Skeleton::Corner.index(), 6);
    assert_eq!(backbone_seed(10, 2), 15848);
    assert_eq!(backbone_seed(u32::MAX, 1), 7918);
}
