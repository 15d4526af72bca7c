use scroll_core::ids::{
    backbone_prefix, display_id, edit_id, find_edit, hex_of, is_collar_id, last_segment, main_sweeps, part_id,
    split_id, starts_with, text_after_last,
};
use scroll_core::links::{contains_index, Links};
use scroll_core::shoots::{edit_order, is_replaced, EditFlags, Placed};

fn strings(v: &[&str]) -> Vec<String> {
    v.iter().map(|s| s.to_string()).collect()
}

#[test]
fn part_ids_carry_their_backbone() {
    assert_eq!(backbone_prefix(0), "backbone-0/");
    assert_eq!(backbone_prefix(12), "backbone-12/");
    assert_eq!(part_id(3, "sweep"), "backbone-3/sweep");
    assert_eq!(display_id(true, 2, "edit-1"), "backbone-2/edit-1");
    assert_eq!(display_id(false, 2, "edit-1"), "edit-1");
}

#[test]
fn split_id_reads_prefix() {
    assert_eq!(split_id("backbone-2/a/b"), (2, "a/b".to_string()));
    assert_eq!(split_id("backbone-+7/x"), (7, "x".to_string()));
    assert_eq!(split_id("plain"), (0, "plain".to_string()));
    // A number that does not read gives backbone 0 and still strips the prefix.
    assert_eq!(split_id("backbone-x/y"), (0, "y".to_string()));
    // No '/' after the prefix: the whole id.
    assert_eq!(split_id("backbone-3"), (0, "backbone-3".to_string()));
    assert_eq!(split_id("backbone-/z"), (0, "z".to_string()));
}

#[test]
fn split_id_undoes_part_id_on_values() {
    for b in [0usize, 1, 9, 10, 345] {
        for local in ["sweep", "a/b/c", "", "collar-1"] {
            assert_eq!(split_id(&part_id(b, local)), (b, local.to_string()));
        }
    }
}

#[test]
fn last_segments_and_collars() {
    assert_eq!(last_segment("backbone-1/s3/collar-2"), "collar-2");
    assert_eq!(last_segment("nothing"), "nothing");
    assert_eq!(last_segment("ends/"), "");
    assert_eq!(text_after_last("a.b.c", '.'), "c");
    assert!(is_collar_id("backbone-0/collar-left"));
    assert!(is_collar_id("collar"));
    assert!(!is_collar_id("collar-a/leaf"));
    assert!(!is_collar_id("col"));
    assert!(starts_with("backbone-1", "backbone-"));
    assert!(!starts_with("back", "backbone-"));
    assert!(starts_with("x", ""));
}

#[test]
fn edit_ids_are_hexadecimal() {
    assert_eq!(hex_of(0), "0");
    assert_eq!(hex_of(255), "ff");
    assert_eq!(hex_of(0x1a2b), "1a2b");
    assert_eq!(edit_id(0x12345678, 1), "edit-3456781");
    assert_eq!(edit_id(0, 16), "edit-010");
    assert_eq!(edit_id(0xffffff, 0xab), format!("edit-{:x}{:x}", 0xffffffu64, 0xabu64));
}

#[test]
fn find_edit_takes_the_first_match() {
    let keys = vec![(0usize, "a".to_string()), (1, "a".to_string()), (1, "b".to_string()), (1, "a".to_string())];
    assert_eq!(find_edit(&keys, 1, "a"), Some(1));
    assert_eq!(find_edit(&keys, 0, "a"), Some(0));
    assert_eq!(find_edit(&keys, 1, "b"), Some(2));
    assert_eq!(find_edit(&keys, 2, "a"), None);
    assert_eq!(find_edit(&keys, 0, "b"), None);
}

#[test]
fn main_sweeps_are_first_parentless_parts() {
    let ids = strings(&["backbone-0/s1", "backbone-0/sweep", "backbone-1/x", "backbone-1/sweep", "backbone-10/sweep"]);
    let has_parent = vec![true, false, true, false, false];
    assert_eq!(main_sweeps(&ids, &has_parent, 3), vec![Some(1), Some(3), None]);
    assert_eq!(main_sweeps(&ids, &has_parent, 0), Vec::<Option<usize>>::new());
    let mut m = main_sweeps(&ids, &has_parent, 11);
    assert_eq!(m.pop(), Some(Some(4)));
}

#[test]
fn descendants_walk_the_attachments() {
    let links = Links { count: 5, attach: vec![None, Some(0), Some(1), Some(0), Some(9)] };
    assert_eq!(links.descendants(0), vec![1, 3, 2]);
    assert_eq!(links.descendants(1), vec![2]);
    assert_eq!(links.descendants(2), Vec::<usize>::new());
    assert_eq!(links.group(0), vec![0, 1, 3, 2]);
    assert_eq!(links.group(4), vec![4]);
    assert_eq!(links.parent_of(4), None);
    assert_eq!(links.parent_of(2), Some(1));
    assert_eq!(links.attach_of(4), Some(9));
}

#[test]
fn descendants_stop_on_cycles() {
    let links = Links { count: 3, attach: vec![Some(1), Some(0), Some(2)] };
    assert_eq!(links.descendants(0), vec![1]);
    assert_eq!(links.descendants(1), vec![0]);
    assert_eq!(links.parent_of(2), None);
    assert_eq!(links.descendants(2), Vec::<usize>::new());
}

#[test]
fn missing_settings_fall_back_to_the_first() {
    // Backbones 1 and 2 have no setting of their own and take backbone 0's.
    let links = Links { count: 3, attach: vec![Some(1)] };
    assert_eq!(links.attach_of(2), Some(1));
    assert_eq!(links.descendants(1), vec![0, 2]);
    let none = Links { count: 2, attach: vec![] };
    assert_eq!(none.attach_of(1), None);
    assert_eq!(none.descendants(0), Vec::<usize>::new());
}

#[test]
fn sweep_joins_need_both_sweeps() {
    let links = Links { count: 4, attach: vec![None, Some(0), Some(1), Some(0)] };
    let mains = vec![Some(10), Some(11), None, Some(13)];
    assert_eq!(links.sweep_joins(&mains), vec![(1, 11, 10), (3, 13, 10)]);
    let mains = vec![None, Some(11), Some(12), Some(13)];
    assert_eq!(links.sweep_joins(&mains), vec![(2, 12, 11)]);
}

#[test]
fn contains_index_finds_values() {
    assert!(contains_index(&vec![3, 1, 4], 4));
    assert!(!contains_index(&vec![3, 1, 4], 2));
    assert!(!contains_index(&vec![], 0));
}

fn flags(replaces: Option<&str>, hidden: bool, under: bool) -> EditFlags {
    EditFlags { replaces: replaces.map(|s| s.to_string()), hidden, under }
}

#[test]
fn edits_go_above_and_below() {
    let ids = strings(&["sweep", "s1", "s2", "s3"]);
    let edits = vec![flags(Some("s2"), false, false), flags(None, false, true), flags(None, true, false), flags(None, false, false)];
    assert!(is_replaced(&edits, &"s2".to_string()));
    assert!(!is_replaced(&edits, &"s1".to_string()));
    assert_eq!(
        edit_order(&ids, &edits, true),
        vec![Placed::Grown(1), Placed::Kept(0), Placed::Kept(1), Placed::Kept(3), Placed::Grown(0), Placed::Grown(3)]
    );
}

#[test]
fn without_a_main_sweep_parts_stay() {
    let ids = strings(&["s1", "s2"]);
    let edits = vec![flags(Some("s1"), false, false)];
    assert_eq!(edit_order(&ids, &edits, false), vec![Placed::Kept(0), Placed::Kept(1)]);
    assert_eq!(edit_order(&ids, &vec![], true), vec![Placed::Kept(0), Placed::Kept(1)]);
}

#[test]
fn last_segment_of_a_part_id_is_the_local_id() {
    for b in [0usize, 4, 27] {
        for local in ["sweep", "collar-2", ""] {
            assert_eq!(last_segment(&part_id(b, local)), local);
        }
    }
    // A local id with its own '/' keeps only its last piece.
    assert_eq!(last_segment(&part_id(1, "s1/leaf")), "leaf");
}
