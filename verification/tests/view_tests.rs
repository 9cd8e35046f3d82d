use taxonomy_tree::record::Record;
use taxonomy_tree::tree::{build_tree_items, TreeNode};
use taxonomy_tree::view::{
    calculate_flat_index, count_visible_items, count_visible_tree_items, find_named, find_path,
    is_open, path_has_children, paths_equal, visible_rows, with_path, without_path, TreeView,
};

fn rec(id: &str, parent: Option<&str>) -> Record {
    Record {
        id: id.to_string(),
        parent: parent.map(|p| p.to_string()),
        name: id.to_lowercase(),
        tiers: Vec::new(),
        extension: None,
    }
}

fn path(ids: &[&str]) -> Vec<String> {
    ids.iter().map(|s| s.to_string()).collect()
}

// A(B(C D) E) F(G)
fn sample() -> Vec<TreeNode> {
    build_tree_items(
        &vec![
            rec("A", None),
            rec("B", Some("A")),
            rec("C", Some("B")),
            rec("D", Some("B")),
            rec("E", Some("A")),
            rec("F", None),
            rec("G", Some("F")),
        ],
        "",
    )
}

fn view(open: &[&[&str]], selection: &[&str]) -> TreeView {
    TreeView { open: open.iter().map(|p| path(p)).collect(), selection: path(selection) }
}

fn shown(forest: &Vec<TreeNode>, v: &TreeView) -> Vec<String> {
    visible_rows(forest, &v.open, &Vec::new()).iter().map(|p| p.join("/")).collect()
}

#[test]
fn closed_forest_shows_its_roots() {
    let forest = sample();
    let v = view(&[], &["A"]);
    assert_eq!(shown(&forest, &v), vec!["A", "F"]);
    assert_eq!(count_visible_tree_items(&forest, &v), 2);
}

#[test]
fn open_paths_show_their_children() {
    let forest = sample();
    let v = view(&[&["A"]], &["A"]);
    assert_eq!(shown(&forest, &v), vec!["A", "A/B", "A/E", "F"]);
    assert_eq!(count_visible_tree_items(&forest, &v), 4);
    let v = view(&[&["A"], &["A", "B"], &["F"]], &["A"]);
    assert_eq!(shown(&forest, &v), vec!["A", "A/B", "A/B/C", "A/B/D", "A/E", "F", "F/G"]);
    assert_eq!(count_visible_tree_items(&forest, &v), 7);
}

#[test]
fn a_path_open_below_a_closed_one_shows_nothing() {
    let forest = sample();
    let v = view(&[&["A", "B"]], &["A"]);
    assert_eq!(shown(&forest, &v), vec!["A", "F"]);
    assert_eq!(count_visible_tree_items(&forest, &v), 2);
}

#[test]
fn count_visible_items_counts_below_a_node() {
    let forest = sample();
    let open = vec![path(&["A", "B"])];
    assert_eq!(count_visible_items(&forest[0].children, &open, &Vec::new(), &"A".to_string()), 4);
    assert_eq!(count_visible_items(&forest[0].children, &Vec::new(), &Vec::new(), &"A".to_string()), 2);
    assert_eq!(count_visible_items(&forest[0].children, &open, &Vec::new(), &"Z".to_string()), 2);
}

#[test]
fn flat_index_is_the_position_among_the_visible_rows() {
    let forest = sample();
    let open: &[&[&str]] = &[&["A"], &["A", "B"], &["F"]];
    let rows = ["A", "A/B", "A/B/C", "A/B/D", "A/E", "F", "F/G"];
    for (i, row) in rows.iter().enumerate() {
        let sel: Vec<&str> = row.split('/').collect();
        let v = view(open, &sel);
        assert_eq!(calculate_flat_index(&forest, &v, Vec::new()), Some(i));
    }
}

#[test]
fn flat_index_skips_closed_subtrees() {
    let forest = sample();
    let v = view(&[&["A"]], &["F"]);
    assert_eq!(calculate_flat_index(&forest, &v, Vec::new()), Some(3));
    let v = view(&[], &["F"]);
    assert_eq!(calculate_flat_index(&forest, &v, Vec::new()), Some(1));
}

#[test]
fn flat_index_of_a_hidden_or_unknown_selection_is_none() {
    let forest = sample();
    let v = view(&[], &["A", "B"]);
    assert_eq!(calculate_flat_index(&forest, &v, Vec::new()), None);
    let v = view(&[&["A"]], &["Q"]);
    assert_eq!(calculate_flat_index(&forest, &v, Vec::new()), None);
    let v = view(&[&["A"]], &[]);
    assert_eq!(calculate_flat_index(&forest, &v, Vec::new()), None);
    assert_eq!(calculate_flat_index(&Vec::new(), &v, Vec::new()), None);
}

#[test]
fn down_moves_count_rows_and_stop_at_the_last() {
    let forest = sample();
    let mut v = TreeView::reset(&forest, true);
    let total = count_visible_tree_items(&forest, &v);
    assert_eq!(total, 7);
    assert_eq!(calculate_flat_index(&forest, &v, Vec::new()), Some(0));
    for moves in 1..12usize {
        v.key_down(&forest);
        let expected = std::cmp::min(moves, total - 1);
        assert_eq!(calculate_flat_index(&forest, &v, Vec::new()), Some(expected));
    }
    assert_eq!(v.selection, path(&["F", "G"]));
}

#[test]
fn down_moves_in_a_closed_forest_walk_the_roots() {
    let forest = sample();
    let mut v = TreeView::reset(&forest, false);
    assert_eq!(v.selection, path(&["A"]));
    assert!(v.key_down(&forest));
    assert_eq!(v.selection, path(&["F"]));
    assert!(!v.key_down(&forest));
    assert_eq!(v.selection, path(&["F"]));
}

#[test]
fn up_moves_stop_at_the_first() {
    let forest = sample();
    let mut v = view(&[&["A"]], &["A", "E"]);
    assert!(v.key_up(&forest));
    assert_eq!(v.selection, path(&["A", "B"]));
    assert!(v.key_up(&forest));
    assert_eq!(v.selection, path(&["A"]));
    assert!(!v.key_up(&forest));
    assert_eq!(v.selection, path(&["A"]));
}

#[test]
fn moves_from_a_selection_that_is_not_shown() {
    let forest = sample();
    let mut v = view(&[], &[]);
    assert!(v.key_down(&forest));
    assert_eq!(v.selection, path(&["A"]));
    let mut v = view(&[], &[]);
    assert!(v.key_up(&forest));
    assert_eq!(v.selection, path(&["F"]));
}

#[test]
fn moves_in_an_empty_forest_do_nothing() {
    let forest: Vec<TreeNode> = Vec::new();
    let mut v = TreeView::reset(&forest, true);
    assert!(v.selection.is_empty());
    assert!(!v.key_down(&forest));
    assert!(!v.key_up(&forest));
    assert!(!v.key_left());
    assert!(!v.key_right(&forest));
    assert!(!v.toggle_selected());
    v.page_down(&forest);
    v.page_up(&forest);
    assert!(v.selection.is_empty());
    assert!(v.open.is_empty());
    assert_eq!(count_visible_tree_items(&forest, &v), 0);
}

#[test]
fn page_moves_go_ten_rows_and_stop_at_the_ends() {
    let mut records = vec![];
    for i in 0..25 {
        records.push(rec(&format!("N{}", i), None));
    }
    let forest = build_tree_items(&records, "");
    let mut v = TreeView::reset(&forest, false);
    v.page_down(&forest);
    assert_eq!(v.selection, path(&["N10"]));
    v.page_down(&forest);
    assert_eq!(v.selection, path(&["N20"]));
    v.page_down(&forest);
    assert_eq!(v.selection, path(&["N24"]));
    v.page_up(&forest);
    assert_eq!(v.selection, path(&["N14"]));
    v.page_up(&forest);
    v.page_up(&forest);
    assert_eq!(v.selection, path(&["N0"]));
}

#[test]
fn left_closes_an_open_node_first() {
    let mut v = view(&[&["A"], &["A", "B"]], &["A", "B"]);
    assert!(v.key_left());
    assert_eq!(v.selection, path(&["A", "B"]));
    assert_eq!(v.open, vec![path(&["A"])]);
}

#[test]
fn left_on_a_closed_node_goes_to_the_parent() {
    let mut v = view(&[&["A"]], &["A", "B"]);
    assert!(v.key_left());
    assert_eq!(v.selection, path(&["A"]));
    assert_eq!(v.open, vec![path(&["A"])]);
}

#[test]
fn left_on_a_closed_root_does_nothing() {
    let mut v = view(&[&["F"]], &["A"]);
    assert!(!v.key_left());
    assert_eq!(v.selection, path(&["A"]));
    assert_eq!(v.open, vec![path(&["F"])]);
}

#[test]
fn right_opens_a_node_with_children() {
    let forest = sample();
    let mut v = view(&[], &["A"]);
    assert!(v.key_right(&forest));
    assert_eq!(v.selection, path(&["A"]));
    assert!(is_open(&v.open, &path(&["A"])));
    assert!(!v.key_right(&forest));
    assert_eq!(shown(&forest, &v), vec!["A", "A/B", "A/E", "F"]);
}

#[test]
fn right_on_a_leaf_does_nothing() {
    let forest = sample();
    let mut v = view(&[&["A"]], &["A", "E"]);
    assert!(!v.key_right(&forest));
    assert_eq!(v.open, vec![path(&["A"])]);
    let mut v = view(&[], &["nowhere"]);
    assert!(!v.key_right(&forest));
    assert!(v.open.is_empty());
}

#[test]
fn toggle_flips_the_selected_path() {
    let forest = sample();
    let mut v = view(&[], &["F"]);
    assert!(v.toggle_selected());
    assert_eq!(shown(&forest, &v), vec!["A", "F", "F/G"]);
    assert_eq!(v.selection, path(&["F"]));
    assert!(v.toggle_selected());
    assert_eq!(shown(&forest, &v), vec!["A", "F"]);
    assert_eq!(v.selection, path(&["F"]));
}

#[test]
fn reset_with_expansion_opens_every_path() {
    let forest = sample();
    let v = TreeView::reset(&forest, true);
    assert_eq!(v.selection, path(&["A"]));
    assert_eq!(v.open.len(), 7);
    assert_eq!(shown(&forest, &v), vec!["A", "A/B", "A/B/C", "A/B/D", "A/E", "F", "F/G"]);
}

#[test]
fn open_all_adds_to_what_is_open() {
    let forest = sample();
    let mut v = view(&[&["elsewhere"]], &["F"]);
    v.open_all(&forest);
    assert!(is_open(&v.open, &path(&["elsewhere"])));
    assert!(is_open(&v.open, &path(&["A", "B"])));
    assert!(is_open(&v.open, &path(&["F", "G"])));
    assert_eq!(v.selection, path(&["F"]));
    assert_eq!(shown(&forest, &v), vec!["A", "A/B", "A/B/C", "A/B/D", "A/E", "F", "F/G"]);
}

#[test]
fn reset_without_expansion_opens_nothing() {
    let forest = sample();
    let v = TreeView::reset(&forest, false);
    assert_eq!(v.selection, path(&["A"]));
    assert!(v.open.is_empty());
}

#[test]
fn expanding_the_selected_node_keeps_its_position() {
    let forest = sample();
    let mut v = TreeView::reset(&forest, false);
    v.key_down(&forest);
    assert_eq!(calculate_flat_index(&forest, &v, Vec::new()), Some(1));
    v.key_right(&forest);
    assert_eq!(calculate_flat_index(&forest, &v, Vec::new()), Some(1));
    assert_eq!(count_visible_tree_items(&forest, &v), 3);
}

#[test]
fn paths_equal_compares_identifier_by_identifier() {
    assert!(paths_equal(&path(&["a", "b"]), &path(&["a", "b"])));
    assert!(!paths_equal(&path(&["a", "b"]), &path(&["a"])));
    assert!(!paths_equal(&path(&["a", "b"]), &path(&["a", "c"])));
    assert!(paths_equal(&path(&[]), &path(&[])));
}

#[test]
fn open_paths_are_found_added_and_removed() {
    let mut open = vec![path(&["a"]), path(&["a", "b"])];
    assert!(is_open(&open, &path(&["a", "b"])));
    assert!(!is_open(&open, &path(&["b"])));
    with_path(&mut open, &path(&["b"]));
    assert!(is_open(&open, &path(&["b"])));
    let open = without_path(&open, &path(&["a"]));
    assert!(!is_open(&open, &path(&["a"])));
    assert!(is_open(&open, &path(&["a", "b"])));
    assert!(is_open(&open, &path(&["b"])));
    assert_eq!(open.len(), 2);
}

#[test]
fn find_path_gives_the_first_position() {
    let list = vec![path(&["a"]), path(&["b"]), path(&["a"])];
    assert_eq!(find_path(&list, &path(&["a"])), Some(0));
    assert_eq!(find_path(&list, &path(&["b"])), Some(1));
    assert_eq!(find_path(&list, &path(&["c"])), None);
}

#[test]
fn nodes_are_found_by_identifier_and_path() {
    let forest = sample();
    assert_eq!(find_named(&forest, &"F".to_string()), Some(1));
    assert_eq!(find_named(&forest, &"B".to_string()), None);
    assert!(path_has_children(&forest, &path(&["A"])));
    assert!(path_has_children(&forest, &path(&["A", "B"])));
    assert!(!path_has_children(&forest, &path(&["A", "B", "C"])));
    assert!(!path_has_children(&forest, &path(&["A", "Z"])));
    assert!(!path_has_children(&forest, &path(&[])));
}
