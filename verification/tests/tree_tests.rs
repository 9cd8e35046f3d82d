use taxonomy_tree::highlight::{cut_round, find_hit, highlight_match, split_match, Span};
use taxonomy_tree::record::Record;
use taxonomy_tree::tree::{
    build_tree_items, build_tree_recursive, collect_all_tree_paths, count_tree_items,
    group_children, make_label, no_positions, own_key, TreeNode,
};

fn rec(id: &str, parent: Option<&str>, name: &str) -> Record {
    Record {
        id: id.to_string(),
        parent: parent.map(|p| p.to_string()),
        name: name.to_string(),
        tiers: Vec::new(),
        extension: None,
    }
}

fn shape(forest: &Vec<TreeNode>) -> String {
    let mut out = String::new();
    for node in forest {
        out.push_str(&node.id);
        if !node.children.is_empty() {
            out.push('(');
            out.push_str(&shape(&node.children));
            out.push(')');
        }
        out.push(' ');
    }
    out.trim_end().to_string()
}

fn parts(spans: &Vec<Span>) -> Vec<(String, bool, bool)> {
    spans.iter().map(|s| (s.content.clone(), s.highlighted, s.bold)).collect()
}

fn part(text: &str, highlighted: bool, bold: bool) -> (String, bool, bool) {
    (text.to_string(), highlighted, bold)
}

#[test]
fn build_nests_children_below_their_parents() {
    let records = vec![
        rec("A", None, "a"),
        rec("B", Some("A"), "b"),
        rec("C", Some("B"), "c"),
        rec("D", Some("A"), "d"),
        rec("E", None, "e"),
    ];
    let forest = build_tree_items(&records, "");
    assert_eq!(shape(&forest), "A(B(C) D) E");
}

#[test]
fn build_keeps_the_order_of_the_records_among_siblings() {
    let records = vec![
        rec("Z", Some("R"), "z"),
        rec("R", None, "r"),
        rec("M", Some("R"), "m"),
        rec("A", Some("R"), "a"),
    ];
    let forest = build_tree_items(&records, "");
    assert_eq!(shape(&forest), "R(Z M A)");
}

#[test]
fn build_of_no_records_is_empty() {
    assert!(build_tree_items(&Vec::new(), "").is_empty());
}

#[test]
fn self_parent_becomes_a_root() {
    let records = vec![rec("S", Some("S"), "self"), rec("T", Some("S"), "child")];
    let forest = build_tree_items(&records, "");
    assert_eq!(shape(&forest), "S(T)");
    assert_eq!(forest.len(), 1);
    assert_eq!(forest[0].id, "S");
}

#[test]
fn records_under_an_unknown_parent_do_not_appear() {
    let records = vec![rec("A", None, "a"), rec("B", Some("nowhere"), "b")];
    let forest = build_tree_items(&records, "");
    assert_eq!(shape(&forest), "A");
}

#[test]
fn records_in_a_cycle_do_not_appear_and_the_build_ends() {
    let records = vec![rec("X", Some("Y"), "x"), rec("Y", Some("X"), "y"), rec("R", None, "r")];
    let forest = build_tree_items(&records, "");
    assert_eq!(shape(&forest), "R");
}

#[test]
fn build_ends_on_a_cycle_reached_through_a_repeated_identifier() {
    let records = vec![rec("A", None, "a"), rec("B", Some("A"), "b"), rec("A", Some("B"), "again")];
    let forest = build_tree_items(&records, "");
    // three records: three levels at most
    assert_eq!(shape(&forest), "A(B(A))");
}

#[test]
fn build_recursive_stops_at_the_given_depth() {
    let records =
        vec![rec("A", None, "a"), rec("B", Some("A"), "b"), rec("C", Some("B"), "c")];
    let map = group_children(&records);
    assert_eq!(shape(&build_tree_recursive(&records, &map, None, "", 0)), "");
    assert_eq!(shape(&build_tree_recursive(&records, &map, None, "", 1)), "A");
    assert_eq!(shape(&build_tree_recursive(&records, &map, None, "", 2)), "A(B)");
    assert_eq!(shape(&build_tree_recursive(&records, &map, None, "", 3)), "A(B(C))");
    assert_eq!(shape(&build_tree_recursive(&records, &map, Some("A".to_string()), "", 3)), "B(C)");
    assert_eq!(shape(&build_tree_recursive(&records, &map, Some("C".to_string()), "", 3)), "");
    assert_eq!(shape(&build_tree_recursive(&records, &map, Some("Z".to_string()), "", 3)), "");
}

#[test]
fn own_key_tells_the_key_of_a_record() {
    assert_eq!(own_key(&rec("A", None, "a")), None);
    assert_eq!(own_key(&rec("S", Some("S"), "s")), None);
    assert_eq!(own_key(&rec("B", Some("A"), "b")), Some(&"A".to_string()));
}

#[test]
fn group_children_links_the_records_of_each_group() {
    let records = vec![
        rec("Z", Some("R"), "z"),
        rec("R", None, "r"),
        rec("M", Some("R"), "m"),
        rec("S", Some("S"), "s"),
        rec("A", Some("R"), "a"),
        rec("K", Some("M"), "k"),
    ];
    let map = group_children(&records);
    // roots: R at 1, then S at 3
    assert_eq!(map.first_root, 1);
    // below R: Z at 0, then M at 2, then A at 4; below M: K at 5
    assert_eq!(map.next, vec![2, 3, 4, 6, 6, 6]);
    assert_eq!(shape(&build_tree_items(&records, "")), "R(Z M(K) A) S");
    let none = group_children(&Vec::new());
    assert_eq!(none.first_root, 0);
    assert!(none.next.is_empty());
    assert_eq!(no_positions(3), vec![3, 3, 3]);
}

#[test]
fn build_handles_many_records() {
    let mut records = vec![rec("0", None, "root")];
    for i in 1..3000 {
        records.push(rec(&i.to_string(), Some(&((i - 1) / 3).to_string()), "node"));
    }
    let forest = build_tree_items(&records, "");
    assert_eq!(forest.len(), 1);
    assert_eq!(count_tree_items(&forest), 3000);
    assert_eq!(forest[0].children.len(), 3);
}

#[test]
fn label_is_bold_identifier_blank_and_name() {
    let label = make_label(&rec("12", None, "Audio"), "");
    assert_eq!(
        parts(&label),
        vec![part("12", false, true), part(" ", false, false), part("Audio", false, false)]
    );
}

#[test]
fn label_shows_the_match_in_identifier_and_name() {
    let label = make_label(&rec("a1", None, "Banana"), "a");
    assert_eq!(
        parts(&label),
        vec![
            part("a", true, true),
            part("1", false, true),
            part(" ", false, false),
            part("B", false, false),
            part("a", true, false),
            part("nana", false, false),
        ]
    );
}

#[test]
fn nodes_carry_their_labels() {
    let forest = build_tree_items(&vec![rec("K", None, "Kites")], "it");
    assert_eq!(
        parts(&forest[0].label),
        vec![
            part("K", false, true),
            part(" ", false, false),
            part("K", false, false),
            part("it", true, false),
            part("es", false, false),
        ]
    );
}

#[test]
fn highlight_with_empty_filter_is_one_plain_span() {
    assert_eq!(parts(&highlight_match("Hello", "")), vec![part("Hello", false, false)]);
    assert_eq!(parts(&highlight_match("", "")), vec![part("", false, false)]);
}

#[test]
fn highlight_without_a_match_is_one_plain_span() {
    assert_eq!(parts(&highlight_match("Hello", "xyz")), vec![part("Hello", false, false)]);
}

#[test]
fn highlight_splits_round_a_match_in_the_middle() {
    assert_eq!(
        parts(&highlight_match("Home Audio Systems", "audio")),
        vec![part("Home ", false, false), part("Audio", true, false), part(" Systems", false, false)]
    );
}

#[test]
fn highlight_at_the_start_has_no_span_before() {
    assert_eq!(
        parts(&highlight_match("Audio Systems", "AUD")),
        vec![part("Aud", true, false), part("io Systems", false, false)]
    );
}

#[test]
fn highlight_at_the_end_has_no_span_after() {
    assert_eq!(
        parts(&highlight_match("Home Audio", "dio")),
        vec![part("Home Au", false, false), part("dio", true, false)]
    );
}

#[test]
fn highlight_of_the_whole_text_is_one_matched_span() {
    assert_eq!(parts(&highlight_match("abc", "ABC")), vec![part("abc", true, false)]);
}

#[test]
fn highlight_takes_the_first_of_several_matches() {
    assert_eq!(
        parts(&highlight_match("banana", "an")),
        vec![part("b", false, false), part("an", true, false), part("ana", false, false)]
    );
}

#[test]
fn highlight_finds_the_match_behind_a_character_whose_lowercase_form_is_longer() {
    // the capital I with a dot above has a lowercase form of two characters
    assert_eq!(
        parts(&highlight_match("\u{130}x", "x")),
        vec![part("\u{130}", false, false), part("x", true, false)]
    );
    assert_eq!(
        parts(&highlight_match("\u{130}xy", "x")),
        vec![part("\u{130}", false, false), part("x", true, false), part("y", false, false)]
    );
}

#[test]
fn highlight_shows_a_character_whose_lowercase_form_is_the_query() {
    assert_eq!(
        parts(&highlight_match("a\u{130}b", "i\u{307}")),
        vec![part("a", false, false), part("\u{130}", true, false), part("b", false, false)]
    );
}

#[test]
fn highlight_counts_characters_not_bytes() {
    assert_eq!(
        parts(&highlight_match("Zoë Ünder", "ünd")),
        vec![part("Zoë ", false, false), part("Ünd", true, false), part("er", false, false)]
    );
}

#[test]
fn split_match_takes_the_query_in_lowercase() {
    assert_eq!(
        parts(&split_match("abCDef", "cd")),
        vec![part("ab", false, false), part("CD", true, false), part("ef", false, false)]
    );
    // a query that is not in lowercase is the lowercase form of no text
    assert_eq!(parts(&split_match("abCDef", "CD")), vec![part("abCDef", false, false)]);
}

#[test]
fn find_hit_gives_the_first_position_and_the_least_length() {
    assert_eq!(find_hit("banana", "an"), Some((1, 2)));
    assert_eq!(find_hit("BANANA", "a"), Some((1, 1)));
    assert_eq!(find_hit("\u{130}x", "x"), Some((1, 1)));
    assert_eq!(find_hit("\u{130}x", "i\u{307}"), Some((0, 1)));
    assert_eq!(find_hit("abc", "abcd"), None);
    assert_eq!(find_hit("", "a"), None);
    assert_eq!(find_hit("abc", ""), None);
}

#[test]
fn cut_round_cuts_at_the_given_characters() {
    assert_eq!(
        parts(&cut_round("abcdef", 2, 3)),
        vec![part("ab", false, false), part("cde", true, false), part("f", false, false)]
    );
    assert_eq!(
        parts(&cut_round("abcdef", 0, 2)),
        vec![part("ab", true, false), part("cdef", false, false)]
    );
    assert_eq!(
        parts(&cut_round("abcdef", 4, 2)),
        vec![part("abcd", false, false), part("ef", true, false)]
    );
    assert_eq!(parts(&cut_round("abc", 0, 3)), vec![part("abc", true, false)]);
}

#[test]
fn count_counts_every_node() {
    let records = vec![
        rec("A", None, "a"),
        rec("B", Some("A"), "b"),
        rec("C", Some("B"), "c"),
        rec("D", Some("A"), "d"),
        rec("E", None, "e"),
    ];
    let forest = build_tree_items(&records, "");
    assert_eq!(count_tree_items(&forest), 5);
    assert_eq!(count_tree_items(&forest[0].children), 3);
    assert_eq!(count_tree_items(&Vec::new()), 0);
}

#[test]
fn all_paths_come_in_reading_order() {
    let records = vec![
        rec("A", None, "a"),
        rec("B", Some("A"), "b"),
        rec("C", Some("B"), "c"),
        rec("D", Some("A"), "d"),
        rec("E", None, "e"),
    ];
    let forest = build_tree_items(&records, "");
    let paths = collect_all_tree_paths(&forest, Vec::new());
    assert_eq!(
        paths,
        vec![
            vec!["A".to_string()],
            vec!["A".to_string(), "B".to_string()],
            vec!["A".to_string(), "B".to_string(), "C".to_string()],
            vec!["A".to_string(), "D".to_string()],
            vec!["E".to_string()],
        ]
    );
}

#[test]
fn all_paths_start_with_the_given_path() {
    let forest = build_tree_items(&vec![rec("A", None, "a"), rec("B", Some("A"), "b")], "");
    let paths = collect_all_tree_paths(&forest, vec!["top".to_string()]);
    assert_eq!(
        paths,
        vec![
            vec!["top".to_string(), "A".to_string()],
            vec!["top".to_string(), "A".to_string(), "B".to_string()],
        ]
    );
}
