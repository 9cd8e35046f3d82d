use taxonomy_tree::ancestors::add_all_ancestors;
use taxonomy_tree::descendants::{add_all_descendants, add_descendants_of_matches};
use taxonomy_tree::filter::{filter_records, include_context, match_flags, select_records};
use taxonomy_tree::flags::{find_last, mark_id};
use taxonomy_tree::matching::{lowercase_record, matches_all_fields, matches_fields};
use taxonomy_tree::record::Record;

fn rec(id: &str, parent: Option<&str>, name: &str) -> Record {
    Record {
        id: id.to_string(),
        parent: parent.map(|p| p.to_string()),
        name: name.to_string(),
        tiers: Vec::new(),
        extension: None,
    }
}

fn full(id: &str, parent: Option<&str>, name: &str, tiers: &[&str], ext: Option<&str>) -> Record {
    Record {
        id: id.to_string(),
        parent: parent.map(|p| p.to_string()),
        name: name.to_string(),
        tiers: tiers.iter().map(|t| t.to_string()).collect(),
        extension: ext.map(|e| e.to_string()),
    }
}

fn ids(records: &Vec<Record>) -> Vec<String> {
    records.iter().map(|r| r.id.clone()).collect()
}

fn chain() -> Vec<Record> {
    vec![rec("A", None, "alpha"), rec("B", Some("A"), "beta"), rec("C", Some("B"), "gamma")]
}

#[test]
fn filter_by_leaf_keeps_the_ancestor_chain() {
    let out = filter_records(&chain(), "C");
    assert_eq!(ids(&out), vec!["A", "B", "C"]);
}

#[test]
fn filter_by_root_keeps_the_whole_subtree() {
    let out = filter_records(&chain(), "A");
    assert_eq!(ids(&out), vec!["A", "B", "C"]);
}

#[test]
fn filter_with_empty_query_returns_the_records_unchanged() {
    let records = vec![
        full("2", Some("9"), "two", &["x", "y"], Some("note")),
        full("1", None, "one", &[], None),
        full("1", Some("1"), "again", &["z"], None),
    ];
    let out = filter_records(&records, "");
    assert_eq!(out.len(), 3);
    for (a, b) in out.iter().zip(records.iter()) {
        assert_eq!(a.id, b.id);
        assert_eq!(a.parent, b.parent);
        assert_eq!(a.name, b.name);
        assert_eq!(a.tiers, b.tiers);
        assert_eq!(a.extension, b.extension);
    }
}

#[test]
fn filter_without_a_match_is_empty() {
    let out = filter_records(&chain(), "zzz");
    assert!(out.is_empty());
}

#[test]
fn filter_leaves_out_the_siblings_of_a_match() {
    let records = vec![
        rec("A", None, "root"),
        rec("B", Some("A"), "wanted"),
        rec("C", Some("A"), "other"),
        rec("D", Some("B"), "below"),
    ];
    let out = filter_records(&records, "wanted");
    assert_eq!(ids(&out), vec!["A", "B", "D"]);
}

#[test]
fn filter_preserves_the_order_of_the_input() {
    let records = vec![
        rec("C", Some("B"), "leaf"),
        rec("X", None, "unrelated"),
        rec("B", Some("A"), "mid"),
        rec("A", None, "top"),
    ];
    let out = filter_records(&records, "leaf");
    assert_eq!(ids(&out), vec!["C", "B", "A"]);
}

#[test]
fn filter_is_case_insensitive() {
    let records = vec![rec("1", None, "Audio Speakers"), rec("2", None, "Video")];
    assert_eq!(ids(&filter_records(&records, "AUDIO")), vec!["1"]);
    assert_eq!(ids(&filter_records(&records, "speak")), vec!["1"]);
    assert_eq!(ids(&filter_records(&records, "vIdEo")), vec!["2"]);
}

#[test]
fn descent_passes_an_ancestor_of_a_deeper_match() {
    // A and C match; B is kept as an ancestor of C and as a descendant of A, and B's
    // other child D descends from A too.
    let records = vec![
        rec("A", None, "audio"),
        rec("B", Some("A"), "speakers"),
        rec("C", Some("B"), "audio speakers"),
        rec("D", Some("B"), "cables"),
    ];
    let out = filter_records(&records, "audio");
    assert_eq!(ids(&out), vec!["A", "B", "C", "D"]);
}

#[test]
fn every_descendant_of_a_match_is_kept_below_another_match() {
    let records = vec![
        rec("1", None, "foo root"),
        rec("2", Some("1"), "mid"),
        rec("3", Some("2"), "foo leaf"),
        rec("4", Some("2"), "other"),
    ];
    assert_eq!(match_flags(&records, "foo"), vec![true, false, true, false]);
    assert_eq!(
        include_context(&records, &vec![true, false, true, false]),
        vec![true, true, true, true]
    );
    let out = filter_records(&records, "foo");
    assert_eq!(ids(&out), vec!["1", "2", "3", "4"]);
}

#[test]
fn siblings_of_a_match_below_an_ancestor_stay_out() {
    let records = vec![
        rec("1", None, "root"),
        rec("2", Some("1"), "foo"),
        rec("3", Some("1"), "other"),
        rec("4", Some("3"), "below other"),
    ];
    let out = filter_records(&records, "foo");
    assert_eq!(ids(&out), vec!["1", "2"]);
}

#[test]
fn filter_terminates_on_a_two_record_cycle() {
    let records = vec![
        rec("X", Some("Y"), "ex"),
        rec("Y", Some("X"), "why"),
        rec("Z", Some("Y"), "zed"),
        rec("R", None, "root"),
    ];
    // Z descends from X through Y
    let out = filter_records(&records, "ex");
    assert_eq!(ids(&out), vec!["X", "Y", "Z"]);
    let out = filter_records(&records, "zed");
    assert_eq!(ids(&out), vec!["X", "Y", "Z"]);
    let out = filter_records(&records, "root");
    assert_eq!(ids(&out), vec!["R"]);
}

#[test]
fn filter_terminates_on_a_three_record_cycle() {
    let records = vec![
        rec("P", Some("R"), "pe"),
        rec("Q", Some("P"), "qu"),
        rec("R", Some("Q"), "ar"),
        rec("S", Some("R"), "es"),
    ];
    // every record of the circle is above and below Q, and S is below R
    let out = filter_records(&records, "qu");
    assert_eq!(ids(&out), vec!["P", "Q", "R", "S"]);
    let out = filter_records(&records, "es");
    assert_eq!(ids(&out), vec!["P", "Q", "R", "S"]);
}

#[test]
fn filter_terminates_on_a_self_parent() {
    let records = vec![rec("S", Some("S"), "self"), rec("T", Some("S"), "child")];
    assert_eq!(ids(&filter_records(&records, "self")), vec!["S", "T"]);
    assert_eq!(ids(&filter_records(&records, "child")), vec!["S", "T"]);
}

#[test]
fn filter_follows_a_parent_that_no_record_carries() {
    let records = vec![rec("A", Some("ghost"), "orphan"), rec("B", Some("A"), "kid")];
    assert_eq!(ids(&filter_records(&records, "kid")), vec!["A", "B"]);
}

#[test]
fn query_equal_to_a_parent_id_selects_the_children() {
    let records = vec![
        rec("100", None, "top"),
        rec("101", Some("100"), "first"),
        rec("102", Some("100"), "second"),
        rec("200", None, "elsewhere"),
    ];
    let out = filter_records(&records, "100");
    assert_eq!(ids(&out), vec!["100", "101", "102"]);
}

#[test]
fn identifier_matches_only_when_equal() {
    let r = rec("1234", None, "name");
    assert!(matches_all_fields(&r, "1234"));
    assert!(!matches_all_fields(&r, "123"));
    assert!(!matches_all_fields(&r, "12345"));
}

#[test]
fn identifier_match_ignores_the_case_of_the_record() {
    let r = rec("AbC", None, "name");
    assert!(matches_all_fields(&r, "abc"));
    // the query is taken as it stands: the caller lowers it
    assert!(!matches_all_fields(&r, "ABC"));
}

#[test]
fn parent_matches_only_when_equal() {
    let r = rec("1", Some("PARENT"), "name");
    assert!(matches_all_fields(&r, "parent"));
    assert!(!matches_all_fields(&r, "paren"));
}

#[test]
fn name_matches_by_substring() {
    let r = rec("1", None, "Home Audio Systems");
    assert!(matches_all_fields(&r, "audio"));
    assert!(matches_all_fields(&r, "home audio"));
    assert!(matches_all_fields(&r, "s"));
    assert!(!matches_all_fields(&r, "audio home"));
}

#[test]
fn tiers_match_by_substring() {
    let r = full("1", None, "n", &["Automotive", "Car Culture"], None);
    assert!(matches_all_fields(&r, "culture"));
    assert!(matches_all_fields(&r, "auto"));
    assert!(!matches_all_fields(&r, "truck"));
}

#[test]
fn extension_matches_by_substring() {
    let r = full("1", None, "n", &[], Some("See ALSO the appendix"));
    assert!(matches_all_fields(&r, "also"));
    assert!(!matches_all_fields(&r, "index"));
    let bare = full("1", None, "n", &[], None);
    assert!(!matches_all_fields(&bare, "also"));
}

#[test]
fn empty_query_matches_every_record() {
    assert!(matches_all_fields(&rec("1", None, "x"), ""));
    assert!(matches_fields(&rec("1", None, "x"), ""));
}

#[test]
fn fields_are_compared_as_they_stand_without_folding() {
    let r = rec("AbC", Some("Up"), "Name");
    assert!(matches_fields(&r, "AbC"));
    assert!(!matches_fields(&r, "abc"));
    assert!(matches_fields(&r, "Up"));
    assert!(matches_fields(&r, "am"));
    assert!(!matches_fields(&r, "AM"));
}

#[test]
fn lowercase_record_lowers_every_field() {
    let r = full("ID", Some("PaR"), "NaMe", &["T1", "tWo"], Some("EXT"));
    let l = lowercase_record(&r);
    assert_eq!(l.id, "id");
    assert_eq!(l.parent, Some("par".to_string()));
    assert_eq!(l.name, "name");
    assert_eq!(l.tiers, vec!["t1", "two"]);
    assert_eq!(l.extension, Some("ext".to_string()));
}

#[test]
fn match_flags_has_one_flag_for_each_record() {
    let records = vec![rec("1", None, "apple"), rec("2", None, "pear"), rec("3", None, "pineapple")];
    assert_eq!(match_flags(&records, "apple"), vec![true, false, true]);
    assert_eq!(match_flags(&records, ""), vec![true, true, true]);
}

#[test]
fn include_context_of_no_match_is_empty() {
    let records = chain();
    assert_eq!(include_context(&records, &vec![false, false, false]), vec![false, false, false]);
}

#[test]
fn include_context_adds_ancestors_and_descendants() {
    let records = vec![
        rec("A", None, "a"),
        rec("B", Some("A"), "b"),
        rec("C", Some("B"), "c"),
        rec("D", Some("A"), "d"),
        rec("E", None, "e"),
    ];
    let flags = include_context(&records, &vec![false, true, false, false, false]);
    assert_eq!(flags, vec![true, true, true, false, false]);
}

#[test]
fn include_context_treats_missing_flags_as_unset() {
    let records = chain();
    assert_eq!(include_context(&records, &vec![]), vec![false, false, false]);
    assert_eq!(include_context(&records, &vec![false, true]), vec![true, true, true]);
}

#[test]
fn include_context_keeps_every_record_that_shares_a_kept_identifier() {
    let records = vec![rec("A", None, "first"), rec("A", None, "second"), rec("B", None, "b")];
    assert_eq!(include_context(&records, &vec![true, false, false]), vec![true, true, false]);
}

#[test]
fn ancestors_follow_the_last_record_of_an_identifier() {
    let records = vec![
        rec("U1", None, "u1"),
        rec("U2", None, "u2"),
        rec("X", Some("U1"), "early"),
        rec("X", Some("U2"), "late"),
        rec("K", Some("X"), "kid"),
    ];
    let mut flags = vec![false; 5];
    add_all_ancestors(&records, 4, &mut flags);
    assert_eq!(flags, vec![false, true, true, true, false]);
}

#[test]
fn add_all_ancestors_keeps_what_was_set() {
    let records = chain();
    let mut flags = vec![false, false, true];
    add_all_ancestors(&records, 2, &mut flags);
    assert_eq!(flags, vec![true, true, true]);
    let mut flags = vec![false, false, false];
    add_all_ancestors(&records, 0, &mut flags);
    assert_eq!(flags, vec![false, false, false]);
}

#[test]
fn add_all_descendants_goes_below_what_is_already_included() {
    let records = vec![
        rec("A", None, "a"),
        rec("B", Some("A"), "b"),
        rec("C", Some("B"), "c"),
        rec("D", Some("A"), "d"),
        rec("E", Some("D"), "e"),
    ];
    let mut included = vec![true, true, false, false, false];
    let mut visited = vec![false; 5];
    add_all_descendants(&"A".to_string(), &records, &mut included, &mut visited);
    assert_eq!(included, vec![true, true, true, true, true]);
    assert_eq!(visited, vec![false, true, true, true, true]);
}

#[test]
fn add_all_descendants_stops_at_what_it_has_visited() {
    let records = vec![
        rec("A", None, "a"),
        rec("B", Some("A"), "b"),
        rec("C", Some("B"), "c"),
        rec("D", Some("A"), "d"),
        rec("E", Some("D"), "e"),
    ];
    let mut included = vec![false; 5];
    let mut visited = vec![false, true, false, false, false];
    add_all_descendants(&"A".to_string(), &records, &mut included, &mut visited);
    assert_eq!(included, vec![false, false, false, true, true]);
    assert_eq!(visited, vec![false, true, false, true, true]);
}

#[test]
fn add_all_descendants_of_a_leaf_changes_nothing() {
    let records = chain();
    let mut included = vec![false, false, true];
    let mut visited = vec![false; 3];
    add_all_descendants(&"C".to_string(), &records, &mut included, &mut visited);
    assert_eq!(included, vec![false, false, true]);
    assert_eq!(visited, vec![false, false, false]);
}

#[test]
fn add_descendants_of_matches_keeps_what_was_set() {
    let records = vec![
        rec("A", None, "a"),
        rec("B", Some("A"), "b"),
        rec("C", Some("B"), "c"),
        rec("D", None, "d"),
    ];
    let mut included = vec![false, false, false, true];
    add_descendants_of_matches(&records, &vec![false, true, false, false], &mut included);
    assert_eq!(included, vec![false, false, true, true]);
}

#[test]
fn mark_id_sets_every_record_with_the_identifier() {
    let records = vec![rec("A", None, "1"), rec("B", None, "2"), rec("A", None, "3")];
    let mut flags = vec![false, true, false];
    mark_id(&records, &mut flags, &"A".to_string());
    assert_eq!(flags, vec![true, true, true]);
    let mut flags = vec![false, false, false];
    mark_id(&records, &mut flags, &"Q".to_string());
    assert_eq!(flags, vec![false, false, false]);
}

#[test]
fn find_last_gives_the_last_position() {
    let records = vec![rec("A", None, "1"), rec("B", None, "2"), rec("A", None, "3")];
    assert_eq!(find_last(&records, &"A".to_string()), Some(2));
    assert_eq!(find_last(&records, &"B".to_string()), Some(1));
    assert_eq!(find_last(&records, &"C".to_string()), None);
}

#[test]
fn select_records_keeps_the_flagged_in_order() {
    let records = chain();
    assert_eq!(ids(&select_records(&records, &vec![true, false, true])), vec!["A", "C"]);
    assert_eq!(ids(&select_records(&records, &vec![false, true])), vec!["B"]);
    assert!(select_records(&records, &vec![]).is_empty());
}

#[test]
fn every_kept_record_is_a_match_an_ancestor_or_a_descendant() {
    let records = vec![
        rec("1", None, "vehicles"),
        rec("2", Some("1"), "cars"),
        rec("3", Some("2"), "sports cars"),
        rec("4", Some("1"), "boats"),
        rec("5", None, "food"),
        rec("6", Some("5"), "carrots"),
    ];
    let out = filter_records(&records, "cars");
    // matches: 2 and 3; ancestor: 1; nothing else
    assert_eq!(ids(&out), vec!["1", "2", "3"]);
    let out = filter_records(&records, "car");
    // matches: 2, 3 and 6; ancestors: 1 and 5
    assert_eq!(ids(&out), vec!["1", "2", "3", "5", "6"]);
}
