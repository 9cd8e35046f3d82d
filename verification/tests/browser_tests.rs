use taxonomy_tree::browser::{
    audience_records, content_records, filtered_tree_from_items, find_record, format_item_details,
    product_records, App, KeyCode, KeyPress,
};
use taxonomy_tree::record::{Audience, Content, Datasource, Product, Record};
use taxonomy_tree::tree::TreeNode;
use taxonomy_tree::view::{calculate_flat_index, count_visible_tree_items, is_open};

fn some(s: &str) -> Option<String> {
    Some(s.to_string())
}

fn product(id: &str, parent: Option<&str>, name: &str) -> Product {
    Product {
        unique_id: id.to_string(),
        parent: parent.map(|p| p.to_string()),
        name: name.to_string(),
        tier_1: some(name),
        tier_2: None,
        tier_3: None,
    }
}

fn content(id: &str, parent: Option<&str>, name: &str) -> Content {
    Content {
        unique_id: id.to_string(),
        parent: parent.map(|p| p.to_string()),
        name: name.to_string(),
        tier_1: some(name),
        tier_2: None,
        tier_3: None,
        tier_4: None,
        ext: None,
    }
}

fn audience(id: &str, parent: Option<&str>, name: &str) -> Audience {
    Audience {
        unique_id: id.to_string(),
        parent: parent.map(|p| p.to_string()),
        name: name.to_string(),
        tier_1: some(name),
        tier_2: None,
        tier_3: None,
        tier_4: None,
        tier_5: None,
        tier_6: None,
        ext: None,
    }
}

fn session() -> App {
    App::new(
        vec![
            product("PR1", None, "Electronics"),
            product("PR2", Some("PR1"), "Audio Players"),
            product("PR3", Some("PR1"), "Cameras"),
            product("PR4", None, "Clothing"),
        ],
        vec![
            content("C1", None, "Music and Audio"),
            content("C2", Some("C1"), "Talk Radio"),
            content("C3", Some("C1"), "Audio Books"),
            content("C4", None, "Sports"),
            content("C5", Some("C4"), "Cricket"),
        ],
        vec![audience("A1", None, "Demographic"), audience("A2", Some("A1"), "Age Range")],
    )
}

fn key(code: KeyCode) -> KeyPress {
    KeyPress { code, shift: false, control: false }
}

fn type_text(app: &mut App, text: &str) {
    for c in text.chars() {
        assert!(app.handle_key(key(KeyCode::Char(c))));
    }
}

fn shape(forest: &Vec<TreeNode>) -> String {
    let mut out = String::new();
    for node in forest {
        out.push_str(&node.id);
        if !node.children.is_empty() {
            out.push('(');
            out.push_str(&shape(&node.children));
            out.push(')');
        }
        out.push(' ');
    }
    out.trim_end().to_string()
}

fn path(ids: &[&str]) -> Vec<String> {
    ids.iter().map(|s| s.to_string()).collect()
}

fn pairs(details: &Vec<(String, String)>) -> Vec<(&str, &str)> {
    details.iter().map(|(a, b)| (a.as_str(), b.as_str())).collect()
}

#[test]
fn new_session_shows_the_products_closed() {
    let app = session();
    assert_eq!(app.datasource, Datasource::Product);
    assert_eq!(app.filter_input, "");
    assert!(!app.show_popup);
    assert!(app.popup_content.is_empty());
    assert_eq!(shape(&app.forest), "PR1(PR2 PR3) PR4");
    assert_eq!(app.tree_state.selection, path(&["PR1"]));
    assert!(app.tree_state.open.is_empty());
    assert_eq!(count_visible_tree_items(&app.forest, &app.tree_state), 2);
    assert_eq!(calculate_flat_index(&app.forest, &app.tree_state, Vec::new()), Some(0));
}

#[test]
fn typing_filters_and_expands() {
    let mut app = session();
    type_text(&mut app, "audio");
    assert_eq!(app.filter_input, "audio");
    assert_eq!(shape(&app.forest), "PR1(PR2)");
    assert_eq!(app.tree_state.selection, path(&["PR1"]));
    assert_eq!(app.tree_state.open, vec![path(&["PR1"]), path(&["PR1", "PR2"])]);
    assert_eq!(count_visible_tree_items(&app.forest, &app.tree_state), 2);
}

#[test]
fn typing_keeps_the_case_of_the_text_and_matches_without_it() {
    let mut app = session();
    type_text(&mut app, "CAM");
    assert_eq!(app.filter_input, "CAM");
    assert_eq!(shape(&app.forest), "PR1(PR3)");
}

#[test]
fn backspace_removes_the_last_character() {
    let mut app = session();
    type_text(&mut app, "audiox");
    assert_eq!(shape(&app.forest), "");
    assert!(app.tree_state.selection.is_empty());
    assert!(app.handle_key(key(KeyCode::Backspace)));
    assert_eq!(app.filter_input, "audio");
    assert_eq!(shape(&app.forest), "PR1(PR2)");
    for _ in 0..5 {
        assert!(app.handle_key(key(KeyCode::Backspace)));
    }
    assert_eq!(app.filter_input, "");
    assert_eq!(shape(&app.forest), "PR1(PR2 PR3) PR4");
    assert!(app.tree_state.open.is_empty());
    assert!(app.handle_key(key(KeyCode::Backspace)));
    assert_eq!(app.filter_input, "");
    assert_eq!(shape(&app.forest), "PR1(PR2 PR3) PR4");
}

#[test]
fn switching_category_keeps_the_filter_text() {
    let mut app = session();
    type_text(&mut app, "audio");
    app.handle_key(key(KeyCode::Down));
    assert_eq!(app.tree_state.selection, path(&["PR1", "PR2"]));
    assert!(app.handle_key(key(KeyCode::Tab)));
    assert_eq!(app.datasource, Datasource::Content);
    assert_eq!(app.filter_input, "audio");
    assert_eq!(shape(&app.forest), "C1(C2 C3)");
    assert_eq!(app.tree_state.selection, path(&["C1"]));
    assert_eq!(
        app.tree_state.open,
        vec![path(&["C1"]), path(&["C1", "C2"]), path(&["C1", "C3"])]
    );
    assert_eq!(count_visible_tree_items(&app.forest, &app.tree_state), 3);
}

#[test]
fn tab_goes_round_the_categories() {
    let mut app = session();
    app.handle_key(key(KeyCode::Tab));
    assert_eq!(app.datasource, Datasource::Content);
    assert_eq!(shape(&app.forest), "C1(C2 C3) C4(C5)");
    app.handle_key(key(KeyCode::Tab));
    assert_eq!(app.datasource, Datasource::Audience);
    assert_eq!(shape(&app.forest), "A1(A2)");
    app.handle_key(key(KeyCode::Tab));
    assert_eq!(app.datasource, Datasource::Product);
    let back = KeyPress { code: KeyCode::Tab, shift: true, control: false };
    app.handle_key(back);
    assert_eq!(app.datasource, Datasource::Audience);
    app.handle_key(back);
    assert_eq!(app.datasource, Datasource::Content);
}

#[test]
fn switch_datasource_resets_the_view() {
    let mut app = session();
    app.handle_key(key(KeyCode::Right));
    app.handle_key(key(KeyCode::Down));
    assert_eq!(app.tree_state.selection, path(&["PR1", "PR2"]));
    app.switch_datasource(Datasource::Audience);
    assert_eq!(app.datasource, Datasource::Audience);
    assert_eq!(app.tree_state.selection, path(&["A1"]));
    assert!(app.tree_state.open.is_empty());
    assert_eq!(app.filter_input, "");
}

#[test]
fn quit_keys_end_the_session() {
    let mut app = session();
    assert!(!app.handle_key(key(KeyCode::Char('q'))));
    assert!(!app.handle_key(key(KeyCode::Esc)));
    assert_eq!(app.filter_input, "");
    assert!(app.handle_key(key(KeyCode::Other)));
}

#[test]
fn arrows_move_and_open() {
    let mut app = session();
    assert!(app.handle_key(key(KeyCode::Right)));
    assert_eq!(app.tree_state.open, vec![path(&["PR1"])]);
    assert!(app.handle_key(key(KeyCode::Down)));
    assert!(app.handle_key(key(KeyCode::Down)));
    assert_eq!(app.tree_state.selection, path(&["PR1", "PR3"]));
    assert_eq!(calculate_flat_index(&app.forest, &app.tree_state, Vec::new()), Some(2));
    assert!(app.handle_key(key(KeyCode::Up)));
    assert_eq!(app.tree_state.selection, path(&["PR1", "PR2"]));
    assert!(app.handle_key(key(KeyCode::Left)));
    assert_eq!(app.tree_state.selection, path(&["PR1"]));
    assert!(app.handle_key(key(KeyCode::Left)));
    assert!(app.tree_state.open.is_empty());
    assert!(app.handle_key(key(KeyCode::PageDown)));
    assert_eq!(app.tree_state.selection, path(&["PR4"]));
    assert!(app.handle_key(key(KeyCode::PageUp)));
    assert_eq!(app.tree_state.selection, path(&["PR1"]));
}

#[test]
fn control_space_toggles_and_plain_space_is_text() {
    let mut app = session();
    let toggle = KeyPress { code: KeyCode::Char(' '), shift: false, control: true };
    assert!(app.handle_key(toggle));
    assert_eq!(app.tree_state.open, vec![path(&["PR1"])]);
    assert_eq!(app.filter_input, "");
    assert!(app.handle_key(toggle));
    assert!(app.tree_state.open.is_empty());
    assert!(app.handle_key(key(KeyCode::Char(' '))));
    assert_eq!(app.filter_input, " ");
    assert_eq!(shape(&app.forest), "PR1(PR2)");
}

#[test]
fn enter_shows_the_details_of_the_selected_record() {
    let mut app = session();
    app.handle_key(key(KeyCode::Right));
    app.handle_key(key(KeyCode::Down));
    assert!(app.handle_key(key(KeyCode::Enter)));
    assert!(app.show_popup);
    assert_eq!(
        pairs(&app.popup_content),
        vec![
            ("Unique ID", "PR2"),
            ("Parent ID", "PR1"),
            ("Name", "Audio Players"),
            ("Tier 1", "Audio Players"),
        ]
    );
}

#[test]
fn popup_takes_the_keys_until_it_is_closed() {
    let mut app = session();
    app.handle_key(key(KeyCode::Enter));
    assert!(app.show_popup);
    assert!(app.handle_key(key(KeyCode::Down)));
    assert!(app.handle_key(key(KeyCode::Char('x'))));
    assert!(app.handle_key(key(KeyCode::Tab)));
    assert!(app.show_popup);
    assert_eq!(app.filter_input, "");
    assert_eq!(app.datasource, Datasource::Product);
    assert_eq!(app.tree_state.selection, path(&["PR1"]));
    assert!(app.handle_key(key(KeyCode::Esc)));
    assert!(!app.show_popup);
    app.handle_key(key(KeyCode::Enter));
    assert!(app.handle_key(key(KeyCode::Enter)));
    assert!(!app.show_popup);
    app.handle_key(key(KeyCode::Enter));
    assert!(!app.handle_key(key(KeyCode::Char('q'))));
    assert!(!app.show_popup);
}

#[test]
fn enter_with_nothing_selected_shows_nothing() {
    let mut app = session();
    type_text(&mut app, "zzzz");
    assert!(app.tree_state.selection.is_empty());
    assert!(app.handle_key(key(KeyCode::Enter)));
    assert!(!app.show_popup);
    assert!(app.popup_content.is_empty());
}

#[test]
fn details_number_the_tiers_and_skip_an_empty_extension() {
    let r = Record {
        id: "7".to_string(),
        parent: None,
        name: "Seven".to_string(),
        tiers: vec!["a", "b", "c", "d", "e", "f", "g", "h", "i", "j", "k"]
            .into_iter()
            .map(|t| t.to_string())
            .collect(),
        extension: Some(String::new()),
    };
    let details = format_item_details(&r);
    assert_eq!(
        pairs(&details),
        vec![
            ("Unique ID", "7"),
            ("Parent ID", ""),
            ("Name", "Seven"),
            ("Tier 1", "a"),
            ("Tier 2", "b"),
            ("Tier 3", "c"),
            ("Tier 4", "d"),
            ("Tier 5", "e"),
            ("Tier 6", "f"),
            ("Tier 7", "g"),
            ("Tier 8", "h"),
            ("Tier 9", "i"),
            ("Tier 10", "j"),
            ("Tier 11", "k"),
        ]
    );
}

#[test]
fn details_end_with_the_extension_note() {
    let r = Record {
        id: "1".to_string(),
        parent: Some("0".to_string()),
        name: "One".to_string(),
        tiers: vec![],
        extension: Some("note".to_string()),
    };
    assert_eq!(
        pairs(&format_item_details(&r)),
        vec![("Unique ID", "1"), ("Parent ID", "0"), ("Name", "One"), ("Extension", "note")]
    );
}

#[test]
fn find_record_gives_the_first_position() {
    let records = product_records(&vec![
        product("A", None, "first"),
        product("B", None, "second"),
        product("A", None, "third"),
    ]);
    assert_eq!(find_record(&records, &"A".to_string()), Some(0));
    assert_eq!(find_record(&records, &"B".to_string()), Some(1));
    assert_eq!(find_record(&records, &"C".to_string()), None);
}

#[test]
fn records_of_each_category_take_the_shared_shape() {
    let p = product_records(&vec![product("P", Some("Q"), "Prod")]);
    assert_eq!(p[0].id, "P");
    assert_eq!(p[0].parent, some("Q"));
    assert_eq!(p[0].tiers, vec!["Prod"]);
    assert_eq!(p[0].extension, None);
    let mut c = content("C", None, "Cont");
    c.ext = some("x");
    c.tier_3 = some("third");
    let c = content_records(&vec![c]);
    assert_eq!(c[0].tiers, vec!["Cont", "third"]);
    assert_eq!(c[0].extension, some("x"));
    let mut a = audience("A", None, "Aud");
    a.tier_6 = some("six");
    a.tier_2 = some("");
    let a = audience_records(&vec![a]);
    assert_eq!(a[0].tiers, vec!["Aud", "six"]);
    assert_eq!(a[0].name, "Aud");
}

#[test]
fn filtered_forest_shows_the_match_in_lowercase_terms() {
    let records = product_records(&vec![product("PR1", None, "Audio"), product("PR2", None, "Video")]);
    let forest = filtered_tree_from_items(&records, "AUD");
    assert_eq!(shape(&forest), "PR1");
    let marks: Vec<(&str, bool)> =
        forest[0].label.iter().map(|s| (s.content.as_str(), s.highlighted)).collect();
    assert_eq!(marks, vec![("PR1", false), (" ", false), ("Aud", true), ("io", false)]);
    let forest = filtered_tree_from_items(&records, "");
    assert_eq!(shape(&forest), "PR1 PR2");
}

#[test]
fn filtered_tree_items_is_the_forest_on_show() {
    let mut app = session();
    type_text(&mut app, "cam");
    assert_eq!(shape(&app.filtered_tree_items()), shape(&app.forest));
    assert_eq!(shape(&app.forest), "PR1(PR3)");
}

#[test]
fn expand_filtered_nodes_opens_paths_only_under_a_filter() {
    let mut app = session();
    app.expand_filtered_nodes();
    assert!(app.tree_state.open.is_empty());
    type_text(&mut app, "a");
    app.tree_state.open.clear();
    app.expand_filtered_nodes();
    assert_eq!(app.tree_state.open.len(), 3);
}

#[test]
fn expand_filtered_nodes_keeps_what_is_open() {
    let mut app = session();
    type_text(&mut app, "cam");
    app.tree_state.open = vec![path(&["elsewhere"]), path(&["PR1"])];
    app.expand_filtered_nodes();
    assert!(is_open(&app.tree_state.open, &path(&["elsewhere"])));
    assert!(is_open(&app.tree_state.open, &path(&["PR1"])));
    assert!(is_open(&app.tree_state.open, &path(&["PR1", "PR3"])));
    assert!(!is_open(&app.tree_state.open, &path(&["PR1", "PR2"])));
    assert_eq!(app.tree_state.selection, path(&["PR1"]));
    assert_eq!(app.filter_input, "cam");
}

#[test]
fn filtering_many_records_keeps_them_all_in_view() {
    let mut items = vec![product("0", None, "Consumer Electronics and Accessories")];
    for i in 1..1500 {
        items.push(product(
            &i.to_string(),
            Some(&((i - 1) / 4).to_string()),
            "Portable Audio Players and Headphone Amplifiers",
        ));
    }
    let mut app = App::new(items, Vec::new(), Vec::new());
    type_text(&mut app, "amp");
    assert_eq!(count_visible_tree_items(&app.forest, &app.tree_state), 1500);
    assert_eq!(calculate_flat_index(&app.forest, &app.tree_state, Vec::new()), Some(0));
}
