//! The browsing session: the active category, the filter text, the forest on show,
//! and what each key does to them.

use vstd::prelude::*;
use crate::filter::{filter_records, filtered};
use crate::record::{views, Audience, Content, Datasource, Product, Record, RecordView};
use crate::record::{spec_next, spec_previous};
use crate::text::{decimal, decimal_string, lowercase, pop_char, push_char, to_lowercase};
use crate::tree::{all_paths, build_tree_items, forest_paths, is_forest_of, TreeNode};
use crate::tree_laws::lemma_forests_agree;
use crate::view::{first_root, has_children, step_down, step_up, steps_down, steps_up, TreeView};

verus! {

/// The keys that the session tells apart.
#[derive(Debug, Clone, Copy, PartialEq, Eq)]
pub enum KeyCode {
    Char(char),
    Esc,
    Enter,
    Tab,
    Backspace,
    Down,
    Up,
    Left,
    Right,
    PageDown,
    PageUp,
    Other,
}

/// A key press with the modifiers held.
#[derive(Debug, Clone, Copy, PartialEq, Eq)]
pub struct KeyPress {
    pub code: KeyCode,
    pub shift: bool,
    pub control: bool,
}

/// The views of a list of labelled values.
pub open spec fn pair_views(pairs: Seq<(String, String)>) -> Seq<(Seq<char>, Seq<char>)> {
    Seq::new(pairs.len(), |i: int| (pairs[i].0@, pairs[i].1@))
}

/// One labelled row for each tier, numbered from one.
pub open spec fn tier_rows(tiers: Seq<Seq<char>>) -> Seq<(Seq<char>, Seq<char>)> {
    Seq::new(tiers.len(), |i: int| ("Tier "@ + decimal((i + 1) as nat), tiers[i]))
}

/// The extension row, where the record has a non-empty extension note.
pub open spec fn extension_rows(extension: Option<Seq<char>>) -> Seq<(Seq<char>, Seq<char>)> {
    match extension {
        Some(e) => if e.len() > 0 {
            seq![("Extension"@, e)]
        } else {
            Seq::empty()
        },
        None => Seq::empty(),
    }
}

/// The text of an optional text, empty where there is none.
pub open spec fn or_empty(o: Option<Seq<char>>) -> Seq<char> {
    match o {
        Some(s) => s,
        None => Seq::empty(),
    }
}

/// The labelled rows that describe a record.
pub open spec fn details_spec(r: RecordView) -> Seq<(Seq<char>, Seq<char>)> {
    seq![("Unique ID"@, r.id), ("Parent ID"@, or_empty(r.parent)), ("Name"@, r.name)] + tier_rows(
        r.tiers,
    ) + extension_rows(r.extension)
}

/// The labelled rows that describe `item`.
pub fn format_item_details(item: &Record) -> (details: Vec<(String, String)>)
    ensures
        pair_views(details@) == details_spec(item@),
{
    let mut details: Vec<(String, String)> = Vec::new();
    details.push((String::from_str("Unique ID"), item.id.clone()));
    let parent = match &item.parent {
        Some(p) => p.clone(),
        None => String::new(),
    };
    details.push((String::from_str("Parent ID"), parent));
    details.push((String::from_str("Name"), item.name.clone()));
    let ghost head = seq![
        ("Unique ID"@, item@.id),
        ("Parent ID"@, or_empty(item@.parent)),
        ("Name"@, item@.name),
    ];
    assert(pair_views(details@) =~= head);
    let mut i: usize = 0;
    while i < item.tiers.len()
        invariant
            i <= item.tiers.len(),
            details.len() == 3 + i,
            pair_views(details@) == head + tier_rows(item@.tiers).take(i as int),
        decreases item.tiers.len() - i,
    {
        let ghost before = pair_views(details@);
        let mut label = String::from_str("Tier ");
        let number = decimal_string(i + 1);
        label.append(number.as_str());
        details.push((label, item.tiers[i].clone()));
        assert(pair_views(details@) =~= before.push(tier_rows(item@.tiers)[i as int]));
        assert(tier_rows(item@.tiers).take(i + 1) =~= tier_rows(item@.tiers).take(i as int).push(
            tier_rows(item@.tiers)[i as int],
        ));
        i += 1;
    }
    assert(tier_rows(item@.tiers).take(item.tiers.len() as int) =~= tier_rows(item@.tiers));
    let ghost mid = pair_views(details@);
    match &item.extension {
        Some(e) => {
            if e.as_str().unicode_len() > 0 {
                details.push((String::from_str("Extension"), e.clone()));
                assert(pair_views(details@) =~= mid + extension_rows(item@.extension));
            } else {
                assert(pair_views(details@) =~= mid + extension_rows(item@.extension));
            }
        },
        None => {
            assert(pair_views(details@) =~= mid + extension_rows(item@.extension));
        },
    }
    details
}

/// The position of the first record that carries `id`.
pub open spec fn first_with_id(rs: Seq<RecordView>, id: Seq<char>) -> Option<int>
    decreases rs.len(),
{
    if rs.len() == 0 {
        None
    } else {
        match first_with_id(rs.drop_last(), id) {
            Some(i) => Some(i),
            None => if rs.last().id == id {
                Some(rs.len() - 1)
            } else {
                None
            },
        }
    }
}

/// A record found among the first `n` records is found at the same place in the whole.
pub proof fn lemma_first_with_id_extend(rs: Seq<RecordView>, n: int, id: Seq<char>)
    requires
        0 <= n <= rs.len(),
        first_with_id(rs.take(n), id) is Some,
    ensures
        first_with_id(rs, id) == first_with_id(rs.take(n), id),
    decreases rs.len() - n,
{
    if n < rs.len() {
        assert(rs.take(n + 1).drop_last() =~= rs.take(n));
        lemma_first_with_id_extend(rs, n + 1, id);
    } else {
        assert(rs.take(n) =~= rs);
    }
}

/// The position of the first record that carries `id`.
pub fn find_record(records: &Vec<Record>, id: &String) -> (r: Option<usize>)
    ensures
        match r {
            Some(i) => i < records.len() && first_with_id(views(records@), id@) == Some(i as int),
            None => first_with_id(views(records@), id@) is None,
        },
{
    let ghost rs = views(records@);
    let mut k: usize = 0;
    assert(rs.take(0) =~= Seq::<RecordView>::empty());
    while k < records.len()
        invariant
            k <= records.len(),
            rs == views(records@),
            first_with_id(rs.take(k as int), id@) is None,
        decreases records.len() - k,
    {
        proof {
            assert(rs.take(k + 1).drop_last() =~= rs.take(k as int));
            assert(rs.take(k + 1).last() == records@[k as int]@);
        }
        if records[k].id == *id {
            proof {
                lemma_first_with_id_extend(rs, k + 1, id@);
            }
            return Some(k);
        }
        k += 1;
    }
    assert(rs.take(records.len() as int) =~= rs);
    None
}

/// The filter as the labels show it: the query in lowercase, or nothing where the
/// query is empty.
pub open spec fn shown_filter(query: Seq<char>) -> Seq<char> {
    if query.len() == 0 {
        Seq::empty()
    } else {
        lowercase(query)
    }
}

/// The forest of the records that `query` keeps.
pub open spec fn is_filtered_forest(
    forest: Seq<TreeNode>,
    rs: Seq<RecordView>,
    query: Seq<char>,
) -> bool {
    is_forest_of(
        forest,
        filtered(rs, query),
        shown_filter(query),
        None,
        filtered(rs, query).len(),
    )
}

/// The forest of the records that `query` keeps.
pub fn filtered_tree_from_items(items: &Vec<Record>, query: &str) -> (forest: Vec<TreeNode>)
    ensures
        is_filtered_forest(forest@, views(items@), query@),
{
    let kept = filter_records(items, query);
    if query.unicode_len() == 0 {
        let blank = String::new();
        build_tree_items(&kept, blank.as_str())
    } else {
        let filter_lower = to_lowercase(query);
        build_tree_items(&kept, filter_lower.as_str())
    }
}

/// The state of a browsing session.
#[derive(Debug)]
pub struct App {
    pub datasource: Datasource,
    pub filter_input: String,
    pub products: Vec<Record>,
    pub content: Vec<Record>,
    pub audience: Vec<Record>,
    pub forest: Vec<TreeNode>,
    pub tree_state: TreeView,
    pub show_popup: bool,
    pub popup_content: Vec<(String, String)>,
}

/// The product records in the shared shape.
pub fn product_records(items: &Vec<Product>) -> (records: Vec<Record>)
    ensures
        records.len() == items.len(),
        forall|i: int| 0 <= i < items.len() ==> records@[i]@ == items@[i].spec_record(),
{
    let mut records: Vec<Record> = Vec::new();
    let mut i: usize = 0;
    while i < items.len()
        invariant
            i <= items.len(),
            records.len() == i,
            forall|k: int| 0 <= k < i ==> records@[k]@ == items@[k].spec_record(),
        decreases items.len() - i,
    {
        records.push(items[i].record());
        i += 1;
    }
    records
}

/// The content records in the shared shape.
pub fn content_records(items: &Vec<Content>) -> (records: Vec<Record>)
    ensures
        records.len() == items.len(),
        forall|i: int| 0 <= i < items.len() ==> records@[i]@ == items@[i].spec_record(),
{
    let mut records: Vec<Record> = Vec::new();
    let mut i: usize = 0;
    while i < items.len()
        invariant
            i <= items.len(),
            records.len() == i,
            forall|k: int| 0 <= k < i ==> records@[k]@ == items@[k].spec_record(),
        decreases items.len() - i,
    {
        records.push(items[i].record());
        i += 1;
    }
    records
}

/// The audience records in the shared shape.
pub fn audience_records(items: &Vec<Audience>) -> (records: Vec<Record>)
    ensures
        records.len() == items.len(),
        forall|i: int| 0 <= i < items.len() ==> records@[i]@ == items@[i].spec_record(),
{
    let mut records: Vec<Record> = Vec::new();
    let mut i: usize = 0;
    while i < items.len()
        invariant
            i <= items.len(),
            records.len() == i,
            forall|k: int| 0 <= k < i ==> records@[k]@ == items@[k].spec_record(),
        decreases items.len() - i,
    {
        records.push(items[i].record());
        i += 1;
    }
    records
}

impl App {
    /// The records of the active category.
    pub open spec fn active(&self) -> Seq<RecordView> {
        match self.datasource {
            Datasource::Product => views(self.products@),
            Datasource::Content => views(self.content@),
            Datasource::Audience => views(self.audience@),
        }
    }

    /// The forest on show is that of the active category under the filter text, and
    /// the selection is at rest in it.
    pub open spec fn wf(&self) -> bool {
        &&& is_filtered_forest(self.forest@, self.active(), self.filter_input@)
        &&& self.tree_state.settled(self.forest@)
    }

    /// The session holds the same records as `other`.
    pub open spec fn same_records(&self, other: App) -> bool {
        &&& self.products == other.products
        &&& self.content == other.content
        &&& self.audience == other.audience
    }

    /// The session differs from `other` in its tree view at most.
    pub open spec fn same_but_view(&self, other: App) -> bool {
        &&& self.same_records(other)
        &&& self.datasource == other.datasource
        &&& self.filter_input == other.filter_input
        &&& self.forest == other.forest
        &&& self.show_popup == other.show_popup
        &&& self.popup_content == other.popup_content
    }

    /// The tree view is that of a forest just built: the first root is selected, and
    /// every path is open where a filter text is set, none otherwise.
    pub open spec fn fresh(&self) -> bool {
        &&& self.wf()
        &&& self.tree_state.selected() == first_root(self.forest@)
        &&& forall|p: Seq<Seq<char>>|
            self.tree_state.open_paths().contains(p) == (self.filter_input@.len() > 0 && all_paths(
                self.forest@,
                Seq::empty(),
            ).contains(p))
    }

    /// The session after a rebuild for the category `d` and the filter text `input`.
    pub open spec fn rebuilt(&self, before: App, d: Datasource, input: Seq<char>) -> bool {
        &&& self.same_records(before)
        &&& self.datasource == d
        &&& self.filter_input@ == input
        &&& self.show_popup == before.show_popup
        &&& self.popup_content == before.popup_content
        &&& self.fresh()
    }

    /// The session after a move: only the tree view differs, and it holds the given
    /// open paths and selection.
    pub open spec fn moved(
        &self,
        before: App,
        open: Set<Seq<Seq<char>>>,
        selected: Seq<Seq<char>>,
    ) -> bool {
        &&& self.same_but_view(before)
        &&& self.tree_state.open_paths() == open
        &&& self.tree_state.selected() == selected
    }

    /// The record that the selection names: the first of the active category that
    /// carries the last identifier of the selected path.
    pub open spec fn selected_record(&self) -> Option<int> {
        if self.tree_state.selected().len() == 0 {
            None
        } else {
            first_with_id(self.active(), self.tree_state.selected().last())
        }
    }

    /// The session with the details of the selected record on show, where the
    /// selection names a record; the session as it was, where it names none.
    pub open spec fn detailed(&self, before: App) -> bool {
        match before.selected_record() {
            Some(i) => {
                &&& self.same_records(before)
                &&& self.datasource == before.datasource
                &&& self.filter_input == before.filter_input
                &&& self.forest == before.forest
                &&& self.tree_state == before.tree_state
                &&& self.show_popup
                &&& pair_views(self.popup_content@) == details_spec(before.active()[i])
            },
            None => *self == before,
        }
    }

    /// The records of the active category.
    pub fn active_records(&self) -> (records: &Vec<Record>)
        ensures
            views(records@) == self.active(),
    {
        match self.datasource {
            Datasource::Product => &self.products,
            Datasource::Content => &self.content,
            Datasource::Audience => &self.audience,
        }
    }

    /// A session on the product category, with no filter text and the first root
    /// selected.
    pub fn new(products: Vec<Product>, content: Vec<Content>, audience: Vec<Audience>) -> (app: App)
        ensures
            app.datasource == Datasource::Product,
            app.filter_input@.len() == 0,
            !app.show_popup,
            app.popup_content@.len() == 0,
            app.fresh(),
            app.products.len() == products.len(),
            app.content.len() == content.len(),
            app.audience.len() == audience.len(),
            forall|i: int|
                0 <= i < products.len() ==> app.products@[i]@ == products@[i].spec_record(),
            forall|i: int| 0 <= i < content.len() ==> app.content@[i]@ == content@[i].spec_record(),
            forall|i: int|
                0 <= i < audience.len() ==> app.audience@[i]@ == audience@[i].spec_record(),
    {
        let mut app = App {
            datasource: Datasource::Product,
            filter_input: String::new(),
            products: product_records(&products),
            content: content_records(&content),
            audience: audience_records(&audience),
            forest: Vec::new(),
            tree_state: TreeView::new(),
            show_popup: false,
            popup_content: Vec::new(),
        };
        app.refresh();
        app
    }

    /// The forest of the active category under the filter text.
    pub fn filtered_tree_items(&self) -> (forest: Vec<TreeNode>)
        ensures
            is_filtered_forest(forest@, self.active(), self.filter_input@),
    {
        filtered_tree_from_items(self.active_records(), self.filter_input.as_str())
    }

    /// Opens every path of the forest of the active category under the filter text,
    /// beside the paths that are open already, where a filter text is set.
    pub fn expand_filtered_nodes(&mut self)
        ensures
            final(self).same_but_view(*old(self)),
            final(self).tree_state.selection == old(self).tree_state.selection,
            old(self).filter_input@.len() == 0 ==> final(self).tree_state == old(self).tree_state,
            old(self).filter_input@.len() > 0 ==> forall|f: Seq<TreeNode>| #[trigger]
                is_filtered_forest(f, old(self).active(), old(self).filter_input@)
                    ==> final(self).tree_state.open_paths() == old(
                    self,
                ).tree_state.open_paths().union(forest_paths(f)),
    {
        if self.filter_input.as_str().unicode_len() > 0 {
            let tree_items = self.filtered_tree_items();
            self.tree_state.open_all(&tree_items);
            proof {
                let kept = filtered(old(self).active(), old(self).filter_input@);
                assert forall|f: Seq<TreeNode>| #[trigger]
                    is_filtered_forest(
                        f,
                        old(self).active(),
                        old(self).filter_input@,
                    ) implies forest_paths(f) == forest_paths(tree_items@) by {
                    lemma_forests_agree(
                        f,
                        tree_items@,
                        kept,
                        shown_filter(old(self).filter_input@),
                        None,
                        kept.len(),
                        Seq::empty(),
                    );
                }
            }
        }
    }

    /// Builds the forest anew and resets the tree view to it.
    pub fn refresh(&mut self)
        ensures
            final(self).rebuilt(*old(self), old(self).datasource, old(self).filter_input@),
            final(self).filter_input == old(self).filter_input,
    {
        let forest = self.filtered_tree_items();
        let expand = self.filter_input.as_str().unicode_len() > 0;
        self.tree_state = TreeView::reset(&forest, expand);
        self.forest = forest;
    }

    /// Makes `datasource` the active category. The filter text stays; the forest is
    /// built anew and the tree view reset to it.
    pub fn switch_datasource(&mut self, datasource: Datasource)
        ensures
            final(self).rebuilt(*old(self), datasource, old(self).filter_input@),
            final(self).filter_input == old(self).filter_input,
    {
        self.datasource = datasource;
        self.refresh();
    }

    /// Puts the details of the selected record on show.
    pub fn show_item_details(&mut self)
        ensures
            final(self).detailed(*old(self)),
    {
        let n = self.tree_state.selection.len();
        if n == 0 {
            return ;
        }
        assert(self.tree_state.selected().last() == self.tree_state.selection@[n - 1]@);
        let records = self.active_records();
        match find_record(records, &self.tree_state.selection[n - 1]) {
            Some(i) => {
                assert(views(records@)[i as int] == records@[i as int]@);
                let details = format_item_details(&records[i]);
                self.popup_content = details;
                self.show_popup = true;
            },
            None => {},
        }
    }

    /// What a key does to a session whose details are on show: escape, enter and `q`
    /// close them, and `q` ends the session; every other key is ignored.
    pub open spec fn popup_key(&self, before: App, key: KeyPress, go_on: bool) -> bool {
        match key.code {
            KeyCode::Esc | KeyCode::Enter => go_on && *self == (App { show_popup: false, ..before }),
            KeyCode::Char(c) => go_on == (c != 'q') && *self == if c == 'q' {
                App { show_popup: false, ..before }
            } else {
                before
            },
            _ => go_on && *self == before,
        }
    }

    /// The open paths after a move to the left: without the selected path.
    pub open spec fn open_after_left(&self) -> Set<Seq<Seq<char>>> {
        self.tree_state.open_paths().remove(self.tree_state.selected())
    }

    /// The selection after a move to the left: the parent of the selected node, where
    /// the selected path is closed and has a parent; otherwise the selection as it is.
    pub open spec fn selected_after_left(&self) -> Seq<Seq<char>> {
        let s = self.tree_state.selected();
        if !self.tree_state.open_paths().contains(s) && s.len() > 1 {
            s.drop_last()
        } else {
            s
        }
    }

    /// The open paths after a move to the right: with the selected path, where the
    /// selected node has children.
    pub open spec fn open_after_right(&self) -> Set<Seq<Seq<char>>> {
        if has_children(self.forest@, self.tree_state.selected()) {
            self.tree_state.open_paths().insert(self.tree_state.selected())
        } else {
            self.tree_state.open_paths()
        }
    }

    /// The open paths after a toggle: the selected path changes sides, where
    /// something is selected.
    pub open spec fn open_after_toggle(&self) -> Set<Seq<Seq<char>>> {
        let s = self.tree_state.selected();
        if s.len() == 0 {
            self.tree_state.open_paths()
        } else if self.tree_state.open_paths().contains(s) {
            self.tree_state.open_paths().remove(s)
        } else {
            self.tree_state.open_paths().insert(s)
        }
    }

    /// What a key does to a session whose details are not on show.
    pub open spec fn browse_key(&self, before: App, key: KeyPress, go_on: bool) -> bool {
        let view = before.tree_state;
        let shown = view.shown(before.forest@);
        match key.code {
            KeyCode::Esc => !go_on && *self == before,
            KeyCode::Enter => go_on && self.detailed(before),
            KeyCode::Tab => go_on && self.rebuilt(
                before,
                if key.shift {
                    spec_previous(before.datasource)
                } else {
                    spec_next(before.datasource)
                },
                before.filter_input@,
            ),
            KeyCode::Char(c) => if c == 'q' {
                !go_on && *self == before
            } else if c == ' ' && key.control {
                go_on && self.moved(before, before.open_after_toggle(), view.selected())
            } else {
                go_on && self.rebuilt(before, before.datasource, before.filter_input@.push(c))
            },
            KeyCode::Backspace => go_on && self.rebuilt(
                before,
                before.datasource,
                if before.filter_input@.len() > 0 {
                    before.filter_input@.drop_last()
                } else {
                    before.filter_input@
                },
            ),
            KeyCode::Down => go_on && self.moved(
                before,
                view.open_paths(),
                step_down(shown, view.selected()),
            ),
            KeyCode::Up => go_on && self.moved(
                before,
                view.open_paths(),
                step_up(shown, view.selected()),
            ),
            KeyCode::Left => go_on && self.moved(
                before,
                if view.open_paths().contains(view.selected()) {
                    before.open_after_left()
                } else {
                    view.open_paths()
                },
                before.selected_after_left(),
            ),
            KeyCode::Right => go_on && self.moved(before, before.open_after_right(), view.selected()),
            KeyCode::PageDown => go_on && self.moved(
                before,
                view.open_paths(),
                steps_down(shown, view.selected(), 10),
            ),
            KeyCode::PageUp => go_on && self.moved(
                before,
                view.open_paths(),
                steps_up(shown, view.selected(), 10),
            ),
            KeyCode::Other => go_on && *self == before,
        }
    }

    /// Applies a key to the session. Returns whether the session goes on. A forest that
    /// matched the category and the filter text before the key matches them after it.
    pub fn handle_key(&mut self, key: KeyPress) -> (go_on: bool)
        ensures
            old(self).wf() ==> final(self).wf(),
            old(self).show_popup ==> final(self).popup_key(*old(self), key, go_on),
            !old(self).show_popup ==> final(self).browse_key(*old(self), key, go_on),
    {
        if self.show_popup {
            match key.code {
                KeyCode::Esc | KeyCode::Enter => {
                    self.show_popup = false;
                    return true;
                },
                KeyCode::Char(c) => {
                    if c == 'q' {
                        self.show_popup = false;
                        return false;
                    }
                    return true;
                },
                _ => {
                    return true;
                },
            }
        }
        match key.code {
            KeyCode::Esc => {
                return false;
            },
            KeyCode::Enter => {
                self.show_item_details();
            },
            KeyCode::Tab => {
                if key.shift {
                    self.switch_datasource(self.datasource.previous());
                } else {
                    self.switch_datasource(self.datasource.next());
                }
            },
            KeyCode::Char(c) => {
                if c == 'q' {
                    return false;
                } else if c == ' ' && key.control {
                    self.tree_state.toggle_selected();
                } else {
                    push_char(&mut self.filter_input, c);
                    self.refresh();
                }
            },
            KeyCode::Backspace => {
                pop_char(&mut self.filter_input);
                self.refresh();
            },
            KeyCode::Down => {
                self.tree_state.key_down(&self.forest);
            },
            KeyCode::Up => {
                self.tree_state.key_up(&self.forest);
            },
            KeyCode::Left => {
                self.tree_state.key_left();
            },
            KeyCode::Right => {
                self.tree_state.key_right(&self.forest);
            },
            KeyCode::PageDown => {
                self.tree_state.page_down(&self.forest);
            },
            KeyCode::PageUp => {
                self.tree_state.page_up(&self.forest);
            },
            KeyCode::Other => {},
        }
        true
    }
}

} // verus!
