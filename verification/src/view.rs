//! The tree view: which paths are open, which node is selected, and where the
//! selection stands among the visible rows.

use vstd::prelude::*;
use crate::record::{clone_strings, views};
use crate::tree::{
    all_paths, capped, collect_all_tree_paths, extend_path, forest_paths, path_views, TreeNode,
};
use crate::view_laws::{
    lemma_first_row, lemma_parent_shown, lemma_shown_by_ancestors, lemma_step_shown,
};

verus! {

/// The open paths and the selected path of a forest on show.
#[derive(Debug)]
pub struct TreeView {
    pub open: Vec<Vec<String>>,
    pub selection: Vec<String>,
}

/// The set of the first `k` paths of a list.
pub open spec fn seen_paths(list: Seq<Seq<Seq<char>>>, k: int) -> Set<Seq<Seq<char>>> {
    Set::new(|p: Seq<Seq<char>>| list.take(k).contains(p))
}

/// The set of paths that a list of open paths holds.
pub open spec fn open_set(open: Seq<Vec<String>>) -> Set<Seq<Seq<char>>> {
    Set::new(
        |p: Seq<Seq<char>>| exists|k: int| 0 <= k < open.len() && views((#[trigger] open[k])@) == p,
    )
}

/// The visible rows of `forest`: the path of each node, and below it the rows of its
/// children where its path is open, in reading order. `prefix` is the path of the
/// forest's parent.
pub open spec fn rows(
    forest: Seq<TreeNode>,
    open: Set<Seq<Seq<char>>>,
    prefix: Seq<Seq<char>>,
) -> Seq<Seq<Seq<char>>>
    decreases forest,
{
    if forest.len() == 0 {
        Seq::empty()
    } else {
        let path = prefix.push(forest.last().id@);
        rows(forest.drop_last(), open, prefix) + seq![path] + if open.contains(path) {
            rows(forest.last().children@, open, path)
        } else {
            Seq::empty()
        }
    }
}

/// The first position of `path` among `list`.
pub open spec fn index_of(list: Seq<Seq<Seq<char>>>, path: Seq<Seq<char>>) -> Option<int>
    decreases list.len(),
{
    if list.len() == 0 {
        None
    } else {
        match index_of(list.drop_last(), path) {
            Some(i) => Some(i),
            None => if list.last() == path {
                Some(list.len() - 1)
            } else {
                None
            },
        }
    }
}

/// What `index_of` finds is a first position, and it finds none only where the path
/// is absent.
pub proof fn lemma_index_of(list: Seq<Seq<Seq<char>>>, path: Seq<Seq<char>>)
    ensures
        match index_of(list, path) {
            Some(i) => 0 <= i < list.len() && list[i] == path && forall|j: int|
                0 <= j < i ==> list[j] != path,
            None => forall|j: int| 0 <= j < list.len() ==> list[j] != path,
        },
    decreases list.len(),
{
    if list.len() > 0 {
        lemma_index_of(list.drop_last(), path);
        let front = list.drop_last();
        match index_of(list, path) {
            Some(i) => {
                assert forall|j: int| 0 <= j < i implies list[j] != path by {
                    assert(front[j] == list[j]);
                }
                if index_of(front, path) is Some {
                    assert(front[i] == list[i]);
                }
            },
            None => {
                assert forall|j: int| 0 <= j < list.len() implies list[j] != path by {
                    if j < front.len() {
                        assert(front[j] == list[j]);
                    }
                }
            },
        }
    }
}

/// The first position of a path in two lists put together is its first position in
/// the first list, or else behind it in the second.
pub proof fn lemma_index_of_concat(
    a: Seq<Seq<Seq<char>>>,
    b: Seq<Seq<Seq<char>>>,
    path: Seq<Seq<char>>,
)
    ensures
        index_of(a + b, path) == match index_of(a, path) {
            Some(i) => Some(i),
            None => match index_of(b, path) {
                Some(j) => Some(a.len() + j),
                None => None,
            },
        },
    decreases b.len(),
{
    if b.len() == 0 {
        assert(a + b =~= a);
    } else {
        assert((a + b).drop_last() =~= a + b.drop_last());
        lemma_index_of_concat(a, b.drop_last(), path);
    }
}

/// Whether two paths hold the same identifiers.
pub fn paths_equal(a: &Vec<String>, b: &Vec<String>) -> (same: bool)
    ensures
        same == (views(a@) == views(b@)),
{
    if a.len() != b.len() {
        assert(views(a@).len() != views(b@).len());
        return false;
    }
    let mut i: usize = 0;
    while i < a.len()
        invariant
            a.len() == b.len(),
            i <= a.len(),
            forall|k: int| 0 <= k < i ==> a@[k]@ == b@[k]@,
        decreases a.len() - i,
    {
        if a[i] != b[i] {
            assert(views(a@)[i as int] != views(b@)[i as int]);
            return false;
        }
        i += 1;
    }
    assert(views(a@) =~= views(b@));
    true
}

/// Whether `path` is among the open paths.
pub fn is_open(open: &Vec<Vec<String>>, path: &Vec<String>) -> (b: bool)
    ensures
        b == open_set(open@).contains(views(path@)),
{
    let mut k: usize = 0;
    while k < open.len()
        invariant
            k <= open.len(),
            forall|j: int| 0 <= j < k ==> views((#[trigger] open@[j])@) != views(path@),
        decreases open.len() - k,
    {
        if paths_equal(&open[k], path) {
            return true;
        }
        k += 1;
    }
    false
}

/// The first position of `path` among `list`.
pub fn find_path(list: &Vec<Vec<String>>, path: &Vec<String>) -> (r: Option<usize>)
    ensures
        match r {
            Some(i) => i < list.len() && index_of(path_views(list@), views(path@)) == Some(
                i as int,
            ),
            None => index_of(path_views(list@), views(path@)) is None,
        },
{
    let ghost all = path_views(list@);
    let mut k: usize = 0;
    assert(all.take(0) =~= Seq::<Seq<Seq<char>>>::empty());
    while k < list.len()
        invariant
            k <= list.len(),
            all == path_views(list@),
            index_of(all.take(k as int), views(path@)) is None,
        decreases list.len() - k,
    {
        proof {
            assert(all.take(k + 1).drop_last() =~= all.take(k as int));
            assert(all.take(k + 1).last() == views(list@[k as int]@));
            assert(all =~= all.take(k + 1) + all.skip(k + 1));
            lemma_index_of_concat(all.take(k + 1), all.skip(k + 1), views(path@));
        }
        if paths_equal(&list[k], path) {
            return Some(k);
        }
        k += 1;
    }
    assert(all.take(list.len() as int) =~= all);
    None
}

/// The visible rows of `items` under the path `current_path`.
pub fn visible_rows(items: &Vec<TreeNode>, open: &Vec<Vec<String>>, current_path: &Vec<String>) -> (list:
    Vec<Vec<String>>)
    ensures
        path_views(list@) == rows(items@, open_set(open@), views(current_path@)),
    decreases items@,
{
    let ghost prefix = views(current_path@);
    let ghost set = open_set(open@);
    let mut list: Vec<Vec<String>> = Vec::new();
    let mut i: usize = 0;
    assert(items@.take(0) =~= Seq::<TreeNode>::empty());
    assert(path_views(list@) =~= rows(items@.take(0), set, prefix));
    while i < items.len()
        invariant
            i <= items.len(),
            prefix == views(current_path@),
            set == open_set(open@),
            path_views(list@) == rows(items@.take(i as int), set, prefix),
        decreases items.len() - i,
    {
        proof {
            assert(items@.take(i + 1).drop_last() =~= items@.take(i as int));
            assert(items@.take(i + 1).last() == items@[i as int]);
        }
        let item = &items[i];
        let path = extend_path(current_path, &item.id);
        let ghost before = path_views(list@);
        list.push(clone_strings(&path));
        assert(path_views(list@) =~= before + seq![views(path@)]);
        if is_open(open, &path) {
            let ghost mid = path_views(list@);
            let mut below = visible_rows(&item.children, open, &path);
            let ghost tail = path_views(below@);
            list.append(&mut below);
            assert(path_views(list@) =~= mid + tail);
        } else {
            assert(path_views(list@) =~= path_views(list@) + Seq::<Seq<Seq<char>>>::empty());
        }
        i += 1;
    }
    assert(items@.take(items.len() as int) =~= items@);
    list
}

/// The number of visible rows of `items`, which stand below the node `current_id`
/// whose parent has the path `parent_path`; the largest machine number where there
/// are more.
pub fn count_visible_items(
    items: &Vec<TreeNode>,
    opened: &Vec<Vec<String>>,
    parent_path: &Vec<String>,
    current_id: &String,
) -> (count: usize)
    ensures
        count == capped(
            rows(items@, open_set(opened@), views(parent_path@).push(current_id@)).len(),
        ),
    decreases items@,
{
    let here = extend_path(parent_path, current_id);
    let ghost prefix = views(here@);
    let ghost set = open_set(opened@);
    let mut count: usize = 0;
    let mut i: usize = 0;
    assert(items@.take(0) =~= Seq::<TreeNode>::empty());
    while i < items.len()
        invariant
            i <= items.len(),
            prefix == views(here@),
            prefix == views(parent_path@).push(current_id@),
            set == open_set(opened@),
            count == capped(rows(items@.take(i as int), set, prefix).len()),
        decreases items.len() - i,
    {
        proof {
            assert(items@.take(i + 1).drop_last() =~= items@.take(i as int));
            assert(items@.take(i + 1).last() == items@[i as int]);
        }
        let item = &items[i];
        count = count.saturating_add(1);
        let item_path = extend_path(&here, &item.id);
        if is_open(opened, &item_path) {
            let below = count_visible_items(&item.children, opened, &here, &item.id);
            count = count.saturating_add(below);
        }
        i += 1;
    }
    assert(items@.take(items.len() as int) =~= items@);
    count
}

impl TreeView {
    /// The set of open paths.
    pub open spec fn open_paths(&self) -> Set<Seq<Seq<char>>> {
        open_set(self.open@)
    }

    /// The selected path.
    pub open spec fn selected(&self) -> Seq<Seq<char>> {
        views(self.selection@)
    }

    /// The visible rows of `forest` in this view.
    pub open spec fn shown(&self, forest: Seq<TreeNode>) -> Seq<Seq<Seq<char>>> {
        rows(forest, self.open_paths(), Seq::empty())
    }

    /// The selection is at rest in `forest`: it is one of the visible rows, or it is
    /// empty where the forest is.
    pub open spec fn settled(&self, forest: Seq<TreeNode>) -> bool {
        if forest.len() == 0 {
            self.selected().len() == 0
        } else {
            self.shown(forest).contains(self.selected())
        }
    }

    /// A view with nothing open and nothing selected.
    pub fn new() -> (v: TreeView)
        ensures
            v.open_paths() == Set::<Seq<Seq<char>>>::empty(),
            v.selected() == Seq::<Seq<char>>::empty(),
    {
        let v = TreeView { open: Vec::new(), selection: Vec::new() };
        assert(v.open_paths() =~= Set::<Seq<Seq<char>>>::empty());
        assert(v.selected() =~= Seq::<Seq<char>>::empty());
        v
    }
}

/// The number of visible rows of the forest `items` in the view `tree_state`; the
/// largest machine number where there are more.
pub fn count_visible_tree_items(items: &Vec<TreeNode>, tree_state: &TreeView) -> (count: usize)
    ensures
        count == capped(tree_state.shown(items@).len()),
{
    let ghost set = tree_state.open_paths();
    let ghost prefix = Seq::<Seq<char>>::empty();
    let root: Vec<String> = Vec::new();
    assert(views(root@) =~= prefix);
    let mut count: usize = 0;
    let mut i: usize = 0;
    assert(items@.take(0) =~= Seq::<TreeNode>::empty());
    while i < items.len()
        invariant
            i <= items.len(),
            views(root@) == prefix,
            prefix == Seq::<Seq<char>>::empty(),
            set == open_set(tree_state.open@),
            count == capped(rows(items@.take(i as int), set, prefix).len()),
        decreases items.len() - i,
    {
        proof {
            assert(items@.take(i + 1).drop_last() =~= items@.take(i as int));
            assert(items@.take(i + 1).last() == items@[i as int]);
        }
        let item = &items[i];
        count = count.saturating_add(1);
        let item_path = extend_path(&root, &item.id);
        if is_open(&tree_state.open, &item_path) {
            let below = count_visible_items(&item.children, &tree_state.open, &root, &item.id);
            count = count.saturating_add(below);
        }
        i += 1;
    }
    assert(items@.take(items.len() as int) =~= items@);
    count
}

/// The position of a found row, as far as a machine number holds it.
pub open spec fn capped_index(found: Option<int>) -> Option<usize> {
    match found {
        Some(i) => Some(capped(i as nat) as usize),
        None => None,
    }
}

/// The position of the selected path among the visible rows of `items`, which stand
/// below `current_path`; none where the selection is not among them.
pub fn calculate_flat_index(
    items: &Vec<TreeNode>,
    tree_state: &TreeView,
    current_path: Vec<String>,
) -> (r: Option<usize>)
    ensures
        r == capped_index(
            index_of(
                rows(items@, tree_state.open_paths(), views(current_path@)),
                tree_state.selected(),
            ),
        ),
    decreases items@,
{
    let ghost set = tree_state.open_paths();
    let ghost prefix = views(current_path@);
    let ghost sel = tree_state.selected();
    let mut index: usize = 0;
    let mut i: usize = 0;
    assert(items@.take(0) =~= Seq::<TreeNode>::empty());
    while i < items.len()
        invariant
            i <= items.len(),
            prefix == views(current_path@),
            set == open_set(tree_state.open@),
            sel == views(tree_state.selection@),
            index_of(rows(items@.take(i as int), set, prefix), sel) is None,
            index == capped(rows(items@.take(i as int), set, prefix).len()),
        decreases items.len() - i,
    {
        let item = &items[i];
        let item_path = extend_path(&current_path, &item.id);
        let ghost done = rows(items@.take(i as int), set, prefix);
        let ghost below = if set.contains(views(item_path@)) {
            rows(item.children@, set, views(item_path@))
        } else {
            Seq::empty()
        };
        proof {
            assert(items@.take(i + 1).drop_last() =~= items@.take(i as int));
            assert(items@.take(i + 1).last() == items@[i as int]);
            assert(rows(items@.take(i + 1), set, prefix) == done + seq![views(item_path@)] + below);
            lemma_index_of_concat(done + seq![views(item_path@)], below, sel);
            lemma_index_of_concat(done, seq![views(item_path@)], sel);
            assert(seq![views(item_path@)].drop_last() =~= Seq::<Seq<Seq<char>>>::empty());
            assert(index_of(Seq::<Seq<Seq<char>>>::empty(), sel) is None);
            if items.len() == i + 1 {
                assert(items@.take(i + 1) =~= items@);
            }
        }
        if paths_equal(&item_path, &tree_state.selection) {
            proof {
                lemma_rows_extend(items@, i + 1, set, prefix, sel);
            }
            return Some(index);
        }
        index = index.saturating_add(1);
        if is_open(&tree_state.open, &item_path) {
            match calculate_flat_index(&item.children, tree_state, item_path) {
                Some(child_index) => {
                    proof {
                        let j = index_of(below, sel)->0;
                        lemma_index_of(below, sel);
                        assert(index_of(rows(items@.take(i + 1), set, prefix), sel) == Some(
                            done.len() + 1 + j,
                        ));
                        lemma_rows_extend(items@, i + 1, set, prefix, sel);
                    }
                    return Some(index.saturating_add(child_index));
                },
                None => {},
            }
            index = index.saturating_add(
                count_visible_items(&item.children, &tree_state.open, &current_path, &item.id),
            );
        }
        i += 1;
    }
    assert(items@.take(items.len() as int) =~= items@);
    None
}

/// The rows of the first `n` nodes of a forest open the rows of the whole forest, so a
/// path found among them is found at the same position in the whole.
pub proof fn lemma_rows_extend(
    forest: Seq<TreeNode>,
    n: int,
    open: Set<Seq<Seq<char>>>,
    prefix: Seq<Seq<char>>,
    path: Seq<Seq<char>>,
)
    requires
        0 <= n <= forest.len(),
        index_of(rows(forest.take(n), open, prefix), path) is Some,
    ensures
        index_of(rows(forest, open, prefix), path) == index_of(
            rows(forest.take(n), open, prefix),
            path,
        ),
    decreases forest.len() - n,
{
    if n < forest.len() {
        assert(forest.take(n + 1).drop_last() =~= forest.take(n));
        let node = forest.take(n + 1).last();
        let p = prefix.push(node.id@);
        let below = if open.contains(p) {
            rows(node.children@, open, p)
        } else {
            Seq::empty()
        };
        let head = rows(forest.take(n), open, prefix);
        assert(rows(forest.take(n + 1), open, prefix) == head + seq![p] + below);
        lemma_index_of_concat(head + seq![p], below, path);
        lemma_index_of_concat(head, seq![p], path);
        lemma_rows_extend(forest, n + 1, open, prefix, path);
    } else {
        assert(forest.take(n) =~= forest);
    }
}

/// The selection after one move down: the row after the selected one; the selection
/// as it is where it is the last row; the first row where the selection is not among
/// the rows.
pub open spec fn step_down(list: Seq<Seq<Seq<char>>>, s: Seq<Seq<char>>) -> Seq<Seq<char>> {
    match index_of(list, s) {
        Some(i) => if i + 1 < list.len() {
            list[i + 1]
        } else {
            s
        },
        None => if list.len() > 0 {
            list[0]
        } else {
            s
        },
    }
}

/// The selection after one move up: the row before the selected one; the selection as
/// it is where it is the first row; the last row where the selection is not among the
/// rows.
pub open spec fn step_up(list: Seq<Seq<Seq<char>>>, s: Seq<Seq<char>>) -> Seq<Seq<char>> {
    match index_of(list, s) {
        Some(i) => if i > 0 {
            list[i - 1]
        } else {
            s
        },
        None => if list.len() > 0 {
            list.last()
        } else {
            s
        },
    }
}

/// The selection after `n` moves down.
pub open spec fn steps_down(list: Seq<Seq<Seq<char>>>, s: Seq<Seq<char>>, n: nat) -> Seq<
    Seq<char>,
>
    decreases n,
{
    if n == 0 {
        s
    } else {
        step_down(list, steps_down(list, s, (n - 1) as nat))
    }
}

/// The selection after `n` moves up.
pub open spec fn steps_up(list: Seq<Seq<Seq<char>>>, s: Seq<Seq<char>>, n: nat) -> Seq<Seq<char>>
    decreases n,
{
    if n == 0 {
        s
    } else {
        step_up(list, steps_up(list, s, (n - 1) as nat))
    }
}

/// The position of the first node of `forest` that carries `id`.
pub open spec fn first_named(forest: Seq<TreeNode>, id: Seq<char>) -> Option<int>
    decreases forest.len(),
{
    if forest.len() == 0 {
        None
    } else {
        match first_named(forest.drop_last(), id) {
            Some(k) => Some(k),
            None => if forest.last().id@ == id {
                Some(forest.len() - 1)
            } else {
                None
            },
        }
    }
}

/// The node that `path` leads to in `forest`, taking at each level the first node
/// that carries the path's identifier.
pub open spec fn node_at(forest: Seq<TreeNode>, path: Seq<Seq<char>>) -> Option<TreeNode>
    decreases path.len(),
{
    if path.len() == 0 {
        None
    } else {
        match first_named(forest, path[0]) {
            None => None,
            Some(k) => if path.len() == 1 {
                Some(forest[k])
            } else {
                node_at(forest[k].children@, path.drop_first())
            },
        }
    }
}

/// `path` leads to a node of `forest` that has children.
pub open spec fn has_children(forest: Seq<TreeNode>, path: Seq<Seq<char>>) -> bool {
    match node_at(forest, path) {
        Some(node) => node.children@.len() > 0,
        None => false,
    }
}

/// The path of the first root, or the empty path where the forest is empty.
pub open spec fn first_root(forest: Seq<TreeNode>) -> Seq<Seq<char>> {
    if forest.len() > 0 {
        seq![forest[0].id@]
    } else {
        Seq::empty()
    }
}

/// What `first_named` finds is within range and carries the identifier.
pub proof fn lemma_first_named(forest: Seq<TreeNode>, id: Seq<char>)
    ensures
        match first_named(forest, id) {
            Some(k) => 0 <= k < forest.len() && forest[k].id@ == id,
            None => true,
        },
    decreases forest.len(),
{
    if forest.len() > 0 {
        lemma_first_named(forest.drop_last(), id);
    }
}

/// The position of the first node of `items` that carries `id`.
pub fn find_named(items: &Vec<TreeNode>, id: &String) -> (r: Option<usize>)
    ensures
        match r {
            Some(k) => first_named(items@, id@) == Some(k as int) && k < items.len(),
            None => first_named(items@, id@) is None,
        },
{
    let mut k: usize = 0;
    assert(items@.take(0) =~= Seq::<TreeNode>::empty());
    while k < items.len()
        invariant
            k <= items.len(),
            first_named(items@.take(k as int), id@) is None,
        decreases items.len() - k,
    {
        proof {
            assert(items@.take(k + 1).drop_last() =~= items@.take(k as int));
            assert(items@.take(k + 1).last() == items@[k as int]);
        }
        if items[k].id == *id {
            proof {
                lemma_first_named_extend(items@, k + 1, id@);
            }
            return Some(k);
        }
        k += 1;
    }
    assert(items@.take(items.len() as int) =~= items@);
    None
}

/// A node found among the first `n` nodes is found at the same place in the whole.
pub proof fn lemma_first_named_extend(forest: Seq<TreeNode>, n: int, id: Seq<char>)
    requires
        0 <= n <= forest.len(),
        first_named(forest.take(n), id) is Some,
    ensures
        first_named(forest, id) == first_named(forest.take(n), id),
    decreases forest.len() - n,
{
    if n < forest.len() {
        assert(forest.take(n + 1).drop_last() =~= forest.take(n));
        lemma_first_named_extend(forest, n + 1, id);
    } else {
        assert(forest.take(n) =~= forest);
    }
}

/// Whether `path` leads to a node of `items` that has children.
pub fn path_has_children(items: &Vec<TreeNode>, path: &Vec<String>) -> (b: bool)
    ensures
        b == has_children(items@, views(path@)),
{
    let ghost whole = views(path@);
    let mut level: &Vec<TreeNode> = items;
    let mut d: usize = 0;
    assert(whole.skip(0) =~= whole);
    while d < path.len()
        invariant
            d <= path.len(),
            whole == views(path@),
            node_at(items@, whole) == node_at(level@, whole.skip(d as int)),
        decreases path.len() - d,
    {
        let ghost rest = whole.skip(d as int);
        assert(rest[0] == path@[d as int]@);
        assert(rest.drop_first() =~= whole.skip(d + 1));
        match find_named(level, &path[d]) {
            None => {
                return false;
            },
            Some(k) => {
                if d + 1 == path.len() {
                    return level[k].children.len() > 0;
                }
                level = &level[k].children;
            },
        }
        d += 1;
    }
    false
}

/// The open paths without those equal to `path`.
pub fn without_path(open: &Vec<Vec<String>>, path: &Vec<String>) -> (r: Vec<Vec<String>>)
    ensures
        open_set(r@) == open_set(open@).remove(views(path@)),
{
    let mut r: Vec<Vec<String>> = Vec::new();
    let mut k: usize = 0;
    while k < open.len()
        invariant
            k <= open.len(),
            forall|j: int| 0 <= j < r.len() ==> views((#[trigger] r@[j])@) != views(path@),
            forall|j: int|
                0 <= j < r.len() ==> open_set(open@).contains(views((#[trigger] r@[j])@)),
            forall|j: int|
                0 <= j < k && views((#[trigger] open@[j])@) != views(path@) ==> open_set(
                    r@,
                ).contains(views(open@[j]@)),
        decreases open.len() - k,
    {
        if !paths_equal(&open[k], path) {
            let ghost before = r@;
            let copy = clone_strings(&open[k]);
            r.push(copy);
            proof {
                assert(views(r@[r.len() - 1]@) == views(open@[k as int]@));
                assert forall|j: int|
                    0 <= j < k + 1 && views((#[trigger] open@[j])@) != views(
                        path@,
                    ) implies open_set(r@).contains(views(open@[j]@)) by {
                    if j < k {
                        let w = choose|w: int|
                            0 <= w < before.len() && views((#[trigger] before[w])@) == views(
                                open@[j]@,
                            );
                        assert(r@[w] == before[w]);
                    }
                }
            }
        }
        k += 1;
    }
    proof {
        assert forall|p: Seq<Seq<char>>| open_set(r@).contains(p) == open_set(open@).remove(
            views(path@),
        ).contains(p) by {
            if open_set(open@).contains(p) && p != views(path@) {
                let w = choose|w: int| 0 <= w < open.len() && views((#[trigger] open@[w])@) == p;
                assert(open_set(r@).contains(views(open@[w]@)));
            }
        }
        assert(open_set(r@) =~= open_set(open@).remove(views(path@)));
    }
    r
}

/// Adds a copy of `path` to the open paths.
pub fn with_path(open: &mut Vec<Vec<String>>, path: &Vec<String>)
    ensures
        open_set(final(open)@) == open_set(old(open)@).insert(views(path@)),
{
    let ghost before = open@;
    open.push(clone_strings(path));
    proof {
        assert forall|p: Seq<Seq<char>>| open_set(open@).contains(p) == open_set(before).insert(
            views(path@),
        ).contains(p) by {
            if open_set(before).contains(p) {
                let w = choose|w: int| 0 <= w < before.len() && views((#[trigger] before[w])@) == p;
                assert(open@[w] == before[w]);
            }
            if p == views(path@) {
                assert(views(open@[open.len() - 1]@) == p);
            }
            if open_set(open@).contains(p) {
                let w = choose|w: int| 0 <= w < open.len() && views((#[trigger] open@[w])@) == p;
                if w < before.len() {
                    assert(open@[w] == before[w]);
                }
            }
        }
        assert(open_set(open@) =~= open_set(before).insert(views(path@)));
    }
}

impl TreeView {
    /// Selects the first root, or nothing where the forest is empty.
    pub fn select_first(&mut self, forest: &Vec<TreeNode>)
        ensures
            final(self).open == old(self).open,
            final(self).selected() == first_root(forest@),
            final(self).settled(forest@),
    {
        let mut path: Vec<String> = Vec::new();
        if forest.len() > 0 {
            path.push(forest[0].id.clone());
        }
        assert(views(path@) =~= first_root(forest@));
        self.selection = path;
        proof {
            if forest.len() > 0 {
                lemma_first_row(forest@, self.open_paths(), Seq::empty());
                assert(Seq::<Seq<char>>::empty().push(forest@[0].id@) =~= first_root(forest@));
            }
        }
    }

    /// Opens every path of `forest`, beside the paths that are open already.
    pub fn open_all(&mut self, forest: &Vec<TreeNode>)
        ensures
            final(self).selection == old(self).selection,
            final(self).open_paths() == old(self).open_paths().union(forest_paths(forest@)),
    {
        let root: Vec<String> = Vec::new();
        assert(views(root@) =~= Seq::<Seq<char>>::empty());
        let paths = collect_all_tree_paths(forest, root);
        let ghost all = all_paths(forest@, Seq::empty());
        let ghost was = self.open_paths();
        let mut k: usize = 0;
        assert(self.open_paths() =~= was.union(seen_paths(all, 0)));
        while k < paths.len()
            invariant
                k <= paths.len(),
                path_views(paths@) == all,
                self.selection == old(self).selection,
                self.open_paths() == was.union(seen_paths(all, k as int)),
            decreases paths.len() - k,
        {
            with_path(&mut self.open, &paths[k]);
            proof {
                let prev = all.take(k as int);
                let next = all.take(k + 1);
                assert(all[k as int] == views(paths@[k as int]@));
                assert forall|p: Seq<Seq<char>>| #[trigger]
                    next.contains(p) == (prev.contains(p) || p == all[k as int]) by {
                    if prev.contains(p) {
                        let w = choose|w: int| 0 <= w < prev.len() && prev[w] == p;
                        assert(next[w] == p);
                    }
                    if p == all[k as int] {
                        assert(next[k as int] == p);
                    }
                    if next.contains(p) {
                        let w = choose|w: int| 0 <= w < next.len() && next[w] == p;
                        if w < k {
                            assert(prev[w] == p);
                        }
                    }
                }
                assert(seen_paths(all, k + 1) =~= seen_paths(all, k as int).insert(all[k as int]));
                assert(self.open_paths() =~= was.union(seen_paths(all, k + 1)));
            }
            k += 1;
        }
        proof {
            assert(all.take(paths.len() as int) =~= all);
            assert(seen_paths(all, paths.len() as int) =~= forest_paths(forest@));
        }
    }

    /// The view of a forest just built: the first root selected, and every path open
    /// where `expand` is set, none otherwise.
    pub fn reset(forest: &Vec<TreeNode>, expand: bool) -> (v: TreeView)
        ensures
            v.selected() == first_root(forest@),
            v.settled(forest@),
            forall|p: Seq<Seq<char>>|
                v.open_paths().contains(p) == (expand && all_paths(
                    forest@,
                    Seq::empty(),
                ).contains(p)),
    {
        let mut v = TreeView::new();
        if expand {
            v.open_all(forest);
        }
        let ghost opened = v.open_paths();
        v.select_first(forest);
        assert(v.open_paths() == opened);
        v
    }

    /// Moves the selection one visible row down. Returns whether it moved.
    pub fn key_down(&mut self, forest: &Vec<TreeNode>) -> (changed: bool)
        ensures
            final(self).open == old(self).open,
            final(self).selected() == step_down(old(self).shown(forest@), old(self).selected()),
            changed == (final(self).selected() != old(self).selected()),
            old(self).settled(forest@) ==> final(self).settled(forest@),
    {
        let root: Vec<String> = Vec::new();
        assert(views(root@) =~= Seq::<Seq<char>>::empty());
        let list = visible_rows(forest, &self.open, &root);
        proof {
            if forest.len() > 0 {
                lemma_first_row(forest@, self.open_paths(), Seq::empty());
                lemma_step_shown(self.shown(forest@), self.selected());
            }
        }
        let target = match find_path(&list, &self.selection) {
            Some(i) => {
                proof {
                    lemma_index_of(path_views(list@), views(self.selection@));
                }
                if i + 1 < list.len() {
                    Some(i + 1)
                } else {
                    None
                }
            },
            None => {
                if list.len() > 0 {
                    Some(0)
                } else {
                    None
                }
            },
        };
        match target {
            Some(t) => {
                let next = clone_strings(&list[t]);
                let changed = !paths_equal(&next, &self.selection);
                self.selection = next;
                changed
            },
            None => false,
        }
    }

    /// Moves the selection one visible row up. Returns whether it moved.
    pub fn key_up(&mut self, forest: &Vec<TreeNode>) -> (changed: bool)
        ensures
            final(self).open == old(self).open,
            final(self).selected() == step_up(old(self).shown(forest@), old(self).selected()),
            changed == (final(self).selected() != old(self).selected()),
            old(self).settled(forest@) ==> final(self).settled(forest@),
    {
        let root: Vec<String> = Vec::new();
        assert(views(root@) =~= Seq::<Seq<char>>::empty());
        let list = visible_rows(forest, &self.open, &root);
        proof {
            if forest.len() > 0 {
                lemma_first_row(forest@, self.open_paths(), Seq::empty());
                lemma_step_shown(self.shown(forest@), self.selected());
            }
        }
        let target = match find_path(&list, &self.selection) {
            Some(i) => {
                proof {
                    lemma_index_of(path_views(list@), views(self.selection@));
                }
                if i > 0 {
                    Some(i - 1)
                } else {
                    None
                }
            },
            None => {
                if list.len() > 0 {
                    Some(list.len() - 1)
                } else {
                    None
                }
            },
        };
        match target {
            Some(t) => {
                let next = clone_strings(&list[t]);
                let changed = !paths_equal(&next, &self.selection);
                self.selection = next;
                changed
            },
            None => false,
        }
    }

    /// Closes the selected path where it is open; otherwise moves the selection to the
    /// parent of the selected node, where it has one. Returns whether anything changed.
    pub fn key_left(&mut self) -> (changed: bool)
        ensures
            old(self).open_paths().contains(old(self).selected()) ==> {
                &&& changed
                &&& final(self).open_paths() == old(self).open_paths().remove(old(self).selected())
                &&& final(self).selected() == old(self).selected()
            },
            !old(self).open_paths().contains(old(self).selected()) ==> {
                &&& final(self).open == old(self).open
                &&& changed == (old(self).selected().len() > 1)
                &&& final(self).selected() == if old(self).selected().len() > 1 {
                    old(self).selected().drop_last()
                } else {
                    old(self).selected()
                }
            },
            forall|forest: Seq<TreeNode>|
                old(self).settled(forest) ==> #[trigger] final(self).settled(forest),
    {
        let ghost was = self.open_paths();
        let ghost s = self.selected();
        if is_open(&self.open, &self.selection) {
            self.open = without_path(&self.open, &self.selection);
            proof {
                assert forall|forest: Seq<TreeNode>| old(self).settled(forest) implies #[trigger]
                    self.settled(forest) by {
                    if forest.len() > 0 {
                        lemma_open_change_keeps_shown(forest, was, self.open_paths(), s);
                    }
                }
            }
            true
        } else if self.selection.len() > 1 {
            let ghost before = self.selection@;
            self.selection.pop();
            assert(views(self.selection@) =~= views(before).drop_last());
            proof {
                assert forall|forest: Seq<TreeNode>| old(self).settled(forest) implies #[trigger]
                    self.settled(forest) by {
                    if forest.len() > 0 {
                        lemma_parent_shown(forest, was, Seq::empty(), s);
                    }
                }
            }
            true
        } else {
            false
        }
    }

    /// Opens the selected path where the selected node has children. Returns whether
    /// the path was closed and is now open.
    pub fn key_right(&mut self, forest: &Vec<TreeNode>) -> (changed: bool)
        ensures
            final(self).selection == old(self).selection,
            final(self).open_paths() == if has_children(forest@, old(self).selected()) {
                old(self).open_paths().insert(old(self).selected())
            } else {
                old(self).open_paths()
            },
            changed == (has_children(forest@, old(self).selected()) && !old(
                self,
            ).open_paths().contains(old(self).selected())),
            old(self).settled(forest@) ==> final(self).settled(forest@),
    {
        let ghost was = self.open_paths();
        if path_has_children(forest, &self.selection) {
            if is_open(&self.open, &self.selection) {
                assert(self.open_paths().insert(self.selected()) =~= self.open_paths());
                false
            } else {
                with_path(&mut self.open, &self.selection);
                proof {
                    if forest.len() > 0 && old(self).settled(forest@) {
                        lemma_open_change_keeps_shown(
                            forest@,
                            was,
                            self.open_paths(),
                            self.selected(),
                        );
                    }
                }
                true
            }
        } else {
            false
        }
    }

    /// Opens the selected path where it is closed and closes it where it is open; does
    /// nothing where nothing is selected. Returns whether anything changed.
    pub fn toggle_selected(&mut self) -> (changed: bool)
        ensures
            final(self).selection == old(self).selection,
            changed == (old(self).selected().len() > 0),
            final(self).open_paths() == if old(self).selected().len() == 0 {
                old(self).open_paths()
            } else if old(self).open_paths().contains(old(self).selected()) {
                old(self).open_paths().remove(old(self).selected())
            } else {
                old(self).open_paths().insert(old(self).selected())
            },
            forall|forest: Seq<TreeNode>|
                old(self).settled(forest) ==> #[trigger] final(self).settled(forest),
    {
        let ghost was = self.open_paths();
        let ghost s = self.selected();
        if self.selection.len() == 0 {
            return false;
        }
        if is_open(&self.open, &self.selection) {
            self.open = without_path(&self.open, &self.selection);
        } else {
            with_path(&mut self.open, &self.selection);
        }
        proof {
            assert forall|forest: Seq<TreeNode>| old(self).settled(forest) implies #[trigger]
                self.settled(forest) by {
                if forest.len() > 0 {
                    lemma_open_change_keeps_shown(forest, was, self.open_paths(), s);
                }
            }
        }
        true
    }

    /// Moves the selection ten visible rows down, stopping at the last.
    pub fn page_down(&mut self, forest: &Vec<TreeNode>)
        ensures
            final(self).open == old(self).open,
            final(self).selected() == steps_down(
                old(self).shown(forest@),
                old(self).selected(),
                10,
            ),
            old(self).settled(forest@) ==> final(self).settled(forest@),
    {
        let mut n: usize = 0;
        while n < 10
            invariant
                n <= 10,
                self.open == old(self).open,
                self.selected() == steps_down(
                    old(self).shown(forest@),
                    old(self).selected(),
                    n as nat,
                ),
                old(self).settled(forest@) ==> self.settled(forest@),
            decreases 10 - n,
        {
            self.key_down(forest);
            n += 1;
        }
    }

    /// Moves the selection ten visible rows up, stopping at the first.
    pub fn page_up(&mut self, forest: &Vec<TreeNode>)
        ensures
            final(self).open == old(self).open,
            final(self).selected() == steps_up(old(self).shown(forest@), old(self).selected(), 10),
            old(self).settled(forest@) ==> final(self).settled(forest@),
    {
        let mut n: usize = 0;
        while n < 10
            invariant
                n <= 10,
                self.open == old(self).open,
                self.selected() == steps_up(
                    old(self).shown(forest@),
                    old(self).selected(),
                    n as nat,
                ),
                old(self).settled(forest@) ==> self.settled(forest@),
            decreases 10 - n,
        {
            self.key_up(forest);
            n += 1;
        }
    }
}

/// Opening or closing a path leaves that path among the visible rows where it was
/// among them.
pub proof fn lemma_open_change_keeps_shown(
    forest: Seq<TreeNode>,
    open: Set<Seq<Seq<char>>>,
    other: Set<Seq<Seq<char>>>,
    s: Seq<Seq<char>>,
)
    requires
        other == open.insert(s) || other == open.remove(s),
        rows(forest, open, Seq::empty()).contains(s),
    ensures
        rows(forest, other, Seq::empty()).contains(s),
{
    assert forall|n: int| 0 <= n < s.len() implies open.contains(#[trigger] s.take(n))
        == other.contains(s.take(n)) by {
        assert(s.take(n).len() != s.len());
    }
    lemma_shown_by_ancestors(forest, open, other, Seq::empty(), s);
}

} // verus!
