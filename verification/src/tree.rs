//! Building a forest from flat, parent-linked records.

use vstd::hash_map::StringHashMap;
use vstd::prelude::*;
use crate::highlight::{highlight_match, highlight_spec, plain, plain_span, span_views, Span, SpanView};
use crate::record::{clone_strings, opt_view, unique_ids, views, Record, RecordView};

verus! {

/// One node of a forest: its identifier, the label to draw, and its children in order.
#[derive(Debug)]
pub struct TreeNode {
    pub id: String,
    pub label: Vec<Span>,
    pub children: Vec<TreeNode>,
}

/// The key under which a record is grouped: its parent, or none where it has no parent
/// or names itself as its parent.
pub open spec fn group_key(r: RecordView) -> Option<Seq<char>> {
    if r.parent == Some(r.id) {
        None
    } else {
        r.parent
    }
}

/// The indices below `n` of the records grouped under `key`, ascending.
pub open spec fn members(rs: Seq<RecordView>, key: Option<Seq<char>>, n: int) -> Seq<int>
    decreases n,
{
    if n <= 0 {
        Seq::empty()
    } else if group_key(rs[n - 1]) == key {
        members(rs, key, n - 1).push(n - 1)
    } else {
        members(rs, key, n - 1)
    }
}

/// The spans in bold.
pub open spec fn embolden(spans: Seq<SpanView>) -> Seq<SpanView> {
    Seq::new(
        spans.len(),
        |i: int| SpanView { content: spans[i].content, highlighted: spans[i].highlighted, bold: true },
    )
}

/// The label of a record: its identifier in bold, a blank, and its name, each with the
/// filter's match shown.
pub open spec fn label_spec(r: RecordView, filter: Seq<char>) -> Seq<SpanView> {
    embolden(highlight_spec(r.id, filter)) + seq![plain(" "@)] + highlight_spec(r.name, filter)
}

/// `forest` is what the records grouped under `key` grow into, down to `depth` levels:
/// one node for each of them, in their order, with their own children below.
pub open spec fn is_forest_of(
    forest: Seq<TreeNode>,
    rs: Seq<RecordView>,
    filter: Seq<char>,
    key: Option<Seq<char>>,
    depth: nat,
) -> bool
    decreases depth,
{
    if depth == 0 {
        forest.len() == 0
    } else {
        let idx = members(rs, key, rs.len() as int);
        &&& forest.len() == idx.len()
        &&& forall|k: int|
            0 <= k < forest.len() ==> {
                let r = rs[idx[k]];
                &&& (#[trigger] forest[k]).id@ == r.id
                &&& span_views(forest[k].label@) == label_spec(r, filter)
                &&& is_forest_of(forest[k].children@, rs, filter, Some(r.id), (depth - 1) as nat)
            }
    }
}

/// Every member index is within range, carries the key, and the indices ascend.
pub proof fn lemma_members(rs: Seq<RecordView>, key: Option<Seq<char>>, n: int)
    requires
        n <= rs.len(),
    ensures
        forall|k: int|
            0 <= k < members(rs, key, n).len() ==> 0 <= (#[trigger] members(rs, key, n)[k]) < n
                && group_key(rs[members(rs, key, n)[k]]) == key,
        forall|a: int, b: int|
            0 <= a < b < members(rs, key, n).len() ==> members(rs, key, n)[a] < members(
                rs,
                key,
                n,
            )[b],
    decreases n,
{
    if n > 0 {
        lemma_members(rs, key, n - 1);
    }
}

/// Every record grouped under `key` is among the members.
pub proof fn lemma_members_hold(rs: Seq<RecordView>, key: Option<Seq<char>>, n: int, i: int) -> (k:
    int)
    requires
        0 <= i < n <= rs.len(),
        group_key(rs[i]) == key,
    ensures
        0 <= k < members(rs, key, n).len(),
        members(rs, key, n)[k] == i,
    decreases n,
{
    if i == n - 1 {
        members(rs, key, n - 1).len() as int
    } else {
        lemma_members_hold(rs, key, n - 1, i)
    }
}

/// The first position from `lo` on of a record grouped under `key`, or the number of
/// records where there is none.
pub open spec fn least_from(rs: Seq<RecordView>, key: Option<Seq<char>>, lo: int) -> int
    decreases rs.len() - lo,
{
    if lo < 0 || lo >= rs.len() {
        rs.len() as int
    } else if group_key(rs[lo]) == key {
        lo
    } else {
        least_from(rs, key, lo + 1)
    }
}

/// The position that a map gives to `k`, or `n` where it gives none.
pub open spec fn head_of(map: Map<Seq<char>, usize>, k: Seq<char>, n: int) -> int {
    if map.contains_key(k) {
        map[k] as int
    } else {
        n
    }
}

/// The records grouped by their keys, as positions: the first root, for each
/// identifier the first record grouped under it, and for each record the next one of
/// its group. Where there is no such record the position is the number of records.
pub struct ChildIndex {
    pub first_root: usize,
    pub first_below: StringHashMap<usize>,
    pub next: Vec<usize>,
}

impl ChildIndex {
    /// The index is that of the records `rs`.
    pub open spec fn wf(&self, rs: Seq<RecordView>) -> bool {
        &&& self.next@.len() == rs.len()
        &&& self.first_root == least_from(rs, None, 0)
        &&& forall|k: Seq<char>| #[trigger]
            head_of(self.first_below@, k, rs.len() as int) == least_from(rs, Some(k), 0)
        &&& forall|j: int|
            0 <= j < rs.len() ==> #[trigger] self.next@[j] == least_from(
                rs,
                group_key(rs[j]),
                j + 1,
            )
    }
}

/// What `least_from` finds lies from `lo` on, carries the key, and no record between
/// carries it.
pub proof fn lemma_least_from(rs: Seq<RecordView>, key: Option<Seq<char>>, lo: int)
    requires
        0 <= lo <= rs.len(),
    ensures
        lo <= least_from(rs, key, lo) <= rs.len(),
        least_from(rs, key, lo) < rs.len() ==> group_key(rs[least_from(rs, key, lo)]) == key,
        forall|i: int| lo <= i < least_from(rs, key, lo) ==> group_key(#[trigger] rs[i]) != key,
    decreases rs.len() - lo,
{
    if lo < rs.len() && group_key(rs[lo]) != key {
        lemma_least_from(rs, key, lo + 1);
    }
}

/// Records that are not grouped under `key` add nothing to its members.
pub proof fn lemma_members_skip(rs: Seq<RecordView>, key: Option<Seq<char>>, a: int, b: int)
    requires
        0 <= a <= b <= rs.len(),
        forall|i: int| a <= i < b ==> group_key(#[trigger] rs[i]) != key,
    ensures
        members(rs, key, b) == members(rs, key, a),
    decreases b - a,
{
    if a < b {
        lemma_members_skip(rs, key, a, b - 1);
        assert(group_key(rs[b - 1]) != key);
    }
}

/// The key under which `item` is grouped.
pub fn own_key(item: &Record) -> (key: Option<&String>)
    ensures
        match key {
            Some(k) => group_key(item@) == Some(k@),
            None => group_key(item@) is None,
        },
{
    match &item.parent {
        Some(p) => {
            if *p == item.id {
                None
            } else {
                Some(p)
            }
        },
        None => None,
    }
}

/// A list of `n` positions, each the number `n`.
pub fn no_positions(n: usize) -> (list: Vec<usize>)
    ensures
        list.len() == n,
        forall|i: int| 0 <= i < n ==> list@[i] == n,
{
    let mut list: Vec<usize> = Vec::new();
    let mut i: usize = 0;
    while i < n
        invariant
            i <= n,
            list.len() == i,
            forall|k: int| 0 <= k < i ==> list@[k] == n,
        decreases n - i,
    {
        list.push(n);
        i += 1;
    }
    list
}

/// Groups the records by their keys in one pass from the last record to the first.
pub fn group_children(records: &Vec<Record>) -> (index: ChildIndex)
    ensures
        index.wf(views(records@)),
{
    let ghost rs = views(records@);
    let n = records.len();
    let mut next = no_positions(n);
    let mut first_root: usize = n;
    let mut first_below: StringHashMap<usize> = StringHashMap::new();
    let mut j: usize = n;
    while j > 0
        invariant
            rs == views(records@),
            n == records.len(),
            j <= n,
            next.len() == n,
            first_root == least_from(rs, None, j as int),
            forall|k: Seq<char>| #[trigger]
                head_of(first_below@, k, n as int) == least_from(rs, Some(k), j as int),
            forall|i: int|
                j <= i < n ==> #[trigger] next@[i] == least_from(rs, group_key(rs[i]), i + 1),
        decreases j,
    {
        j -= 1;
        let item = &records[j];
        assert(rs[j as int] == item@);
        let ghost before = first_below@;
        match own_key(item) {
            None => {
                next.set(j, first_root);
                first_root = j;
            },
            Some(k) => {
                let head = match first_below.get(k.as_str()) {
                    Some(v) => *v,
                    None => n,
                };
                assert(head == head_of(before, k@, n as int));
                next.set(j, head);
                first_below.insert(k.clone(), j);
            },
        }
        assert forall|x: Seq<char>| #[trigger]
            head_of(first_below@, x, n as int) == least_from(rs, Some(x), j as int) by {
            assert(head_of(before, x, n as int) == least_from(rs, Some(x), j + 1));
        }
    }
    ChildIndex { first_root, first_below, next }
}

/// The label of a record under `filter`.
pub fn make_label(item: &Record, filter: &str) -> (label: Vec<Span>)
    ensures
        span_views(label@) == label_spec(item@, filter@),
{
    let id_spans = highlight_match(item.id.as_str(), filter);
    let mut label: Vec<Span> = Vec::new();
    let mut i: usize = 0;
    while i < id_spans.len()
        invariant
            i <= id_spans.len(),
            label.len() == i,
            forall|k: int|
                0 <= k < i ==> label@[k]@ == (SpanView {
                    content: id_spans@[k]@.content,
                    highlighted: id_spans@[k]@.highlighted,
                    bold: true,
                }),
        decreases id_spans.len() - i,
    {
        let s = &id_spans[i];
        label.push(Span { content: s.content.clone(), highlighted: s.highlighted, bold: true });
        i += 1;
    }
    assert(span_views(label@) =~= embolden(span_views(id_spans@)));
    let ghost head = span_views(label@);
    label.push(plain_span(" "));
    assert(span_views(label@) =~= head + seq![plain(" "@)]);
    let ghost mid = span_views(label@);
    let mut name_spans = highlight_match(item.name.as_str(), filter);
    let ghost tail = span_views(name_spans@);
    label.append(&mut name_spans);
    assert(span_views(label@) =~= mid + tail);
    label
}

/// The nodes of the records grouped under `parent_id`, each with the nodes of its own
/// children below it, down to `depth` levels. The records of a group are found through
/// `children_map`.
pub fn build_tree_recursive(
    records: &Vec<Record>,
    children_map: &ChildIndex,
    parent_id: Option<String>,
    filter: &str,
    depth: usize,
) -> (forest: Vec<TreeNode>)
    requires
        children_map.wf(views(records@)),
    ensures
        is_forest_of(forest@, views(records@), filter@, opt_view(parent_id), depth as nat),
    decreases depth,
{
    let ghost rs = views(records@);
    let ghost key = opt_view(parent_id);
    let n = records.len();
    let mut forest: Vec<TreeNode> = Vec::new();
    if depth == 0 {
        return forest;
    }
    let mut cur: usize = match &parent_id {
        None => children_map.first_root,
        Some(k) => match children_map.first_below.get(k.as_str()) {
            Some(v) => *v,
            None => n,
        },
    };
    proof {
        if parent_id is Some {
            assert(cur == head_of(children_map.first_below@, parent_id->0@, n as int));
        }
        assert(cur == least_from(rs, key, 0));
        lemma_least_from(rs, key, 0);
        lemma_members_skip(rs, key, 0, cur as int);
    }
    while cur < n
        invariant
            rs == views(records@),
            key == opt_view(parent_id),
            n == records.len(),
            children_map.wf(rs),
            depth > 0,
            cur <= n,
            cur < n ==> group_key(rs[cur as int]) == key,
            forest.len() == members(rs, key, cur as int).len(),
            forall|k: int|
                0 <= k < forest.len() ==> {
                    let r = rs[members(rs, key, cur as int)[k]];
                    &&& (#[trigger] forest@[k]).id@ == r.id
                    &&& span_views(forest@[k].label@) == label_spec(r, filter@)
                    &&& is_forest_of(
                        forest@[k].children@,
                        rs,
                        filter@,
                        Some(r.id),
                        (depth - 1) as nat,
                    )
                },
        decreases n - cur,
    {
        let item = &records[cur];
        assert(rs[cur as int] == item@);
        let children = build_tree_recursive(
            records,
            children_map,
            Some(item.id.clone()),
            filter,
            depth - 1,
        );
        let label = make_label(item, filter);
        forest.push(TreeNode { id: item.id.clone(), label, children });
        let following = children_map.next[cur];
        proof {
            assert(following == least_from(rs, key, cur + 1));
            lemma_least_from(rs, key, cur + 1);
            lemma_members_skip(rs, key, cur + 1, following as int);
            assert(members(rs, key, cur + 1) == members(rs, key, cur as int).push(cur as int));
        }
        cur = following;
    }
    forest
}

/// The forest of `records`: the records without a parent, and those that name
/// themselves, are its roots; every other record stands below the record it names.
/// The records are grouped once, and each becomes a node where its group is reached.
pub fn build_tree_items(records: &Vec<Record>, filter: &str) -> (forest: Vec<TreeNode>)
    ensures
        is_forest_of(forest@, views(records@), filter@, None, records.len() as nat),
{
    let children_map = group_children(records);
    build_tree_recursive(records, &children_map, None, filter, records.len())
}

/// The number of nodes in `forest`, descendants included.
pub open spec fn node_count(forest: Seq<TreeNode>) -> nat
    decreases forest,
{
    if forest.len() == 0 {
        0
    } else {
        node_count(forest.drop_last()) + 1 + node_count(forest.last().children@)
    }
}

/// The smaller of a count and the largest machine number.
pub open spec fn capped(n: nat) -> nat {
    if n <= usize::MAX {
        n
    } else {
        usize::MAX as nat
    }
}

/// The number of nodes in `items`, descendants included; the largest machine number
/// where there are more.
pub fn count_tree_items(items: &Vec<TreeNode>) -> (n: usize)
    ensures
        n == capped(node_count(items@)),
    decreases items@,
{
    let mut total: usize = 0;
    let mut i: usize = 0;
    assert(items@.take(0) =~= Seq::<TreeNode>::empty());
    while i < items.len()
        invariant
            i <= items.len(),
            total == capped(node_count(items@.take(i as int))),
        decreases items.len() - i,
    {
        proof {
            assert(items@.take(i + 1).drop_last() =~= items@.take(i as int));
            assert(items@.take(i + 1).last() == items@[i as int]);
        }
        let inner = count_tree_items(&items[i].children);
        total = total.saturating_add(1).saturating_add(inner);
        i += 1;
    }
    assert(items@.take(items.len() as int) =~= items@);
    total
}

/// The paths of all the nodes of `forest`, each node before its children and before the
/// siblings that follow it; `prefix` is the path of the forest's parent.
pub open spec fn all_paths(forest: Seq<TreeNode>, prefix: Seq<Seq<char>>) -> Seq<Seq<Seq<char>>>
    decreases forest,
{
    if forest.len() == 0 {
        Seq::empty()
    } else {
        let path = prefix.push(forest.last().id@);
        all_paths(forest.drop_last(), prefix) + seq![path] + all_paths(
            forest.last().children@,
            path,
        )
    }
}

/// The set of the paths of all the nodes of `forest`.
pub open spec fn forest_paths(forest: Seq<TreeNode>) -> Set<Seq<Seq<char>>> {
    Set::new(|p: Seq<Seq<char>>| all_paths(forest, Seq::empty()).contains(p))
}

/// The views of a list of paths.
pub open spec fn path_views(paths: Seq<Vec<String>>) -> Seq<Seq<Seq<char>>> {
    Seq::new(paths.len(), |i: int| views(paths[i]@))
}

/// A copy of `path` with `id` added at its end.
pub fn extend_path(path: &Vec<String>, id: &String) -> (r: Vec<String>)
    ensures
        views(r@) == views(path@).push(id@),
{
    let mut r = clone_strings(path);
    let ghost before = r@;
    r.push(id.clone());
    assert(views(r@) =~= views(before).push(id@));
    r
}

/// The paths of all the nodes of `items`, in the order in which a reader meets them
/// with every node open.
pub fn collect_all_tree_paths(items: &Vec<TreeNode>, current_path: Vec<String>) -> (paths: Vec<
    Vec<String>,
>)
    ensures
        path_views(paths@) == all_paths(items@, views(current_path@)),
    decreases items@,
{
    let ghost prefix = views(current_path@);
    let mut paths: Vec<Vec<String>> = Vec::new();
    let mut i: usize = 0;
    assert(items@.take(0) =~= Seq::<TreeNode>::empty());
    assert(path_views(paths@) =~= all_paths(items@.take(0), prefix));
    while i < items.len()
        invariant
            i <= items.len(),
            prefix == views(current_path@),
            path_views(paths@) == all_paths(items@.take(i as int), prefix),
        decreases items.len() - i,
    {
        proof {
            assert(items@.take(i + 1).drop_last() =~= items@.take(i as int));
            assert(items@.take(i + 1).last() == items@[i as int]);
        }
        let item = &items[i];
        let path = extend_path(&current_path, &item.id);
        let ghost before = path_views(paths@);
        paths.push(clone_strings(&path));
        assert(path_views(paths@) =~= before + seq![views(path@)]);
        let ghost mid = path_views(paths@);
        let mut below = collect_all_tree_paths(&item.children, path);
        let ghost tail = path_views(below@);
        paths.append(&mut below);
        assert(path_views(paths@) =~= mid + tail);
        i += 1;
    }
    assert(items@.take(items.len() as int) =~= items@);
    paths
}

/// No two siblings carry the same identifier, at any level of `forest`.
pub open spec fn distinct_siblings(forest: Seq<TreeNode>) -> bool
    decreases forest,
{
    &&& forall|a: int, b: int|
        0 <= a < forest.len() && 0 <= b < forest.len() && (#[trigger] forest[a]).id@ == (
        #[trigger] forest[b]).id@ ==> a == b
    &&& forall|k: int|
        0 <= k < forest.len() ==> distinct_siblings((#[trigger] forest[k]).children@)
}

/// A record that names itself as parent is a root of the forest.
pub proof fn lemma_self_parent_is_root(
    forest: Seq<TreeNode>,
    rs: Seq<RecordView>,
    filter: Seq<char>,
    i: int,
) -> (k: int)
    requires
        is_forest_of(forest, rs, filter, None, rs.len()),
        0 <= i < rs.len(),
        rs[i].parent == Some(rs[i].id),
    ensures
        0 <= k < forest.len(),
        forest[k].id@ == rs[i].id,
{
    let k = lemma_members_hold(rs, None, rs.len() as int, i);
    assert(forest[k].id@ == rs[i].id);
    k
}

/// A record without a parent is a root of the forest.
pub proof fn lemma_parentless_is_root(
    forest: Seq<TreeNode>,
    rs: Seq<RecordView>,
    filter: Seq<char>,
    i: int,
) -> (k: int)
    requires
        is_forest_of(forest, rs, filter, None, rs.len()),
        0 <= i < rs.len(),
        rs[i].parent is None,
    ensures
        0 <= k < forest.len(),
        forest[k].id@ == rs[i].id,
{
    let k = lemma_members_hold(rs, None, rs.len() as int, i);
    assert(forest[k].id@ == rs[i].id);
    k
}

/// Every root of the forest stands for a record without a parent or for one that
/// names itself.
pub proof fn lemma_root_origin(
    forest: Seq<TreeNode>,
    rs: Seq<RecordView>,
    filter: Seq<char>,
    k: int,
) -> (i: int)
    requires
        is_forest_of(forest, rs, filter, None, rs.len()),
        0 <= k < forest.len(),
    ensures
        0 <= i < rs.len(),
        rs[i].id == forest[k].id@,
        rs[i].parent is None || rs[i].parent == Some(rs[i].id),
{
    lemma_members(rs, None, rs.len() as int);
    let i = members(rs, None, rs.len() as int)[k];
    assert(rs[i].id == forest[k].id@);
    i
}

/// With unique identifiers no two siblings of the forest carry the same identifier.
pub proof fn lemma_forest_distinct(
    forest: Seq<TreeNode>,
    rs: Seq<RecordView>,
    filter: Seq<char>,
    key: Option<Seq<char>>,
    depth: nat,
)
    requires
        unique_ids(rs),
        is_forest_of(forest, rs, filter, key, depth),
    ensures
        distinct_siblings(forest),
    decreases depth,
{
    if depth > 0 {
        lemma_members(rs, key, rs.len() as int);
        let idx = members(rs, key, rs.len() as int);
        assert forall|a: int, b: int|
            0 <= a < forest.len() && 0 <= b < forest.len() && (#[trigger] forest[a]).id@ == (
            #[trigger] forest[b]).id@ implies a == b by {
            assert(rs[idx[a]].id == rs[idx[b]].id);
            if a < b {
                assert(idx[a] < idx[b]);
            }
            if b < a {
                assert(idx[b] < idx[a]);
            }
        }
        assert forall|k: int| 0 <= k < forest.len() implies distinct_siblings(
            (#[trigger] forest[k]).children@,
        ) by {
            lemma_forest_distinct(
                forest[k].children@,
                rs,
                filter,
                Some(rs[idx[k]].id),
                (depth - 1) as nat,
            );
        }
    }
}

} // verus!
