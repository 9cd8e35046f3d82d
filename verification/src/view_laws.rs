//! What holds of the visible rows and of moves among them.

use vstd::prelude::*;
use crate::tree::{all_paths, capped, distinct_siblings, TreeNode};
use crate::view::{
    capped_index, first_root, index_of, lemma_index_of, lemma_index_of_concat, rows, step_down,
    step_up, steps_down, TreeView,
};

verus! {

/// No path stands twice in `list`.
pub open spec fn distinct_rows(list: Seq<Seq<Seq<char>>>) -> bool {
    forall|a: int, b: int| 0 <= a < b < list.len() ==> list[a] != list[b]
}

/// The smaller of two numbers.
pub open spec fn smaller(a: int, b: int) -> int {
    if a <= b {
        a
    } else {
        b
    }
}

/// Every visible row extends the prefix by the identifier of a node of the forest, and
/// maybe by more.
pub proof fn lemma_row_shape(
    forest: Seq<TreeNode>,
    open: Set<Seq<Seq<char>>>,
    prefix: Seq<Seq<char>>,
    k: int,
) -> (j: int)
    requires
        0 <= k < rows(forest, open, prefix).len(),
    ensures
        0 <= j < forest.len(),
        rows(forest, open, prefix)[k].len() > prefix.len(),
        rows(forest, open, prefix)[k].take(prefix.len() as int) == prefix,
        rows(forest, open, prefix)[k][prefix.len() as int] == forest[j].id@,
    decreases forest,
{
    let node = forest.last();
    let path = prefix.push(node.id@);
    let head = rows(forest.drop_last(), open, prefix);
    let row = rows(forest, open, prefix)[k];
    if k < head.len() {
        let j = lemma_row_shape(forest.drop_last(), open, prefix, k);
        assert(forest.drop_last()[j] == forest[j]);
        j
    } else if k == head.len() {
        assert(row == path);
        assert(path.take(prefix.len() as int) =~= prefix);
        forest.len() - 1
    } else {
        let below = rows(node.children@, open, path);
        assert(row == below[k - head.len() - 1]);
        let inner = lemma_row_shape(node.children@, open, path, k - head.len() - 1);
        assert(row.take(prefix.len() as int) =~= row.take(path.len() as int).take(
            prefix.len() as int,
        ));
        assert(path.take(prefix.len() as int) =~= prefix);
        assert(row[prefix.len() as int] == row.take(path.len() as int)[prefix.len() as int]);
        forest.len() - 1
    }
}

/// Where no two siblings carry the same identifier, no path stands twice among the
/// visible rows.
pub proof fn lemma_rows_distinct(
    forest: Seq<TreeNode>,
    open: Set<Seq<Seq<char>>>,
    prefix: Seq<Seq<char>>,
)
    requires
        distinct_siblings(forest),
    ensures
        distinct_rows(rows(forest, open, prefix)),
    decreases forest,
{
    if forest.len() > 0 {
        let node = forest.last();
        let front = forest.drop_last();
        let path = prefix.push(node.id@);
        let head = rows(front, open, prefix);
        let below = if open.contains(path) {
            rows(node.children@, open, path)
        } else {
            Seq::empty()
        };
        let all = rows(forest, open, prefix);
        assert(all == head + seq![path] + below);
        assert(distinct_siblings(front)) by {
            assert forall|a: int, b: int|
                0 <= a < front.len() && 0 <= b < front.len() && (#[trigger] front[a]).id@ == (
                #[trigger] front[b]).id@ implies a == b by {
                assert(front[a] == forest[a] && front[b] == forest[b]);
            }
            assert forall|k: int| 0 <= k < front.len() implies distinct_siblings(
                (#[trigger] front[k]).children@,
            ) by {
                assert(front[k] == forest[k]);
            }
        }
        lemma_rows_distinct(front, open, prefix);
        assert(distinct_siblings(node.children@)) by {
            assert(node == forest[forest.len() - 1]);
        }
        lemma_rows_distinct(node.children@, open, path);
        assert forall|a: int, b: int| 0 <= a < b < all.len() implies all[a] != all[b] by {
            let n = prefix.len() as int;
            if b < head.len() {
                assert(all[a] == head[a] && all[b] == head[b]);
            } else if a < head.len() {
                let j = lemma_row_shape(front, open, prefix, a);
                assert(front[j] == forest[j]);
                assert(all[a] == head[a]);
                assert(all[a][n] == forest[j].id@);
                if b == head.len() {
                    assert(all[b] == path);
                    assert(all[b][n] == node.id@);
                } else {
                    assert(all[b] == below[b - head.len() - 1]);
                    let i = lemma_row_shape(node.children@, open, path, b - head.len() - 1);
                    assert(all[b][n] == all[b].take(path.len() as int)[n]);
                    assert(all[b][n] == node.id@);
                }
                assert(forest[forest.len() - 1].id@ == node.id@);
            } else if a == head.len() {
                assert(all[a] == path);
                assert(all[b] == below[b - head.len() - 1]);
                let i = lemma_row_shape(node.children@, open, path, b - head.len() - 1);
            } else {
                assert(all[a] == below[a - head.len() - 1]);
                assert(all[b] == below[b - head.len() - 1]);
            }
        }
    }
}

/// The first visible row is the path of the first node.
pub proof fn lemma_first_row(
    forest: Seq<TreeNode>,
    open: Set<Seq<Seq<char>>>,
    prefix: Seq<Seq<char>>,
)
    requires
        forest.len() > 0,
    ensures
        rows(forest, open, prefix).len() > 0,
        rows(forest, open, prefix)[0] == prefix.push(forest[0].id@),
    decreases forest.len(),
{
    let head = rows(forest.drop_last(), open, prefix);
    let path = prefix.push(forest.last().id@);
    if forest.len() > 1 {
        lemma_first_row(forest.drop_last(), open, prefix);
        assert(forest.drop_last()[0] == forest[0]);
        assert(rows(forest, open, prefix)[0] == head[0]);
    } else {
        assert(forest.drop_last().len() == 0);
        assert(head.len() == 0);
        assert(rows(forest, open, prefix)[0] == path);
        assert(forest.last() == forest[0]);
    }
}

/// Among rows that are distinct, each row is found at its own position.
pub proof fn lemma_index_of_row(list: Seq<Seq<Seq<char>>>, k: int)
    requires
        distinct_rows(list),
        0 <= k < list.len(),
    ensures
        index_of(list, list[k]) == Some(k),
{
    lemma_index_of(list, list[k]);
}

/// Among rows that are distinct, `n` moves down from the row at position `i` lead to
/// the row at position `i + n`, or to the last row where there are fewer.
pub proof fn lemma_moves_down(list: Seq<Seq<Seq<char>>>, s: Seq<Seq<char>>, i: int, n: nat)
    requires
        distinct_rows(list),
        index_of(list, s) == Some(i),
    ensures
        index_of(list, steps_down(list, s, n)) == Some(smaller(i + n, list.len() - 1)),
    decreases n,
{
    lemma_index_of(list, s);
    if n > 0 {
        lemma_moves_down(list, s, i, (n - 1) as nat);
        let at = smaller(i + n - 1, list.len() - 1);
        if at + 1 < list.len() {
            lemma_index_of_row(list, at + 1);
        }
    }
}

/// Where no two siblings carry the same identifier, `n` moves down from the first
/// root, with the open paths left as they are, put the selection on the visible row
/// at position `n`, or on the last visible row where there are fewer.
pub proof fn lemma_down_moves_count(forest: Seq<TreeNode>, open: Set<Seq<Seq<char>>>, n: nat)
    requires
        distinct_siblings(forest),
        forest.len() > 0,
    ensures
        index_of(
            rows(forest, open, Seq::empty()),
            steps_down(rows(forest, open, Seq::empty()), first_root(forest), n),
        ) == Some(smaller(n as int, rows(forest, open, Seq::empty()).len() - 1)),
{
    let list = rows(forest, open, Seq::empty());
    lemma_rows_distinct(forest, open, Seq::empty());
    lemma_first_row(forest, open, Seq::empty());
    assert(Seq::<Seq<char>>::empty().push(forest[0].id@) =~= first_root(forest));
    lemma_index_of_row(list, 0);
    lemma_moves_down(list, first_root(forest), 0, n);
}

/// The same in machine numbers, as the flat index and the count of visible rows give
/// them: where the visible rows are no more than the largest machine number, the flat
/// index after `n` moves down from the first root is `n`, or the count less one where
/// that is smaller.
pub proof fn lemma_down_moves_flat_index(
    forest: Seq<TreeNode>,
    open: Set<Seq<Seq<char>>>,
    n: nat,
)
    requires
        distinct_siblings(forest),
        forest.len() > 0,
        rows(forest, open, Seq::empty()).len() <= usize::MAX,
    ensures
        capped_index(
            index_of(
                rows(forest, open, Seq::empty()),
                steps_down(rows(forest, open, Seq::empty()), first_root(forest), n),
            ),
        ) == Some(smaller(n as int, capped(rows(forest, open, Seq::empty()).len()) - 1) as usize),
{
    lemma_down_moves_count(forest, open, n);
    lemma_first_row(forest, open, Seq::empty());
}

/// With every path of the forest open, the visible rows are the paths of all its
/// nodes.
pub proof fn lemma_all_open(forest: Seq<TreeNode>, open: Set<Seq<Seq<char>>>, prefix: Seq<Seq<char>>)
    requires
        forall|p: Seq<Seq<char>>| all_paths(forest, prefix).contains(p) ==> open.contains(p),
    ensures
        rows(forest, open, prefix) == all_paths(forest, prefix),
    decreases forest,
{
    if forest.len() > 0 {
        let node = forest.last();
        let path = prefix.push(node.id@);
        let head = all_paths(forest.drop_last(), prefix);
        let below = all_paths(node.children@, path);
        let all = all_paths(forest, prefix);
        assert(all == head + seq![path] + below);
        assert forall|p: Seq<Seq<char>>| head.contains(p) implies open.contains(p) by {
            let w = choose|w: int| 0 <= w < head.len() && head[w] == p;
            assert(all[w] == p);
        }
        assert forall|p: Seq<Seq<char>>| below.contains(p) implies open.contains(p) by {
            let w = choose|w: int| 0 <= w < below.len() && below[w] == p;
            assert(all[head.len() + 1 + w] == p);
        }
        assert(all[head.len() as int] == path);
        assert(open.contains(path));
        lemma_all_open(forest.drop_last(), open, prefix);
        lemma_all_open(node.children@, open, path);
    }
}

/// A path is a visible row exactly when it is the path of a node of the forest, or a
/// visible row of the children of a node whose path is open.
pub proof fn lemma_row_cases(
    forest: Seq<TreeNode>,
    open: Set<Seq<Seq<char>>>,
    prefix: Seq<Seq<char>>,
    p: Seq<Seq<char>>,
)
    ensures
        rows(forest, open, prefix).contains(p) == exists|j: int|
            0 <= j < forest.len() && is_row_of(forest, open, prefix, p, j),
    decreases forest.len(),
{
    if forest.len() > 0 {
        let node = forest.last();
        let front = forest.drop_last();
        let path = prefix.push(node.id@);
        let head = rows(front, open, prefix);
        let below = if open.contains(path) {
            rows(node.children@, open, path)
        } else {
            Seq::empty()
        };
        let all = rows(forest, open, prefix);
        assert(all == head + seq![path] + below);
        lemma_row_cases(front, open, prefix, p);
        if all.contains(p) {
            let w = choose|w: int| 0 <= w < all.len() && all[w] == p;
            if w < head.len() {
                assert(head[w] == p);
                assert(head.contains(p));
                let j = choose|j: int| 0 <= j < front.len() && is_row_of(front, open, prefix, p, j);
                assert(front[j] == forest[j]);
                assert(is_row_of(forest, open, prefix, p, j));
            } else if w == head.len() {
                assert(is_row_of(forest, open, prefix, p, forest.len() - 1));
            } else {
                assert(below[w - head.len() - 1] == p);
                assert(below.contains(p));
                assert(is_row_of(forest, open, prefix, p, forest.len() - 1));
            }
        }
        if exists|j: int| 0 <= j < forest.len() && is_row_of(forest, open, prefix, p, j) {
            let j = choose|j: int| 0 <= j < forest.len() && is_row_of(forest, open, prefix, p, j);
            if j < front.len() {
                assert(front[j] == forest[j]);
                assert(is_row_of(front, open, prefix, p, j));
                let w = choose|w: int| 0 <= w < head.len() && head[w] == p;
                assert(all[w] == p);
            } else if p == path {
                assert(all[head.len() as int] == p);
            } else {
                let w = choose|w: int| 0 <= w < below.len() && below[w] == p;
                assert(all[head.len() + 1 + w] == p);
            }
        }
    }
}

/// `p` is the row of the node at `j`, or a visible row below it.
pub open spec fn is_row_of(
    forest: Seq<TreeNode>,
    open: Set<Seq<Seq<char>>>,
    prefix: Seq<Seq<char>>,
    p: Seq<Seq<char>>,
    j: int,
) -> bool {
    let path = prefix.push(forest[j].id@);
    p == path || (open.contains(path) && rows(forest[j].children@, open, path).contains(p))
}

/// Whether a path is a visible row depends only on which of the paths above it are
/// open.
pub proof fn lemma_shown_by_ancestors(
    forest: Seq<TreeNode>,
    open: Set<Seq<Seq<char>>>,
    other: Set<Seq<Seq<char>>>,
    prefix: Seq<Seq<char>>,
    p: Seq<Seq<char>>,
)
    requires
        forall|n: int| 0 <= n < p.len() ==> open.contains(#[trigger] p.take(n)) == other.contains(
            p.take(n),
        ),
        rows(forest, open, prefix).contains(p),
    ensures
        rows(forest, other, prefix).contains(p),
    decreases forest,
{
    lemma_row_cases(forest, open, prefix, p);
    lemma_row_cases(forest, other, prefix, p);
    let j = choose|j: int| 0 <= j < forest.len() && is_row_of(forest, open, prefix, p, j);
    let path = prefix.push(forest[j].id@);
    if p != path {
        let below = rows(forest[j].children@, open, path);
        let w = choose|w: int| 0 <= w < below.len() && below[w] == p;
        let i = lemma_row_shape(forest[j].children@, open, path, w);
        assert(p.take(path.len() as int) == path);
        assert(other.contains(path));
        lemma_shown_by_ancestors(forest[j].children@, open, other, path, p);
    }
    assert(is_row_of(forest, other, prefix, p, j));
}

/// The parent of a visible row that is not a root is a visible row.
pub proof fn lemma_parent_shown(
    forest: Seq<TreeNode>,
    open: Set<Seq<Seq<char>>>,
    prefix: Seq<Seq<char>>,
    p: Seq<Seq<char>>,
)
    requires
        rows(forest, open, prefix).contains(p),
        p.len() > prefix.len() + 1,
    ensures
        rows(forest, open, prefix).contains(p.drop_last()),
    decreases forest,
{
    lemma_row_cases(forest, open, prefix, p);
    lemma_row_cases(forest, open, prefix, p.drop_last());
    let j = choose|j: int| 0 <= j < forest.len() && is_row_of(forest, open, prefix, p, j);
    let path = prefix.push(forest[j].id@);
    let below = rows(forest[j].children@, open, path);
    let w = choose|w: int| 0 <= w < below.len() && below[w] == p;
    let i = lemma_row_shape(forest[j].children@, open, path, w);
    if p.len() == path.len() + 1 {
        assert(p.drop_last() =~= p.take(path.len() as int));
    } else {
        lemma_parent_shown(forest[j].children@, open, path, p);
    }
    assert(is_row_of(forest, open, prefix, p.drop_last(), j));
}

/// Every visible row has a node: it is among the paths of the forest.
pub proof fn lemma_rows_are_paths(
    forest: Seq<TreeNode>,
    open: Set<Seq<Seq<char>>>,
    prefix: Seq<Seq<char>>,
    p: Seq<Seq<char>>,
)
    requires
        rows(forest, open, prefix).contains(p),
    ensures
        all_paths(forest, prefix).contains(p),
    decreases forest,
{
    lemma_row_cases(forest, open, prefix, p);
    lemma_row_cases(forest, Set::full(), prefix, p);
    let j = choose|j: int| 0 <= j < forest.len() && is_row_of(forest, open, prefix, p, j);
    let path = prefix.push(forest[j].id@);
    if p != path {
        lemma_rows_are_paths(forest[j].children@, open, path, p);
        lemma_all_open(forest[j].children@, Set::full(), path);
    }
    assert(is_row_of(forest, Set::full(), prefix, p, j));
    lemma_all_open(forest, Set::full(), prefix);
}

/// A move down or up from a visible row, or in a forest that has a row at all, ends
/// on a visible row.
pub proof fn lemma_step_shown(list: Seq<Seq<Seq<char>>>, s: Seq<Seq<char>>)
    requires
        list.len() > 0,
    ensures
        list.contains(step_down(list, s)),
        list.contains(step_up(list, s)),
{
    lemma_index_of(list, s);
    match index_of(list, s) {
        Some(i) => {
            assert(list[i] == s);
            if i + 1 < list.len() {
                assert(list[i + 1] == step_down(list, s));
            }
            if i > 0 {
                assert(list[i - 1] == step_up(list, s));
            }
        },
        None => {
            assert(list[0] == step_down(list, s));
            assert(list[list.len() - 1] == step_up(list, s));
        },
    }
}

/// A selection at rest in a forest that is not empty has a position among the
/// visible rows.
pub proof fn lemma_settled_has_index(view: TreeView, forest: Seq<TreeNode>)
    requires
        view.settled(forest),
        forest.len() > 0,
    ensures
        index_of(view.shown(forest), view.selected()) is Some,
        0 <= index_of(view.shown(forest), view.selected())->0 < view.shown(forest).len(),
{
    lemma_index_of(view.shown(forest), view.selected());
}

/// Two sets of open paths that differ at most at `s` show the same rows up to and
/// including `s`; where `s` is not shown, they show the same rows altogether.
pub proof fn lemma_rows_up_to(
    forest: Seq<TreeNode>,
    open: Set<Seq<Seq<char>>>,
    other: Set<Seq<Seq<char>>>,
    prefix: Seq<Seq<char>>,
    s: Seq<Seq<char>>,
)
    requires
        forall|p: Seq<Seq<char>>| p != s ==> open.contains(p) == other.contains(p),
    ensures
        index_of(rows(forest, other, prefix), s) == index_of(rows(forest, open, prefix), s),
        match index_of(rows(forest, open, prefix), s) {
            Some(i) => rows(forest, other, prefix).len() > i && rows(forest, other, prefix).take(
                i + 1,
            ) == rows(forest, open, prefix).take(i + 1),
            None => rows(forest, other, prefix) == rows(forest, open, prefix),
        },
    decreases forest,
{
    if forest.len() > 0 {
        let node = forest.last();
        let front = forest.drop_last();
        let path = prefix.push(node.id@);
        let head = rows(front, open, prefix);
        let head2 = rows(front, other, prefix);
        let below = if open.contains(path) {
            rows(node.children@, open, path)
        } else {
            Seq::empty()
        };
        let below2 = if other.contains(path) {
            rows(node.children@, other, path)
        } else {
            Seq::empty()
        };
        let all = rows(forest, open, prefix);
        let all2 = rows(forest, other, prefix);
        assert(all == head + seq![path] + below);
        assert(all2 == head2 + seq![path] + below2);
        lemma_rows_up_to(front, open, other, prefix, s);
        lemma_rows_up_to(node.children@, open, other, path, s);
        lemma_index_of_concat(head + seq![path], below, s);
        lemma_index_of_concat(head, seq![path], s);
        lemma_index_of_concat(head2 + seq![path], below2, s);
        lemma_index_of_concat(head2, seq![path], s);
        lemma_index_of(head, s);
        lemma_index_of(below, s);
        assert(seq![path].drop_last() =~= Seq::<Seq<Seq<char>>>::empty());
        assert(index_of(Seq::<Seq<Seq<char>>>::empty(), s) is None);
        match index_of(head, s) {
            Some(i) => {
                assert(all.take(i + 1) =~= head.take(i + 1));
                assert(all2.take(i + 1) =~= head2.take(i + 1));
            },
            None => {
                assert(head2 == head);
                if path == s {
                    let i = head.len() as int;
                    assert(all.take(i + 1) =~= head + seq![path]);
                    assert(all2.take(i + 1) =~= head + seq![path]);
                } else {
                    assert(open.contains(path) == other.contains(path));
                    match index_of(below, s) {
                        Some(j) => {
                            let i = head.len() + 1 + j;
                            assert(all.take(i + 1) =~= head + seq![path] + below.take(j + 1));
                            assert(all2.take(i + 1) =~= head + seq![path] + below2.take(j + 1));
                        },
                        None => {
                            assert(below2 == below);
                        },
                    }
                }
            },
        }
    }
}

/// Opening or closing the selected path leaves the selection on its row: its position
/// among the visible rows stays as it is.
pub proof fn lemma_toggle_keeps_index(
    forest: Seq<TreeNode>,
    open: Set<Seq<Seq<char>>>,
    s: Seq<Seq<char>>,
)
    ensures
        index_of(rows(forest, open.insert(s), Seq::empty()), s) == index_of(
            rows(forest, open, Seq::empty()),
            s,
        ),
        index_of(rows(forest, open.remove(s), Seq::empty()), s) == index_of(
            rows(forest, open, Seq::empty()),
            s,
        ),
{
    lemma_rows_up_to(forest, open, open.insert(s), Seq::empty(), s);
    lemma_rows_up_to(forest, open, open.remove(s), Seq::empty(), s);
}

} // verus!
