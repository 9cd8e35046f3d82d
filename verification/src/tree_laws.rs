//! What holds of every forest built from records with unique identifiers.

use vstd::prelude::*;
use vstd::set_lib::{lemma_int_range, lemma_len_subset, set_int_range};
use crate::highlight::span_views;
use crate::record::{unique_ids, RecordView};
use crate::tree::{
    all_paths, group_key, is_forest_of, label_spec, lemma_forest_distinct, lemma_members,
    lemma_members_hold, members, TreeNode,
};
use crate::view::rows;
use crate::view_laws::{distinct_rows, lemma_all_open, lemma_rows_distinct};

verus! {

/// `chain` holds the positions of records that lead from a root down to the record
/// that carries `key`, each the parent of the next; it is empty where `key` is none.
pub open spec fn is_root_chain(rs: Seq<RecordView>, chain: Seq<int>, key: Option<Seq<char>>) -> bool {
    &&& forall|i: int| 0 <= i < chain.len() ==> 0 <= #[trigger] chain[i] < rs.len()
    &&& if chain.len() == 0 {
        key is None
    } else {
        &&& key == Some(rs[chain.last()].id)
        &&& group_key(rs[chain[0]]) is None
        &&& forall|i: int|
            1 <= i < chain.len() ==> group_key(rs[#[trigger] chain[i]]) == Some(
                rs[chain[i - 1]].id,
            )
    }
}

/// With unique identifiers no record stands twice in a root chain.
pub proof fn lemma_chain_distinct(
    rs: Seq<RecordView>,
    chain: Seq<int>,
    key: Option<Seq<char>>,
    i: int,
    j: int,
)
    requires
        unique_ids(rs),
        is_root_chain(rs, chain, key),
        0 <= i < j < chain.len(),
    ensures
        chain[i] != chain[j],
    decreases i,
{
    if chain[i] == chain[j] {
        assert(group_key(rs[chain[j]]) == Some(rs[chain[j - 1]].id));
        if i > 0 {
            assert(group_key(rs[chain[i]]) == Some(rs[chain[i - 1]].id));
            assert(rs[chain[i - 1]].id == rs[chain[j - 1]].id);
            lemma_chain_distinct(rs, chain, key, i - 1, j - 1);
        }
    }
}

/// Distinct positions below `n` are at most `n`.
pub proof fn lemma_distinct_positions(chain: Seq<int>, n: int)
    requires
        0 <= n,
        forall|i: int| 0 <= i < chain.len() ==> 0 <= #[trigger] chain[i] < n,
        forall|i: int, j: int| 0 <= i < j < chain.len() ==> chain[i] != chain[j],
    ensures
        chain.len() <= n,
{
    assert(chain.no_duplicates());
    chain.unique_seq_to_set();
    lemma_int_range(0, n);
    assert(chain.to_set().subset_of(set_int_range(0, n))) by {
        assert forall|v: int| chain.to_set().contains(v) implies set_int_range(0, n).contains(v) by {
            let w = choose|w: int| 0 <= w < chain.len() && chain[w] == v;
            assert(0 <= chain[w] < n);
        }
    }
    lemma_len_subset(chain.to_set(), set_int_range(0, n));
}

/// With unique identifiers a root chain is no longer than the records are many.
pub proof fn lemma_chain_bounded(rs: Seq<RecordView>, chain: Seq<int>, key: Option<Seq<char>>)
    requires
        unique_ids(rs),
        is_root_chain(rs, chain, key),
    ensures
        chain.len() <= rs.len(),
{
    assert forall|i: int, j: int| 0 <= i < j < chain.len() implies chain[i] != chain[j] by {
        lemma_chain_distinct(rs, chain, key, i, j);
    }
    lemma_distinct_positions(chain, rs.len() as int);
}

/// A root chain grows by a record grouped under its key.
pub proof fn lemma_chain_grows(
    rs: Seq<RecordView>,
    chain: Seq<int>,
    key: Option<Seq<char>>,
    m: int,
)
    requires
        is_root_chain(rs, chain, key),
        0 <= m < rs.len(),
        group_key(rs[m]) == key,
    ensures
        is_root_chain(rs, chain.push(m), Some(rs[m].id)),
{
    let longer = chain.push(m);
    assert(longer.last() == m);
    assert forall|i: int| 0 <= i < longer.len() implies 0 <= #[trigger] longer[i] < rs.len() by {
        if i < chain.len() {
            assert(longer[i] == chain[i]);
        }
    }
    if chain.len() > 0 {
        assert(longer[0] == chain[0]);
        assert forall|i: int| 1 <= i < longer.len() implies group_key(rs[#[trigger] longer[i]])
            == Some(rs[longer[i - 1]].id) by {
            assert(longer[i - 1] == chain[i - 1]);
            if i < chain.len() {
                assert(longer[i] == chain[i]);
            }
        }
    }
}

/// With unique identifiers, a forest built below a root chain down to `fuel` levels is
/// the forest built down to any greater number of levels, once the chain and the
/// levels together are as many as the records: nothing is left to cut.
pub proof fn lemma_depth_general(
    forest: Seq<TreeNode>,
    rs: Seq<RecordView>,
    filter: Seq<char>,
    key: Option<Seq<char>>,
    chain: Seq<int>,
    fuel: nat,
    more: nat,
)
    requires
        unique_ids(rs),
        is_root_chain(rs, chain, key),
        chain.len() + fuel >= rs.len(),
        is_forest_of(forest, rs, filter, key, fuel),
    ensures
        is_forest_of(forest, rs, filter, key, fuel + more),
    decreases fuel,
{
    let idx = members(rs, key, rs.len() as int);
    lemma_members(rs, key, rs.len() as int);
    if fuel == 0 {
        if more > 0 {
            if idx.len() > 0 {
                let m = idx[0];
                lemma_chain_grows(rs, chain, key, m);
                lemma_chain_bounded(rs, chain.push(m), Some(rs[m].id));
            }
        }
    } else {
        assert forall|k: int| 0 <= k < forest.len() implies {
            let r = rs[idx[k]];
            &&& (#[trigger] forest[k]).id@ == r.id
            &&& span_views(forest[k].label@) == label_spec(r, filter)
            &&& is_forest_of(
                forest[k].children@,
                rs,
                filter,
                Some(r.id),
                (fuel + more - 1) as nat,
            )
        } by {
            let m = idx[k];
            lemma_chain_grows(rs, chain, key, m);
            lemma_depth_general(
                forest[k].children@,
                rs,
                filter,
                Some(rs[m].id),
                chain.push(m),
                (fuel - 1) as nat,
                more,
            );
            assert((fuel - 1) as nat + more == (fuel + more - 1) as nat);
        }
    }
}

/// With unique identifiers the forest of the records is complete: building it down to
/// more levels than there are records gives the same forest.
pub proof fn lemma_depth_suffices(
    forest: Seq<TreeNode>,
    rs: Seq<RecordView>,
    filter: Seq<char>,
    depth: nat,
)
    requires
        unique_ids(rs),
        is_forest_of(forest, rs, filter, None, rs.len()),
        depth >= rs.len(),
    ensures
        is_forest_of(forest, rs, filter, None, depth),
{
    lemma_depth_general(
        forest,
        rs,
        filter,
        None,
        Seq::empty(),
        rs.len(),
        (depth - rs.len()) as nat,
    );
}

/// The key under which the member at position `i` of a path is grouped: none for the
/// first, the member before it for every other.
pub open spec fn key_in_path(path: Seq<Seq<char>>, i: int) -> Option<Seq<char>> {
    if i == 0 {
        None
    } else {
        Some(path[i - 1])
    }
}

/// Some record carries `id` and is grouped under `key`.
pub open spec fn has_record(rs: Seq<RecordView>, id: Seq<char>, key: Option<Seq<char>>) -> bool {
    exists|m: int| 0 <= m < rs.len() && (#[trigger] rs[m]).id == id && group_key(rs[m]) == key
}

/// `path` follows the records from a root down: each member is carried by a record
/// that is grouped under the member before it, and the first by a root.
pub open spec fn is_record_path(rs: Seq<RecordView>, path: Seq<Seq<char>>) -> bool {
    &&& path.len() >= 1
    &&& forall|i: int|
        0 <= i < path.len() ==> has_record(rs, #[trigger] path[i], key_in_path(path, i))
}

/// `prefix` is the path of the record that carries `key`, or empty where `key` is none.
pub open spec fn leads_to(rs: Seq<RecordView>, prefix: Seq<Seq<char>>, key: Option<Seq<char>>) -> bool {
    if prefix.len() == 0 {
        key is None
    } else {
        is_record_path(rs, prefix) && key == Some(prefix.last())
    }
}

/// Every path of a forest is the path of one of its nodes or a path of that node's
/// children.
pub proof fn lemma_path_origin(forest: Seq<TreeNode>, prefix: Seq<Seq<char>>, k: int) -> (r: (
    int,
    int,
))
    requires
        0 <= k < all_paths(forest, prefix).len(),
    ensures
        0 <= r.0 < forest.len(),
        r.1 == -1 ==> all_paths(forest, prefix)[k] == prefix.push(forest[r.0].id@),
        r.1 != -1 ==> 0 <= r.1 < all_paths(
            forest[r.0].children@,
            prefix.push(forest[r.0].id@),
        ).len() && all_paths(forest, prefix)[k] == all_paths(
            forest[r.0].children@,
            prefix.push(forest[r.0].id@),
        )[r.1],
    decreases forest.len(),
{
    let node = forest.last();
    let path = prefix.push(node.id@);
    let head = all_paths(forest.drop_last(), prefix);
    if k < head.len() {
        let r = lemma_path_origin(forest.drop_last(), prefix, k);
        assert(forest.drop_last()[r.0] == forest[r.0]);
        r
    } else if k == head.len() {
        (forest.len() - 1, -1)
    } else {
        (forest.len() - 1, k - head.len() - 1)
    }
}

/// Every path of a forest built from records follows the records from a root down.
pub proof fn lemma_paths_follow_records(
    forest: Seq<TreeNode>,
    rs: Seq<RecordView>,
    filter: Seq<char>,
    key: Option<Seq<char>>,
    depth: nat,
    prefix: Seq<Seq<char>>,
    k: int,
)
    requires
        is_forest_of(forest, rs, filter, key, depth),
        leads_to(rs, prefix, key),
        0 <= k < all_paths(forest, prefix).len(),
    ensures
        is_record_path(rs, all_paths(forest, prefix)[k]),
    decreases depth,
{
    let r = lemma_path_origin(forest, prefix, k);
    let j = r.0;
    let idx = members(rs, key, rs.len() as int);
    lemma_members(rs, key, rs.len() as int);
    let m = idx[j];
    assert(forest[j].id@ == rs[m].id);
    let path = prefix.push(forest[j].id@);
    assert(is_record_path(rs, path)) by {
        assert forall|i: int| 0 <= i < path.len() implies has_record(
            rs,
            #[trigger] path[i],
            key_in_path(path, i),
        ) by {
            if i < prefix.len() {
                assert(path[i] == prefix[i]);
                assert(has_record(rs, prefix[i], key_in_path(prefix, i)));
                if i > 0 {
                    assert(path[i - 1] == prefix[i - 1]);
                }
            } else {
                assert(path[i] == rs[m].id);
                if i > 0 {
                    assert(path[i - 1] == prefix.last());
                }
                assert(group_key(rs[m]) == key_in_path(path, i));
            }
        }
    }
    if r.1 != -1 {
        lemma_paths_follow_records(
            forest[j].children@,
            rs,
            filter,
            Some(rs[m].id),
            (depth - 1) as nat,
            path,
            r.1,
        );
    }
}

/// With unique identifiers, two paths that follow the records and end at the same
/// identifier are the same path.
pub proof fn lemma_one_path_per_id(rs: Seq<RecordView>, p: Seq<Seq<char>>, q: Seq<Seq<char>>)
    requires
        unique_ids(rs),
        is_record_path(rs, p),
        is_record_path(rs, q),
        p.last() == q.last(),
    ensures
        p == q,
    decreases p.len(),
{
    let a = p.len() - 1;
    let b = q.len() - 1;
    assert(has_record(rs, p[a], key_in_path(p, a)));
    assert(has_record(rs, q[b], key_in_path(q, b)));
    let m = choose|m: int|
        0 <= m < rs.len() && (#[trigger] rs[m]).id == p[a] && group_key(rs[m]) == key_in_path(p, a);
    let w = choose|w: int|
        0 <= w < rs.len() && (#[trigger] rs[w]).id == q[b] && group_key(rs[w]) == key_in_path(q, b);
    assert(rs[m].id == rs[w].id);
    assert(m == w);
    if a == 0 {
        assert(b == 0);
        assert(p =~= q);
    } else {
        assert(b > 0);
        let pf = p.drop_last();
        let qf = q.drop_last();
        assert forall|i: int| 0 <= i < pf.len() implies has_record(
            rs,
            #[trigger] pf[i],
            key_in_path(pf, i),
        ) by {
            assert(pf[i] == p[i]);
            assert(has_record(rs, p[i], key_in_path(p, i)));
            if i > 0 {
                assert(pf[i - 1] == p[i - 1]);
            }
        }
        assert forall|i: int| 0 <= i < qf.len() implies has_record(
            rs,
            #[trigger] qf[i],
            key_in_path(qf, i),
        ) by {
            assert(qf[i] == q[i]);
            assert(has_record(rs, q[i], key_in_path(q, i)));
            if i > 0 {
                assert(qf[i - 1] == q[i - 1]);
            }
        }
        assert(pf.last() == p[a - 1] && qf.last() == q[b - 1]);
        lemma_one_path_per_id(rs, pf, qf);
        assert(p =~= pf.push(p[a]));
        assert(q =~= qf.push(q[b]));
    }
}

/// With unique identifiers, every identifier stands in one node of the forest at most:
/// no two of its paths end at the same identifier.
pub proof fn lemma_one_node_per_id(
    forest: Seq<TreeNode>,
    rs: Seq<RecordView>,
    filter: Seq<char>,
    a: int,
    b: int,
)
    requires
        unique_ids(rs),
        is_forest_of(forest, rs, filter, None, rs.len()),
        0 <= a < b < all_paths(forest, Seq::empty()).len(),
    ensures
        all_paths(forest, Seq::empty())[a].last() != all_paths(forest, Seq::empty())[b].last(),
{
    let empty = Seq::<Seq<char>>::empty();
    let all = all_paths(forest, empty);
    lemma_forest_distinct(forest, rs, filter, None, rs.len());
    lemma_all_open(forest, Set::full(), empty);
    lemma_rows_distinct(forest, Set::full(), empty);
    assert(distinct_rows(rows(forest, Set::full(), empty)));
    assert(all[a] != all[b]);
    lemma_paths_follow_records(forest, rs, filter, None, rs.len(), empty, a);
    lemma_paths_follow_records(forest, rs, filter, None, rs.len(), empty, b);
    if all[a].last() == all[b].last() {
        lemma_one_path_per_id(rs, all[a], all[b]);
    }
}

/// The path of every node of a forest, and every path of its children, is among the
/// paths of the forest.
pub proof fn lemma_node_paths_appear(forest: Seq<TreeNode>, prefix: Seq<Seq<char>>, j: int)
    requires
        0 <= j < forest.len(),
    ensures
        all_paths(forest, prefix).contains(prefix.push(forest[j].id@)),
        forall|p: Seq<Seq<char>>|
            all_paths(forest[j].children@, prefix.push(forest[j].id@)).contains(p)
                ==> #[trigger] all_paths(forest, prefix).contains(p),
    decreases forest.len(),
{
    let node = forest.last();
    let path = prefix.push(node.id@);
    let head = all_paths(forest.drop_last(), prefix);
    let below = all_paths(node.children@, path);
    let all = all_paths(forest, prefix);
    assert(all == head + seq![path] + below);
    if j == forest.len() - 1 {
        assert(all[head.len() as int] == path);
        assert forall|p: Seq<Seq<char>>| below.contains(p) implies #[trigger] all.contains(p) by {
            let w = choose|w: int| 0 <= w < below.len() && below[w] == p;
            assert(all[head.len() + 1 + w] == p);
        }
    } else {
        lemma_node_paths_appear(forest.drop_last(), prefix, j);
        assert(forest.drop_last()[j] == forest[j]);
        let mine = prefix.push(forest[j].id@);
        let w = choose|w: int| 0 <= w < head.len() && head[w] == mine;
        assert(all[w] == mine);
        assert forall|p: Seq<Seq<char>>|
            all_paths(forest[j].children@, mine).contains(p) implies #[trigger] all.contains(
            p,
        ) by {
            assert(head.contains(p));
            let w = choose|w: int| 0 <= w < head.len() && head[w] == p;
            assert(all[w] == p);
        }
    }
}

/// `steps` continues a path below `key`: its first member is carried by a record
/// grouped under `key`, and each later member by a record grouped under the member
/// before it.
pub open spec fn continues(rs: Seq<RecordView>, key: Option<Seq<char>>, steps: Seq<Seq<char>>) -> bool {
    &&& steps.len() >= 1
    &&& has_record(rs, steps[0], key)
    &&& forall|i: int|
        1 <= i < steps.len() ==> has_record(rs, #[trigger] steps[i], Some(steps[i - 1]))
}

/// A forest built deep enough holds every path that continues below its key.
pub proof fn lemma_continuations_appear(
    forest: Seq<TreeNode>,
    rs: Seq<RecordView>,
    filter: Seq<char>,
    key: Option<Seq<char>>,
    depth: nat,
    prefix: Seq<Seq<char>>,
    steps: Seq<Seq<char>>,
)
    requires
        is_forest_of(forest, rs, filter, key, depth),
        continues(rs, key, steps),
        depth >= steps.len(),
    ensures
        all_paths(forest, prefix).contains(prefix + steps),
    decreases steps.len(),
{
    let m = choose|m: int|
        0 <= m < rs.len() && (#[trigger] rs[m]).id == steps[0] && group_key(rs[m]) == key;
    let j = lemma_members_hold(rs, key, rs.len() as int, m);
    assert(forest[j].id@ == rs[m].id);
    let path = prefix.push(steps[0]);
    lemma_node_paths_appear(forest, prefix, j);
    if steps.len() == 1 {
        assert(prefix + steps =~= path);
    } else {
        let rest = steps.drop_first();
        assert(continues(rs, Some(steps[0]), rest)) by {
            assert(rest[0] == steps[1]);
            assert(has_record(rs, steps[1], Some(steps[1 - 1])));
            assert forall|i: int| 1 <= i < rest.len() implies has_record(
                rs,
                #[trigger] rest[i],
                Some(rest[i - 1]),
            ) by {
                assert(rest[i] == steps[i + 1]);
                assert(rest[i - 1] == steps[i + 1 - 1]);
                assert(has_record(rs, steps[i + 1], Some(steps[i + 1 - 1])));
            }
        }
        lemma_continuations_appear(
            forest[j].children@,
            rs,
            filter,
            Some(steps[0]),
            (depth - 1) as nat,
            path,
            rest,
        );
        assert(path + rest =~= prefix + steps);
    }
}

/// With unique identifiers, no identifier stands twice in a path that follows the
/// records.
pub proof fn lemma_record_path_distinct(rs: Seq<RecordView>, path: Seq<Seq<char>>, i: int, j: int)
    requires
        unique_ids(rs),
        is_record_path(rs, path),
        0 <= i < j < path.len(),
    ensures
        path[i] != path[j],
{
    let p = path.take(i + 1);
    let q = path.take(j + 1);
    assert forall|x: int| 0 <= x < p.len() implies has_record(
        rs,
        #[trigger] p[x],
        key_in_path(p, x),
    ) by {
        assert(p[x] == path[x]);
        assert(has_record(rs, path[x], key_in_path(path, x)));
        if x > 0 {
            assert(p[x - 1] == path[x - 1]);
        }
    }
    assert forall|x: int| 0 <= x < q.len() implies has_record(
        rs,
        #[trigger] q[x],
        key_in_path(q, x),
    ) by {
        assert(q[x] == path[x]);
        assert(has_record(rs, path[x], key_in_path(path, x)));
        if x > 0 {
            assert(q[x - 1] == path[x - 1]);
        }
    }
    if path[i] == path[j] {
        assert(p.last() == path[i] && q.last() == path[j]);
        lemma_one_path_per_id(rs, p, q);
    }
}

/// The position of a record that carries the member at `i` of a path.
pub open spec fn carrier(rs: Seq<RecordView>, path: Seq<Seq<char>>, i: int) -> int {
    choose|m: int|
        0 <= m < rs.len() && (#[trigger] rs[m]).id == path[i] && group_key(rs[m]) == key_in_path(
            path,
            i,
        )
}

/// With unique identifiers, a path that follows the records is no longer than the
/// records are many.
pub proof fn lemma_record_path_bounded(rs: Seq<RecordView>, path: Seq<Seq<char>>)
    requires
        unique_ids(rs),
        is_record_path(rs, path),
    ensures
        path.len() <= rs.len(),
{
    let carriers = Seq::new(path.len(), |i: int| carrier(rs, path, i));
    assert forall|i: int| 0 <= i < carriers.len() implies 0 <= #[trigger] carriers[i] < rs.len()
        && rs[carriers[i]].id == path[i] by {
        assert(has_record(rs, path[i], key_in_path(path, i)));
    }
    assert forall|i: int, j: int| 0 <= i < j < carriers.len() implies carriers[i]
        != carriers[j] by {
        lemma_record_path_distinct(rs, path, i, j);
        assert(rs[carriers[i]].id == path[i]);
        assert(rs[carriers[j]].id == path[j]);
    }
    lemma_distinct_positions(carriers, rs.len() as int);
}

/// With unique identifiers, the paths of the forest are exactly the paths that follow
/// the records from a root down: every record that hangs from a root has its node.
pub proof fn lemma_forest_paths(
    forest: Seq<TreeNode>,
    rs: Seq<RecordView>,
    filter: Seq<char>,
    path: Seq<Seq<char>>,
)
    requires
        unique_ids(rs),
        is_forest_of(forest, rs, filter, None, rs.len()),
    ensures
        all_paths(forest, Seq::empty()).contains(path) == is_record_path(rs, path),
{
    let empty = Seq::<Seq<char>>::empty();
    let all = all_paths(forest, empty);
    if all.contains(path) {
        let k = choose|k: int| 0 <= k < all.len() && all[k] == path;
        lemma_paths_follow_records(forest, rs, filter, None, rs.len(), empty, k);
    }
    if is_record_path(rs, path) {
        lemma_record_path_bounded(rs, path);
        assert(continues(rs, None, path)) by {
            assert(has_record(rs, path[0], key_in_path(path, 0)));
            assert forall|i: int| 1 <= i < path.len() implies has_record(
                rs,
                #[trigger] path[i],
                Some(path[i - 1]),
            ) by {
                assert(has_record(rs, path[i], key_in_path(path, i)));
            }
        }
        lemma_continuations_appear(forest, rs, filter, None, rs.len(), empty, path);
        assert(empty + path =~= path);
    }
}

/// With unique identifiers, no node of the forest stands below itself: no identifier
/// stands twice in a path of the forest.
pub proof fn lemma_no_node_below_itself(
    forest: Seq<TreeNode>,
    rs: Seq<RecordView>,
    filter: Seq<char>,
    k: int,
    i: int,
    j: int,
)
    requires
        unique_ids(rs),
        is_forest_of(forest, rs, filter, None, rs.len()),
        0 <= k < all_paths(forest, Seq::empty()).len(),
        0 <= i < j < all_paths(forest, Seq::empty())[k].len(),
    ensures
        all_paths(forest, Seq::empty())[k][i] != all_paths(forest, Seq::empty())[k][j],
{
    lemma_paths_follow_records(forest, rs, filter, None, rs.len(), Seq::empty(), k);
    lemma_record_path_distinct(rs, all_paths(forest, Seq::empty())[k], i, j);
}

/// Two forests whose nodes carry the same identifiers, and whose children have the
/// same paths, have the same paths.
pub proof fn lemma_paths_by_shape(
    f: Seq<TreeNode>,
    g: Seq<TreeNode>,
    prefix: Seq<Seq<char>>,
    k: int,
)
    requires
        f.len() == g.len(),
        0 <= k <= f.len(),
        forall|j: int|
            0 <= j < f.len() ==> (#[trigger] f[j]).id@ == g[j].id@ && all_paths(
                f[j].children@,
                prefix.push(f[j].id@),
            ) == all_paths(g[j].children@, prefix.push(f[j].id@)),
    ensures
        all_paths(f.take(k), prefix) == all_paths(g.take(k), prefix),
    decreases k,
{
    if k > 0 {
        lemma_paths_by_shape(f, g, prefix, k - 1);
        assert(f.take(k).drop_last() =~= f.take(k - 1));
        assert(g.take(k).drop_last() =~= g.take(k - 1));
        assert(f.take(k).last() == f[k - 1]);
        assert(g.take(k).last() == g[k - 1]);
    }
}

/// The records, the key and the depth fix the paths of the forest built from them.
pub proof fn lemma_forests_agree(
    f: Seq<TreeNode>,
    g: Seq<TreeNode>,
    rs: Seq<RecordView>,
    filter: Seq<char>,
    key: Option<Seq<char>>,
    depth: nat,
    prefix: Seq<Seq<char>>,
)
    requires
        is_forest_of(f, rs, filter, key, depth),
        is_forest_of(g, rs, filter, key, depth),
    ensures
        all_paths(f, prefix) == all_paths(g, prefix),
    decreases depth,
{
    if depth > 0 {
        let idx = members(rs, key, rs.len() as int);
        assert forall|j: int| 0 <= j < f.len() implies (#[trigger] f[j]).id@ == g[j].id@
            && all_paths(f[j].children@, prefix.push(f[j].id@)) == all_paths(
            g[j].children@,
            prefix.push(f[j].id@),
        ) by {
            assert(g[j].id@ == rs[idx[j]].id);
            lemma_forests_agree(
                f[j].children@,
                g[j].children@,
                rs,
                filter,
                Some(rs[idx[j]].id),
                (depth - 1) as nat,
                prefix.push(f[j].id@),
            );
        }
        lemma_paths_by_shape(f, g, prefix, f.len() as int);
        assert(f.take(f.len() as int) =~= f);
        assert(g.take(g.len() as int) =~= g);
    }
}

} // verus!
