//! The ancestor closure: following parent links upward from the matches.

use vstd::prelude::*;
use crate::filter::{
    above_match, flag, is_ancestor, is_marked, last_with_id, nth_ancestor, parent_of,
};
use crate::flags::{
    count_unset, find_last, lemma_count_unset_monotone, lemma_last_with_id, mark_id,
    unset_flags,
};
use crate::record::{views, Record, RecordView};

verus! {

/// The record at `i` carries the identifier that the parent chain of `m` holds at step `k`.
pub open spec fn at_step(rs: Seq<RecordView>, m: Seq<char>, k: nat, i: int) -> bool {
    0 <= i < rs.len() && nth_ancestor(rs, m, k) == Some(rs[i].id)
}

/// Once the parent chain has ended it stays ended.
pub proof fn lemma_chain_ends(rs: Seq<RecordView>, id: Seq<char>, n: nat, k: nat)
    requires
        nth_ancestor(rs, id, n) is None,
        k >= n,
    ensures
        nth_ancestor(rs, id, k) is None,
    decreases k,
{
    if k > n {
        lemma_chain_ends(rs, id, n, (k - 1) as nat);
    }
}

/// Following `a` links and then `b` links is following `a + b` links.
pub proof fn lemma_chain_add(rs: Seq<RecordView>, id: Seq<char>, a: nat, b: nat)
    ensures
        nth_ancestor(rs, id, a + b) == match nth_ancestor(rs, id, a) {
            Some(x) => nth_ancestor(rs, x, b),
            None => None,
        },
    decreases b,
{
    if b > 0 {
        lemma_chain_add(rs, id, a, (b - 1) as nat);
        assert(a + b - 1 == a + (b - 1) as nat);
    }
}

/// Where the parent chain of `id` returns at step `j` to what it held at an earlier
/// step, every identifier it ever holds from step one on is held at some step from one
/// to `j`.
pub proof fn lemma_chain_periodic(rs: Seq<RecordView>, id: Seq<char>, i: nat, j: nat, k: nat)
    requires
        i < j,
        nth_ancestor(rs, id, i) == nth_ancestor(rs, id, j),
        k >= 1,
        nth_ancestor(rs, id, k) is Some,
    ensures
        exists|w: nat| 1 <= w <= j && nth_ancestor(rs, id, w) == nth_ancestor(rs, id, k),
    decreases k,
{
    if k > j {
        let d = (k - j) as nat;
        lemma_chain_add(rs, id, j, d);
        lemma_chain_add(rs, id, i, d);
        assert(j + d == k);
        let back = i + d;
        assert(nth_ancestor(rs, id, back) == nth_ancestor(rs, id, k));
        lemma_chain_periodic(rs, id, i, j, back);
    }
}

/// Adds to `included` every ancestor of the record at `start`: the walk follows the
/// parent links and stops where a link is missing or leads back to an identifier that
/// the walk has already left.
pub fn add_all_ancestors(records: &Vec<Record>, start: usize, included: &mut Vec<bool>)
    requires
        start < records.len(),
        old(included).len() == records.len(),
    ensures
        final(included).len() == records.len(),
        forall|i: int|
            0 <= i < records.len() ==> final(included)@[i] == (old(included)@[i] || is_ancestor(
                views(records@),
                records@[i].id@,
                records@[start as int].id@,
            )),
{
    let ghost rs = views(records@);
    let ghost m = records@[start as int].id@;
    let ghost mut j: nat = 0;
    let mut visited = unset_flags(records.len());
    let mut cur: usize = start;
    proof {
        lemma_last_with_id(rs, m);
        assert(rs[start as int].id == m);
    }
    match find_last(records, &records[start].id) {
        Some(f) => {
            cur = f;
        },
        None => {},
    }
    let mut done = false;
    while !done
        invariant
            rs == views(records@),
            start < records.len(),
            old(included).len() == records.len(),
            m == records@[start as int].id@,
            cur < records.len(),
            included.len() == records.len(),
            visited.len() == records.len(),
            nth_ancestor(rs, m, j) == Some(rs[cur as int].id),
            last_with_id(rs, rs[cur as int].id) == Some(cur as int),
            forall|i: int| 0 <= i < records.len() && old(included)@[i] ==> included@[i],
            forall|i: int|
                0 <= i < records.len() && included@[i] ==> old(included)@[i] || is_ancestor(
                    rs,
                    (#[trigger] rs[i]).id,
                    m,
                ),
            forall|k: nat, i: int|
                1 <= k <= j && #[trigger] at_step(rs, m, k, i) ==> included@[i],
            !done ==> forall|x: int|
                0 <= x < records.len() && visited@[x] ==> exists|k: nat|
                    k < j && nth_ancestor(rs, m, k) == Some((#[trigger] rs[x]).id),
            done ==> forall|k: nat, i: int|
                1 <= k && #[trigger] at_step(rs, m, k, i) ==> included@[i],
        decreases
                if done {
                    0
                } else {
                    1 + count_unset(visited@)
                },
    {
        if visited[cur] {
            proof {
                let back = choose|k: nat|
                    k < j && nth_ancestor(rs, m, k) == Some(rs[cur as int].id);
                assert forall|k: nat, i: int|
                    1 <= k && #[trigger] at_step(rs, m, k, i) implies included@[i] by {
                    lemma_chain_periodic(rs, m, back, j, k);
                    let w = choose|w: nat|
                        1 <= w <= j && nth_ancestor(rs, m, w) == nth_ancestor(rs, m, k);
                    assert(at_step(rs, m, w, i));
                }
            }
            done = true;
        } else {
            let ghost seen = visited@;
            visited.set(cur, true);
            proof {
                lemma_count_unset_monotone(seen, visited@);
                assert(!seen[cur as int] && visited@[cur as int]);
                assert(rs[cur as int].parent == parent_of(rs, rs[cur as int].id));
                assert(nth_ancestor(rs, m, j + 1) == rs[cur as int].parent);
            }
            match &records[cur].parent {
                None => {
                    proof {
                        assert forall|k: nat, i: int|
                            1 <= k && #[trigger] at_step(rs, m, k, i) implies included@[i] by {
                            if k > j {
                                lemma_chain_ends(rs, m, j + 1, k);
                            }
                        }
                    }
                    done = true;
                },
                Some(p) => {
                    let ghost before = included@;
                    mark_id(records, included, p);
                    proof {
                        assert forall|i: int|
                            0 <= i < records.len() && included@[i] implies old(included)@[i]
                            || is_ancestor(rs, (#[trigger] rs[i]).id, m) by {
                            if !before[i] {
                                assert(rs[i].id == p@);
                                assert(nth_ancestor(rs, m, j + 1) == Some(rs[i].id));
                            }
                        }
                    }
                    match find_last(records, p) {
                        None => {
                            proof {
                                lemma_last_with_id(rs, p@);
                                assert(parent_of(rs, p@) is None);
                                assert(nth_ancestor(rs, m, j + 2) is None);
                                assert forall|k: nat, i: int|
                                    1 <= k && #[trigger] at_step(rs, m, k, i) implies included@[i] by {
                                    if k > j + 1 {
                                        lemma_chain_ends(rs, m, j + 2, k);
                                    } else if k == j + 1 {
                                        assert(rs[i].id == p@);
                                    }
                                }
                            }
                            done = true;
                        },
                        Some(next) => {
                            proof {
                                lemma_last_with_id(rs, p@);
                                assert forall|x: int|
                                    0 <= x < records.len() && visited@[x] implies exists|k: nat|
                                        k < j + 1 && nth_ancestor(rs, m, k) == Some(
                                            (#[trigger] rs[x]).id,
                                        ) by {
                                    if x == cur {
                                        assert(nth_ancestor(rs, m, j) == Some(rs[x].id));
                                    } else {
                                        assert(seen[x]);
                                        let k0 = choose|k: nat|
                                            k < j && nth_ancestor(rs, m, k) == Some(rs[x].id);
                                        assert(k0 < j + 1);
                                    }
                                }
                                assert forall|k: nat, i: int|
                                    1 <= k <= j + 1 && #[trigger] at_step(rs, m, k, i) implies included@[i] by {
                                    if k == j + 1 {
                                        assert(rs[i].id == p@);
                                    } else {
                                        assert(before[i]);
                                    }
                                }
                                j = j + 1;
                            }
                            cur = next;
                        },
                    }
                },
            }
        }
    }
    proof {
        assert forall|i: int| 0 <= i < records.len() implies included@[i] == (old(included)@[i]
            || is_ancestor(rs, records@[i].id@, m)) by {
            assert(rs[i].id == records@[i].id@);
            if is_ancestor(rs, rs[i].id, m) {
                let k = choose|n: nat| n >= 1 && nth_ancestor(rs, m, n) == Some(rs[i].id);
                assert(at_step(rs, m, k, i));
            }
        }
    }
}

/// `id` is an ancestor of some record before `n` whose flag is set.
pub open spec fn ancestor_before(
    rs: Seq<RecordView>,
    flags: Seq<bool>,
    n: int,
    id: Seq<char>,
) -> bool {
    exists|i: int|
        0 <= i < n && i < rs.len() && flag(flags, i) && is_ancestor(rs, id, (#[trigger] rs[i]).id)
}

/// Adds to `included` the records that carry an ancestor of a matched identifier.
pub fn add_ancestors_of_matches(
    records: &Vec<Record>,
    matched: &Vec<bool>,
    included: &mut Vec<bool>,
)
    requires
        old(included).len() == records.len(),
    ensures
        final(included).len() == records.len(),
        forall|x: int|
            0 <= x < records.len() ==> final(included)@[x] == (old(included)@[x] || above_match(
                views(records@),
                matched@,
                (#[trigger] views(records@)[x]).id,
            )),
{
    let ghost rs = views(records@);
    let n = records.len();
    let mut i: usize = 0;
    while i < n
        invariant
            rs == views(records@),
            n == records.len(),
            i <= n,
            included.len() == n,
            old(included).len() == n,
            forall|x: int|
                0 <= x < n ==> included@[x] == (old(included)@[x] || ancestor_before(
                    rs,
                    matched@,
                    i as int,
                    (#[trigger] rs[x]).id,
                )),
        decreases n - i,
    {
        let ghost before = included@;
        if i < matched.len() && matched[i] {
            add_all_ancestors(records, i, included);
        }
        proof {
            assert forall|x: int| 0 <= x < n implies included@[x] == (old(included)@[x]
                || ancestor_before(rs, matched@, i + 1, (#[trigger] rs[x]).id)) by {
                assert(rs[i as int].id == records@[i as int].id@);
                assert(rs[x].id == records@[x].id@);
                if ancestor_before(rs, matched@, i + 1, rs[x].id) {
                    let w = choose|w: int|
                        0 <= w < i + 1 && w < rs.len() && flag(matched@, w) && is_ancestor(
                            rs,
                            rs[x].id,
                            (#[trigger] rs[w]).id,
                        );
                    if w < i {
                        assert(ancestor_before(rs, matched@, i as int, rs[x].id));
                    }
                }
                if ancestor_before(rs, matched@, i as int, rs[x].id) {
                    let w = choose|w: int|
                        0 <= w < i && w < rs.len() && flag(matched@, w) && is_ancestor(
                            rs,
                            rs[x].id,
                            (#[trigger] rs[w]).id,
                        );
                    assert(w < i + 1);
                }
                if flag(matched@, i as int) && is_ancestor(rs, rs[x].id, rs[i as int].id) {
                    assert(ancestor_before(rs, matched@, i + 1, rs[x].id));
                }
            }
        }
        i += 1;
    }
    proof {
        assert forall|x: int| 0 <= x < n implies included@[x] == (old(included)@[x] || above_match(
            rs,
            matched@,
            (#[trigger] rs[x]).id,
        )) by {
            if ancestor_before(rs, matched@, n as int, rs[x].id) {
                let w = choose|w: int|
                    0 <= w < n && w < rs.len() && flag(matched@, w) && is_ancestor(
                        rs,
                        rs[x].id,
                        (#[trigger] rs[w]).id,
                    );
                assert(is_marked(rs, matched@, rs[w].id));
            }
            if above_match(rs, matched@, rs[x].id) {
                let m = choose|m: Seq<char>| #[trigger]
                    is_marked(rs, matched@, m) && is_ancestor(rs, rs[x].id, m);
                let w = choose|w: int|
                    0 <= w < rs.len() && flag(matched@, w) && (#[trigger] rs[w]).id == m;
                assert(ancestor_before(rs, matched@, n as int, rs[x].id));
            }
        }
    }
}

} // verus!
