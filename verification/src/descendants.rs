//! The descendant closure: descents from the matches that mark where they have been,
//! and why the flags they set are exactly those of the records below a match.

use vstd::prelude::*;
use crate::filter::{below_match, flag, is_child, is_descent, is_marked, marked, reaches};
use crate::flags::{
    consistent, count_unset, grows, lemma_count_unset_monotone, mark_id, unset_flags,
};
use crate::record::{views, Record, RecordView};

verus! {

/// Every record that names `p` as its parent has its flag set.
pub open spec fn children_kept(rs: Seq<RecordView>, flags: Seq<bool>, p: Seq<char>) -> bool {
    forall|c: int| 0 <= c < rs.len() && (#[trigger] rs[c]).parent == Some(p) ==> flags[c]
}

/// Every record whose flag is set in `flags` and not in `base` has the flags of all
/// its children set.
pub open spec fn closed_over(rs: Seq<RecordView>, base: Seq<bool>, flags: Seq<bool>) -> bool {
    forall|i: int|
        0 <= i < rs.len() && flags[i] && !base[i] ==> children_kept(
            rs,
            flags,
            (#[trigger] rs[i]).id,
        )
}

/// Every record whose flag is set in `flags` and not in `base` is reached from `from`
/// by a descent that avoids the identifiers marked in `base`.
pub open spec fn grown_from(
    rs: Seq<RecordView>,
    base: Seq<bool>,
    flags: Seq<bool>,
    from: Seq<char>,
) -> bool {
    forall|i: int|
        0 <= i < rs.len() && flags[i] && !base[i] ==> reaches(
            rs,
            marked(rs, base),
            from,
            (#[trigger] rs[i]).id,
        )
}

/// One step from a parent to a child that is not blocked is a descent.
pub proof fn lemma_descent_step(
    rs: Seq<RecordView>,
    blocked: Set<Seq<char>>,
    p: Seq<char>,
    c: Seq<char>,
)
    requires
        is_child(rs, p, c),
        !blocked.contains(c),
    ensures
        reaches(rs, blocked, p, c),
{
    let path = seq![p, c];
    assert(is_descent(rs, blocked, path));
    assert(path[0] == p && path.last() == c);
}

/// A descent from a child, put behind the step from its parent, is a descent from the
/// parent; it avoids whatever the longer one avoids, the child included.
pub proof fn lemma_descent_prepend(
    rs: Seq<RecordView>,
    blocked: Set<Seq<char>>,
    wider: Set<Seq<char>>,
    p: Seq<char>,
    c: Seq<char>,
    x: Seq<char>,
)
    requires
        is_child(rs, p, c),
        !blocked.contains(c),
        blocked.subset_of(wider),
        reaches(rs, wider, c, x),
    ensures
        reaches(rs, blocked, p, x),
{
    let tail = choose|path: Seq<Seq<char>>| #[trigger]
        is_descent(rs, wider, path) && path[0] == c && path.last() == x;
    let path = seq![p] + tail;
    assert forall|k: int| 0 <= k < path.len() - 1 implies is_child(
        rs,
        #[trigger] path[k],
        path[k + 1],
    ) && !blocked.contains(path[k + 1]) by {
        if k > 0 {
            assert(path[k] == tail[k - 1]);
            assert(path[k + 1] == tail[k - 1 + 1]);
            assert(is_child(rs, tail[k - 1], tail[k - 1 + 1]));
        } else {
            assert(path[1] == tail[0]);
        }
    }
    assert(is_descent(rs, blocked, path));
    assert(path[0] == p && path.last() == x);
}

/// A descent that avoids a set avoids every part of it.
pub proof fn lemma_descent_narrow(
    rs: Seq<RecordView>,
    blocked: Set<Seq<char>>,
    wider: Set<Seq<char>>,
    from: Seq<char>,
    to: Seq<char>,
)
    requires
        blocked.subset_of(wider),
        reaches(rs, wider, from, to),
    ensures
        reaches(rs, blocked, from, to),
{
    let path = choose|path: Seq<Seq<char>>| #[trigger]
        is_descent(rs, wider, path) && path[0] == from && path.last() == to;
    assert(is_descent(rs, wider, path));
    assert forall|k: int| 0 <= k < path.len() - 1 implies is_child(
        rs,
        #[trigger] path[k],
        path[k + 1],
    ) && !blocked.contains(path[k + 1]) by {
        assert(is_child(rs, path[k], path[k + 1]) && !wider.contains(path[k + 1]));
        assert(blocked.contains(path[k + 1]) ==> wider.contains(path[k + 1]));
    }
    assert(is_descent(rs, blocked, path));
}

/// Along a descent from a record whose children are all kept, through identifiers
/// that `base` leaves unmarked, every member after the first is carried by a record
/// that is kept and was not in `base`, provided the kept set is closed over `base`.
pub proof fn lemma_descent_kept(
    rs: Seq<RecordView>,
    base: Seq<bool>,
    fin: Seq<bool>,
    path: Seq<Seq<char>>,
    k: int,
) -> (a: int)
    requires
        base.len() == rs.len(),
        fin.len() == rs.len(),
        is_descent(rs, marked(rs, base), path),
        children_kept(rs, fin, path[0]),
        closed_over(rs, base, fin),
        1 <= k < path.len(),
    ensures
        0 <= a < rs.len() && rs[a].id == path[k] && fin[a] && !base[a],
    decreases k,
{
    assert(is_child(rs, path[k - 1], path[k - 1 + 1]));
    let c = choose|i: int|
        0 <= i < rs.len() && (#[trigger] rs[i]).id == path[k] && rs[i].parent == Some(path[k - 1]);
    assert(!marked(rs, base).contains(path[k - 1 + 1]));
    if base[c] {
        assert(flag(base, c));
        assert(is_marked(rs, base, path[k]));
    }
    if k == 1 {
        assert(fin[c]);
    } else {
        let a = lemma_descent_kept(rs, base, fin, path, k - 1);
        assert(children_kept(rs, fin, rs[a].id));
        assert(fin[c]);
    }
    c
}

/// Adds to `included` what descends from `parent_id`: each record that names it as
/// parent, and in turn what descends from that record. The descent marks in `visited`
/// the records it has come to and does not go below a record that it finds marked
/// there, so that it ends where the parent links run in a circle.
pub fn add_all_descendants(
    parent_id: &String,
    records: &Vec<Record>,
    included: &mut Vec<bool>,
    visited: &mut Vec<bool>,
)
    requires
        old(included).len() == records.len(),
        old(visited).len() == records.len(),
        consistent(views(records@), old(visited)@),
    ensures
        final(included).len() == records.len(),
        forall|i: int|
            0 <= i < records.len() ==> final(included)@[i] == (old(included)@[i] || (final(visited)@[i]
                && !old(visited)@[i])),
        final(visited).len() == records.len(),
        forall|i: int|
            0 <= i < records.len() ==> final(visited)@[i] == (old(visited)@[i] || reaches(
                views(records@),
                marked(views(records@), old(visited)@),
                parent_id@,
                (#[trigger] views(records@)[i]).id,
            )),
        grows(old(visited)@, final(visited)@),
        consistent(views(records@), final(visited)@),
        children_kept(views(records@), final(visited)@, parent_id@),
        closed_over(views(records@), old(visited)@, final(visited)@),
        grown_from(views(records@), old(visited)@, final(visited)@, parent_id@),
    decreases count_unset(old(visited)@),
{
    let ghost rs = views(records@);
    let ghost base = visited@;
    let ghost kept = included@;
    let mut k: usize = 0;
    while k < records.len()
        invariant
            rs == views(records@),
            base == old(visited)@,
            kept == old(included)@,
            base.len() == records.len(),
            included.len() == records.len(),
            forall|i: int|
                0 <= i < records.len() ==> included@[i] == (kept[i] || (visited@[i] && !base[i])),
            k <= records.len(),
            grows(base, visited@),
            consistent(rs, base),
            consistent(rs, visited@),
            forall|c: int|
                0 <= c < k && (#[trigger] rs[c]).parent == Some(parent_id@) ==> visited@[c],
            closed_over(rs, base, visited@),
            grown_from(rs, base, visited@, parent_id@),
        decreases records.len() - k,
    {
        let item = &records[k];
        assert(rs[k as int] == item@);
        let is_child_here = match &item.parent {
            Some(p) => *p == *parent_id,
            None => false,
        };
        assert(is_child_here == (rs[k as int].parent == Some(parent_id@)));
        if is_child_here && !visited[k] {
            let ghost before = visited@;
            let ghost kept_before = included@;
            mark_id(records, visited, &item.id);
            mark_id(records, included, &item.id);
            let ghost mid = visited@;
            let ghost kept_mid = included@;
            proof {
                assert forall|i: int| 0 <= i < records.len() implies kept_mid[i] == (kept[i] || (
                mid[i] && !base[i])) by {
                    if records@[i].id@ == item.id@ {
                        assert(rs[i].id == rs[k as int].id);
                        assert(before[i] == before[k as int]);
                    }
                }
                assert(!before[k as int] && mid[k as int]);
                lemma_count_unset_monotone(base, before);
                lemma_count_unset_monotone(before, mid);
                assert(consistent(rs, mid)) by {
                    assert forall|i: int, j: int|
                        0 <= i < rs.len() && 0 <= j < rs.len() && (#[trigger] rs[i]).id == (
                        #[trigger] rs[j]).id implies mid[i] == mid[j] by {
                        assert(before[i] == before[j]);
                    }
                }
            }
            add_all_descendants(&item.id, records, included, visited);
            proof {
                let fin = visited@;
                assert forall|i: int| 0 <= i < records.len() implies included@[i] == (kept[i] || (
                fin[i] && !base[i])) by {
                    assert(kept_mid[i] == (kept[i] || (mid[i] && !base[i])));
                    if base[i] {
                        assert(before[i]);
                        assert(mid[i]);
                    }
                }
                let child = item.id@;
                assert(is_child(rs, parent_id@, child)) by {
                    assert(rs[k as int].id == child && rs[k as int].parent == Some(parent_id@));
                }
                assert(!marked(rs, base).contains(child)) by {
                    if is_marked(rs, base, child) {
                        let w = choose|i: int|
                            0 <= i < rs.len() && flag(base, i) && (#[trigger] rs[i]).id == child;
                        assert(before[w]);
                        assert(rs[w].id == rs[k as int].id);
                    }
                }
                assert(marked(rs, base).subset_of(marked(rs, mid))) by {
                    assert forall|id: Seq<char>| marked(rs, base).contains(id) implies marked(
                        rs,
                        mid,
                    ).contains(id) by {
                        let w = choose|i: int|
                            0 <= i < rs.len() && flag(base, i) && (#[trigger] rs[i]).id == id;
                        assert(flag(mid, w));
                    }
                }
                assert forall|i: int| 0 <= i < rs.len() && fin[i] && !base[i] implies reaches(
                    rs,
                    marked(rs, base),
                    parent_id@,
                    (#[trigger] rs[i]).id,
                ) by {
                    if before[i] {
                    } else if mid[i] {
                        assert(rs[i].id == child);
                        lemma_descent_step(rs, marked(rs, base), parent_id@, child);
                    } else {
                        assert(reaches(rs, marked(rs, mid), child, rs[i].id));
                        lemma_descent_prepend(
                            rs,
                            marked(rs, base),
                            marked(rs, mid),
                            parent_id@,
                            child,
                            rs[i].id,
                        );
                    }
                }
                assert forall|i: int| 0 <= i < rs.len() && fin[i] && !base[i] implies children_kept(
                    rs,
                    fin,
                    (#[trigger] rs[i]).id,
                ) by {
                    if before[i] {
                        assert(children_kept(rs, before, rs[i].id));
                        assert forall|c: int|
                            0 <= c < rs.len() && (#[trigger] rs[c]).parent == Some(
                                rs[i].id,
                            ) implies fin[c] by {
                            assert(before[c]);
                            assert(mid[c]);
                        }
                    } else if mid[i] {
                        assert(rs[i].id == child);
                    } else {
                    }
                }
                assert forall|c: int|
                    0 <= c < k + 1 && (#[trigger] rs[c]).parent == Some(
                        parent_id@,
                    ) implies fin[c] by {
                    if c < k {
                        assert(before[c]);
                        assert(mid[c]);
                    } else {
                        assert(mid[c]);
                    }
                }
                assert(grows(base, fin)) by {
                    assert forall|i: int| 0 <= i < base.len() && base[i] implies fin[i] by {
                        assert(before[i]);
                        assert(mid[i]);
                    }
                }
            }
        }
        k += 1;
    }
    proof {
        let fin = visited@;
        assert(children_kept(rs, fin, parent_id@));
        assert forall|i: int| 0 <= i < records.len() implies fin[i] == (base[i] || reaches(
            rs,
            marked(rs, base),
            parent_id@,
            (#[trigger] rs[i]).id,
        )) by {
            if !base[i] && reaches(rs, marked(rs, base), parent_id@, rs[i].id) {
                let path = choose|path: Seq<Seq<char>>| #[trigger]
                    is_descent(rs, marked(rs, base), path) && path[0] == parent_id@ && path.last()
                        == rs[i].id;
                let a = lemma_descent_kept(rs, base, fin, path, path.len() - 1);
                assert(rs[a].id == rs[i].id);
            }
        }
    }
}

/// Some record before `n` with its flag set reaches `id` by a descent that avoids
/// `blocked`.
pub open spec fn reached_before(
    rs: Seq<RecordView>,
    flags: Seq<bool>,
    blocked: Set<Seq<char>>,
    n: int,
    id: Seq<char>,
) -> bool {
    exists|i: int|
        0 <= i < n && i < rs.len() && flag(flags, i) && reaches(
            rs,
            blocked,
            (#[trigger] rs[i]).id,
            id,
        )
}

/// Adds to `included` what descends from the matched records: every record that a
/// chain of parent-to-child steps reaches from one of them.
pub fn add_descendants_of_matches(
    records: &Vec<Record>,
    matched: &Vec<bool>,
    included: &mut Vec<bool>,
)
    requires
        old(included).len() == records.len(),
    ensures
        final(included).len() == records.len(),
        forall|x: int|
            0 <= x < records.len() ==> final(included)@[x] == (old(included)@[x] || below_match(
                views(records@),
                matched@,
                (#[trigger] views(records@)[x]).id,
            )),
{
    let ghost rs = views(records@);
    let ghost kept = included@;
    let n = records.len();
    let mut visited = unset_flags(n);
    let ghost base = visited@;
    let mut i: usize = 0;
    while i < n
        invariant
            rs == views(records@),
            n == records.len(),
            i <= n,
            base.len() == n,
            kept == old(included)@,
            included.len() == n,
            forall|x: int| 0 <= x < n ==> !base[x],
            forall|x: int| 0 <= x < n ==> included@[x] == (kept[x] || visited@[x]),
            grows(base, visited@),
            consistent(rs, base),
            consistent(rs, visited@),
            closed_over(rs, base, visited@),
            forall|w: int|
                0 <= w < i && flag(matched@, w) ==> children_kept(
                    rs,
                    visited@,
                    (#[trigger] rs[w]).id,
                ),
            forall|x: int|
                0 <= x < n && visited@[x] && !base[x] ==> reached_before(
                    rs,
                    matched@,
                    marked(rs, base),
                    i as int,
                    (#[trigger] rs[x]).id,
                ),
        decreases n - i,
    {
        let ghost before = visited@;
        if i < matched.len() && matched[i] {
            add_all_descendants(&records[i].id, records, included, &mut visited);
            proof {
                assert(rs[i as int].id == records@[i as int].id@);
                assert(marked(rs, base).subset_of(marked(rs, before))) by {
                    assert forall|id: Seq<char>| marked(rs, base).contains(id) implies marked(
                        rs,
                        before,
                    ).contains(id) by {
                        let w = choose|w: int|
                            0 <= w < rs.len() && flag(base, w) && (#[trigger] rs[w]).id == id;
                        assert(flag(before, w));
                    }
                }
                assert forall|x: int| 0 <= x < n && visited@[x] && !base[x] implies reached_before(
                    rs,
                    matched@,
                    marked(rs, base),
                    i + 1,
                    (#[trigger] rs[x]).id,
                ) by {
                    if before[x] {
                        let w = choose|w: int|
                            0 <= w < i && w < rs.len() && flag(matched@, w) && reaches(
                                rs,
                                marked(rs, base),
                                (#[trigger] rs[w]).id,
                                rs[x].id,
                            );
                        assert(w < i + 1);
                    } else {
                        lemma_descent_narrow(
                            rs,
                            marked(rs, base),
                            marked(rs, before),
                            rs[i as int].id,
                            rs[x].id,
                        );
                    }
                }
                assert forall|x: int| 0 <= x < n && visited@[x] && !base[x] implies children_kept(
                    rs,
                    visited@,
                    (#[trigger] rs[x]).id,
                ) by {
                    if before[x] {
                        assert(children_kept(rs, before, rs[x].id));
                    }
                }
                assert forall|w: int| 0 <= w < i + 1 && flag(matched@, w) implies children_kept(
                    rs,
                    visited@,
                    (#[trigger] rs[w]).id,
                ) by {
                    if w < i {
                        assert(children_kept(rs, before, rs[w].id));
                    }
                }
            }
        } else {
            proof {
                assert forall|x: int| 0 <= x < n && visited@[x] && !base[x] implies reached_before(
                    rs,
                    matched@,
                    marked(rs, base),
                    i + 1,
                    (#[trigger] rs[x]).id,
                ) by {
                    let w = choose|w: int|
                        0 <= w < i && w < rs.len() && flag(matched@, w) && reaches(
                            rs,
                            marked(rs, base),
                            (#[trigger] rs[w]).id,
                            rs[x].id,
                        );
                    assert(w < i + 1);
                }
            }
        }
        i += 1;
    }
    proof {
        lemma_descents_exact(rs, matched@, base, visited@);
    }
}


/// Flags that start unset and are grown by descents from every match until they are
/// closed are set exactly on the records below a match.
pub proof fn lemma_descents_exact(
    rs: Seq<RecordView>,
    matched: Seq<bool>,
    base: Seq<bool>,
    fin: Seq<bool>,
)
    requires
        base.len() == rs.len(),
        forall|x: int| 0 <= x < rs.len() ==> !base[x],
        grows(base, fin),
        consistent(rs, fin),
        closed_over(rs, base, fin),
        forall|w: int|
            0 <= w < rs.len() && flag(matched, w) ==> children_kept(rs, fin, (#[trigger] rs[w]).id),
        forall|x: int|
            0 <= x < rs.len() && fin[x] && !base[x] ==> reached_before(
                rs,
                matched,
                marked(rs, base),
                rs.len() as int,
                (#[trigger] rs[x]).id,
            ),
    ensures
        forall|x: int|
            0 <= x < rs.len() ==> fin[x] == below_match(rs, matched, (#[trigger] rs[x]).id),
{
    let none = Set::<Seq<char>>::empty();
    assert(marked(rs, base) =~= none);
    assert forall|x: int| 0 <= x < rs.len() implies fin[x] == below_match(
        rs,
        matched,
        (#[trigger] rs[x]).id,
    ) by {
        if fin[x] {
            let w = choose|w: int|
                0 <= w < rs.len() && w < rs.len() && flag(matched, w) && reaches(
                    rs,
                    none,
                    (#[trigger] rs[w]).id,
                    rs[x].id,
                );
            assert(is_marked(rs, matched, rs[w].id));
        }
        if below_match(rs, matched, rs[x].id) {
            let m = choose|m: Seq<char>| #[trigger]
                is_marked(rs, matched, m) && reaches(rs, none, m, rs[x].id);
            let w = choose|w: int|
                0 <= w < rs.len() && flag(matched, w) && (#[trigger] rs[w]).id == m;
            let path = choose|path: Seq<Seq<char>>| #[trigger]
                is_descent(rs, none, path) && path[0] == m && path.last() == rs[x].id;
            assert(children_kept(rs, fin, rs[w].id));
            let a = lemma_descent_kept(rs, base, fin, path, path.len() - 1);
            assert(rs[a].id == rs[x].id);
        }
    }
}

} // verus!
