//! What holds of every filter result.

use vstd::prelude::*;
use crate::descendants::lemma_descent_step;
use crate::filter::{
    above_match, below_match, context_flags, filtered, flag, flags_of, in_context, is_ancestor,
    is_child, is_descent, is_marked, is_seed, last_with_id, nth_ancestor, parent_of, reaches,
    selected,
};
use crate::flags::lemma_last_with_id;
use crate::matching::record_matches;
use crate::record::{unique_ids, RecordView};
use crate::text::lowercase;

verus! {

/// `d` descends from `a`: a chain of parent-to-child steps leads from `a` to `d`.
pub open spec fn is_descendant(rs: Seq<RecordView>, d: Seq<char>, a: Seq<char>) -> bool {
    reaches(rs, Set::empty(), a, d)
}

/// Every selected record is one of the records, with its flag set.
pub proof fn lemma_selected_member(rs: Seq<RecordView>, keep: Seq<bool>, k: int) -> (i: int)
    requires
        0 <= k < selected(rs, keep).len(),
    ensures
        0 <= i < rs.len(),
        flag(keep, i),
        rs[i] == selected(rs, keep)[k],
    decreases rs.len(),
{
    if flag(keep, rs.len() - 1) && k == selected(rs.drop_last(), keep).len() {
        rs.len() - 1
    } else {
        lemma_selected_member(rs.drop_last(), keep, k)
    }
}

/// Every record whose flag is set is selected.
pub proof fn lemma_selected_holds(rs: Seq<RecordView>, keep: Seq<bool>, i: int) -> (k: int)
    requires
        0 <= i < rs.len(),
        flag(keep, i),
    ensures
        0 <= k < selected(rs, keep).len(),
        selected(rs, keep)[k] == rs[i],
    decreases rs.len(),
{
    if i == rs.len() - 1 {
        selected(rs.drop_last(), keep).len() as int
    } else {
        lemma_selected_holds(rs.drop_last(), keep, i)
    }
}

/// Every record that a query keeps is one of the records, and it carries the
/// identifier of a record that matches the query, or of an ancestor of one, or of a
/// descendant of one. The empty query matches every record.
pub proof fn lemma_filter_members(rs: Seq<RecordView>, query: Seq<char>, k: int)
    requires
        0 <= k < filtered(rs, query).len(),
    ensures
        ({
            let r = filtered(rs, query)[k];
            let matched = flags_of(rs, lowercase(query));
            &&& rs.contains(r)
            &&& query.len() == 0 || is_marked(rs, matched, r.id) || above_match(
                rs,
                matched,
                r.id,
            ) || exists|m: Seq<char>| #[trigger]
                is_marked(rs, matched, m) && is_descendant(rs, r.id, m)
        }),
{
    if query.len() > 0 {
        let matched = flags_of(rs, lowercase(query));
        let keep = context_flags(rs, matched);
        let i = lemma_selected_member(rs, keep, k);
        let r = rs[i];
        assert(in_context(rs, matched, r.id));
        if !is_seed(rs, matched, r.id) {
            let m = choose|m: Seq<char>| #[trigger]
                is_marked(rs, matched, m) && reaches(rs, Set::empty(), m, r.id);
            assert(is_descendant(rs, r.id, m));
        }
    }
}

/// With unique identifiers, a record that carries a matched identifier matches.
pub proof fn lemma_marked_matches(rs: Seq<RecordView>, q: Seq<char>, i: int)
    requires
        unique_ids(rs),
        0 <= i < rs.len(),
        is_marked(rs, flags_of(rs, q), rs[i].id),
    ensures
        record_matches(rs[i], q),
{
    let w = choose|w: int|
        0 <= w < rs.len() && flag(flags_of(rs, q), w) && (#[trigger] rs[w]).id == rs[i].id;
    assert(w == i);
}

/// A record is kept by a non-empty query exactly when its identifier is in context of
/// the records that match.
pub proof fn lemma_filter_keeps(rs: Seq<RecordView>, query: Seq<char>, i: int)
    requires
        query.len() > 0,
        0 <= i < rs.len(),
    ensures
        filtered(rs, query).contains(rs[i]) == in_context(
            rs,
            flags_of(rs, lowercase(query)),
            rs[i].id,
        ),
{
    let matched = flags_of(rs, lowercase(query));
    let keep = context_flags(rs, matched);
    if in_context(rs, matched, rs[i].id) {
        lemma_selected_holds(rs, keep, i);
    }
    if filtered(rs, query).contains(rs[i]) {
        let k = choose|k: int| 0 <= k < filtered(rs, query).len() && filtered(rs, query)[k] == rs[i];
        let w = lemma_selected_member(rs, keep, k);
        assert(rs[w].id == rs[i].id);
    }
}

/// With unique identifiers, the parent of a child is the one its record names.
pub proof fn lemma_parent_of_child(rs: Seq<RecordView>, p: Seq<char>, c: Seq<char>)
    requires
        unique_ids(rs),
        is_child(rs, p, c),
    ensures
        parent_of(rs, c) == Some(p),
{
    let i = choose|i: int|
        0 <= i < rs.len() && (#[trigger] rs[i]).id == c && rs[i].parent == Some(p);
    lemma_last_with_id(rs, c);
    let l = last_with_id(rs, c)->0;
    assert(rs[l].id == rs[i].id);
}

/// With unique identifiers, the parent of an identifier in context is in context.
pub proof fn lemma_parent_kept(
    rs: Seq<RecordView>,
    matched: Seq<bool>,
    id: Seq<char>,
    p: Seq<char>,
)
    requires
        unique_ids(rs),
        in_context(rs, matched, id),
        parent_of(rs, id) == Some(p),
    ensures
        in_context(rs, matched, p),
{
    if is_marked(rs, matched, id) {
        assert(nth_ancestor(rs, id, 1) == Some(p)) by {
            assert(nth_ancestor(rs, id, 0) == Some(id));
        }
        assert(is_ancestor(rs, p, id));
    } else if above_match(rs, matched, id) {
        let m = choose|m: Seq<char>| #[trigger]
            is_marked(rs, matched, m) && is_ancestor(rs, id, m);
        let n = choose|n: nat| n >= 1 && nth_ancestor(rs, m, n) == Some(id);
        assert(nth_ancestor(rs, m, n + 1) == Some(p)) by {
            assert((n + 1 - 1) as nat == n);
        }
        assert(is_ancestor(rs, p, m));
    } else {
        let m = choose|m: Seq<char>| #[trigger]
            is_marked(rs, matched, m) && reaches(rs, Set::empty(), m, id);
        let path = choose|path: Seq<Seq<char>>| #[trigger]
            is_descent(rs, Set::empty(), path) && path[0] == m && path.last() == id;
        let l = path.len() - 1;
        assert(is_child(rs, path[l - 1], path[l - 1 + 1]));
        lemma_parent_of_child(rs, path[l - 1], id);
        if l > 1 {
            let front = path.drop_last();
            assert forall|k: int| 0 <= k < front.len() - 1 implies is_child(
                rs,
                #[trigger] front[k],
                front[k + 1],
            ) && !Set::<Seq<char>>::empty().contains(front[k + 1]) by {
                assert(front[k] == path[k]);
                assert(front[k + 1] == path[k + 1]);
            }
            assert(is_descent(rs, Set::empty(), front));
            assert(front[0] == m && front.last() == p);
            assert(reaches(rs, Set::empty(), m, p));
        }
    }
}

/// Ancestor closure: with unique identifiers, whatever is reached by following parent
/// links from an identifier in context is in context too.
pub proof fn lemma_ancestors_kept(
    rs: Seq<RecordView>,
    matched: Seq<bool>,
    id: Seq<char>,
    n: nat,
)
    requires
        unique_ids(rs),
        in_context(rs, matched, id),
        nth_ancestor(rs, id, n) is Some,
    ensures
        in_context(rs, matched, nth_ancestor(rs, id, n)->0),
    decreases n,
{
    if n > 0 {
        lemma_ancestors_kept(rs, matched, id, (n - 1) as nat);
        lemma_parent_kept(
            rs,
            matched,
            nth_ancestor(rs, id, (n - 1) as nat)->0,
            nth_ancestor(rs, id, n)->0,
        );
    }
}

/// One descent put behind another is a descent.
pub proof fn lemma_descent_join(rs: Seq<RecordView>, a: Seq<char>, b: Seq<char>, c: Seq<char>)
    requires
        reaches(rs, Set::empty(), a, b),
        reaches(rs, Set::empty(), b, c),
    ensures
        reaches(rs, Set::empty(), a, c),
{
    let none = Set::<Seq<char>>::empty();
    let first = choose|path: Seq<Seq<char>>| #[trigger]
        is_descent(rs, none, path) && path[0] == a && path.last() == b;
    let second = choose|path: Seq<Seq<char>>| #[trigger]
        is_descent(rs, none, path) && path[0] == b && path.last() == c;
    let path = first + second.drop_first();
    assert forall|k: int| 0 <= k < path.len() - 1 implies is_child(
        rs,
        #[trigger] path[k],
        path[k + 1],
    ) && !none.contains(path[k + 1]) by {
        if k < first.len() - 1 {
            assert(path[k] == first[k] && path[k + 1] == first[k + 1]);
        } else {
            let x = k - (first.len() - 1);
            assert(path[k] == second[x]);
            assert(path[k + 1] == second[x + 1]);
            assert(is_child(rs, second[x], second[x + 1]));
        }
    }
    assert(is_descent(rs, none, path));
    assert(path[0] == a && path.last() == c);
}

/// A child of a match, or of a descendant of a match, is in context.
pub proof fn lemma_child_kept(rs: Seq<RecordView>, matched: Seq<bool>, p: Seq<char>, c: Seq<char>)
    requires
        is_marked(rs, matched, p) || below_match(rs, matched, p),
        is_child(rs, p, c),
    ensures
        below_match(rs, matched, c),
        in_context(rs, matched, c),
{
    lemma_descent_step(rs, Set::empty(), p, c);
    if !is_marked(rs, matched, p) {
        let m = choose|m: Seq<char>| #[trigger]
            is_marked(rs, matched, m) && reaches(rs, Set::empty(), m, p);
        lemma_descent_join(rs, m, p, c);
        assert(is_marked(rs, matched, m) && reaches(rs, Set::empty(), m, c));
    } else {
        assert(is_marked(rs, matched, p) && reaches(rs, Set::empty(), p, c));
    }
}

/// Descendant closure: whatever descends from a match, or from a descendant of a
/// match, is in context, however many matches and ancestors of matches the descent
/// passes.
pub proof fn lemma_descendants_kept(
    rs: Seq<RecordView>,
    matched: Seq<bool>,
    path: Seq<Seq<char>>,
)
    requires
        is_descent(rs, Set::empty(), path),
        is_marked(rs, matched, path[0]) || below_match(rs, matched, path[0]),
    ensures
        below_match(rs, matched, path.last()),
        in_context(rs, matched, path.last()),
{
    assert(reaches(rs, Set::empty(), path[0], path.last()));
    if !is_marked(rs, matched, path[0]) {
        let m = choose|m: Seq<char>| #[trigger]
            is_marked(rs, matched, m) && reaches(rs, Set::empty(), m, path[0]);
        lemma_descent_join(rs, m, path[0], path.last());
        assert(is_marked(rs, matched, m) && reaches(rs, Set::empty(), m, path.last()));
    } else {
        assert(is_marked(rs, matched, path[0]) && reaches(rs, Set::empty(), path[0], path.last()));
    }
}

/// The empty query keeps the records as they are.
pub proof fn lemma_filter_identity(rs: Seq<RecordView>)
    ensures
        filtered(rs, Seq::empty()) == rs,
{
}

} // verus!
