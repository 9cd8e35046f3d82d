//! The filter: the records a query selects, together with the context around them.
//!
//! A query selects the records that match it. Around them the filter keeps every
//! ancestor of a match and every descendant of a match.

use vstd::prelude::*;
use crate::ancestors::add_ancestors_of_matches;
use crate::descendants::add_descendants_of_matches;
use crate::flags::mark_matches;
use crate::matching::{matches_all_fields, record_matches};
use crate::record::{views, Record, RecordView};
use crate::text::{lowercase, to_lowercase};

verus! {

/// The index of the last record that carries `id`.
pub open spec fn last_with_id(rs: Seq<RecordView>, id: Seq<char>) -> Option<int>
    decreases rs.len(),
{
    if rs.len() == 0 {
        None
    } else if rs.last().id == id {
        Some(rs.len() - 1)
    } else {
        last_with_id(rs.drop_last(), id)
    }
}

/// The parent that the records give to `id`: that of the last record that carries it.
pub open spec fn parent_of(rs: Seq<RecordView>, id: Seq<char>) -> Option<Seq<char>> {
    match last_with_id(rs, id) {
        Some(i) => rs[i].parent,
        None => None,
    }
}

/// The identifier reached from `id` by following parent links `n` times.
pub open spec fn nth_ancestor(rs: Seq<RecordView>, id: Seq<char>, n: nat) -> Option<Seq<char>>
    decreases n,
{
    if n == 0 {
        Some(id)
    } else {
        match nth_ancestor(rs, id, (n - 1) as nat) {
            Some(a) => parent_of(rs, a),
            None => None,
        }
    }
}

/// `a` is reached from `id` by following one or more parent links.
pub open spec fn is_ancestor(rs: Seq<RecordView>, a: Seq<char>, id: Seq<char>) -> bool {
    exists|n: nat| n >= 1 && nth_ancestor(rs, id, n) == Some(a)
}

/// Some record names `p` as its parent and carries `c`.
pub open spec fn is_child(rs: Seq<RecordView>, p: Seq<char>, c: Seq<char>) -> bool {
    exists|i: int| 0 <= i < rs.len() && (#[trigger] rs[i]).id == c && rs[i].parent == Some(p)
}

/// The flag at `i`, where a missing flag counts as unset.
pub open spec fn flag(flags: Seq<bool>, i: int) -> bool {
    0 <= i < flags.len() && flags[i]
}

/// Some record that carries `id` has its flag set.
pub open spec fn is_marked(rs: Seq<RecordView>, flags: Seq<bool>, id: Seq<char>) -> bool {
    exists|i: int| 0 <= i < rs.len() && flag(flags, i) && (#[trigger] rs[i]).id == id
}

/// The identifiers of the records whose flag is set.
pub open spec fn marked(rs: Seq<RecordView>, flags: Seq<bool>) -> Set<Seq<char>> {
    Set::new(|id: Seq<char>| is_marked(rs, flags, id))
}

/// `path` descends from parent to child at every step, and none of its members after
/// the first is in `blocked`.
pub open spec fn is_descent(
    rs: Seq<RecordView>,
    blocked: Set<Seq<char>>,
    path: Seq<Seq<char>>,
) -> bool {
    &&& path.len() >= 2
    &&& forall|k: int|
        0 <= k < path.len() - 1 ==> is_child(rs, #[trigger] path[k], path[k + 1])
            && !blocked.contains(path[k + 1])
}

/// A descent that avoids `blocked` leads from `from` to `to`.
pub open spec fn reaches(
    rs: Seq<RecordView>,
    blocked: Set<Seq<char>>,
    from: Seq<char>,
    to: Seq<char>,
) -> bool {
    exists|path: Seq<Seq<char>>| #[trigger]
        is_descent(rs, blocked, path) && path[0] == from && path.last() == to
}

/// `id` is an ancestor of a matched identifier.
pub open spec fn above_match(rs: Seq<RecordView>, matched: Seq<bool>, id: Seq<char>) -> bool {
    exists|m: Seq<char>| #[trigger] is_marked(rs, matched, m) && is_ancestor(rs, id, m)
}

/// `id` is that of a matched record or of an ancestor of one.
pub open spec fn is_seed(rs: Seq<RecordView>, matched: Seq<bool>, id: Seq<char>) -> bool {
    is_marked(rs, matched, id) || exists|m: Seq<char>| #[trigger]
        is_marked(rs, matched, m) && is_ancestor(rs, id, m)
}

/// `id` descends from a matched identifier: a chain of parent-to-child steps leads
/// from a matched identifier to it.
pub open spec fn below_match(rs: Seq<RecordView>, matched: Seq<bool>, id: Seq<char>) -> bool {
    exists|m: Seq<char>| #[trigger] is_marked(rs, matched, m) && reaches(rs, Set::empty(), m, id)
}

/// `id` is kept: it is matched, or an ancestor of a match, or a descendant of a match.
pub open spec fn in_context(rs: Seq<RecordView>, matched: Seq<bool>, id: Seq<char>) -> bool {
    is_seed(rs, matched, id) || below_match(rs, matched, id)
}

/// For each record, whether it matches the lowercase query `q`.
pub open spec fn flags_of(rs: Seq<RecordView>, q: Seq<char>) -> Seq<bool> {
    Seq::new(rs.len(), |i: int| record_matches(rs[i], q))
}

/// For each record, whether its identifier is in context.
pub open spec fn context_flags(rs: Seq<RecordView>, matched: Seq<bool>) -> Seq<bool> {
    Seq::new(rs.len(), |i: int| in_context(rs, matched, rs[i].id))
}

/// The records whose flag is set, in their order.
pub open spec fn selected(rs: Seq<RecordView>, keep: Seq<bool>) -> Seq<RecordView>
    decreases rs.len(),
{
    if rs.len() == 0 {
        Seq::empty()
    } else if flag(keep, rs.len() - 1) {
        selected(rs.drop_last(), keep).push(rs.last())
    } else {
        selected(rs.drop_last(), keep)
    }
}

/// What the filter returns: with the empty query the records as they are, else the
/// records in context of those that match the query in lowercase.
pub open spec fn filtered(rs: Seq<RecordView>, query: Seq<char>) -> Seq<RecordView> {
    if query.len() == 0 {
        rs
    } else {
        selected(rs, context_flags(rs, flags_of(rs, lowercase(query))))
    }
}

/// For each record, whether it matches the lowercase query.
pub fn match_flags(records: &Vec<Record>, filter_lower: &str) -> (matched: Vec<bool>)
    ensures
        matched@ == flags_of(views(records@), filter_lower@),
{
    let mut matched: Vec<bool> = Vec::new();
    let mut i: usize = 0;
    while i < records.len()
        invariant
            i <= records.len(),
            matched.len() == i,
            forall|k: int| 0 <= k < i ==> matched@[k] == record_matches(records@[k]@, filter_lower@),
        decreases records.len() - i,
    {
        matched.push(matches_all_fields(&records[i], filter_lower));
        i += 1;
    }
    assert(matched@ =~= flags_of(views(records@), filter_lower@));
    matched
}

/// The flags of the records that are kept when those flagged in `matched` match: a
/// record is kept exactly when its identifier is in context.
pub fn include_context(records: &Vec<Record>, matched: &Vec<bool>) -> (included: Vec<bool>)
    ensures
        included.len() == records.len(),
        forall|i: int|
            0 <= i < records.len() ==> included@[i] == in_context(
                views(records@),
                matched@,
                records@[i].id@,
            ),
{
    let ghost rs = views(records@);
    let mut included = mark_matches(records, matched);
    add_ancestors_of_matches(records, matched, &mut included);
    add_descendants_of_matches(records, matched, &mut included);
    proof {
        assert forall|i: int| 0 <= i < records.len() implies included@[i] == in_context(
            rs,
            matched@,
            records@[i].id@,
        ) by {
            assert(rs[i].id == records@[i].id@);
        }
    }
    included
}

/// Copies of the records whose flag is set, in their order.
pub fn select_records(records: &Vec<Record>, keep: &Vec<bool>) -> (out: Vec<Record>)
    ensures
        views(out@) == selected(views(records@), keep@),
{
    let ghost rs = views(records@);
    let mut out: Vec<Record> = Vec::new();
    let mut i: usize = 0;
    assert(views(out@) =~= selected(rs.take(0), keep@));
    while i < records.len()
        invariant
            rs == views(records@),
            i <= records.len(),
            views(out@) == selected(rs.take(i as int), keep@),
        decreases records.len() - i,
    {
        proof {
            assert(rs.take(i + 1).drop_last() =~= rs.take(i as int));
            assert(rs.take(i + 1).last() == records@[i as int]@);
        }
        let ghost before = out@;
        if i < keep.len() && keep[i] {
            out.push(records[i].duplicate());
            assert(views(out@) =~= views(before).push(records@[i as int]@));
        }
        i += 1;
    }
    assert(rs.take(records.len() as int) =~= rs);
    out
}

/// Copies of all the records, in their order.
pub fn duplicate_all(records: &Vec<Record>) -> (out: Vec<Record>)
    ensures
        views(out@) == views(records@),
{
    let mut out: Vec<Record> = Vec::new();
    let mut i: usize = 0;
    while i < records.len()
        invariant
            i <= records.len(),
            out.len() == i,
            forall|k: int| 0 <= k < i ==> out@[k]@ == records@[k]@,
        decreases records.len() - i,
    {
        out.push(records[i].duplicate());
        i += 1;
    }
    assert(views(out@) =~= views(records@));
    out
}

/// The filter: the records that `query` selects together with their context, in the
/// order of `records`. The empty query keeps every record.
pub fn filter_records(records: &Vec<Record>, query: &str) -> (out: Vec<Record>)
    ensures
        views(out@) == filtered(views(records@), query@),
        query@.len() == 0 ==> views(out@) == views(records@),
{
    if query.unicode_len() == 0 {
        return duplicate_all(records);
    }
    let filter_lower = to_lowercase(query);
    let matched = match_flags(records, filter_lower.as_str());
    let included = include_context(records, &matched);
    assert(included@ =~= context_flags(views(records@), matched@)) by {
        assert forall|i: int| 0 <= i < records.len() implies included@[i] == context_flags(
            views(records@),
            matched@,
        )[i] by {
            assert(views(records@)[i].id == records@[i].id@);
        }
    }
    select_records(records, &included)
}

} // verus!
