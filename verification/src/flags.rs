//! One flag for each record: the sets of records that the filter works on.

use vstd::prelude::*;
use crate::filter::{flag, is_marked, last_with_id};
use crate::record::{views, Record, RecordView};

verus! {

/// Records that carry the same identifier have the same flag.
pub open spec fn consistent(rs: Seq<RecordView>, flags: Seq<bool>) -> bool {
    forall|i: int, j: int|
        0 <= i < rs.len() && 0 <= j < rs.len() && (#[trigger] rs[i]).id == (#[trigger] rs[j]).id
            ==> flags[i] == flags[j]
}

/// Every flag set in `a` is set in `b`.
pub open spec fn grows(a: Seq<bool>, b: Seq<bool>) -> bool {
    a.len() == b.len() && forall|i: int| 0 <= i < a.len() && a[i] ==> b[i]
}

/// The number of unset flags.
pub open spec fn count_unset(flags: Seq<bool>) -> nat
    decreases flags.len(),
{
    if flags.len() == 0 {
        0
    } else {
        count_unset(flags.drop_last()) + if flags.last() {
            0nat
        } else {
            1nat
        }
    }
}

/// Setting flags never raises the number of unset ones, and setting one that was
/// unset lowers it.
pub proof fn lemma_count_unset_monotone(a: Seq<bool>, b: Seq<bool>)
    requires
        a.len() == b.len(),
        forall|i: int| 0 <= i < a.len() && a[i] ==> b[i],
    ensures
        count_unset(b) <= count_unset(a),
        (exists|k: int| 0 <= k < a.len() && !a[k] && b[k]) ==> count_unset(b) < count_unset(a),
    decreases a.len(),
{
    if a.len() > 0 {
        lemma_count_unset_monotone(a.drop_last(), b.drop_last());
        if exists|k: int| 0 <= k < a.len() && !a[k] && b[k] {
            let k = choose|k: int| 0 <= k < a.len() && !a[k] && b[k];
            if k < a.len() - 1 {
                assert(!a.drop_last()[k] && b.drop_last()[k]);
            }
        }
    }
}

/// A list of `n` unset flags.
pub fn unset_flags(n: usize) -> (flags: Vec<bool>)
    ensures
        flags.len() == n,
        forall|i: int| 0 <= i < n ==> !flags@[i],
{
    let mut flags: Vec<bool> = Vec::new();
    let mut i: usize = 0;
    while i < n
        invariant
            i <= n,
            flags.len() == i,
            forall|k: int| 0 <= k < i ==> !flags@[k],
        decreases n - i,
    {
        flags.push(false);
        i += 1;
    }
    flags
}

/// What `last_with_id` finds is the last record with that identifier, and it finds
/// none only where no record carries it.
pub proof fn lemma_last_with_id(rs: Seq<RecordView>, id: Seq<char>)
    ensures
        match last_with_id(rs, id) {
            Some(i) => 0 <= i < rs.len() && rs[i].id == id && forall|j: int|
                i < j < rs.len() ==> (#[trigger] rs[j]).id != id,
            None => forall|j: int| 0 <= j < rs.len() ==> (#[trigger] rs[j]).id != id,
        },
    decreases rs.len(),
{
    if rs.len() > 0 && rs.last().id != id {
        lemma_last_with_id(rs.drop_last(), id);
        match last_with_id(rs, id) {
            Some(i) => {
                assert forall|j: int| i < j < rs.len() implies (#[trigger] rs[j]).id != id by {
                    if j < rs.len() - 1 {
                        assert(rs.drop_last()[j] == rs[j]);
                    }
                }
            },
            None => {
                assert forall|j: int| 0 <= j < rs.len() implies (#[trigger] rs[j]).id != id by {
                    if j < rs.len() - 1 {
                        assert(rs.drop_last()[j] == rs[j]);
                    }
                }
            },
        }
    }
}

/// The index of the last record that carries `id`, if any does.
pub fn find_last(records: &Vec<Record>, id: &String) -> (r: Option<usize>)
    ensures
        match r {
            Some(i) => last_with_id(views(records@), id@) == Some(i as int),
            None => last_with_id(views(records@), id@) is None,
        },
{
    let ghost rs = views(records@);
    let mut k: usize = records.len();
    assert(rs.take(k as int) =~= rs);
    while k > 0
        invariant
            k <= records.len(),
            rs == views(records@),
            last_with_id(rs, id@) == last_with_id(rs.take(k as int), id@),
        decreases k,
    {
        proof {
            assert(rs.take(k as int).drop_last() =~= rs.take(k - 1));
            assert(rs.take(k as int).last() == records@[k - 1]@);
        }
        if records[k - 1].id == *id {
            return Some(k - 1);
        }
        k -= 1;
    }
    None
}

/// Sets the flag of every record that carries `id`.
pub fn mark_id(records: &Vec<Record>, flags: &mut Vec<bool>, id: &String)
    requires
        old(flags).len() == records.len(),
    ensures
        final(flags).len() == records.len(),
        forall|i: int|
            0 <= i < records.len() ==> final(flags)@[i] == (old(flags)@[i] || records@[i].id@
                == id@),
{
    let mut i: usize = 0;
    while i < records.len()
        invariant
            i <= records.len(),
            flags.len() == records.len(),
            forall|k: int| 0 <= k < i ==> flags@[k] == (old(flags)@[k] || records@[k].id@ == id@),
            forall|k: int| i <= k < records.len() ==> flags@[k] == old(flags)@[k],
        decreases records.len() - i,
    {
        if records[i].id == *id {
            flags.set(i, true);
        }
        i += 1;
    }
}

/// Some record before `n` has its flag set and carries `id`.
pub open spec fn marked_before(rs: Seq<RecordView>, flags: Seq<bool>, n: int, id: Seq<char>) -> bool {
    exists|i: int| 0 <= i < n && i < rs.len() && flag(flags, i) && (#[trigger] rs[i]).id == id
}

/// Flags set exactly on the records that carry a matched identifier.
pub fn mark_matches(records: &Vec<Record>, matched: &Vec<bool>) -> (included: Vec<bool>)
    ensures
        included.len() == records.len(),
        forall|x: int|
            0 <= x < records.len() ==> included@[x] == is_marked(
                views(records@),
                matched@,
                (#[trigger] views(records@)[x]).id,
            ),
{
    let ghost rs = views(records@);
    let n = records.len();
    let mut included = unset_flags(n);
    let mut i: usize = 0;
    while i < n
        invariant
            rs == views(records@),
            n == records.len(),
            i <= n,
            included.len() == n,
            forall|x: int|
                0 <= x < n ==> included@[x] == marked_before(
                    rs,
                    matched@,
                    i as int,
                    (#[trigger] rs[x]).id,
                ),
        decreases n - i,
    {
        let ghost before = included@;
        if i < matched.len() && matched[i] {
            mark_id(records, &mut included, &records[i].id);
        }
        proof {
            assert forall|x: int| 0 <= x < n implies included@[x] == marked_before(
                rs,
                matched@,
                i + 1,
                (#[trigger] rs[x]).id,
            ) by {
                if marked_before(rs, matched@, i + 1, rs[x].id) {
                    let w = choose|w: int|
                        0 <= w < i + 1 && w < rs.len() && flag(matched@, w) && (#[trigger] rs[w]).id
                            == rs[x].id;
                    if w < i {
                        assert(marked_before(rs, matched@, i as int, rs[x].id));
                    } else {
                        assert(rs[i as int].id == records@[i as int].id@);
                    }
                }
                if included@[x] {
                    if before[x] {
                        let w = choose|w: int|
                            0 <= w < i && w < rs.len() && flag(matched@, w) && (#[trigger] rs[w]).id
                                == rs[x].id;
                        assert(w < i + 1);
                    } else {
                        assert(rs[i as int].id == rs[x].id);
                        assert(flag(matched@, i as int));
                    }
                }
            }
        }
        i += 1;
    }
    proof {
        assert forall|x: int| 0 <= x < n implies included@[x] == is_marked(
            rs,
            matched@,
            (#[trigger] rs[x]).id,
        ) by {
            if is_marked(rs, matched@, rs[x].id) {
                let w = choose|w: int|
                    0 <= w < rs.len() && flag(matched@, w) && (#[trigger] rs[w]).id == rs[x].id;
                assert(marked_before(rs, matched@, n as int, rs[x].id));
            }
        }
    }
    included
}

} // verus!
