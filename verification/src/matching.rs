//! The match predicate: which records a query selects by itself.

use vstd::prelude::*;
use crate::record::{opt_view, views, Record, RecordView};
use crate::text::{lowercase, occurs, str_contains, to_lowercase};

verus! {

/// The lowercase form of an optional text.
pub open spec fn lowercase_opt(o: Option<Seq<char>>) -> Option<Seq<char>> {
    match o {
        Some(s) => Some(lowercase(s)),
        None => None,
    }
}

/// The record with every text field in lowercase.
pub open spec fn lowered(r: RecordView) -> RecordView {
    RecordView {
        id: lowercase(r.id),
        parent: lowercase_opt(r.parent),
        name: lowercase(r.name),
        tiers: Seq::new(r.tiers.len(), |i: int| lowercase(r.tiers[i])),
        extension: lowercase_opt(r.extension),
    }
}

/// Some tier of `tiers` holds `q`.
pub open spec fn some_tier_holds(tiers: Seq<Seq<char>>, q: Seq<char>) -> bool {
    exists|i: int| 0 <= i < tiers.len() && occurs(#[trigger] tiers[i], q)
}

/// The match predicate on fields as they stand: the identifier or the parent equals
/// `q`, or the name, a tier or the extension note holds `q`. The empty query selects
/// every record.
pub open spec fn fields_match(r: RecordView, q: Seq<char>) -> bool {
    ||| q.len() == 0
    ||| r.id == q
    ||| r.parent == Some(q)
    ||| occurs(r.name, q)
    ||| some_tier_holds(r.tiers, q)
    ||| (r.extension is Some && occurs(r.extension->0, q))
}

/// The match predicate without regard to case, for a query already in lowercase.
pub open spec fn record_matches(r: RecordView, q: Seq<char>) -> bool {
    fields_match(lowered(r), q)
}

/// The lowercase form of an optional string.
pub fn lowercase_option(o: &Option<String>) -> (r: Option<String>)
    ensures
        opt_view(r) == lowercase_opt(opt_view(*o)),
{
    match o {
        Some(s) => Some(to_lowercase(s.as_str())),
        None => None,
    }
}

/// The record with every text field in lowercase.
pub fn lowercase_record(item: &Record) -> (r: Record)
    ensures
        r@ == lowered(item@),
{
    let mut tiers: Vec<String> = Vec::new();
    let mut i: usize = 0;
    while i < item.tiers.len()
        invariant
            i <= item.tiers.len(),
            tiers.len() == i,
            forall|k: int| 0 <= k < i ==> tiers@[k]@ == lowercase(item.tiers@[k]@),
        decreases item.tiers.len() - i,
    {
        tiers.push(to_lowercase(item.tiers[i].as_str()));
        i += 1;
    }
    assert(views(tiers@) =~= lowered(item@).tiers);
    Record {
        id: to_lowercase(item.id.as_str()),
        parent: lowercase_option(&item.parent),
        name: to_lowercase(item.name.as_str()),
        tiers,
        extension: lowercase_option(&item.extension),
    }
}

/// Whether some string of `tiers` holds `q`.
pub fn any_tier_holds(tiers: &Vec<String>, q: &str) -> (b: bool)
    ensures
        b == some_tier_holds(views(tiers@), q@),
{
    let mut i: usize = 0;
    while i < tiers.len()
        invariant
            i <= tiers.len(),
            forall|k: int| 0 <= k < i ==> !occurs(#[trigger] views(tiers@)[k], q@),
        decreases tiers.len() - i,
    {
        if str_contains(tiers[i].as_str(), q) {
            assert(occurs(views(tiers@)[i as int], q@));
            return true;
        }
        i += 1;
    }
    false
}

/// The match predicate on the fields of `item` as they stand, with no case folding.
pub fn matches_fields(item: &Record, q: &str) -> (b: bool)
    ensures
        b == fields_match(item@, q@),
{
    if q.unicode_len() == 0 {
        return true;
    }
    let query = String::from_str(q);
    if item.id == query {
        return true;
    }
    match &item.parent {
        Some(p) => {
            if *p == query {
                return true;
            }
        },
        None => {},
    }
    if str_contains(item.name.as_str(), q) {
        return true;
    }
    if any_tier_holds(&item.tiers, q) {
        return true;
    }
    match &item.extension {
        Some(e) => {
            if str_contains(e.as_str(), q) {
                return true;
            }
        },
        None => {},
    }
    false
}

/// Whether `item` matches the lowercase query `filter_lower`, without regard to the
/// case of the record's own fields.
pub fn matches_all_fields(item: &Record, filter_lower: &str) -> (b: bool)
    ensures
        b == record_matches(item@, filter_lower@),
{
    if filter_lower.unicode_len() == 0 {
        return true;
    }
    let folded = lowercase_record(item);
    matches_fields(&folded, filter_lower)
}

} // verus!
