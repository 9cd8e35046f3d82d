//! The one-shot listing: one category, one selector, and the records it selects.

use vstd::prelude::*;
use crate::record::{opt_view, views, Datasource, Record, RecordView};
use crate::text::{lowercase, occurs, str_contains, to_lowercase};

verus! {

/// What a listing is asked for: which categories are named, and which selectors
/// carry a value.
#[derive(Debug)]
pub struct Request {
    pub product: bool,
    pub content: bool,
    pub audience: bool,
    pub id: Option<String>,
    pub parent: Option<String>,
    pub name: Option<String>,
}

/// How a listing selects its records.
#[derive(Debug)]
pub enum Selector {
    Id(String),
    Parent(String),
    Name(String),
}

/// What a selector is, as plain values.
pub enum SelectorView {
    Id(Seq<char>),
    Parent(Seq<char>),
    Name(Seq<char>),
}

impl View for Selector {
    type V = SelectorView;

    open spec fn view(&self) -> SelectorView {
        match self {
            Selector::Id(v) => SelectorView::Id(v@),
            Selector::Parent(v) => SelectorView::Parent(v@),
            Selector::Name(v) => SelectorView::Name(v@),
        }
    }
}

/// Why a request cannot be served.
#[derive(Debug, Clone, Copy, PartialEq, Eq)]
pub enum UsageError {
    /// Not exactly one category is named.
    Category,
    /// Not exactly one selector carries a value.
    Filter,
}

/// The category that alone is named, if exactly one is.
pub open spec fn category_spec(product: bool, content: bool, audience: bool) -> Option<Datasource> {
    if product && !content && !audience {
        Some(Datasource::Product)
    } else if !product && content && !audience {
        Some(Datasource::Content)
    } else if !product && !content && audience {
        Some(Datasource::Audience)
    } else {
        None
    }
}

/// The selector that alone carries a value, if exactly one does.
pub open spec fn selector_spec(
    id: Option<Seq<char>>,
    parent: Option<Seq<char>>,
    name: Option<Seq<char>>,
) -> Option<SelectorView> {
    if id is Some && parent is None && name is None {
        Some(SelectorView::Id(id->0))
    } else if id is None && parent is Some && name is None {
        Some(SelectorView::Parent(parent->0))
    } else if id is None && parent is None && name is Some {
        Some(SelectorView::Name(name->0))
    } else {
        None
    }
}

/// What a request asks for: its category and its selector, or the first thing wrong
/// with it.
pub open spec fn plan_spec(request: Request) -> Result<(Datasource, SelectorView), UsageError> {
    match category_spec(request.product, request.content, request.audience) {
        None => Err(UsageError::Category),
        Some(d) => match selector_spec(
            opt_view(request.id),
            opt_view(request.parent),
            opt_view(request.name),
        ) {
            None => Err(UsageError::Filter),
            Some(s) => Ok((d, s)),
        },
    }
}

/// Whether a selector selects a record: by identifier when they are equal; by parent
/// when the record's parent or its own identifier equals the value; by name when the
/// name holds the value, case disregarded.
pub open spec fn selects(selector: SelectorView, r: RecordView) -> bool {
    match selector {
        SelectorView::Id(v) => r.id == v,
        SelectorView::Parent(v) => r.parent == Some(v) || r.id == v,
        SelectorView::Name(v) => occurs(lowercase(r.name), lowercase(v)),
    }
}

/// The records that the selector selects, in their order.
pub open spec fn listed(rs: Seq<RecordView>, selector: SelectorView) -> Seq<RecordView>
    decreases rs.len(),
{
    if rs.len() == 0 {
        Seq::empty()
    } else if selects(selector, rs.last()) {
        listed(rs.drop_last(), selector).push(rs.last())
    } else {
        listed(rs.drop_last(), selector)
    }
}

/// The exit code of a listing: zero where the request can be served, one where not.
pub open spec fn exit_code_spec(plan: Result<(Datasource, SelectorView), UsageError>) -> i32 {
    match plan {
        Ok(_) => 0,
        Err(_) => 1,
    }
}

/// The category that alone is named, if exactly one is.
pub fn choose_category(product: bool, content: bool, audience: bool) -> (r: Option<Datasource>)
    ensures
        r == category_spec(product, content, audience),
{
    if product && !content && !audience {
        Some(Datasource::Product)
    } else if !product && content && !audience {
        Some(Datasource::Content)
    } else if !product && !content && audience {
        Some(Datasource::Audience)
    } else {
        None
    }
}

/// The view of an optional selector.
pub open spec fn selector_view(s: Option<Selector>) -> Option<SelectorView> {
    match s {
        Some(s) => Some(s@),
        None => None,
    }
}

/// The selector that alone carries a value, if exactly one does.
pub fn choose_selector(id: &Option<String>, parent: &Option<String>, name: &Option<String>) -> (r:
    Option<Selector>)
    ensures
        selector_view(r) == selector_spec(opt_view(*id), opt_view(*parent), opt_view(*name)),
{
    match (id, parent, name) {
        (Some(v), None, None) => Some(Selector::Id(v.clone())),
        (None, Some(v), None) => Some(Selector::Parent(v.clone())),
        (None, None, Some(v)) => Some(Selector::Name(v.clone())),
        _ => None,
    }
}

/// The view of a plan.
pub open spec fn plan_view(plan: Result<(Datasource, Selector), UsageError>) -> Result<
    (Datasource, SelectorView),
    UsageError,
> {
    match plan {
        Ok((d, s)) => Ok((d, s@)),
        Err(e) => Err(e),
    }
}

/// The category and the selector of a request, or the first thing wrong with it: the
/// categories are looked at before the selectors.
pub fn plan(request: &Request) -> (r: Result<(Datasource, Selector), UsageError>)
    ensures
        plan_view(r) == plan_spec(*request),
{
    match choose_category(request.product, request.content, request.audience) {
        None => Err(UsageError::Category),
        Some(d) => match choose_selector(&request.id, &request.parent, &request.name) {
            None => Err(UsageError::Filter),
            Some(s) => Ok((d, s)),
        },
    }
}

/// The exit code of a listing.
pub fn exit_code(plan: &Result<(Datasource, Selector), UsageError>) -> (code: i32)
    ensures
        code == exit_code_spec(plan_view(*plan)),
{
    match plan {
        Ok(_) => 0,
        Err(_) => 1,
    }
}

/// Whether the selector selects the record.
pub fn selector_matches(selector: &Selector, item: &Record) -> (b: bool)
    ensures
        b == selects(selector@, item@),
{
    match selector {
        Selector::Id(v) => item.id == *v,
        Selector::Parent(v) => {
            let by_parent = match &item.parent {
                Some(p) => *p == *v,
                None => false,
            };
            by_parent || item.id == *v
        },
        Selector::Name(v) => {
            let name = to_lowercase(item.name.as_str());
            let value = to_lowercase(v.as_str());
            str_contains(name.as_str(), value.as_str())
        },
    }
}

/// Copies of the records that the selector selects, in their order.
pub fn list_records(records: &Vec<Record>, selector: &Selector) -> (out: Vec<Record>)
    ensures
        views(out@) == listed(views(records@), selector@),
{
    let ghost rs = views(records@);
    let mut out: Vec<Record> = Vec::new();
    let mut i: usize = 0;
    assert(views(out@) =~= listed(rs.take(0), selector@));
    while i < records.len()
        invariant
            rs == views(records@),
            i <= records.len(),
            views(out@) == listed(rs.take(i as int), selector@),
        decreases records.len() - i,
    {
        proof {
            assert(rs.take(i + 1).drop_last() =~= rs.take(i as int));
            assert(rs.take(i + 1).last() == records@[i as int]@);
        }
        let ghost before = out@;
        if selector_matches(selector, &records[i]) {
            out.push(records[i].duplicate());
            assert(views(out@) =~= views(before).push(records@[i as int]@));
        }
        i += 1;
    }
    assert(rs.take(records.len() as int) =~= rs);
    out
}

/// A request that names two selectors, or two categories, is refused, whatever else
/// it holds.
pub proof fn lemma_two_selectors_refused(request: Request)
    requires
        (request.id is Some && request.name is Some) || (request.id is Some && request.parent
            is Some) || (request.parent is Some && request.name is Some) || (request.product
            && request.content) || (request.product && request.audience) || (request.content
            && request.audience),
    ensures
        plan_spec(request) is Err,
        exit_code_spec(plan_spec(request)) == 1,
{
}

/// Every listed record is one of the records and is selected.
pub proof fn lemma_listed_member(rs: Seq<RecordView>, selector: SelectorView, k: int) -> (i: int)
    requires
        0 <= k < listed(rs, selector).len(),
    ensures
        0 <= i < rs.len(),
        rs[i] == listed(rs, selector)[k],
        selects(selector, rs[i]),
    decreases rs.len(),
{
    if selects(selector, rs.last()) && k == listed(rs.drop_last(), selector).len() {
        rs.len() - 1
    } else {
        lemma_listed_member(rs.drop_last(), selector, k)
    }
}

} // verus!
