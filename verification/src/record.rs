//! Taxonomy records: one shared shape, and the three categories that supply it.

use vstd::prelude::*;

verus! {

/// The views of the elements of a sequence, in order.
pub open spec fn views<T: View>(s: Seq<T>) -> Seq<T::V> {
    Seq::new(s.len(), |i: int| s[i]@)
}

/// The text of an optional string.
pub open spec fn opt_view(o: Option<String>) -> Option<Seq<char>> {
    match o {
        Some(s) => Some(s@),
        None => None,
    }
}

/// A tier slot counts only when it is filled with a non-empty text.
pub open spec fn kept(slot: Option<String>) -> Seq<Seq<char>> {
    match slot {
        Some(s) => if s@.len() > 0 {
            seq![s@]
        } else {
            Seq::empty()
        },
        None => Seq::empty(),
    }
}

/// What a record is, as plain values.
pub struct RecordView {
    pub id: Seq<char>,
    pub parent: Option<Seq<char>>,
    pub name: Seq<char>,
    pub tiers: Seq<Seq<char>>,
    pub extension: Option<Seq<char>>,
}

/// The shape shared by the records of every category.
#[derive(Debug)]
pub struct Record {
    pub id: String,
    pub parent: Option<String>,
    pub name: String,
    pub tiers: Vec<String>,
    pub extension: Option<String>,
}

impl View for Record {
    type V = RecordView;

    open spec fn view(&self) -> RecordView {
        RecordView {
            id: self.id@,
            parent: opt_view(self.parent),
            name: self.name@,
            tiers: views(self.tiers@),
            extension: opt_view(self.extension),
        }
    }
}

/// No two records carry the same identifier.
pub open spec fn unique_ids(rs: Seq<RecordView>) -> bool {
    forall|i: int, j: int|
        0 <= i < rs.len() && 0 <= j < rs.len() && (#[trigger] rs[i]).id == (#[trigger] rs[j]).id
            ==> i == j
}

/// A copy of an optional string.
pub fn clone_opt(o: &Option<String>) -> (r: Option<String>)
    ensures
        opt_view(r) == opt_view(*o),
{
    match o {
        Some(s) => Some(s.clone()),
        None => None,
    }
}

/// A copy of a list of strings.
pub fn clone_strings(v: &Vec<String>) -> (r: Vec<String>)
    ensures
        views(r@) == views(v@),
{
    let mut r: Vec<String> = Vec::new();
    let mut i: usize = 0;
    while i < v.len()
        invariant
            i <= v.len(),
            r.len() == i,
            forall|k: int| 0 <= k < i ==> r@[k]@ == v@[k]@,
        decreases v.len() - i,
    {
        r.push(v[i].clone());
        i += 1;
    }
    assert(views(r@) =~= views(v@));
    r
}

/// Borrows the text of an optional string.
pub fn opt_str<'a>(o: &'a Option<String>) -> (r: Option<&'a str>)
    ensures
        match r {
            Some(s) => *o is Some && s@ == o->0@,
            None => *o is None,
        },
{
    match o {
        Some(s) => Some(s.as_str()),
        None => None,
    }
}

/// Appends the text of a tier slot to `out` when the slot counts.
pub fn push_kept<'a>(out: &mut Vec<&'a str>, slot: &'a Option<String>)
    ensures
        views(final(out)@) == views(old(out)@) + kept(*slot),
{
    let ghost before = out@;
    match slot {
        Some(s) => {
            if s.as_str().unicode_len() > 0 {
                out.push(s.as_str());
                assert(views(out@) =~= views(before) + kept(*slot));
            } else {
                assert(views(out@) =~= views(before) + kept(*slot));
            }
        },
        None => {
            assert(views(out@) =~= views(before) + kept(*slot));
        },
    }
}

/// Owned copies of borrowed texts.
pub fn to_owned_all(v: &Vec<&str>) -> (r: Vec<String>)
    ensures
        views(r@) == views(v@),
{
    let mut r: Vec<String> = Vec::new();
    let mut i: usize = 0;
    while i < v.len()
        invariant
            i <= v.len(),
            r.len() == i,
            forall|k: int| 0 <= k < i ==> r@[k]@ == v@[k]@,
        decreases v.len() - i,
    {
        r.push(String::from_str(v[i]));
        i += 1;
    }
    assert(views(r@) =~= views(v@));
    r
}

impl Record {
    /// A copy of this record.
    pub fn duplicate(&self) -> (r: Record)
        ensures
            r@ == self@,
    {
        Record {
            id: self.id.clone(),
            parent: clone_opt(&self.parent),
            name: self.name.clone(),
            tiers: clone_strings(&self.tiers),
            extension: clone_opt(&self.extension),
        }
    }
}

/// A record of the content taxonomy, which has four tiers and an extension note.
#[derive(Debug, Clone, PartialEq)]
pub struct Content {
    pub unique_id: String,
    pub parent: Option<String>,
    pub name: String,
    pub tier_1: Option<String>,
    pub tier_2: Option<String>,
    pub tier_3: Option<String>,
    pub tier_4: Option<String>,
    pub ext: Option<String>,
}

impl Content {
    /// The filled tiers, in order.
    pub open spec fn spec_tiers(&self) -> Seq<Seq<char>> {
        kept(self.tier_1) + kept(self.tier_2) + kept(self.tier_3) + kept(self.tier_4)
    }

    /// This record in the shared shape.
    pub open spec fn spec_record(&self) -> RecordView {
        RecordView {
            id: self.unique_id@,
            parent: opt_view(self.parent),
            name: self.name@,
            tiers: self.spec_tiers(),
            extension: opt_view(self.ext),
        }
    }

    /// The identifier.
    pub fn unique_id(&self) -> (r: &str)
        ensures
            r@ == self.unique_id@,
    {
        self.unique_id.as_str()
    }

    /// The parent's identifier, where the record names one.
    pub fn parent(&self) -> (r: Option<&str>)
        ensures
            match r {
                Some(s) => self.parent is Some && s@ == self.parent->0@,
                None => self.parent is None,
            },
    {
        opt_str(&self.parent)
    }

    /// The name.
    pub fn name(&self) -> (r: &str)
        ensures
            r@ == self.name@,
    {
        self.name.as_str()
    }

    /// The filled tiers, in order.
    pub fn tiers(&self) -> (r: Vec<&str>)
        ensures
            views(r@) == self.spec_tiers(),
    {
        let mut out: Vec<&str> = Vec::new();
        assert(views(out@) =~= Seq::<Seq<char>>::empty());
        push_kept(&mut out, &self.tier_1);
        push_kept(&mut out, &self.tier_2);
        push_kept(&mut out, &self.tier_3);
        push_kept(&mut out, &self.tier_4);
        assert(views(out@) =~= self.spec_tiers());
        out
    }

    /// The extension note, where the record has one.
    pub fn extension(&self) -> (r: Option<&str>)
        ensures
            match r {
                Some(s) => self.ext is Some && s@ == self.ext->0@,
                None => self.ext is None,
            },
    {
        opt_str(&self.ext)
    }

    /// This record in the shared shape.
    pub fn record(&self) -> (r: Record)
        ensures
            r@ == self.spec_record(),
    {
        let tiers = self.tiers();
        Record {
            id: self.unique_id.clone(),
            parent: clone_opt(&self.parent),
            name: self.name.clone(),
            tiers: to_owned_all(&tiers),
            extension: clone_opt(&self.ext),
        }
    }
}

/// A record of the product taxonomy, which has three tiers and no extension note.
#[derive(Debug, Clone, Default)]
pub struct Product {
    pub unique_id: String,
    pub parent: Option<String>,
    pub name: String,
    pub tier_1: Option<String>,
    pub tier_2: Option<String>,
    pub tier_3: Option<String>,
}

impl Product {
    /// The filled tiers, in order.
    pub open spec fn spec_tiers(&self) -> Seq<Seq<char>> {
        kept(self.tier_1) + kept(self.tier_2) + kept(self.tier_3)
    }

    /// This record in the shared shape.
    pub open spec fn spec_record(&self) -> RecordView {
        RecordView {
            id: self.unique_id@,
            parent: opt_view(self.parent),
            name: self.name@,
            tiers: self.spec_tiers(),
            extension: None,
        }
    }

    /// The identifier.
    pub fn unique_id(&self) -> (r: &str)
        ensures
            r@ == self.unique_id@,
    {
        self.unique_id.as_str()
    }

    /// The parent's identifier, where the record names one.
    pub fn parent(&self) -> (r: Option<&str>)
        ensures
            match r {
                Some(s) => self.parent is Some && s@ == self.parent->0@,
                None => self.parent is None,
            },
    {
        opt_str(&self.parent)
    }

    /// The name.
    pub fn name(&self) -> (r: &str)
        ensures
            r@ == self.name@,
    {
        self.name.as_str()
    }

    /// The filled tiers, in order.
    pub fn tiers(&self) -> (r: Vec<&str>)
        ensures
            views(r@) == self.spec_tiers(),
    {
        let mut out: Vec<&str> = Vec::new();
        assert(views(out@) =~= Seq::<Seq<char>>::empty());
        push_kept(&mut out, &self.tier_1);
        push_kept(&mut out, &self.tier_2);
        push_kept(&mut out, &self.tier_3);
        assert(views(out@) =~= self.spec_tiers());
        out
    }

    /// A product carries no extension note.
    pub fn extension(&self) -> (r: Option<&str>)
        ensures
            r is None,
    {
        None
    }

    /// This record in the shared shape.
    pub fn record(&self) -> (r: Record)
        ensures
            r@ == self.spec_record(),
    {
        let tiers = self.tiers();
        Record {
            id: self.unique_id.clone(),
            parent: clone_opt(&self.parent),
            name: self.name.clone(),
            tiers: to_owned_all(&tiers),
            extension: None,
        }
    }
}

/// A record of the audience taxonomy, which has six tiers and an extension note.
#[derive(Debug, Clone, Default)]
pub struct Audience {
    pub unique_id: String,
    pub parent: Option<String>,
    pub name: String,
    pub tier_1: Option<String>,
    pub tier_2: Option<String>,
    pub tier_3: Option<String>,
    pub tier_4: Option<String>,
    pub tier_5: Option<String>,
    pub tier_6: Option<String>,
    pub ext: Option<String>,
}

impl Audience {
    /// The filled tiers, in order.
    pub open spec fn spec_tiers(&self) -> Seq<Seq<char>> {
        kept(self.tier_1) + kept(self.tier_2) + kept(self.tier_3) + kept(self.tier_4) + kept(
            self.tier_5,
        ) + kept(self.tier_6)
    }

    /// This record in the shared shape.
    pub open spec fn spec_record(&self) -> RecordView {
        RecordView {
            id: self.unique_id@,
            parent: opt_view(self.parent),
            name: self.name@,
            tiers: self.spec_tiers(),
            extension: opt_view(self.ext),
        }
    }

    /// The identifier.
    pub fn unique_id(&self) -> (r: &str)
        ensures
            r@ == self.unique_id@,
    {
        self.unique_id.as_str()
    }

    /// The parent's identifier, where the record names one.
    pub fn parent(&self) -> (r: Option<&str>)
        ensures
            match r {
                Some(s) => self.parent is Some && s@ == self.parent->0@,
                None => self.parent is None,
            },
    {
        opt_str(&self.parent)
    }

    /// The name.
    pub fn name(&self) -> (r: &str)
        ensures
            r@ == self.name@,
    {
        self.name.as_str()
    }

    /// The filled tiers, in order.
    pub fn tiers(&self) -> (r: Vec<&str>)
        ensures
            views(r@) == self.spec_tiers(),
    {
        let mut out: Vec<&str> = Vec::new();
        assert(views(out@) =~= Seq::<Seq<char>>::empty());
        push_kept(&mut out, &self.tier_1);
        push_kept(&mut out, &self.tier_2);
        push_kept(&mut out, &self.tier_3);
        push_kept(&mut out, &self.tier_4);
        push_kept(&mut out, &self.tier_5);
        push_kept(&mut out, &self.tier_6);
        assert(views(out@) =~= self.spec_tiers());
        out
    }

    /// The extension note, where the record has one.
    pub fn extension(&self) -> (r: Option<&str>)
        ensures
            match r {
                Some(s) => self.ext is Some && s@ == self.ext->0@,
                None => self.ext is None,
            },
    {
        opt_str(&self.ext)
    }

    /// This record in the shared shape.
    pub fn record(&self) -> (r: Record)
        ensures
            r@ == self.spec_record(),
    {
        let tiers = self.tiers();
        Record {
            id: self.unique_id.clone(),
            parent: clone_opt(&self.parent),
            name: self.name.clone(),
            tiers: to_owned_all(&tiers),
            extension: clone_opt(&self.ext),
        }
    }
}

/// The three taxonomies, in tab order.
#[derive(Debug, Clone, Copy, PartialEq, Eq, Structural)]
pub enum Datasource {
    Product,
    Content,
    Audience,
}

/// The category after `d`.
pub open spec fn spec_next(d: Datasource) -> Datasource {
    match d {
        Datasource::Product => Datasource::Content,
        Datasource::Content => Datasource::Audience,
        Datasource::Audience => Datasource::Product,
    }
}

/// The category before `d`.
pub open spec fn spec_previous(d: Datasource) -> Datasource {
    match d {
        Datasource::Product => Datasource::Audience,
        Datasource::Content => Datasource::Product,
        Datasource::Audience => Datasource::Content,
    }
}

impl Datasource {
    /// The category after this one, wrapping round.
    pub fn next(self) -> (r: Datasource)
        ensures
            r == spec_next(self),
    {
        match self {
            Datasource::Product => Datasource::Content,
            Datasource::Content => Datasource::Audience,
            Datasource::Audience => Datasource::Product,
        }
    }

    /// The category before this one, wrapping round.
    pub fn previous(self) -> (r: Datasource)
        ensures
            r == spec_previous(self),
    {
        match self {
            Datasource::Product => Datasource::Audience,
            Datasource::Content => Datasource::Product,
            Datasource::Audience => Datasource::Content,
        }
    }

    /// The category's display name.
    pub fn name(self) -> (r: &'static str)
        ensures
            r@ == match self {
                Datasource::Product => "Product"@,
                Datasource::Content => "Content"@,
                Datasource::Audience => "Audience"@,
            },
    {
        match self {
            Datasource::Product => "Product",
            Datasource::Content => "Content",
            Datasource::Audience => "Audience",
        }
    }

    /// The category's position among the tabs.
    pub fn index(self) -> (r: usize)
        ensures
            r == match self {
                Datasource::Product => 0usize,
                Datasource::Content => 1usize,
                Datasource::Audience => 2usize,
            },
    {
        match self {
            Datasource::Product => 0,
            Datasource::Content => 1,
            Datasource::Audience => 2,
        }
    }
}

/// Going to the next category and back, or back and forth, returns to the start, and
/// three steps forward go once round.
pub proof fn lemma_datasource_cycle(d: Datasource)
    ensures
        spec_previous(spec_next(d)) == d,
        spec_next(spec_previous(d)) == d,
        spec_next(spec_next(spec_next(d))) == d,
{
}

} // verus!
