//! Splitting a label into plain and matched spans.

use vstd::prelude::*;
use crate::text::{lowercase, to_lowercase};

verus! {

/// What a span is, as plain values.
pub struct SpanView {
    pub content: Seq<char>,
    pub highlighted: bool,
    pub bold: bool,
}

/// A run of label text with its emphasis.
#[derive(Debug)]
pub struct Span {
    pub content: String,
    pub highlighted: bool,
    pub bold: bool,
}

impl View for Span {
    type V = SpanView;

    open spec fn view(&self) -> SpanView {
        SpanView { content: self.content@, highlighted: self.highlighted, bold: self.bold }
    }
}

/// The views of the spans of a label, in order.
pub open spec fn span_views(spans: Seq<Span>) -> Seq<SpanView> {
    Seq::new(spans.len(), |i: int| spans[i]@)
}

/// A span without emphasis.
pub open spec fn plain(content: Seq<char>) -> SpanView {
    SpanView { content, highlighted: false, bold: false }
}

/// A span that shows a match.
pub open spec fn hit(content: Seq<char>) -> SpanView {
    SpanView { content, highlighted: true, bold: false }
}

/// The `n` characters of `text` from `p`, one at least, have `fl` as their lowercase
/// form.
pub open spec fn hit_at(text: Seq<char>, fl: Seq<char>, p: int, n: int) -> bool {
    0 <= p && 1 <= n && p + n <= text.len() && lowercase(text.subrange(p, p + n)) == fl
}

/// `p` is the first position of `text` from which some characters have `fl` as their
/// lowercase form, and `n` is the least number of characters that do.
pub open spec fn is_first_hit(text: Seq<char>, fl: Seq<char>, p: int, n: int) -> bool {
    &&& hit_at(text, fl, p, n)
    &&& forall|q: int, m: int| q < p ==> !#[trigger] hit_at(text, fl, q, m)
    &&& forall|m: int| m < n ==> !#[trigger] hit_at(text, fl, p, m)
}

/// Some part of `text` has `fl` as its lowercase form.
pub open spec fn has_hit(text: Seq<char>, fl: Seq<char>) -> bool {
    exists|p: int, n: int| is_first_hit(text, fl, p, n)
}

/// The first part of `text` that has `fl` as its lowercase form: its position and its
/// length.
pub open spec fn first_hit(text: Seq<char>, fl: Seq<char>) -> (int, int) {
    choose|p: int, n: int| is_first_hit(text, fl, p, n)
}

/// There is only one first part.
pub proof fn lemma_first_hit(text: Seq<char>, fl: Seq<char>, p: int, n: int)
    requires
        is_first_hit(text, fl, p, n),
    ensures
        has_hit(text, fl),
        first_hit(text, fl) == (p, n),
{
    let (q, m) = first_hit(text, fl);
    assert(is_first_hit(text, fl, q, m));
    if q < p {
        assert(!hit_at(text, fl, q, m));
    }
    if p < q {
        assert(!hit_at(text, fl, p, n));
    }
    if m < n {
        assert(!hit_at(text, fl, p, m));
    }
    if n < m {
        assert(!hit_at(text, fl, q, n));
    }
}

/// Where any part of `text` has `fl` as its lowercase form, there is a first one.
pub proof fn lemma_hit_has_first(text: Seq<char>, fl: Seq<char>, p: int, n: int)
    requires
        hit_at(text, fl, p, n),
    ensures
        has_hit(text, fl),
    decreases p, n,
{
    if exists|q: int, m: int| q < p && hit_at(text, fl, q, m) {
        let (q, m) = choose|q: int, m: int| q < p && hit_at(text, fl, q, m);
        lemma_hit_has_first(text, fl, q, m);
    } else if exists|m: int| m < n && hit_at(text, fl, p, m) {
        let m = choose|m: int| m < n && hit_at(text, fl, p, m);
        lemma_hit_has_first(text, fl, p, m);
    } else {
        assert(is_first_hit(text, fl, p, n));
    }
}

/// `text` cut round the `width` characters from `pos`: what stands before them where
/// there is any, the characters themselves as a match, and what follows them where
/// there is any.
pub open spec fn split_round(text: Seq<char>, pos: int, width: int) -> Seq<SpanView> {
    let before = if pos > 0 {
        seq![plain(text.subrange(0, pos))]
    } else {
        Seq::empty()
    };
    let after = if pos + width < text.len() {
        seq![plain(text.subrange(pos + width, text.len() as int))]
    } else {
        Seq::empty()
    };
    before + seq![hit(text.subrange(pos, pos + width))] + after
}

/// The spans of `text` for the lowercase query `fl`: the text cut round its first
/// part that has `fl` as its lowercase form, or the whole text as one plain span where
/// no part has.
pub open spec fn split_spec(text: Seq<char>, fl: Seq<char>) -> Seq<SpanView> {
    if has_hit(text, fl) {
        split_round(text, first_hit(text, fl).0, first_hit(text, fl).1)
    } else {
        seq![plain(text)]
    }
}

/// The spans of `text` under `filter`: with the empty filter one plain span, else the
/// split round the first part of the text that equals the filter, case disregarded.
pub open spec fn highlight_spec(text: Seq<char>, filter: Seq<char>) -> Seq<SpanView> {
    if filter.len() == 0 {
        seq![plain(text)]
    } else {
        split_spec(text, lowercase(filter))
    }
}

/// A plain span that holds a copy of `text`.
pub fn plain_span(text: &str) -> (s: Span)
    ensures
        s@ == plain(text@),
{
    Span { content: String::from_str(text), highlighted: false, bold: false }
}

/// The first part of `text` that has `filter_lower` as its lowercase form: its
/// position and its length, or nothing where no part has.
pub fn find_hit(text: &str, filter_lower: &str) -> (r: Option<(usize, usize)>)
    ensures
        match r {
            Some((p, n)) => is_first_hit(text@, filter_lower@, p as int, n as int),
            None => !has_hit(text@, filter_lower@),
        },
{
    let len = text.unicode_len();
    let wanted = String::from_str(filter_lower);
    let mut p: usize = 0;
    while p < len
        invariant
            len == text@.len(),
            wanted@ == filter_lower@,
            p <= len,
            forall|q: int, m: int| q < p ==> !#[trigger] hit_at(text@, filter_lower@, q, m),
        decreases len - p,
    {
        let mut m: usize = 0;
        while m < len - p
            invariant
                len == text@.len(),
                wanted@ == filter_lower@,
                p < len,
                m <= len - p,
                forall|q: int, m: int| q < p ==> !#[trigger] hit_at(text@, filter_lower@, q, m),
                forall|n: int| n <= m ==> !#[trigger] hit_at(text@, filter_lower@, p as int, n),
            decreases len - p - m,
        {
            let n = m + 1;
            let lowered = to_lowercase(text.substring_char(p, p + n));
            if lowered == wanted {
                return Some((p, n));
            }
            m += 1;
        }
        p += 1;
    }
    None
}

/// The spans of `text` cut round the `width` characters from `pos`.
pub fn cut_round(text: &str, pos: usize, width: usize) -> (spans: Vec<Span>)
    requires
        pos + width <= text@.len(),
    ensures
        span_views(spans@) == split_round(text@, pos as int, width as int),
{
    let len = text.unicode_len();
    let end = pos + width;
    let mut spans: Vec<Span> = Vec::new();
    if pos > 0 {
        spans.push(plain_span(text.substring_char(0, pos)));
    }
    spans.push(
        Span {
            content: String::from_str(text.substring_char(pos, end)),
            highlighted: true,
            bold: false,
        },
    );
    if end < len {
        spans.push(plain_span(text.substring_char(end, len)));
    }
    assert(span_views(spans@) =~= split_round(text@, pos as int, width as int));
    spans
}

/// The spans of `text` for the lowercase query `filter_lower`.
pub fn split_match(text: &str, filter_lower: &str) -> (spans: Vec<Span>)
    ensures
        span_views(spans@) == split_spec(text@, filter_lower@),
{
    match find_hit(text, filter_lower) {
        Some((pos, width)) => {
            proof {
                lemma_first_hit(text@, filter_lower@, pos as int, width as int);
            }
            cut_round(text, pos, width)
        },
        None => {
            let mut spans: Vec<Span> = Vec::new();
            spans.push(plain_span(text));
            assert(span_views(spans@) =~= seq![plain(text@)]);
            spans
        },
    }
}

/// The spans of `text` under `filter`.
pub fn highlight_match(text: &str, filter: &str) -> (spans: Vec<Span>)
    ensures
        span_views(spans@) == highlight_spec(text@, filter@),
{
    if filter.unicode_len() == 0 {
        let mut spans: Vec<Span> = Vec::new();
        spans.push(plain_span(text));
        assert(span_views(spans@) =~= seq![plain(text@)]);
        return spans;
    }
    let filter_lower = to_lowercase(filter);
    split_match(text, filter_lower.as_str())
}

/// The spans put together give the text back.
pub open spec fn joined(spans: Seq<SpanView>) -> Seq<char>
    decreases spans.len(),
{
    if spans.len() == 0 {
        Seq::empty()
    } else {
        joined(spans.drop_last()) + spans.last().content
    }
}

/// Cutting a text round some of its characters loses none of it.
pub proof fn lemma_cut_keeps_text(text: Seq<char>, p: int, width: int)
    requires
        0 <= p,
        0 <= width,
        p + width <= text.len(),
    ensures
        joined(split_round(text, p, width)) == text,
{
    let spans = split_round(text, p, width);
    reveal_with_fuel(joined, 4);
    let a = text.subrange(0, p);
    let b = text.subrange(p, p + width);
    let c = text.subrange(p + width, text.len() as int);
    assert(a + b + c =~= text);
    if p > 0 && p + width < text.len() {
        assert(spans =~= seq![plain(a), hit(b), plain(c)]);
        assert(spans.drop_last() =~= seq![plain(a), hit(b)]);
        assert(spans.drop_last().drop_last() =~= seq![plain(a)]);
        assert(spans.drop_last().drop_last().drop_last() =~= Seq::<SpanView>::empty());
        assert(joined(spans) =~= Seq::<char>::empty() + a + b + c);
    } else if p > 0 {
        assert(spans =~= seq![plain(a), hit(b)]);
        assert(spans.drop_last() =~= seq![plain(a)]);
        assert(spans.drop_last().drop_last() =~= Seq::<SpanView>::empty());
        assert(joined(spans) =~= Seq::<char>::empty() + a + b);
        assert(c =~= Seq::<char>::empty());
    } else if p + width < text.len() {
        assert(spans =~= seq![hit(b), plain(c)]);
        assert(spans.drop_last() =~= seq![hit(b)]);
        assert(spans.drop_last().drop_last() =~= Seq::<SpanView>::empty());
        assert(joined(spans) =~= Seq::<char>::empty() + b + c);
        assert(a =~= Seq::<char>::empty());
    } else {
        assert(spans =~= seq![hit(b)]);
        assert(spans.drop_last() =~= Seq::<SpanView>::empty());
        assert(joined(spans) =~= Seq::<char>::empty() + b);
        assert(a =~= Seq::<char>::empty());
        assert(c =~= Seq::<char>::empty());
    }
}

/// Splitting a text loses none of it: the spans, put together, are the text.
pub proof fn lemma_split_keeps_text(text: Seq<char>, filter: Seq<char>)
    ensures
        joined(highlight_spec(text, filter)) == text,
{
    let spans = highlight_spec(text, filter);
    if filter.len() > 0 && has_hit(text, lowercase(filter)) {
        let (p, n) = first_hit(text, lowercase(filter));
        assert(is_first_hit(text, lowercase(filter), p, n));
        lemma_cut_keeps_text(text, p, n);
    } else {
        reveal_with_fuel(joined, 2);
        assert(spans.drop_last() =~= Seq::<SpanView>::empty());
        assert(joined(spans) =~= Seq::<char>::empty() + text);
    }
}

} // verus!
