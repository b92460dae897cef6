//! Structured queries over frontmatter and the predicate matcher.
//!
//! A query maps field names to either one scalar or a sequence of scalars.
//! A document matches when every query field individually matches the value
//! at that field in the document's frontmatter, under one of two modes:
//! *subset* (every query scalar must appear in the document sequence) or
//! *intersect* (one shared scalar suffices).

use vstd::prelude::*;

use crate::value::{view_get, Mapping, Value, ValueView};

verus! {

/// A scalar query constant: the leaves queries are built from.
#[derive(Debug)]
pub enum Scalar {
    Str(String),
    Num(String),
    Bool(bool),
    Null,
}

impl View for Scalar {
    type V = ValueView;

    open spec fn view(&self) -> ValueView {
        match self {
            Scalar::Str(s) => ValueView::Str(s@),
            Scalar::Num(s) => ValueView::Num(s@),
            Scalar::Bool(b) => ValueView::Bool(*b),
            Scalar::Null => ValueView::Null,
        }
    }
}

/// The value a query binds one field to: one scalar or a sequence of them.
#[derive(Debug)]
pub enum QueryValue {
    Sequence(Vec<Scalar>),
    Scalar(Scalar),
}

impl View for QueryValue {
    type V = ValueView;

    open spec fn view(&self) -> ValueView {
        match self {
            QueryValue::Sequence(scalars) => ValueView::Sequence(
                Seq::new(scalars@.len(), |i: int| scalars@[i]@),
            ),
            QueryValue::Scalar(s) => s@,
        }
    }
}

/// Whether a query scalar equals a document value: typed equality on equal
/// scalar kinds, never across kinds, never against a sequence or mapping.
pub open spec fn scalar_matches(q: ValueView, v: ValueView) -> bool {
    match (q, v) {
        (ValueView::Str(a), ValueView::Str(b)) => a == b,
        (ValueView::Num(a), ValueView::Num(b)) => a == b,
        (ValueView::Bool(a), ValueView::Bool(b)) => a == b,
        (ValueView::Null, ValueView::Null) => true,
        _ => false,
    }
}

/// Subset match of one query value against one document value.
///
/// A sequence query matches a sequence document value when every query
/// scalar equals at least one element; the empty query sequence is vacuously
/// a subset of any document sequence. A scalar query matches by
/// `scalar_matches`; any other shape pairing never matches.
pub open spec fn value_is_subset(q: ValueView, v: ValueView) -> bool {
    match (q, v) {
        (ValueView::Sequence(qs), ValueView::Sequence(vs)) => seq_is_subset(qs, vs),
        (ValueView::Sequence(qs), _) => false,
        _ => scalar_matches(q, v),
    }
}

/// Every query scalar in `qs` equals some element of `vs`.
pub open spec fn seq_is_subset(qs: Seq<ValueView>, vs: Seq<ValueView>) -> bool {
    forall|i: int| 0 <= i < qs.len() ==> some_element_matches(#[trigger] qs[i], vs)
}

/// Some query scalar in `qs` equals some element of `vs`; an empty `qs` is
/// satisfied by convention.
pub open spec fn seq_is_intersect(qs: Seq<ValueView>, vs: Seq<ValueView>) -> bool {
    qs.len() == 0 || exists|i: int| 0 <= i < qs.len() && some_element_matches(#[trigger] qs[i], vs)
}

/// Whether some element of the document sequence `vs` equals the query
/// scalar `q`.
pub open spec fn some_element_matches(q: ValueView, vs: Seq<ValueView>) -> bool {
    exists|j: int| 0 <= j < vs.len() && scalar_matches(q, #[trigger] vs[j])
}

/// Intersect match of one query value against one document value.
///
/// A sequence query matches a sequence document value when some query
/// scalar equals some element; the empty query sequence is treated as
/// satisfied by convention. Scalars and shape mismatches behave as in
/// `value_is_subset`.
pub open spec fn value_is_intersect(q: ValueView, v: ValueView) -> bool {
    match (q, v) {
        (ValueView::Sequence(qs), ValueView::Sequence(vs)) => seq_is_intersect(qs, vs),
        (ValueView::Sequence(qs), _) => false,
        _ => scalar_matches(q, v),
    }
}

/// In subset mode an empty query sequence matches any document sequence
/// value: every (no) query scalar is vacuously found.
pub proof fn lemma_empty_sequence_is_subset(vs: Seq<ValueView>)
    ensures
        value_is_subset(ValueView::Sequence(Seq::empty()), ValueView::Sequence(vs)),
{
}

/// In intersect mode too, an empty query sequence matches any document
/// sequence value, by convention: no constraint was given.
pub proof fn lemma_empty_sequence_is_intersect(vs: Seq<ValueView>)
    ensures
        value_is_intersect(ValueView::Sequence(Seq::empty()), ValueView::Sequence(vs)),
{
}

/// A whole query: field names bound to query values, keys distinct.
#[derive(Debug)]
pub struct FrontmatterQuery {
    entries: Vec<(String, QueryValue)>,
}

/// The view of a query: its fields in insertion order.
pub type QueryView = Seq<(Seq<char>, ValueView)>;

impl View for FrontmatterQuery {
    type V = QueryView;

    closed spec fn view(&self) -> QueryView {
        Seq::new(self.entries@.len(), |i: int| (self.entries@[i].0@, self.entries@[i].1@))
    }
}

/// Subset match of a whole query against a frontmatter mapping: every query
/// field must be present in the mapping and match as a subset.
pub open spec fn query_is_subset(q: QueryView, doc: Seq<(Seq<char>, ValueView)>) -> bool {
    forall|i: int| 0 <= i < q.len() ==> match view_get(doc, (#[trigger] q[i]).0) {
        Some(v) => value_is_subset(q[i].1, v),
        None => false,
    }
}

/// Intersect match of a whole query against a frontmatter mapping.
pub open spec fn query_is_intersect(q: QueryView, doc: Seq<(Seq<char>, ValueView)>) -> bool {
    forall|i: int| 0 <= i < q.len() ==> match view_get(doc, (#[trigger] q[i]).0) {
        Some(v) => value_is_intersect(q[i].1, v),
        None => false,
    }
}

impl Scalar {
    /// Whether this query scalar equals the given document value.
    pub fn matches(&self, fm_scalar: &Value) -> (r: bool)
        ensures
            r == scalar_matches(self@, fm_scalar@),
    {
        match (self, fm_scalar) {
            (Scalar::Str(a), Value::Str(b)) => crate::text::str_eq(a.as_str(), b.as_str()),
            (Scalar::Num(a), Value::Num(b)) => crate::text::str_eq(a.as_str(), b.as_str()),
            (Scalar::Bool(a), Value::Bool(b)) => *a == *b,
            (Scalar::Null, Value::Null) => true,
            _ => false,
        }
    }
}

/// Whether some element of `items` matches the query scalar `q`.
fn any_item_matches(q: &Scalar, items: &Vec<Value>) -> (r: bool)
    ensures
        r == some_element_matches(q@, crate::value::item_views(items@)),
{
    let ghost ivs = crate::value::item_views(items@);
    proof {
        crate::value::lemma_item_views(items@);
    }
    let n = items.len();
    let mut j: usize = 0;
    while j < n
        invariant
            n == items@.len(),
            ivs == crate::value::item_views(items@),
            ivs.len() == n,
            forall|k: int| 0 <= k < n ==> #[trigger] ivs[k] == crate::value::value_view(items@[k]),
            0 <= j <= n,
            forall|k: int| 0 <= k < j ==> !scalar_matches(q@, #[trigger] ivs[k]),
        decreases n - j,
    {
        if q.matches(&items[j]) {
            proof {
                assert(scalar_matches(q@, ivs[j as int]));
            }
            return true;
        }
        j += 1;
    }
    false
}

impl QueryValue {
    /// Subset match of this query value against a document value.
    pub fn is_subset(&self, fm_value: &Value) -> (r: bool)
        ensures
            r == value_is_subset(self@, fm_value@),
    {
        match (self, fm_value) {
            (QueryValue::Sequence(scalars), Value::Sequence(items)) => {
                let ghost qvs = Seq::new(scalars@.len(), |k: int| scalars@[k]@);
                let ghost ivs = crate::value::item_views(items@);
                let n = scalars.len();
                let mut i: usize = 0;
                while i < n
                    invariant
                        n == scalars@.len(),
                        qvs == Seq::new(scalars@.len(), |k: int| scalars@[k]@),
                        ivs == crate::value::item_views(items@),
                        self@ == ValueView::Sequence(qvs),
                        fm_value@ == ValueView::Sequence(ivs),
                        0 <= i <= n,
                        forall|k: int| 0 <= k < i ==> some_element_matches(#[trigger] qvs[k], ivs),
                    decreases n - i,
                {
                    if !any_item_matches(&scalars[i], items) {
                        proof {
                            assert(qvs[i as int] == scalars@[i as int]@);
                            assert(!seq_is_subset(qvs, ivs));
                        }
                        return false;
                    }
                    proof {
                        assert(qvs[i as int] == scalars@[i as int]@);
                    }
                    i += 1;
                }
                true
            },
            (QueryValue::Sequence(scalars), _) => false,
            (QueryValue::Scalar(s), v) => s.matches(v),
        }
    }

    /// Intersect match of this query value against a document value.
    pub fn is_intersect(&self, fm_value: &Value) -> (r: bool)
        ensures
            r == value_is_intersect(self@, fm_value@),
    {
        match (self, fm_value) {
            (QueryValue::Sequence(scalars), Value::Sequence(items)) => {
                let ghost qvs = Seq::new(scalars@.len(), |k: int| scalars@[k]@);
                let ghost ivs = crate::value::item_views(items@);
                let n = scalars.len();
                if n == 0 {
                    return true;
                }
                let mut i: usize = 0;
                while i < n
                    invariant
                        n == scalars@.len(),
                        qvs == Seq::new(scalars@.len(), |k: int| scalars@[k]@),
                        ivs == crate::value::item_views(items@),
                        self@ == ValueView::Sequence(qvs),
                        fm_value@ == ValueView::Sequence(ivs),
                        0 <= i <= n,
                        forall|k: int| 0 <= k < i ==> !some_element_matches(#[trigger] qvs[k], ivs),
                    decreases n - i,
                {
                    if any_item_matches(&scalars[i], items) {
                        proof {
                            assert(qvs[i as int] == scalars@[i as int]@);
                            assert(some_element_matches(qvs[i as int], ivs));
                        }
                        return true;
                    }
                    proof {
                        assert(qvs[i as int] == scalars@[i as int]@);
                    }
                    i += 1;
                }
                false
            },
            (QueryValue::Sequence(scalars), _) => false,
            (QueryValue::Scalar(s), v) => s.matches(v),
        }
    }
}

impl FrontmatterQuery {
    /// The query with no fields.
    pub fn new() -> (r: FrontmatterQuery)
        ensures
            r@ == Seq::<(Seq<char>, ValueView)>::empty(),
            r.wf(),
    {
        let entries: Vec<(String, QueryValue)> = Vec::new();
        let r = FrontmatterQuery { entries };
        proof {
            assert(r@ =~= Seq::<(Seq<char>, ValueView)>::empty());
        }
        r
    }

    /// Key uniqueness, as a mapping-shaped request body would give.
    pub open spec fn wf(&self) -> bool {
        crate::value::distinct_keys(self@)
    }

    /// Whether the query has no fields at all; such a query matches every
    /// document.
    pub fn is_empty(&self) -> (r: bool)
        ensures
            r == (self@.len() == 0),
    {
        self.entries.len() == 0
    }

    /// Subset match of this query against a document's frontmatter mapping:
    /// every field must be present and match as a subset.
    pub fn is_subset(&self, json_frontmatter: &Mapping) -> (r: bool)
        ensures
            r == query_is_subset(self@, json_frontmatter@),
    {
        let n = self.entries.len();
        let mut i: usize = 0;
        while i < n
            invariant
                n == self.entries@.len(),
                self@.len() == n,
                0 <= i <= n,
                forall|k: int| 0 <= k < i ==> match view_get(
                    json_frontmatter@,
                    (#[trigger] self@[k]).0,
                ) {
                    Some(v) => value_is_subset(self@[k].1, v),
                    None => false,
                },
            decreases n - i,
        {
            proof {
                assert(self@[i as int] == (self.entries@[i as int].0@, self.entries@[i as int].1@));
            }
            let fm_value = json_frontmatter.get(self.entries[i].0.as_str());
            match fm_value {
                Some(v) => {
                    if !self.entries[i].1.is_subset(v) {
                        proof {
                            assert(view_get(json_frontmatter@, self@[i as int].0) == Some(v@));
                        }
                        return false;
                    }
                },
                None => {
                    proof {
                        assert(view_get(json_frontmatter@, self@[i as int].0) is None);
                    }
                    return false;
                },
            }
            i += 1;
        }
        true
    }

    /// Intersect match of this query against a document's frontmatter
    /// mapping: every field must be present and intersect.
    pub fn is_intersect(&self, json_frontmatter: &Mapping) -> (r: bool)
        ensures
            r == query_is_intersect(self@, json_frontmatter@),
    {
        let n = self.entries.len();
        let mut i: usize = 0;
        while i < n
            invariant
                n == self.entries@.len(),
                self@.len() == n,
                0 <= i <= n,
                forall|k: int| 0 <= k < i ==> match view_get(
                    json_frontmatter@,
                    (#[trigger] self@[k]).0,
                ) {
                    Some(v) => value_is_intersect(self@[k].1, v),
                    None => false,
                },
            decreases n - i,
        {
            proof {
                assert(self@[i as int] == (self.entries@[i as int].0@, self.entries@[i as int].1@));
            }
            let fm_value = json_frontmatter.get(self.entries[i].0.as_str());
            match fm_value {
                Some(v) => {
                    if !self.entries[i].1.is_intersect(v) {
                        proof {
                            assert(view_get(json_frontmatter@, self@[i as int].0) == Some(v@));
                        }
                        return false;
                    }
                },
                None => {
                    proof {
                        assert(view_get(json_frontmatter@, self@[i as int].0) is None);
                    }
                    return false;
                },
            }
            i += 1;
        }
        true
    }

    /// Binds `key` to `value`, replacing the first binding of `key` if one
    /// exists and appending otherwise.
    pub fn insert(&mut self, key: String, value: QueryValue)
        requires
            old(self).wf(),
        ensures
            final(self).wf(),
            (exists|i: int| 0 <= i < old(self)@.len() && (#[trigger] old(self)@[i]).0 == key@)
                ==> exists|i: int|
                0 <= i < old(self)@.len() && (#[trigger] old(self)@[i]).0 == key@ && final(self)@
                    =~= old(self)@.update(i, (key@, value@)),
            !(exists|i: int| 0 <= i < old(self)@.len() && (#[trigger] old(self)@[i]).0 == key@)
                ==> final(self)@ =~= old(self)@.push((key@, value@)),
    {
        let n = self.entries.len();
        let mut i: usize = 0;
        while i < n
            invariant
                self == old(self),
                old(self).wf(),
                n == self.entries@.len(),
                0 <= i <= n,
                forall|j: int| 0 <= j < i ==> (#[trigger] self@[j]).0 != key@,
            decreases n - i,
        {
            if crate::text::string_eq_str(&self.entries[i].0, key.as_str()) {
                let ghost idx = i as int;
                let ghost kv = key@;
                let ghost vv = value@;
                self.entries[i] = (key, value);
                proof {
                    assert(old(self)@[idx].0 == kv);
                    assert(self@ =~= old(self)@.update(idx, (kv, vv)));
                    assert forall|a: int, b: int|
                        0 <= a < b < self@.len() implies (#[trigger] self@[a]).0 != (
                    #[trigger] self@[b]).0 by {
                        assert(old(self)@[a].0 != old(self)@[b].0);
                    }
                }
                return;
            }
            i += 1;
        }
        let ghost kv = key@;
        let ghost vv = value@;
        self.entries.push((key, value));
        proof {
            assert(self@ =~= old(self)@.push((kv, vv)));
            assert forall|a: int, b: int|
                0 <= a < b < self@.len() implies (#[trigger] self@[a]).0 != (
            #[trigger] self@[b]).0 by {
                if b < self@.len() - 1 {
                    assert(old(self)@[a].0 != old(self)@[b].0);
                } else {
                    assert(old(self)@[a].0 != kv);
                }
            }
        }
    }
}

} // verus!
