//! The closed structured-value model.
//!
//! Parsed frontmatter is represented by [`Value`] trees: strings, numbers,
//! booleans, null, sequences and mappings. The decode boundary (outside this
//! crate) turns YAML or JSON text into these trees; inside the crate every
//! rule is stated and proved over the views [`ValueView`] built from
//! mathematical sequences.

use vstd::prelude::*;

verus! {

broadcast use vstd::std_specs::vec::axiom_vec_index_decreases;

/// A structured value as it appears in a document's frontmatter.
///
/// A number is carried by the canonical decimal rendering of its decoded
/// value, produced at the decode boundary; that rendering is injective, so
/// equality of renderings is exactly equality of decoded values.
#[derive(Debug)]
pub enum Value {
    Str(String),
    Num(String),
    Bool(bool),
    Null,
    Sequence(Vec<Value>),
    Mapping(Mapping),
}

/// A mapping from string keys to structured values with pairwise distinct
/// keys, in the order the decoder produced them.
#[derive(Debug)]
pub struct Mapping {
    entries: Vec<(String, Value)>,
}

/// The mathematical shape of a [`Value`].
#[verifier::ext_equal]
pub enum ValueView {
    Str(Seq<char>),
    Num(Seq<char>),
    Bool(bool),
    Null,
    Sequence(Seq<ValueView>),
    Mapping(Seq<(Seq<char>, ValueView)>),
}

/// The view of one value.
pub open spec fn value_view(v: Value) -> ValueView
    decreases v,
{
    match v {
        Value::Str(s) => ValueView::Str(s@),
        Value::Num(s) => ValueView::Num(s@),
        Value::Bool(b) => ValueView::Bool(b),
        Value::Null => ValueView::Null,
        Value::Sequence(items) => ValueView::Sequence(item_views(items@)),
        Value::Mapping(m) => ValueView::Mapping(mapping_view(m)),
    }
}

/// The views of a sequence of values, elementwise.
pub open spec fn item_views(items: Seq<Value>) -> Seq<ValueView>
    decreases items,
{
    if items.len() == 0 {
        Seq::empty()
    } else {
        item_views(items.drop_last()).push(value_view(items.last()))
    }
}

/// The views of a sequence of mapping entries, elementwise.
pub open spec fn entry_views(entries: Seq<(String, Value)>) -> Seq<(Seq<char>, ValueView)>
    decreases entries,
{
    if entries.len() == 0 {
        Seq::empty()
    } else {
        entry_views(entries.drop_last()).push(
            (entries.last().0@, value_view(entries.last().1)),
        )
    }
}

/// The view of a mapping: its entries' views, in order.
pub closed spec fn mapping_view(m: Mapping) -> Seq<(Seq<char>, ValueView)>
    decreases m,
{
    entry_views(m.entries@)
}

impl View for Value {
    type V = ValueView;

    open spec fn view(&self) -> ValueView {
        value_view(*self)
    }
}

impl View for Mapping {
    type V = Seq<(Seq<char>, ValueView)>;

    open spec fn view(&self) -> Seq<(Seq<char>, ValueView)> {
        mapping_view(*self)
    }
}

/// `item_views` maps the view pointwise.
pub proof fn lemma_item_views(items: Seq<Value>)
    ensures
        item_views(items).len() == items.len(),
        forall|i: int| 0 <= i < items.len() ==> item_views(items)[i] == value_view(items[i]),
    decreases items,
{
    if items.len() > 0 {
        lemma_item_views(items.drop_last());
        assert forall|i: int| 0 <= i < items.len() implies item_views(items)[i] == value_view(
            items[i],
        ) by {
            if i < items.len() - 1 {
                assert(items.drop_last()[i] == items[i]);
            } else {
                assert(items[i] == items.last());
            }
        }
    }
}

/// `entry_views` maps the view pointwise.
pub proof fn lemma_entry_views(entries: Seq<(String, Value)>)
    ensures
        entry_views(entries).len() == entries.len(),
        forall|i: int| 0 <= i < entries.len() ==> entry_views(entries)[i] == (
            entries[i].0@,
            value_view(entries[i].1),
        ),
    decreases entries,
{
    if entries.len() > 0 {
        lemma_entry_views(entries.drop_last());
        assert forall|i: int| 0 <= i < entries.len() implies entry_views(entries)[i] == (
            entries[i].0@,
            value_view(entries[i].1),
        ) by {
            if i < entries.len() - 1 {
                assert(entries.drop_last()[i] == entries[i]);
            } else {
                assert(entries[i] == entries.last());
            }
        }
    }
}

/// The value at `key` in a mapping view: the first entry whose key matches.
pub open spec fn view_get(m: Seq<(Seq<char>, ValueView)>, key: Seq<char>) -> Option<ValueView>
    decreases m.len(),
{
    if m.len() == 0 {
        None
    } else if m[0].0 == key {
        Some(m[0].1)
    } else {
        view_get(m.drop_first(), key)
    }
}

/// A mapping's keys are pairwise distinct.
pub open spec fn distinct_keys(m: Seq<(Seq<char>, ValueView)>) -> bool {
    forall|i: int, j: int| 0 <= i < j < m.len() ==> m[i].0 != m[j].0
}

impl Mapping {
    /// The mapping with no entries.
    pub fn empty() -> (r: Mapping)
        ensures
            r@ == Seq::<(Seq<char>, ValueView)>::empty(),
            r.wf(),
    {
        let entries: Vec<(String, Value)> = Vec::new();
        let r = Mapping { entries };
        proof {
            assert(r@ =~= Seq::<(Seq<char>, ValueView)>::empty());
        }
        r
    }

    /// Key uniqueness, the invariant every constructor establishes.
    pub open spec fn wf(&self) -> bool {
        distinct_keys(self@)
    }

    pub fn len(&self) -> (n: usize)
        ensures
            n == self@.len(),
    {
        proof {
            lemma_entry_views(self.entries@);
        }
        self.entries.len()
    }

    /// Binds `key` to `value`, replacing the first binding of `key` if one
    /// exists and appending otherwise.
    pub fn insert(&mut self, key: String, value: Value)
        requires
            old(self).wf(),
        ensures
            final(self).wf(),
            (exists|i: int| 0 <= i < old(self)@.len() && (#[trigger] old(self)@[i]).0 == key@)
                ==> exists|i: int|
                0 <= i < old(self)@.len() && (#[trigger] old(self)@[i]).0 == key@ && final(self)@
                    =~= old(self)@.update(i, (key@, value@)),
            !(exists|i: int| 0 <= i < old(self)@.len() && (#[trigger] old(self)@[i]).0 == key@)
                ==> final(self)@ =~= old(self)@.push((key@, value@)),
    {
        proof {
            lemma_entry_views(self.entries@);
        }
        let n = self.entries.len();
        let mut i: usize = 0;
        while i < n
            invariant
                self == old(self),
                old(self).wf(),
                n == self.entries@.len(),
                self@.len() == n,
                forall|j: int| 0 <= j < n ==> #[trigger] self@[j] == (
                    self.entries@[j].0@,
                    value_view(self.entries@[j].1),
                ),
                0 <= i <= n,
                forall|j: int| 0 <= j < i ==> (#[trigger] self@[j]).0 != key@,
            decreases n - i,
        {
            if crate::text::string_eq_str(&self.entries[i].0, key.as_str()) {
                let ghost idx = i as int;
                let ghost kv = key@;
                let ghost vv = value_view(value);
                self.entries[i] = (key, value);
                proof {
                    assert(old(self)@[idx].0 == kv);
                    lemma_entry_views(self.entries@);
                    assert(self@ =~= old(self)@.update(idx, (kv, vv)));
                    assert forall|a: int, b: int|
                        0 <= a < b < self@.len() implies (#[trigger] self@[a]).0 != (
                    #[trigger] self@[b]).0 by {
                        assert(old(self)@[a].0 != old(self)@[b].0);
                    }
                }
                return;
            }
            i += 1;
        }
        let ghost kv = key@;
        let ghost vv = value_view(value);
        self.entries.push((key, value));
        proof {
            lemma_entry_views(self.entries@);
            assert(self@ =~= old(self)@.push((kv, vv)));
            assert forall|a: int, b: int|
                0 <= a < b < self@.len() implies (#[trigger] self@[a]).0 != (
            #[trigger] self@[b]).0 by {
                if b < self@.len() - 1 {
                    assert(old(self)@[a].0 != old(self)@[b].0);
                } else {
                    assert(old(self)@[a].0 != kv);
                }
            }
        }
    }

    /// The entries, in order: the backing of the view.
    pub fn entries(&self) -> (r: &Vec<(String, Value)>)
        ensures
            r@.len() == self@.len(),
            forall|i: int| 0 <= i < r@.len() ==> #[trigger] self@[i] == (
                r@[i].0@,
                value_view(r@[i].1),
            ),
    {
        proof {
            lemma_entry_views(self.entries@);
        }
        &self.entries
    }

    /// Looks up `key`, returning the value of the first entry bound to it.
    pub fn get(&self, key: &str) -> (r: Option<&Value>)
        ensures
            match r {
                Some(v) => view_get(self@, key@) == Some(v@),
                None => view_get(self@, key@) is None,
            },
    {
        proof {
            lemma_entry_views(self.entries@);
            assert(self@.skip(0) =~= self@);
        }
        let n = self.entries.len();
        let mut i: usize = 0;
        while i < n
            invariant
                n == self.entries@.len(),
                self@.len() == n,
                0 <= i <= n,
                view_get(self@, key@) == view_get(self@.skip(i as int), key@),
                forall|j: int| 0 <= j < n ==> self@[j] == (self.entries@[j].0@, self.entries@[j].1@),
            decreases n - i,
        {
            proof {
                assert(self@.skip(i as int)[0] == self@[i as int]);
                assert(self@.skip(i as int).drop_first() =~= self@.skip(i + 1));
            }
            if crate::text::string_eq_str(&self.entries[i].0, key) {
                return Some(&self.entries[i].1);
            }
            i += 1;
        }
        proof {
            assert(self@.skip(n as int) =~= Seq::<(Seq<char>, ValueView)>::empty());
        }
        None
    }
}

impl Clone for Value {
    /// A clone has the same view.
    fn clone(&self) -> (res: Self)
        ensures
            res@ == self@,
        decreases self,
    {
        match self {
            Value::Str(s) => Value::Str(s.clone()),
            Value::Num(s) => Value::Num(s.clone()),
            Value::Bool(b) => Value::Bool(*b),
            Value::Null => Value::Null,
            Value::Sequence(items) => Value::Sequence(clone_values(items)),
            Value::Mapping(m) => Value::Mapping(m.clone()),
        }
    }
}

/// Clones every value of a vector; the views are unchanged.
fn clone_values(items: &Vec<Value>) -> (out: Vec<Value>)
    ensures
        item_views(out@) == item_views(items@),
    decreases items,
{
    let n = items.len();
    let mut out: Vec<Value> = Vec::new();
    let mut j: usize = 0;
    while j < n
        invariant
            n == items@.len(),
            0 <= j <= n,
            out@.len() == j,
            forall|k: int| 0 <= k < j ==> value_view(#[trigger] out@[k]) == value_view(items@[k]),
        decreases n - j,
    {
        out.push(items[j].clone());
        j += 1;
    }
    proof {
        lemma_item_views(out@);
        lemma_item_views(items@);
        assert(item_views(out@) =~= item_views(items@));
    }
    out
}

/// Clones every entry of a mapping's backing vector; the views are
/// unchanged.
fn clone_entries(entries: &Vec<(String, Value)>) -> (out: Vec<(String, Value)>)
    ensures
        entry_views(out@) == entry_views(entries@),
    decreases entries,
{
    let n = entries.len();
    let mut out: Vec<(String, Value)> = Vec::new();
    let mut j: usize = 0;
    while j < n
        invariant
            n == entries@.len(),
            0 <= j <= n,
            out@.len() == j,
            forall|k: int|
                0 <= k < j ==> (#[trigger] out@[k]).0@ == entries@[k].0@ && value_view(out@[k].1)
                    == value_view(entries@[k].1),
        decreases n - j,
    {
        let key = entries[j].0.clone();
        let val = entries[j].1.clone();
        out.push((key, val));
        j += 1;
    }
    proof {
        lemma_entry_views(out@);
        lemma_entry_views(entries@);
        assert(entry_views(out@) =~= entry_views(entries@));
    }
    out
}

impl Clone for Mapping {
    /// A clone has the same view.
    fn clone(&self) -> (res: Self)
        ensures
            res@ == self@,
        decreases self,
    {
        Mapping { entries: clone_entries(&self.entries) }
    }
}

/// The canonical rendering of a value, used as a sort key: strings and
/// numbers render as themselves, booleans and null as their names, and
/// sequences and mappings in a bracketed, comma-separated form. Documents
/// are ordered under an explicit sort key by plain lexical comparison of
/// these renderings.
pub open spec fn spec_render(v: ValueView) -> Seq<char>
    decreases v,
{
    match v {
        ValueView::Str(s) => s,
        ValueView::Num(s) => s,
        ValueView::Bool(b) => if b {
            "true"@
        } else {
            "false"@
        },
        ValueView::Null => "null"@,
        ValueView::Sequence(items) => "["@ + spec_render_items(items) + "]"@,
        ValueView::Mapping(m) => "{"@ + spec_render_entries(m) + "}"@,
    }
}

/// The renderings of a sequence's elements, comma-separated.
pub open spec fn spec_render_items(items: Seq<ValueView>) -> Seq<char>
    decreases items,
{
    if items.len() == 0 {
        Seq::empty()
    } else if items.len() == 1 {
        spec_render(items[0])
    } else {
        spec_render_items(items.drop_last()) + ", "@ + spec_render(items.last())
    }
}

/// The renderings of a mapping's entries, comma-separated.
pub open spec fn spec_render_entries(m: Seq<(Seq<char>, ValueView)>) -> Seq<char>
    decreases m,
{
    if m.len() == 0 {
        Seq::empty()
    } else if m.len() == 1 {
        m[0].0 + ": "@ + spec_render(m[0].1)
    } else {
        spec_render_entries(m.drop_last()) + ", "@ + m.last().0 + ": "@ + spec_render(m.last().1)
    }
}

impl Value {
    /// Renders this value canonically.
    pub fn render(&self) -> (r: String)
        ensures
            r@ == spec_render(self@),
        decreases self,
    {
        match self {
            Value::Str(s) => s.clone(),
            Value::Num(s) => s.clone(),
            Value::Bool(b) => if *b {
                "true".to_owned()
            } else {
                "false".to_owned()
            },
            Value::Null => "null".to_owned(),
            Value::Sequence(items) => {
                let mut acc = "[".to_owned();
                let inner = render_values(items);
                acc.append(inner.as_str());
                acc.append("]");
                acc
            },
            Value::Mapping(m) => {
                let mut acc = "{".to_owned();
                let inner = render_mapping_entries(&m.entries);
                acc.append(inner.as_str());
                acc.append("}");
                acc
            },
        }
    }
}

/// Renders a vector of values, comma-separated.
fn render_values(items: &Vec<Value>) -> (r: String)
    ensures
        r@ == spec_render_items(item_views(items@)),
    decreases items,
{
    let ghost ivs = item_views(items@);
    proof {
        lemma_item_views(items@);
        assert(ivs.take(0) =~= Seq::<ValueView>::empty());
    }
    let n = items.len();
    let mut acc = String::new();
    let mut j: usize = 0;
    while j < n
        invariant
            n == items@.len(),
            ivs == item_views(items@),
            ivs.len() == n,
            forall|k: int| 0 <= k < n ==> #[trigger] ivs[k] == value_view(items@[k]),
            0 <= j <= n,
            acc@ == spec_render_items(ivs.take(j as int)),
        decreases n - j,
    {
        proof {
            assert(ivs.take(j + 1).drop_last() =~= ivs.take(j as int));
            assert(ivs.take(j + 1).last() == ivs[j as int]);
        }
        if j > 0 {
            acc.append(", ");
        }
        let rendered = items[j].render();
        acc.append(rendered.as_str());
        proof {
            if j == 0 {
                assert(acc@ =~= spec_render_items(ivs.take(j + 1)));
            }
        }
        j += 1;
    }
    proof {
        assert(ivs.take(n as int) =~= ivs);
    }
    acc
}

/// Renders a vector of mapping entries, comma-separated.
fn render_mapping_entries(entries: &Vec<(String, Value)>) -> (r: String)
    ensures
        r@ == spec_render_entries(entry_views(entries@)),
    decreases entries,
{
    let ghost evs = entry_views(entries@);
    proof {
        lemma_entry_views(entries@);
        assert(evs.take(0) =~= Seq::<(Seq<char>, ValueView)>::empty());
    }
    let n = entries.len();
    let mut acc = String::new();
    let mut j: usize = 0;
    while j < n
        invariant
            n == entries@.len(),
            evs == entry_views(entries@),
            evs.len() == n,
            forall|k: int| 0 <= k < n ==> #[trigger] evs[k] == (
                entries@[k].0@,
                value_view(entries@[k].1),
            ),
            0 <= j <= n,
            acc@ == spec_render_entries(evs.take(j as int)),
        decreases n - j,
    {
        proof {
            assert(evs.take(j + 1).drop_last() =~= evs.take(j as int));
            assert(evs.take(j + 1).last() == evs[j as int]);
        }
        if j > 0 {
            acc.append(", ");
        }
        acc.append(entries[j].0.as_str());
        acc.append(": ");
        let rendered = entries[j].1.render();
        acc.append(rendered.as_str());
        proof {
            if j == 0 {
                assert(acc@ =~= spec_render_entries(evs.take(j + 1)));
            }
        }
        j += 1;
    }
    proof {
        assert(evs.take(n as int) =~= evs);
    }
    acc
}

} // verus!
