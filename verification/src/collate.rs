//! The collate operation: gather the distinct string values one frontmatter
//! field takes across the matching documents, sorted ascending.

use vstd::prelude::*;

use crate::frontmatter_file::{doc_views, DocView, FrontmatterFile};
use crate::frontmatter_query::FrontmatterQuery;
use crate::keeper::Keeper;
use crate::text::{lex_le, lemma_lex_le_antisym, lemma_lex_le_total, lemma_lex_le_trans, str_eq};
use crate::value::{view_get, Value, ValueView};
use crate::filter_docs;

verus! {

/// The views of a sequence of strings, elementwise.
pub open spec fn string_views(s: Seq<String>) -> Seq<Seq<char>> {
    Seq::new(s.len(), |i: int| s[i]@)
}

/// Ascending lexicographic order.
pub open spec fn sorted_strings(s: Seq<Seq<char>>) -> bool {
    forall|i: int, j: int| 0 <= i < j < s.len() ==> lex_le(#[trigger] s[i], #[trigger] s[j])
}

/// The string elements of a sequence value, in order; elements of any other
/// shape contribute nothing.
pub open spec fn strings_of(items: Seq<ValueView>) -> Seq<Seq<char>>
    decreases items,
{
    if items.len() == 0 {
        Seq::empty()
    } else {
        let rest = strings_of(items.drop_last());
        match items.last() {
            ValueView::Str(s) => rest.push(s),
            _ => rest,
        }
    }
}

/// What one document contributes at `key`: a string scalar contributes
/// itself, a sequence its string elements, anything else nothing.
pub open spec fn extract_one(d: DocView, key: Seq<char>) -> Seq<Seq<char>> {
    match d.frontmatter {
        None => Seq::empty(),
        Some(m) => match view_get(m, key) {
            Some(ValueView::Str(s)) => seq![s],
            Some(ValueView::Sequence(items)) => strings_of(items),
            _ => Seq::empty(),
        },
    }
}

/// Every contribution at `key` across the documents, in order.
pub open spec fn extract_all(docs: Seq<DocView>, key: Seq<char>) -> Seq<Seq<char>>
    decreases docs,
{
    if docs.len() == 0 {
        Seq::empty()
    } else {
        extract_all(docs.drop_last(), key) + extract_one(docs.last(), key)
    }
}

/// The strings a value contributes: itself for a string, its string elements
/// for a sequence, nothing otherwise.
fn strings_of_value(v: &Value) -> (r: Vec<String>)
    ensures
        string_views(r@) == (match v@ {
            ValueView::Str(s) => seq![s],
            ValueView::Sequence(items) => strings_of(items),
            _ => Seq::<Seq<char>>::empty(),
        }),
{
    match v {
        Value::Str(s) => {
            let mut r: Vec<String> = Vec::new();
            r.push(s.clone());
            proof {
                assert(string_views(r@) =~= seq![s@]);
            }
            r
        },
        Value::Sequence(items) => {
            let ghost ivs = crate::value::item_views(items@);
            proof {
                crate::value::lemma_item_views(items@);
                assert(strings_of(ivs.take(0)) =~= Seq::<Seq<char>>::empty());
            }
            let n = items.len();
            let mut r: Vec<String> = Vec::new();
            let mut i: usize = 0;
            while i < n
                invariant
                    n == items@.len(),
                    ivs == crate::value::item_views(items@),
                    ivs.len() == n,
                    forall|k: int|
                        0 <= k < n ==> #[trigger] ivs[k] == crate::value::value_view(items@[k]),
                    0 <= i <= n,
                    string_views(r@) == strings_of(ivs.take(i as int)),
                decreases n - i,
            {
                proof {
                    assert(ivs.take(i + 1).drop_last() =~= ivs.take(i as int));
                    assert(ivs.take(i + 1).last() == ivs[i as int]);
                }
                let ghost prev = string_views(r@);
                match &items[i] {
                    Value::Str(s) => {
                        r.push(s.clone());
                        proof {
                            assert(string_views(r@) =~= prev.push(s@));
                        }
                    },
                    _ => {},
                }
                i += 1;
                proof {
                    assert(string_views(r@) =~= strings_of(ivs.take(i as int)));
                }
            }
            proof {
                assert(ivs.take(n as int) =~= ivs);
            }
            r
        },
        _ => {
            let r: Vec<String> = Vec::new();
            proof {
                assert(string_views(r@) =~= Seq::<Seq<char>>::empty());
            }
            r
        },
    }
}

/// Gathers every contribution at `key` across the documents, in order.
pub fn collate_strings_from_files(files: &Vec<FrontmatterFile>, key: &str) -> (r: Vec<String>)
    ensures
        string_views(r@) == extract_all(doc_views(files@), key@),
{
    let ghost dvs = doc_views(files@);
    let n = files.len();
    let mut r: Vec<String> = Vec::new();
    let mut i: usize = 0;
    proof {
        assert(extract_all(dvs.take(0), key@) =~= Seq::<Seq<char>>::empty());
        assert(string_views(r@) =~= extract_all(dvs.take(0), key@));
    }
    while i < n
        invariant
            n == files@.len(),
            dvs == doc_views(files@),
            dvs.len() == n,
            0 <= i <= n,
            string_views(r@) == extract_all(dvs.take(i as int), key@),
        decreases n - i,
    {
        proof {
            assert(dvs.take(i + 1).drop_last() =~= dvs.take(i as int));
            assert(dvs.take(i + 1).last() == dvs[i as int]);
        }
        let ghost prev = string_views(r@);
        match files[i].frontmatter() {
            Some(m) => {
                match m.get(key) {
                    Some(v) => {
                        let mut found = strings_of_value(v);
                        let ghost cvs = string_views(found@);
                        let cn = found.len();
                        let mut j: usize = 0;
                        while j < cn
                            invariant
                                cn == found@.len(),
                                cvs == string_views(found@),
                                cvs.len() == cn,
                                0 <= j <= cn,
                                string_views(r@) == prev + cvs.take(j as int),
                            decreases cn - j,
                        {
                            let ghost mid = string_views(r@);
                            r.push(found[j].clone());
                            j += 1;
                            proof {
                                assert(string_views(r@) =~= mid.push(cvs[j - 1]));
                                assert(mid.push(cvs[j - 1]) =~= prev + cvs.take(j as int));
                            }
                        }
                        proof {
                            assert(cvs.take(cn as int) =~= cvs);
                            assert(extract_one(dvs[i as int], key@) == cvs);
                            assert(string_views(r@) =~= extract_all(dvs.take(i + 1), key@));
                        }
                    },
                    None => {
                        proof {
                            assert(extract_one(dvs[i as int], key@) =~= Seq::<Seq<char>>::empty());
                            assert(string_views(r@) =~= extract_all(dvs.take(i + 1), key@));
                        }
                    },
                }
            },
            None => {
                proof {
                    assert(extract_one(dvs[i as int], key@) =~= Seq::<Seq<char>>::empty());
                    assert(string_views(r@) =~= extract_all(dvs.take(i + 1), key@));
                }
            },
        }
        i += 1;
    }
    proof {
        assert(dvs.take(n as int) =~= dvs);
    }
    r
}

/// Appending one element inserts it into the sequence's set.
proof fn lemma_push_to_set(s: Seq<Seq<char>>, x: Seq<char>)
    ensures
        s.push(x).to_set() =~= s.to_set().insert(x),
{
    assert forall|y: Seq<char>| s.push(x).to_set().contains(y) implies s.to_set().insert(
        x,
    ).contains(y) by {
        let k = choose|k: int| 0 <= k < s.push(x).len() && s.push(x)[k] == y;
        if k < s.len() {
            assert(s[k] == y);
        }
    }
    assert forall|y: Seq<char>| s.to_set().insert(x).contains(y) implies s.push(x).to_set().contains(
        y,
    ) by {
        if s.to_set().contains(y) {
            let k = choose|k: int| 0 <= k < s.len() && s[k] == y;
            assert(s.push(x)[k] == y);
        } else {
            assert(s.push(x)[s.len() as int] == y);
        }
    }
}

/// Taking one more element inserts it into the prefix's set.
proof fn lemma_take_to_set(s: Seq<Seq<char>>, i: int)
    requires
        0 <= i < s.len(),
    ensures
        s.take(i + 1).to_set() =~= s.take(i).to_set().insert(s[i]),
{
    assert(s.take(i + 1) =~= s.take(i).push(s[i]));
    lemma_push_to_set(s.take(i), s[i]);
}

/// Sequences with equal multisets hold equal sets.
proof fn lemma_multiset_eq_to_set_eq(a: Seq<Seq<char>>, b: Seq<Seq<char>>)
    requires
        a.to_multiset() == b.to_multiset(),
    ensures
        a.to_set() =~= b.to_set(),
{
    broadcast use vstd::seq_lib::group_to_multiset_ensures;

    assert forall|x: Seq<char>| a.to_set().contains(x) implies b.to_set().contains(x) by {
        assert(a.contains(x));
        assert(b.to_multiset().count(x) > 0);
    }
    assert forall|x: Seq<char>| b.to_set().contains(x) implies a.to_set().contains(x) by {
        assert(b.contains(x));
        assert(a.to_multiset().count(x) > 0);
    }
}

/// The index of a least string.
fn index_of_min_string(values: &Vec<String>) -> (m: usize)
    requires
        values@.len() > 0,
    ensures
        m < values@.len(),
        forall|j: int|
            0 <= j < values@.len() ==> lex_le(values@[m as int]@, (#[trigger] values@[j])@),
{
    let n = values.len();
    let mut m: usize = 0;
    let mut j: usize = 1;
    proof {
        lemma_lex_le_total(values@[0]@, values@[0]@);
    }
    while j < n
        invariant
            n == values@.len(),
            0 <= m < j <= n,
            forall|k: int| 0 <= k < j ==> lex_le(values@[m as int]@, (#[trigger] values@[k])@),
        decreases n - j,
    {
        if !crate::text::str_lex_le(values[m].as_str(), values[j].as_str()) {
            proof {
                lemma_lex_le_total(values@[m as int]@, values@[j as int]@);
                assert forall|k: int| 0 <= k < j + 1 implies lex_le(
                    values@[j as int]@,
                    (#[trigger] values@[k])@,
                ) by {
                    if k < j {
                        lemma_lex_le_trans(values@[j as int]@, values@[m as int]@, values@[k]@);
                    } else {
                        lemma_lex_le_total(values@[j as int]@, values@[j as int]@);
                    }
                }
            }
            m = j;
        }
        j += 1;
    }
    m
}

/// Sorts strings ascending; the result is a permutation of the input.
fn sort_strings(values: &mut Vec<String>)
    ensures
        string_views(final(values)@).to_multiset() == string_views(old(values)@).to_multiset(),
        sorted_strings(string_views(final(values)@)),
{
    broadcast use vstd::seq_lib::group_to_multiset_ensures;

    let ghost orig = string_views(old(values)@);
    let mut out: Vec<String> = Vec::new();
    proof {
        assert(string_views(out@) =~= Seq::<Seq<char>>::empty());
        assert(string_views(out@).to_multiset().add(string_views(values@).to_multiset())
            =~= orig.to_multiset());
    }
    while values.len() > 0
        invariant
            string_views(out@).to_multiset().add(string_views(values@).to_multiset()) == orig
                .to_multiset(),
            sorted_strings(string_views(out@)),
            forall|x: int, y: int|
                0 <= x < out@.len() && 0 <= y < values@.len() ==> lex_le(
                    (#[trigger] out@[x])@,
                    (#[trigger] values@[y])@,
                ),
        decreases values@.len(),
    {
        broadcast use vstd::seq_lib::group_to_multiset_ensures;

        let ghost pre_vals = string_views(values@);
        let ghost pre_out = string_views(out@);
        let m = index_of_min_string(values);
        let ghost mi = m as int;
        let s = values.remove(m);
        out.push(s);
        proof {
            assert(string_views(values@) =~= pre_vals.remove(mi));
            assert(string_views(out@) =~= pre_out.push(pre_vals[mi]));
            assert(pre_vals.remove(mi).to_multiset() =~= pre_vals.to_multiset().remove(
                pre_vals[mi],
            ));
            assert(pre_out.push(pre_vals[mi]).to_multiset() =~= pre_out.to_multiset().insert(
                pre_vals[mi],
            ));
            assert(pre_vals.to_multiset().contains(pre_vals[mi]));
            assert(string_views(out@).to_multiset().add(string_views(values@).to_multiset())
                =~= pre_out.to_multiset().add(pre_vals.to_multiset()));
        }
    }
    *values = out;
    proof {
        assert(string_views(values@).to_multiset().add(
            Seq::<Seq<char>>::empty().to_multiset(),
        ) =~= orig.to_multiset());
        assert(Seq::<Seq<char>>::empty().to_multiset()
            =~= vstd::multiset::Multiset::<Seq<char>>::empty());
        assert(string_views(values@).to_multiset() =~= orig.to_multiset());
    }
}

/// Drops repeated values of a sorted vector: the result is sorted, free of
/// duplicates, and holds exactly the input's values.
fn dedup_sorted(values: Vec<String>) -> (r: Vec<String>)
    requires
        sorted_strings(string_views(values@)),
    ensures
        sorted_strings(string_views(r@)),
        string_views(r@).no_duplicates(),
        string_views(r@).to_set() == string_views(values@).to_set(),
{
    let ghost vv = string_views(values@);
    let n = values.len();
    let mut r: Vec<String> = Vec::new();
    let mut i: usize = 0;
    proof {
        assert(vv.take(0).to_set() =~= Set::<Seq<char>>::empty());
        assert(string_views(r@).to_set() =~= vv.take(0).to_set());
    }
    while i < n
        invariant
            n == values@.len(),
            vv == string_views(values@),
            vv.len() == n,
            sorted_strings(vv),
            0 <= i <= n,
            sorted_strings(string_views(r@)),
            string_views(r@).no_duplicates(),
            string_views(r@).to_set() == vv.take(i as int).to_set(),
            i == 0 ==> r@.len() == 0,
            i > 0 ==> r@.len() > 0 && string_views(r@).last() == vv[i - 1],
        decreases n - i,
    {
        let ghost rv = string_views(r@);
        proof {
            lemma_take_to_set(vv, i as int);
        }
        let push = if r.len() == 0 {
            true
        } else {
            !str_eq(r[r.len() - 1].as_str(), values[i].as_str())
        };
        if push {
            r.push(values[i].clone());
            proof {
                assert(string_views(r@) =~= rv.push(vv[i as int]));
                lemma_push_to_set(rv, vv[i as int]);
                assert forall|a: int, b: int|
                    0 <= a < b < string_views(r@).len() implies lex_le(
                    (#[trigger] string_views(r@)[a]),
                    (#[trigger] string_views(r@)[b]),
                ) by {
                    if b == string_views(r@).len() - 1 {
                        assert(rv.to_set().contains(rv[a]));
                        assert(vv.take(i as int).to_set().contains(rv[a]));
                        assert(vv.take(i as int).contains(rv[a]));
                        let k = choose|k: int| 0 <= k < i && vv.take(i as int)[k] == rv[a];
                        assert(vv[k] == rv[a]);
                        assert(lex_le(vv[k], vv[i as int]));
                    }
                }
                assert forall|a: int, b: int|
                    0 <= a < b < string_views(r@).len() implies string_views(r@)[a]
                    != string_views(r@)[b] by {
                    if b == string_views(r@).len() - 1 {
                        if a < rv.len() - 1 {
                            if rv[a] == vv[i as int] {
                                assert(lex_le(rv[a], rv[rv.len() - 1]));
                                assert(lex_le(vv[i - 1], vv[i as int]));
                                assert(rv[rv.len() - 1] == vv[i - 1]);
                                lemma_lex_le_trans(vv[i as int], rv[rv.len() - 1], vv[i as int]);
                                lemma_lex_le_antisym(rv[rv.len() - 1], vv[i as int]);
                                assert(false);
                            }
                        }
                    }
                }
            }
        } else {
            proof {
                assert(vv[i as int] == rv.last());
                assert(rv.to_set().contains(rv[rv.len() - 1]));
                assert(string_views(r@).to_set() =~= vv.take(i + 1).to_set());
            }
        }
        i += 1;
    }
    proof {
        assert(vv.take(n as int) =~= vv);
    }
    r
}

/// The arguments of a collate request: the field to gather, and an optional
/// pre-filter.
#[derive(Debug)]
pub struct Args<'a> {
    pub key: &'a str,
    pub query: Option<FrontmatterQuery>,
    pub intersect: bool,
}

/// The documents a collate request ranges over: the matching ones, or all of
/// them without a query.
pub open spec fn collate_source(keeper: &Keeper, query: Option<FrontmatterQuery>, intersect: bool) -> Seq<
    DocView,
> {
    match query {
        Some(q) => filter_docs(keeper.docs(), q@, None, intersect),
        None => keeper.docs(),
    }
}

/// Gathers the distinct string values at `args.key` across the matching
/// documents: sorted ascending, free of duplicates, and holding exactly the
/// strings the matching documents carry at that field.
pub fn collate(keeper: &Keeper, args: Args<'_>) -> (r: Vec<String>)
    ensures
        sorted_strings(string_views(r@)),
        string_views(r@).no_duplicates(),
        string_views(r@).to_set() == extract_all(
            collate_source(keeper, args.query, args.intersect),
            args.key@,
        ).to_set(),
{
    let all = keeper.files();
    let files = match &args.query {
        Some(q) => crate::query_files(&all, q, None, args.intersect),
        None => all,
    };
    proof {
        assert(doc_views(files@) == collate_source(keeper, args.query, args.intersect));
    }
    let mut values = collate_strings_from_files(&files, args.key);
    let ghost extracted = string_views(values@);
    sort_strings(&mut values);
    proof {
        lemma_multiset_eq_to_set_eq(string_views(values@), extracted);
    }
    dedup_sorted(values)
}

/// Gathers the distinct string values at `key` across all documents.
pub fn get(keeper: &Keeper, key: &str) -> (r: Vec<String>)
    ensures
        sorted_strings(string_views(r@)),
        string_views(r@).no_duplicates(),
        string_views(r@).to_set() == extract_all(keeper.docs(), key@).to_set(),
{
    collate(keeper, Args { key, query: None, intersect: false })
}

/// Gathers the distinct string values at `key` across the documents matching
/// `map`.
pub fn query(keeper: &Keeper, key: &str, map: FrontmatterQuery, intersect: bool) -> (r: Vec<String>)
    ensures
        sorted_strings(string_views(r@)),
        string_views(r@).no_duplicates(),
        string_views(r@).to_set() == extract_all(
            filter_docs(keeper.docs(), map@, None, intersect),
            key@,
        ).to_set(),
{
    collate(keeper, Args { key, query: Some(map), intersect })
}

} // verus!
