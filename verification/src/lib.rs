//! A queryable, sortable collection of Markdown documents with structured
//! frontmatter headers.
//!
//! The crate holds the consistency-and-query core of a document server: a
//! document store that mirrors a watched directory, a predicate matcher that
//! evaluates structured queries against document frontmatter, and the
//! list / single / collate query operations built on top of them. Everything
//! here is verified; filesystem access, YAML decoding and the transport
//! layers live outside and hand the library plain values.

pub mod collate;
pub mod frontmatter_file;
pub mod frontmatter_query;
pub mod fs;
pub mod keeper;
pub mod list;
pub mod single;
pub mod text;
pub mod time;
pub mod utf8_filepath;
pub mod value;

use vstd::multiset::Multiset;
use vstd::prelude::*;

use crate::frontmatter_file::{doc_views, file_matches, DocView, FrontmatterFile};
use crate::frontmatter_query::{FrontmatterQuery, QueryView};
use crate::text::lex_le;
use crate::time::{rfc3339_of, Timestamp};
use crate::value::{spec_render, view_get, Mapping, ValueView};

verus! {

/// The sort key a document yields for a field name: the canonical rendering
/// of that field's frontmatter value, or of the creation timestamp where the
/// document has no frontmatter or lacks the field.
pub open spec fn spec_sort_value_parts(
    frontmatter: Option<Seq<(Seq<char>, ValueView)>>,
    created: int,
    key: Seq<char>,
) -> Seq<char> {
    match frontmatter {
        Some(m) => match view_get(m, key) {
            Some(v) => spec_render(v),
            None => rfc3339_of(created),
        },
        None => rfc3339_of(created),
    }
}

/// The sort key a document yields for a field name.
pub open spec fn spec_sort_value(d: DocView, key: Seq<char>) -> Seq<char> {
    spec_sort_value_parts(d.frontmatter, d.created, key)
}

/// Renders one document's sort key for `sort_key`.
pub fn get_sort_value(frontmatter: Option<&Mapping>, created: &Timestamp, sort_key: &str) -> (r:
    String)
    ensures
        r@ == spec_sort_value_parts(
            match frontmatter {
                Some(m) => Some(m@),
                None => None,
            },
            created@,
            sort_key@,
        ),
{
    match frontmatter {
        Some(m) => match m.get(sort_key) {
            Some(v) => v.render(),
            None => created.render(),
        },
        None => created.render(),
    }
}

/// The view of an optional sort key.
pub open spec fn key_view(k: Option<&str>) -> Option<Seq<char>> {
    match k {
        Some(s) => Some(s@),
        None => None,
    }
}

/// The order documents are listed in: under an explicit key, lexical
/// comparison of the rendered sort keys; without one, the natural order by
/// creation time.
pub open spec fn file_le(a: DocView, b: DocView, key: Option<Seq<char>>) -> bool {
    match key {
        Some(k) => lex_le(spec_sort_value(a, k), spec_sort_value(b, k)),
        None => a.created <= b.created,
    }
}

/// `file_le` is total.
pub proof fn lemma_file_le_total(a: DocView, b: DocView, key: Option<Seq<char>>)
    ensures
        file_le(a, b, key) || file_le(b, a, key),
{
    match key {
        Some(k) => crate::text::lemma_lex_le_total(spec_sort_value(a, k), spec_sort_value(b, k)),
        None => {},
    }
}

/// `file_le` is transitive.
pub proof fn lemma_file_le_trans(a: DocView, b: DocView, c: DocView, key: Option<Seq<char>>)
    requires
        file_le(a, b, key),
        file_le(b, c, key),
    ensures
        file_le(a, c, key),
{
    match key {
        Some(k) => crate::text::lemma_lex_le_trans(
            spec_sort_value(a, k),
            spec_sort_value(b, k),
            spec_sort_value(c, k),
        ),
        None => {},
    }
}

/// Ascending order under `file_le`.
pub open spec fn sorted_files(s: Seq<DocView>, key: Option<Seq<char>>) -> bool {
    forall|i: int, j: int| 0 <= i < j < s.len() ==> file_le(#[trigger] s[i], #[trigger] s[j], key)
}

/// Descending order under `file_le`.
pub open spec fn sorted_files_desc(s: Seq<DocView>, key: Option<Seq<char>>) -> bool {
    forall|i: int, j: int| 0 <= i < j < s.len() ==> file_le(#[trigger] s[j], #[trigger] s[i], key)
}

/// Decides `file_le` on two documents.
pub fn file_le_exec(a: &FrontmatterFile, b: &FrontmatterFile, sort_key: Option<&str>) -> (r: bool)
    ensures
        r == file_le(a@, b@, key_view(sort_key)),
{
    match sort_key {
        Some(k) => {
            let va = get_sort_value(a.frontmatter(), a.created(), k);
            let vb = get_sort_value(b.frontmatter(), b.created(), k);
            crate::text::str_lex_le(va.as_str(), vb.as_str())
        },
        None => a.created().le(b.created()),
    }
}

/// The index of a document least under `file_le`.
fn index_of_min(files: &Vec<FrontmatterFile>, sort_key: Option<&str>) -> (m: usize)
    requires
        files@.len() > 0,
    ensures
        m < files@.len(),
        forall|j: int|
            0 <= j < files@.len() ==> file_le(
                files@[m as int]@,
                (#[trigger] files@[j])@,
                key_view(sort_key),
            ),
{
    let ghost kv = key_view(sort_key);
    let n = files.len();
    let mut m: usize = 0;
    let mut j: usize = 1;
    proof {
        lemma_file_le_total(files@[0]@, files@[0]@, kv);
    }
    while j < n
        invariant
            n == files@.len(),
            kv == key_view(sort_key),
            0 <= m < j <= n,
            forall|k: int|
                0 <= k < j ==> file_le(files@[m as int]@, (#[trigger] files@[k])@, kv),
        decreases n - j,
    {
        if !file_le_exec(&files[m], &files[j], sort_key) {
            proof {
                lemma_file_le_total(files@[m as int]@, files@[j as int]@, kv);
                assert forall|k: int| 0 <= k < j + 1 implies file_le(
                    files@[j as int]@,
                    (#[trigger] files@[k])@,
                    kv,
                ) by {
                    if k < j {
                        lemma_file_le_trans(
                            files@[j as int]@,
                            files@[m as int]@,
                            files@[k]@,
                            kv,
                        );
                    } else {
                        lemma_file_le_total(files@[j as int]@, files@[j as int]@, kv);
                    }
                }
            }
            m = j;
        } else {
            proof {
                assert(file_le(files@[m as int]@, files@[j as int]@, kv));
            }
        }
        j += 1;
    }
    m
}

/// Sorts the documents: ascending under the sort key (or the natural order),
/// then reversed when a descending listing was asked for. The result is a
/// permutation of the input; the order between documents with equal sort
/// keys is not specified.
pub fn sort_with_params(sort_key: Option<&str>, order_desc: bool, files: &mut Vec<FrontmatterFile>)
    ensures
        doc_views(final(files)@).to_multiset() == doc_views(old(files)@).to_multiset(),
        !order_desc ==> sorted_files(doc_views(final(files)@), key_view(sort_key)),
        order_desc ==> sorted_files_desc(doc_views(final(files)@), key_view(sort_key)),
{
    broadcast use vstd::seq_lib::group_to_multiset_ensures;

    let ghost kv = key_view(sort_key);
    let ghost orig = doc_views(old(files)@);
    let mut out: Vec<FrontmatterFile> = Vec::new();
    proof {
        assert(doc_views(out@) =~= Seq::<DocView>::empty());
        assert(doc_views(out@).to_multiset().add(doc_views(files@).to_multiset()) =~= orig
            .to_multiset());
    }
    while files.len() > 0
        invariant
            kv == key_view(sort_key),
            doc_views(out@).to_multiset().add(doc_views(files@).to_multiset()) == orig
                .to_multiset(),
            sorted_files(doc_views(out@), kv),
            forall|x: int, y: int|
                0 <= x < out@.len() && 0 <= y < files@.len() ==> file_le(
                    (#[trigger] out@[x])@,
                    (#[trigger] files@[y])@,
                    kv,
                ),
        decreases files@.len(),
    {
        broadcast use vstd::seq_lib::group_to_multiset_ensures;

        let ghost pre_files = doc_views(files@);
        let ghost pre_out = doc_views(out@);
        let m = index_of_min(files, sort_key);
        let ghost mi = m as int;
        let f = files.remove(m);
        out.push(f);
        proof {
            assert(doc_views(files@) =~= pre_files.remove(mi));
            assert(doc_views(out@) =~= pre_out.push(pre_files[mi]));
            assert(pre_files.remove(mi).to_multiset() =~= pre_files.to_multiset().remove(
                pre_files[mi],
            ));
            assert(pre_out.push(pre_files[mi]).to_multiset() =~= pre_out.to_multiset().insert(
                pre_files[mi],
            ));
            assert(pre_files.to_multiset().contains(pre_files[mi]));
            assert(doc_views(out@).to_multiset().add(doc_views(files@).to_multiset())
                =~= pre_out.to_multiset().add(pre_files.to_multiset()));
        }
    }
    if order_desc {
        let ghost asc = doc_views(out@);
        let mut rev: Vec<FrontmatterFile> = Vec::new();
        let mut remaining = out.len();
        while remaining > 0
            invariant
                remaining == out@.len(),
                asc.len() == rev@.len() + out@.len(),
                doc_views(out@) == asc.take(out@.len() as int),
                forall|i: int|
                    0 <= i < rev@.len() ==> (#[trigger] rev@[i])@ == asc[asc.len() - 1 - i],
                sorted_files(asc, kv),
            decreases remaining,
        {
            let ghost pre_rev = doc_views(rev@);
            let ghost pre_len = out@.len() as int;
            match out.pop() {
                Some(f) => {
                    proof {
                        assert(f@ == asc.take(pre_len)[pre_len - 1]);
                    }
                    rev.push(f);
                    proof {
                        assert(doc_views(rev@) =~= pre_rev.push(asc[pre_len - 1]));
                        assert forall|i: int| 0 <= i < rev@.len() implies (#[trigger] rev@[i])@
                            == asc[asc.len() - 1 - i] by {
                            if i < rev@.len() - 1 {
                                assert(rev@[i]@ == pre_rev[i]);
                            } else {
                                assert(asc.len() - 1 - i == pre_len - 1);
                            }
                        }
                    }
                },
                None => {},
            }
            remaining -= 1;
            proof {
                assert(doc_views(out@) =~= asc.take(out@.len() as int));
            }
        }
        proof {
            assert(doc_views(rev@) =~= asc.reverse());
            asc.lemma_reverse_to_multiset();
        }
        *files = rev;
        proof {
            assert(doc_views(files@).to_multiset() =~= orig.to_multiset());
            assert forall|i: int, j: int|
                0 <= i < j < doc_views(files@).len() implies file_le(
                doc_views(files@)[j],
                doc_views(files@)[i],
                kv,
            ) by {
                assert(doc_views(files@)[i] == asc[asc.len() - 1 - i]);
                assert(doc_views(files@)[j] == asc[asc.len() - 1 - j]);
            }
        }
    } else {
        *files = out;
        proof {
            assert(doc_views(files@).to_multiset().add(Seq::<DocView>::empty().to_multiset())
                =~= orig.to_multiset());
            assert(Seq::<DocView>::empty().to_multiset() =~= Multiset::<DocView>::empty());
            assert(doc_views(files@).to_multiset() =~= orig.to_multiset());
        }
    }
}

/// Whether a document stays in a filtered view: it matches the query, or it
/// bears the name the view must retain regardless.
pub open spec fn file_passes(
    d: DocView,
    q: QueryView,
    name: Option<Seq<char>>,
    intersect: bool,
) -> bool {
    ||| match name {
        Some(n) => d.name == n,
        None => false,
    }
    ||| file_matches(d, q, intersect)
}

/// The documents that pass the filter, in their given order.
pub open spec fn filter_docs(
    s: Seq<DocView>,
    q: QueryView,
    name: Option<Seq<char>>,
    intersect: bool,
) -> Seq<DocView>
    decreases s.len(),
{
    if s.len() == 0 {
        Seq::empty()
    } else {
        let rest = filter_docs(s.drop_last(), q, name, intersect);
        if file_passes(s.last(), q, name, intersect) {
            rest.push(s.last())
        } else {
            rest
        }
    }
}

/// Keeps the documents that match `query`, and always the one named `name`
/// if one is given; order is preserved.
pub fn query_files(
    files: &Vec<FrontmatterFile>,
    query: &FrontmatterQuery,
    name: Option<&str>,
    intersect: bool,
) -> (r: Vec<FrontmatterFile>)
    ensures
        doc_views(r@) == filter_docs(
            doc_views(files@),
            query@,
            match name {
                Some(n) => Some(n@),
                None => None,
            },
            intersect,
        ),
{
    let ghost dvs = doc_views(files@);
    let ghost nv: Option<Seq<char>> = match name {
        Some(n) => Some(n@),
        None => None,
    };
    let n = files.len();
    let mut out: Vec<FrontmatterFile> = Vec::new();
    let mut i: usize = 0;
    proof {
        assert(dvs.take(0) =~= Seq::<DocView>::empty());
        assert(doc_views(out@) =~= filter_docs(dvs.take(0), query@, nv, intersect));
    }
    while i < n
        invariant
            n == files@.len(),
            dvs == doc_views(files@),
            dvs.len() == n,
            nv == (match name {
                Some(m) => Some(m@),
                None => None,
            }),
            0 <= i <= n,
            doc_views(out@) == filter_docs(dvs.take(i as int), query@, nv, intersect),
        decreases n - i,
    {
        proof {
            assert(dvs.take(i + 1).drop_last() =~= dvs.take(i as int));
            assert(dvs.take(i + 1).last() == dvs[i as int]);
        }
        let keep = match name {
            Some(nm) => crate::text::str_eq(files[i].name.as_str(), nm) || files[i].matches_query(
                query,
                intersect,
            ),
            None => files[i].matches_query(query, intersect),
        };
        if keep {
            let ghost prev = doc_views(out@);
            out.push(files[i].clone());
            proof {
                assert(doc_views(out@) =~= prev.push(dvs[i as int]));
            }
        }
        i += 1;
        proof {
            assert(doc_views(out@) =~= filter_docs(dvs.take(i as int), query@, nv, intersect));
        }
    }
    proof {
        assert(dvs.take(n as int) =~= dvs);
    }
    out
}

/// With an empty query every document passes the filter: the filtered view
/// is the whole sequence.
pub proof fn lemma_filter_all_pass(
    s: Seq<DocView>,
    q: QueryView,
    name: Option<Seq<char>>,
    intersect: bool,
)
    requires
        q.len() == 0,
    ensures
        filter_docs(s, q, name, intersect) == s,
    decreases s.len(),
{
    if s.len() > 0 {
        lemma_filter_all_pass(s.drop_last(), q, name, intersect);
        lemma_empty_query_matches(s.last(), q, intersect);
        assert(filter_docs(s, q, name, intersect) =~= s);
    } else {
        assert(filter_docs(s, q, name, intersect) =~= s);
    }
}

/// The empty query matches every document, with or without frontmatter,
/// under either mode.
pub proof fn lemma_empty_query_matches(d: DocView, q: QueryView, intersect: bool)
    requires
        q.len() == 0,
    ensures
        file_matches(d, q, intersect),
{
}

/// A document without frontmatter matches exactly the empty query,
/// independent of match mode.
pub proof fn lemma_no_frontmatter_matches_empty(d: DocView, q: QueryView, intersect: bool)
    requires
        d.frontmatter is None,
    ensures
        file_matches(d, q, intersect) <==> q.len() == 0,
{
}

} // verus!
