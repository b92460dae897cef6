//! The list operation: filter the store's documents, project them to
//! summaries, sort, and return one page together with the total count of
//! matching documents.

use vstd::prelude::*;

use crate::frontmatter_file::{doc_views, short_of, DocView, FrontmatterFile, Short, ShortView};
use crate::frontmatter_query::FrontmatterQuery;
use crate::keeper::Keeper;
use crate::{filter_docs, key_view, sort_with_params, sorted_files, sorted_files_desc};

verus! {

/// The views of a sequence of summaries, elementwise.
pub open spec fn short_views(s: Seq<Short>) -> Seq<ShortView> {
    Seq::new(s.len(), |i: int| s[i]@)
}

/// The summary views of a sequence of documents, elementwise.
pub open spec fn shorts_of_docs(docs: Seq<DocView>) -> Seq<ShortView> {
    Seq::new(docs.len(), |i: int| short_of(docs[i]))
}

/// Where a page starts: the offset, clipped to the sequence's length.
pub open spec fn page_start(len: int, offset: Option<usize>) -> int {
    let o = match offset {
        Some(o) => o as int,
        None => 0,
    };
    if o <= len {
        o
    } else {
        len
    }
}

/// Where a page ends: `limit` elements past its start, clipped.
pub open spec fn page_end(len: int, offset: Option<usize>, limit: Option<usize>) -> int {
    match limit {
        Some(l) => {
            let e = page_start(len, offset) + l;
            if e <= len {
                e
            } else {
                len
            }
        },
        None => len,
    }
}

/// Takes the page `offset`/`limit` ask for: `offset` elements are skipped
/// (all of them, if there are fewer) and then up to `limit` are taken. An
/// offset beyond the end yields an empty page, never an error.
pub fn paginate(files: Vec<Short>, offset: Option<usize>, limit: Option<usize>) -> (r: Vec<Short>)
    ensures
        short_views(r@) == short_views(files@).subrange(
            page_start(files@.len() as int, offset),
            page_end(files@.len() as int, offset, limit),
        ),
{
    let n = files.len();
    let start: usize = match offset {
        Some(o) => if o <= n {
            o
        } else {
            n
        },
        None => 0,
    };
    let end: usize = match limit {
        Some(l) => if l <= n - start {
            start + l
        } else {
            n
        },
        None => n,
    };
    let mut r: Vec<Short> = Vec::new();
    let mut i = start;
    while i < end
        invariant
            n == files@.len(),
            0 <= start <= i <= end <= n,
            r@.len() == i - start,
            forall|j: int| 0 <= j < r@.len() ==> (#[trigger] r@[j])@ == files@[start + j]@,
        decreases end - i,
    {
        r.push(files[i].clone());
        i += 1;
    }
    proof {
        assert(end == page_end(n as int, offset, limit));
        assert(short_views(r@) =~= short_views(files@).subrange(
            page_start(n as int, offset),
            page_end(n as int, offset, limit),
        ));
    }
    r
}

/// The arguments of a plain listing: no predicate, all documents.
#[derive(Debug)]
pub struct Get<'a> {
    pub sort_key: Option<&'a str>,
    pub order_desc: bool,
    pub offset: Option<usize>,
    pub limit: Option<usize>,
}

impl<'a> Get<'a> {
    pub fn new(
        sort_key: Option<&'a str>,
        order_desc: bool,
        offset: Option<usize>,
        limit: Option<usize>,
    ) -> (r: Get<'a>)
        ensures
            r.sort_key == sort_key,
            r.order_desc == order_desc,
            r.offset == offset,
            r.limit == limit,
    {
        Get { sort_key, order_desc, offset, limit }
    }
}

/// One page of summaries, and the total count of matching documents before
/// pagination, so a caller can tell whether further pages exist.
#[derive(Debug)]
pub struct Response {
    pub files: Vec<Short>,
    pub total: usize,
}

/// The arguments of a filtered listing.
#[derive(Debug)]
pub struct Args<'a> {
    pub query: Option<FrontmatterQuery>,
    pub intersect: bool,
    pub sort_key: Option<&'a str>,
    pub order_desc: bool,
    pub offset: Option<usize>,
    pub limit: Option<usize>,
}

impl<'a> Args<'a> {
    /// Arguments without a predicate.
    pub fn get(
        sort_key: Option<&'a str>,
        order_desc: bool,
        offset: Option<usize>,
        limit: Option<usize>,
    ) -> (r: Args<'a>)
        ensures
            r.query is None,
            !r.intersect,
            r.sort_key == sort_key,
            r.order_desc == order_desc,
            r.offset == offset,
            r.limit == limit,
    {
        Args { query: None, intersect: false, sort_key, order_desc, offset, limit }
    }

    /// Arguments with a predicate and a match mode.
    pub fn query(
        map: FrontmatterQuery,
        sort_key: Option<&'a str>,
        order_desc: bool,
        offset: Option<usize>,
        limit: Option<usize>,
        intersect: bool,
    ) -> (r: Args<'a>)
        ensures
            r.query == Some(map),
            r.intersect == intersect,
            r.sort_key == sort_key,
            r.order_desc == order_desc,
            r.offset == offset,
            r.limit == limit,
    {
        Args { query: Some(map), intersect, sort_key, order_desc, offset, limit }
    }
}

/// What a response must look like for the matching documents `filtered`,
/// sorted into some order `sorted` that the listing's parameters allow.
pub open spec fn list_response_for(
    r: Response,
    filtered: Seq<DocView>,
    sorted: Seq<DocView>,
    key: Option<Seq<char>>,
    order_desc: bool,
    offset: Option<usize>,
    limit: Option<usize>,
) -> bool {
    &&& sorted.to_multiset() == filtered.to_multiset()
    &&& if order_desc {
        sorted_files_desc(sorted, key)
    } else {
        sorted_files(sorted, key)
    }
    &&& r.total == filtered.len()
    &&& short_views(r.files@) == shorts_of_docs(sorted).subrange(
        page_start(sorted.len() as int, offset),
        page_end(sorted.len() as int, offset, limit),
    )
}

/// Projects documents to their summaries.
fn shorts(files: Vec<FrontmatterFile>) -> (r: Vec<Short>)
    ensures
        short_views(r@) == shorts_of_docs(doc_views(files@)),
{
    let n = files.len();
    let mut r: Vec<Short> = Vec::new();
    let mut i: usize = 0;
    while i < n
        invariant
            n == files@.len(),
            0 <= i <= n,
            r@.len() == i,
            forall|j: int| 0 <= j < i ==> (#[trigger] r@[j])@ == short_of(files@[j]@),
        decreases n - i,
    {
        r.push(Short::from_file(&files[i]));
        i += 1;
    }
    proof {
        assert(short_views(r@) =~= shorts_of_docs(doc_views(files@)));
    }
    r
}

/// Lists every document: a page of summaries in the asked order, with the
/// total count of documents.
pub fn get(keeper: &Keeper, args: Get<'_>) -> (r: Response)
    ensures
        exists|sorted: Seq<DocView>|
            #[trigger] sorted.to_multiset() == keeper.docs().to_multiset()
                && list_response_for(
                r,
                keeper.docs(),
                sorted,
                key_view(args.sort_key),
                args.order_desc,
                args.offset,
                args.limit,
            ),
{
    let mut files = keeper.files();
    let total = files.len();
    sort_with_params(args.sort_key, args.order_desc, &mut files);
    let ghost sorted = doc_views(files@);
    let summaries = shorts(files);
    proof {
        assert(short_views(summaries@).len() == summaries@.len());
        assert(shorts_of_docs(sorted).len() == sorted.len());
        assert(summaries@.len() == sorted.len());
    }
    let page = paginate(summaries, args.offset, args.limit);
    let r = Response { files: page, total };
    proof {
        assert(sorted.to_multiset() == keeper.docs().to_multiset());
        assert(r.total == keeper.docs().len());
        assert(short_views(r.files@) == shorts_of_docs(sorted).subrange(
            page_start(sorted.len() as int, args.offset),
            page_end(sorted.len() as int, args.offset, args.limit),
        ));
        assert(list_response_for(
            r,
            keeper.docs(),
            sorted,
            key_view(args.sort_key),
            args.order_desc,
            args.offset,
            args.limit,
        ));
    }
    r
}

/// Lists the documents that match the query (all of them, without one): a
/// page of summaries in the asked order, with the total matching count.
pub fn query(keeper: &Keeper, args: Args<'_>) -> (r: Response)
    ensures
        exists|sorted: Seq<DocView>|
            #[trigger] sorted.to_multiset() == filter_docs(
                keeper.docs(),
                match args.query {
                    Some(q) => q@,
                    None => Seq::empty(),
                },
                None,
                args.intersect,
            ).to_multiset() && list_response_for(
                r,
                filter_docs(
                    keeper.docs(),
                    match args.query {
                        Some(q) => q@,
                        None => Seq::empty(),
                    },
                    None,
                    args.intersect,
                ),
                sorted,
                key_view(args.sort_key),
                args.order_desc,
                args.offset,
                args.limit,
            ),
{
    let ghost qv: crate::frontmatter_query::QueryView = match &args.query {
        Some(q) => q@,
        None => Seq::empty(),
    };
    let all = keeper.files();
    let mut files = match &args.query {
        Some(q) => crate::query_files(&all, q, None, args.intersect),
        None => {
            proof {
                crate::lemma_filter_all_pass(doc_views(all@), qv, None, args.intersect);
            }
            all
        },
    };
    proof {
        assert(doc_views(files@) == filter_docs(keeper.docs(), qv, None, args.intersect));
    }
    let ghost filtered = doc_views(files@);
    let total = files.len();
    sort_with_params(args.sort_key, args.order_desc, &mut files);
    let ghost sorted = doc_views(files@);
    let summaries = shorts(files);
    proof {
        assert(short_views(summaries@).len() == summaries@.len());
        assert(shorts_of_docs(sorted).len() == sorted.len());
        assert(summaries@.len() == sorted.len());
    }
    let page = paginate(summaries, args.offset, args.limit);
    let r = Response { files: page, total };
    proof {
        assert(sorted.to_multiset() == filtered.to_multiset());
        assert(r.total == filtered.len());
        assert(short_views(r.files@) == shorts_of_docs(sorted).subrange(
            page_start(sorted.len() as int, args.offset),
            page_end(sorted.len() as int, args.offset, args.limit),
        ));
        assert(list_response_for(
            r,
            filtered,
            sorted,
            key_view(args.sort_key),
            args.order_desc,
            args.offset,
            args.limit,
        ));
    }
    r
}

} // verus!
