//! The single operation: locate one document by name within the filtered,
//! sorted view and return it with its positional neighbors' names.

use vstd::prelude::*;

use crate::frontmatter_file::{doc_views, DocView, FrontmatterFile};
use crate::frontmatter_query::FrontmatterQuery;
use crate::keeper::Keeper;
use crate::{filter_docs, key_view, sort_with_params, sorted_files, sorted_files_desc};

verus! {

/// One document and the names of its immediate neighbors in the filtered,
/// sorted view; a name is absent at either boundary.
#[derive(Debug)]
pub struct Response {
    pub file: FrontmatterFile,
    pub prev_file_name: Option<String>,
    pub next_file_name: Option<String>,
}

/// The arguments of a single-document request.
#[derive(Debug)]
pub struct Args<'a> {
    pub name: &'a str,
    pub query: Option<FrontmatterQuery>,
    pub intersect: bool,
    pub sort_key: Option<&'a str>,
    pub order_desc: bool,
}

/// The view of an optional name.
pub open spec fn opt_name_view(o: Option<String>) -> Option<Seq<char>> {
    match o {
        Some(s) => Some(s@),
        None => None,
    }
}

/// The first index bearing `name`, if any.
fn find_file_index(files: &Vec<FrontmatterFile>, name: &str) -> (r: Option<usize>)
    ensures
        match r {
            Some(i) => i < files@.len() && files@[i as int]@.name == name@ && forall|j: int|
                0 <= j < i ==> (#[trigger] files@[j])@.name != name@,
            None => forall|j: int| 0 <= j < files@.len() ==> (#[trigger] files@[j])@.name != name@,
        },
{
    let n = files.len();
    let mut i: usize = 0;
    while i < n
        invariant
            n == files@.len(),
            0 <= i <= n,
            forall|j: int| 0 <= j < i ==> (#[trigger] files@[j])@.name != name@,
        decreases n - i,
    {
        if crate::text::str_eq(files[i].name.as_str(), name) {
            return Some(i);
        }
        i += 1;
    }
    None
}

/// The neighbor names at position `i` of a filtered, sorted sequence: the
/// previous name is the one at `i - 1` (`None` when `i` is first) and the
/// next the one at `i + 1` (`None` when `i` is last).
pub fn get_prev_and_next_file_names(files: &Vec<FrontmatterFile>, i: usize) -> (r: (
    Option<String>,
    Option<String>,
))
    requires
        i < files@.len(),
    ensures
        opt_name_view(r.0) == (if i > 0 {
            Some(files@[i - 1]@.name)
        } else {
            None::<Seq<char>>
        }),
        opt_name_view(r.1) == (if i + 1 < files@.len() {
            Some(files@[i + 1]@.name)
        } else {
            None::<Seq<char>>
        }),
{
    let n = files.len();
    let prev_file_name = if i > 0 {
        Some(files[i - 1].name.clone())
    } else {
        None
    };
    let next_file_name = if i < n - 1 {
        Some(files[i + 1].name.clone())
    } else {
        None
    };
    (prev_file_name, next_file_name)
}

/// What the result of a single-document request must look like, against some
/// order `sorted` of the filtered view: the document is the first one with
/// the requested name, and the neighbor names are whatever stands right
/// before and after it; `None` exactly when no document in the view bears
/// the name.
pub open spec fn single_response_for(
    r: Option<Response>,
    sorted: Seq<DocView>,
    name: Seq<char>,
) -> bool {
    match r {
        Some(resp) => exists|i: int|
            {
                &&& 0 <= i < sorted.len()
                &&& (#[trigger] sorted[i]).name == name
                &&& forall|j: int| 0 <= j < i ==> (#[trigger] sorted[j]).name != name
                &&& resp.file@ == sorted[i]
                &&& opt_name_view(resp.prev_file_name) == (if i > 0 {
                    Some(sorted[i - 1].name)
                } else {
                    None::<Seq<char>>
                })
                &&& opt_name_view(resp.next_file_name) == (if i + 1 < sorted.len() {
                    Some(sorted[i + 1].name)
                } else {
                    None::<Seq<char>>
                })
            },
        None => forall|j: int| 0 <= j < sorted.len() ==> (#[trigger] sorted[j]).name != name,
    }
}

/// The filtered view a single-document request works in: all documents
/// without a query; with one, the matching documents and, always, those
/// bearing the requested name.
pub open spec fn single_filtered(keeper: &Keeper, args: Args<'_>) -> Seq<DocView> {
    match args.query {
        Some(q) => filter_docs(keeper.docs(), q@, Some(args.name@), args.intersect),
        None => keeper.docs(),
    }
}

/// Resolves one document by name in the filtered, sorted view, with its
/// neighbors' names; `None` exactly when the name is absent from the view.
#[verifier::rlimit(50)]
pub fn single(keeper: &Keeper, args: Args<'_>) -> (r: Option<Response>)
    ensures
        exists|sorted: Seq<DocView>|
            {
                &&& #[trigger] sorted.to_multiset() == single_filtered(keeper, args).to_multiset()
                &&& if args.order_desc {
                    sorted_files_desc(sorted, key_view(args.sort_key))
                } else {
                    sorted_files(sorted, key_view(args.sort_key))
                }
                &&& single_response_for(r, sorted, args.name@)
            },
{
    let all = keeper.files();
    let mut files = match &args.query {
        Some(q) => crate::query_files(&all, q, Some(args.name), args.intersect),
        None => all,
    };
    proof {
        assert(doc_views(files@) == single_filtered(keeper, args));
    }
    sort_with_params(args.sort_key, args.order_desc, &mut files);
    let ghost sorted = doc_views(files@);
    match find_file_index(&files, args.name) {
        Some(i) => {
            let (prev_file_name, next_file_name) = get_prev_and_next_file_names(&files, i);
            let file = files[i].clone();
            let ghost ii = i as int;
            let r = Some(Response { file, prev_file_name, next_file_name });
            proof {
                assert(sorted[ii] == files@[ii]@);
                assert(sorted[ii].name == args.name@);
                assert(forall|j: int| 0 <= j < ii ==> (#[trigger] sorted[j]).name != args.name@);
                assert(r.unwrap().file@ == sorted[ii]);
                assert(opt_name_view(r.unwrap().prev_file_name) == (if ii > 0 {
                    Some(sorted[ii - 1].name)
                } else {
                    None::<Seq<char>>
                }));
                assert(opt_name_view(r.unwrap().next_file_name) == (if ii + 1 < sorted.len() {
                    Some(sorted[ii + 1].name)
                } else {
                    None::<Seq<char>>
                }));
                assert(single_response_for(r, sorted, args.name@));
            }
            r
        },
        None => {
            proof {
                assert(single_response_for(None::<Response>, sorted, args.name@));
            }
            None
        },
    }
}

/// Resolves a document by name over all documents, without a predicate.
pub fn get(keeper: &Keeper, name: &str, sort_key: Option<&str>, order_desc: bool) -> (r: Option<
    Response,
>)
    ensures
        exists|sorted: Seq<DocView>|
            {
                &&& #[trigger] sorted.to_multiset() == keeper.docs().to_multiset()
                &&& if order_desc {
                    sorted_files_desc(sorted, key_view(sort_key))
                } else {
                    sorted_files(sorted, key_view(sort_key))
                }
                &&& single_response_for(r, sorted, name@)
            },
{
    single(keeper, Args { name, query: None, intersect: false, sort_key, order_desc })
}

/// Resolves a document by name within the view filtered by `map`.
pub fn query(
    keeper: &Keeper,
    name: &str,
    map: FrontmatterQuery,
    sort_key: Option<&str>,
    order_desc: bool,
    intersect: bool,
) -> (r: Option<Response>)
    ensures
        exists|sorted: Seq<DocView>|
            {
                &&& #[trigger] sorted.to_multiset() == filter_docs(
                    keeper.docs(),
                    map@,
                    Some(name@),
                    intersect,
                ).to_multiset()
                &&& if order_desc {
                    sorted_files_desc(sorted, key_view(sort_key))
                } else {
                    sorted_files(sorted, key_view(sort_key))
                }
                &&& single_response_for(r, sorted, name@)
            },
{
    single(keeper, Args { name, query: Some(map), intersect, sort_key, order_desc })
}

} // verus!
