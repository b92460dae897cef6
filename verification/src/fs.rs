//! The extension filter that decides which files the store watches.

use vstd::prelude::*;

use crate::utf8_filepath::{spec_extension, spec_file_name, UTF8FilePath};

verus! {

/// Whether a path's file name carries one of the given extensions.
pub open spec fn spec_has_extensions(p: Seq<char>, extensions: Seq<Seq<char>>) -> bool {
    match spec_extension(spec_file_name(p).unwrap()) {
        Some(e) => exists|k: int| 0 <= k < extensions.len() && extensions[k] == e,
        None => false,
    }
}

/// Whether `path`'s extension is one of `extensions`.
pub fn path_has_extensions(path: &UTF8FilePath, extensions: &[&str]) -> (r: bool)
    ensures
        r == spec_has_extensions(path@, extensions@.map_values(|e: &str| e@)),
{
    let ghost exts = extensions@.map_values(|e: &str| e@);
    match path.extension() {
        Some(e) => {
            let n = extensions.len();
            let mut k: usize = 0;
            while k < n
                invariant
                    n == extensions@.len(),
                    exts == extensions@.map_values(|x: &str| x@),
                    exts.len() == n,
                    forall|j: int| 0 <= j < n ==> #[trigger] exts[j] == extensions@[j]@,
                    0 <= k <= n,
                    spec_extension(spec_file_name(path@).unwrap()) == Some(e@),
                    forall|j: int| 0 <= j < k ==> #[trigger] exts[j] != e@,
                decreases n - k,
            {
                if crate::text::str_eq(extensions[k], e) {
                    proof {
                        assert(exts[k as int] == e@);
                    }
                    return true;
                }
                k += 1;
            }
            false
        },
        None => false,
    }
}

} // verus!
