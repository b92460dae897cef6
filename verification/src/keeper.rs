//! The document store: the authoritative map from file path to document.
//!
//! The store is built once from a directory scan and thereafter changed only
//! by filesystem change events, normalized to a small vocabulary
//! ([`FsEvent`]) and applied one at a time. Reading and decoding a changed
//! file happens outside the crate; each transition here takes the loaded
//! document (or `None` where loading failed) and is proved to change the
//! store exactly as the event prescribes, leaving it untouched on failure.

use vstd::prelude::*;

use crate::frontmatter_file::{DocView, FrontmatterFile, ReadFromPathError};
use crate::utf8_filepath::UTF8FilePath;

verus! {

/// The store's mathematical content: documents by path.
pub type StoreView = Map<Seq<char>, DocView>;

/// The store. Entries are kept in insertion order with pairwise distinct
/// paths; its mathematical content is `map_of(self@)`.
pub struct Keeper {
    entries: Vec<(UTF8FilePath, FrontmatterFile)>,
}

/// An error met while building the store from a directory scan.
#[derive(Debug)]
pub enum NewKeeperError {
    /// Listing the directory failed; the payload describes the failure.
    Io(String),
    /// One file could not become a document.
    ReadFrontmatterFromPath(ReadFromPathError),
}

impl View for Keeper {
    type V = Seq<(Seq<char>, DocView)>;

    closed spec fn view(&self) -> Seq<(Seq<char>, DocView)> {
        Seq::new(self.entries@.len(), |i: int| (self.entries@[i].0@, self.entries@[i].1@))
    }
}

/// The small vocabulary that raw filesystem notifications are normalized
/// into before they reach the store.
#[derive(Debug, PartialEq, Eq, Structural, Clone, Copy)]
pub enum FsEvent {
    Rename,
    Edit,
    Create,
    Delete,
    /// Noise, such as a close notification after a write: no state change.
    Ignored,
    /// A notification kind the store does not handle: no state change.
    Unhandled,
}

/// The view of a possibly loaded document.
pub open spec fn doc_view_of(loaded: Option<FrontmatterFile>) -> Option<DocView> {
    match loaded {
        Some(f) => Some(f@),
        None => None,
    }
}

/// What a `Create(p)` event does to the store: a present path or a failed
/// load changes nothing; otherwise the loaded document is inserted.
pub open spec fn apply_create(m: StoreView, p: Seq<char>, loaded: Option<DocView>) -> StoreView {
    if m.contains_key(p) {
        m
    } else {
        match loaded {
            Some(d) => m.insert(p, d),
            None => m,
        }
    }
}

/// What an `Edit(p)` event does: an absent path or a failed load changes
/// nothing; otherwise the stored document is replaced whole.
pub open spec fn apply_edit(m: StoreView, p: Seq<char>, loaded: Option<DocView>) -> StoreView {
    if !m.contains_key(p) {
        m
    } else {
        match loaded {
            Some(d) => m.insert(p, d),
            None => m,
        }
    }
}

/// What a `Delete(p)` event does: removes the path; an absent path changes
/// nothing.
pub open spec fn apply_delete(m: StoreView, p: Seq<char>) -> StoreView {
    m.remove(p)
}

/// What a `Rename(p)` event does: a present path is removed as the old half
/// of the rename; an absent one is treated as a creation.
pub open spec fn apply_rename(m: StoreView, p: Seq<char>, loaded: Option<DocView>) -> StoreView {
    if m.contains_key(p) {
        m.remove(p)
    } else {
        apply_create(m, p, loaded)
    }
}

/// What one normalized event does to the store.
pub open spec fn apply_fs_event(
    m: StoreView,
    e: FsEvent,
    p: Seq<char>,
    loaded: Option<DocView>,
) -> StoreView {
    match e {
        FsEvent::Rename => apply_rename(m, p, loaded),
        FsEvent::Edit => apply_edit(m, p, loaded),
        FsEvent::Delete => apply_delete(m, p),
        FsEvent::Create => apply_create(m, p, loaded),
        FsEvent::Ignored => m,
        FsEvent::Unhandled => m,
    }
}

/// Applying `Edit(p)` twice with the same loaded document leaves the same
/// store as applying it once.
pub proof fn lemma_edit_idempotent(m: StoreView, p: Seq<char>, loaded: Option<DocView>)
    ensures
        apply_edit(apply_edit(m, p, loaded), p, loaded) =~= apply_edit(m, p, loaded),
{
}

/// `Create(p)` followed by `Delete(p)` leaves `p` absent, and leaves the
/// store as a deletion alone would.
pub proof fn lemma_create_then_delete(m: StoreView, p: Seq<char>, loaded: Option<DocView>)
    ensures
        !apply_delete(apply_create(m, p, loaded), p).contains_key(p),
        apply_delete(apply_create(m, p, loaded), p) =~= m.remove(p),
{
}

/// Deleting an absent path changes nothing.
pub proof fn lemma_delete_absent(m: StoreView, p: Seq<char>)
    requires
        !m.contains_key(p),
    ensures
        apply_delete(m, p) =~= m,
{
}

/// A rename of an absent path acts exactly as a creation.
pub proof fn lemma_rename_absent_is_create(m: StoreView, p: Seq<char>, loaded: Option<DocView>)
    requires
        !m.contains_key(p),
    ensures
        apply_rename(m, p, loaded) == apply_create(m, p, loaded),
{
}

/// Pairwise distinct paths.
pub open spec fn keys_distinct(s: Seq<(Seq<char>, DocView)>) -> bool {
    forall|i: int, j: int| 0 <= i < j < s.len() ==> (#[trigger] s[i]).0 != (#[trigger] s[j]).0
}

/// The map an entry sequence holds: later entries win.
pub open spec fn map_of(s: Seq<(Seq<char>, DocView)>) -> StoreView
    decreases s.len(),
{
    if s.len() == 0 {
        Map::empty()
    } else {
        map_of(s.drop_last()).insert(s.last().0, s.last().1)
    }
}

/// `map_of` holds a key exactly when some entry carries it, and, with
/// distinct keys, maps each entry's path to its document.
pub proof fn lemma_map_of(s: Seq<(Seq<char>, DocView)>)
    ensures
        forall|k: Seq<char>| #[trigger]
            map_of(s).contains_key(k) <==> exists|i: int|
                0 <= i < s.len() && (#[trigger] s[i]).0 == k,
        keys_distinct(s) ==> forall|i: int|
            0 <= i < s.len() ==> map_of(s)[(#[trigger] s[i]).0] == s[i].1,
    decreases s.len(),
{
    if s.len() > 0 {
        lemma_map_of(s.drop_last());
        assert forall|k: Seq<char>| #[trigger]
            map_of(s).contains_key(k) <==> exists|i: int|
                0 <= i < s.len() && (#[trigger] s[i]).0 == k by {
            let dl = s.drop_last();
            if map_of(s).contains_key(k) {
                if k == s.last().0 {
                    assert((s[s.len() - 1]).0 == k);
                } else {
                    assert(map_of(dl).contains_key(k));
                    let i = choose|i: int| 0 <= i < dl.len() && (#[trigger] dl[i]).0 == k;
                    assert((s[i]).0 == k);
                }
            }
            if exists|i: int| 0 <= i < s.len() && (#[trigger] s[i]).0 == k {
                let i = choose|i: int| 0 <= i < s.len() && (#[trigger] s[i]).0 == k;
                if i < s.len() - 1 {
                    assert(dl[i].0 == k);
                    assert(map_of(dl).contains_key(k));
                }
            }
        }
        if keys_distinct(s) {
            assert(keys_distinct(s.drop_last())) by {
                assert forall|i: int, j: int|
                    0 <= i < j < s.drop_last().len() implies (#[trigger] s.drop_last()[i]).0 != (
                #[trigger] s.drop_last()[j]).0 by {
                    assert(s[i].0 != s[j].0);
                }
            }
            assert forall|i: int| 0 <= i < s.len() implies map_of(s)[(#[trigger] s[i]).0]
                == s[i].1 by {
                if i < s.len() - 1 {
                    assert(s[i].0 != s.last().0);
                    assert(s.drop_last()[i] == s[i]);
                }
            }
        }
    }
}

/// Replacing entry `i`'s document corresponds to a map insert of its path.
pub proof fn lemma_map_of_update(s: Seq<(Seq<char>, DocView)>, i: int, d: DocView)
    requires
        0 <= i < s.len(),
        keys_distinct(s),
    ensures
        map_of(s.update(i, (s[i].0, d))) =~= map_of(s).insert(s[i].0, d),
    decreases s.len(),
{
    let t = s.update(i, (s[i].0, d));
    if i == s.len() - 1 {
        assert(t.drop_last() =~= s.drop_last());
        assert(map_of(s.update(i, (s[i].0, d))) =~= map_of(s).insert(s[i].0, d));
    } else {
        assert(keys_distinct(s.drop_last())) by {
            assert forall|a: int, b: int|
                0 <= a < b < s.drop_last().len() implies (#[trigger] s.drop_last()[a]).0 != (
            #[trigger] s.drop_last()[b]).0 by {
                assert(s[a].0 != s[b].0);
            }
        }
        assert(s.drop_last()[i] == s[i]);
        lemma_map_of_update(s.drop_last(), i, d);
        assert(t.drop_last() =~= s.drop_last().update(i, (s[i].0, d)));
        assert(t.last() == s.last());
        assert(s[i].0 != s.last().0);
        assert(map_of(t) =~= map_of(s).insert(s[i].0, d));
    }
}

/// Removing entry `i` corresponds to a map remove of its path.
pub proof fn lemma_map_of_remove(s: Seq<(Seq<char>, DocView)>, i: int)
    requires
        0 <= i < s.len(),
        keys_distinct(s),
    ensures
        map_of(s.remove(i)) =~= map_of(s).remove(s[i].0),
    decreases s.len(),
{
    lemma_map_of(s.drop_last());
    assert(keys_distinct(s.drop_last())) by {
        assert forall|a: int, b: int|
            0 <= a < b < s.drop_last().len() implies (#[trigger] s.drop_last()[a]).0 != (
        #[trigger] s.drop_last()[b]).0 by {
            assert(s[a].0 != s[b].0);
        }
    }
    if i == s.len() - 1 {
        assert(s.remove(i) =~= s.drop_last());
        assert forall|a: int| 0 <= a < s.drop_last().len() implies (#[trigger] s.drop_last()[a]).0
            != s[i].0 by {
            assert(s[a].0 != s[i].0);
        }
        assert(!map_of(s.drop_last()).contains_key(s[i].0));
        assert(map_of(s.remove(i)) =~= map_of(s).remove(s[i].0));
    } else {
        assert(s.drop_last()[i] == s[i]);
        lemma_map_of_remove(s.drop_last(), i);
        assert(s.remove(i).drop_last() =~= s.drop_last().remove(i));
        assert(s.remove(i).last() == s.last());
        assert(s[i].0 != s.last().0);
        assert(map_of(s.remove(i)) =~= map_of(s).remove(s[i].0));
    }
}

impl Keeper {
    /// Path distinctness, which every constructor establishes and every
    /// transition preserves.
    pub open spec fn wf(&self) -> bool {
        keys_distinct(self@)
    }

    /// The store's content as a map from path to document.
    pub open spec fn store(&self) -> StoreView {
        map_of(self@)
    }

    /// The documents, in the store's entry order.
    pub open spec fn docs(&self) -> Seq<DocView> {
        self@.map_values(|e: (Seq<char>, DocView)| e.1)
    }

    /// The empty store.
    pub fn empty() -> (r: Keeper)
        ensures
            r.wf(),
            r@ == Seq::<(Seq<char>, DocView)>::empty(),
    {
        let entries: Vec<(UTF8FilePath, FrontmatterFile)> = Vec::new();
        let r = Keeper { entries };
        proof {
            assert(r@ =~= Seq::<(Seq<char>, DocView)>::empty());
        }
        r
    }

    /// Builds the store from scanned files; a later file wins a repeated
    /// path, as a map collected from the scan would have it.
    pub fn new(files: Vec<(UTF8FilePath, FrontmatterFile)>) -> (r: Keeper)
        ensures
            r.wf(),
            r.store() =~= map_of(
                Seq::new(files@.len(), |i: int| (files@[i].0@, files@[i].1@)),
            ),
    {
        let ghost pairs = Seq::new(files@.len(), |i: int| (files@[i].0@, files@[i].1@));
        let mut r = Keeper::empty();
        let n = files.len();
        let mut i: usize = 0;
        proof {
            assert(pairs.take(0) =~= Seq::<(Seq<char>, DocView)>::empty());
        }
        while i < n
            invariant
                n == files@.len(),
                pairs == Seq::new(files@.len(), |k: int| (files@[k].0@, files@[k].1@)),
                0 <= i <= n,
                r.wf(),
                r.store() =~= map_of(pairs.take(i as int)),
            decreases n - i,
        {
            let path = files[i].0.clone();
            let file = files[i].1.clone();
            proof {
                assert(pairs[i as int] == (files@[i as int].0@, files@[i as int].1@));
                assert(pairs.take(i + 1).drop_last() =~= pairs.take(i as int));
                assert(pairs.take(i + 1).last() == pairs[i as int]);
            }
            r.insert_or_replace(path, file);
            i += 1;
        }
        proof {
            assert(pairs.take(n as int) =~= pairs);
        }
        r
    }

    /// The index of `path` in the entries, if present.
    fn find_index(&self, path: &UTF8FilePath) -> (r: Option<usize>)
        ensures
            match r {
                Some(i) => i < self@.len() && self@[i as int].0 == path@,
                None => forall|j: int| 0 <= j < self@.len() ==> (#[trigger] self@[j]).0 != path@,
            },
    {
        let n = self.entries.len();
        let mut i: usize = 0;
        while i < n
            invariant
                n == self.entries@.len(),
                self@.len() == n,
                forall|j: int| 0 <= j < n ==> #[trigger] self@[j] == (
                    self.entries@[j].0@,
                    self.entries@[j].1@,
                ),
                0 <= i <= n,
                forall|j: int| 0 <= j < i ==> (#[trigger] self@[j]).0 != path@,
            decreases n - i,
        {
            if self.entries[i].0.path_eq(path) {
                return Some(i);
            }
            i += 1;
        }
        None
    }

    /// Whether the store holds a document for `path`.
    pub fn contains(&self, path: &UTF8FilePath) -> (r: bool)
        requires
            self.wf(),
        ensures
            r == self.store().contains_key(path@),
    {
        proof {
            lemma_map_of(self@);
        }
        self.find_index(path).is_some()
    }

    /// Binds `path` to `file`, replacing the document if the path is
    /// present and appending otherwise.
    fn insert_or_replace(&mut self, path: UTF8FilePath, file: FrontmatterFile)
        requires
            old(self).wf(),
        ensures
            final(self).wf(),
            final(self).store() =~= old(self).store().insert(path@, file@),
    {
        let ghost pv = path@;
        let ghost fv = file@;
        match self.find_index(&path) {
            Some(i) => {
                let ghost idx = i as int;
                self.entries[i] = (path, file);
                proof {
                    assert(self@ =~= old(self)@.update(idx, (pv, fv)));
                    lemma_map_of_update(old(self)@, idx, fv);
                    assert forall|a: int, b: int|
                        0 <= a < b < self@.len() implies (#[trigger] self@[a]).0 != (
                    #[trigger] self@[b]).0 by {
                        assert(old(self)@[a].0 != old(self)@[b].0);
                    }
                }
            },
            None => {
                self.entries.push((path, file));
                proof {
                    assert(self@ =~= old(self)@.push((pv, fv)));
                    assert(self@.drop_last() =~= old(self)@);
                    assert forall|a: int, b: int|
                        0 <= a < b < self@.len() implies (#[trigger] self@[a]).0 != (
                    #[trigger] self@[b]).0 by {
                        if b < self@.len() - 1 {
                            assert(old(self)@[a].0 != old(self)@[b].0);
                        } else {
                            assert(old(self)@[a].0 != pv);
                        }
                    }
                }
            },
        }
    }

    /// Applies a `Create(path)` event: `loaded` is the document read from
    /// `path`, or `None` where reading or parsing failed. A path already
    /// present is a conflict and changes nothing; so does a failed load.
    pub fn process_create_event(&mut self, path: &UTF8FilePath, loaded: Option<FrontmatterFile>)
        requires
            old(self).wf(),
        ensures
            final(self).wf(),
            final(self).store() =~= apply_create(old(self).store(), path@, doc_view_of(loaded)),
    {
        if self.contains(path) {
            return;
        }
        match loaded {
            Some(file) => {
                self.insert_or_replace(path.clone(), file);
            },
            None => {},
        }
    }

    /// Applies an `Edit(path)` event: replaces the stored document with
    /// `loaded`. A path not present is a miss and changes nothing; so does a
    /// failed load.
    pub fn process_edit_event(&mut self, path: &UTF8FilePath, loaded: Option<FrontmatterFile>)
        requires
            old(self).wf(),
        ensures
            final(self).wf(),
            final(self).store() =~= apply_edit(old(self).store(), path@, doc_view_of(loaded)),
    {
        if !self.contains(path) {
            return;
        }
        match loaded {
            Some(file) => {
                self.insert_or_replace(path.clone(), file);
            },
            None => {},
        }
    }

    /// Applies a `Delete(path)` event: removes the path; removing an absent
    /// path changes nothing.
    pub fn process_removal_event(&mut self, path: &UTF8FilePath)
        requires
            old(self).wf(),
        ensures
            final(self).wf(),
            final(self).store() =~= apply_delete(old(self).store(), path@),
    {
        proof {
            lemma_map_of(self@);
        }
        match self.find_index(path) {
            Some(i) => {
                let ghost idx = i as int;
                self.entries.remove(i);
                proof {
                    assert(self@ =~= old(self)@.remove(idx));
                    lemma_map_of_remove(old(self)@, idx);
                    assert forall|a: int, b: int|
                        0 <= a < b < self@.len() implies (#[trigger] self@[a]).0 != (
                    #[trigger] self@[b]).0 by {
                        let oa = if a < idx {
                            a
                        } else {
                            a + 1
                        };
                        let ob = if b < idx {
                            b
                        } else {
                            b + 1
                        };
                        assert(old(self)@[oa].0 != old(self)@[ob].0);
                    }
                }
            },
            None => {
                proof {
                    assert(!old(self).store().contains_key(path@));
                    assert(final(self).store() =~= apply_delete(old(self).store(), path@));
                }
            },
        }
    }

    /// Applies a `Rename(path)` event. A present path is treated as the old
    /// half of a rename and removed; an absent one as a creation, inserting
    /// `loaded`. Delivery of renames differs by platform; this converges to
    /// the right store either way.
    pub fn process_rename_event(&mut self, path: &UTF8FilePath, loaded: Option<FrontmatterFile>)
        requires
            old(self).wf(),
        ensures
            final(self).wf(),
            final(self).store() =~= apply_rename(old(self).store(), path@, doc_view_of(loaded)),
    {
        if self.contains(path) {
            self.process_removal_event(path);
        } else {
            self.process_create_event(path, loaded);
        }
    }

    /// Applies one normalized filesystem event.
    pub fn apply_event(&mut self, event: FsEvent, path: &UTF8FilePath, loaded: Option<
        FrontmatterFile,
    >)
        requires
            old(self).wf(),
        ensures
            final(self).wf(),
            final(self).store() =~= apply_fs_event(
                old(self).store(),
                event,
                path@,
                doc_view_of(loaded),
            ),
    {
        match event {
            FsEvent::Rename => self.process_rename_event(path, loaded),
            FsEvent::Edit => self.process_edit_event(path, loaded),
            FsEvent::Delete => self.process_removal_event(path),
            FsEvent::Create => self.process_create_event(path, loaded),
            FsEvent::Ignored => {},
            FsEvent::Unhandled => {},
        }
    }

    /// The current documents, cloned, in the store's entry order.
    pub fn files(&self) -> (r: Vec<FrontmatterFile>)
        ensures
            r@.len() == self@.len(),
            forall|i: int| 0 <= i < r@.len() ==> (#[trigger] r@[i])@ == self@[i].1,
            crate::frontmatter_file::doc_views(r@) == self.docs(),
    {
        let n = self.entries.len();
        let mut r: Vec<FrontmatterFile> = Vec::new();
        let mut i: usize = 0;
        while i < n
            invariant
                n == self.entries@.len(),
                self@.len() == n,
                forall|j: int| 0 <= j < n ==> #[trigger] self@[j] == (
                    self.entries@[j].0@,
                    self.entries@[j].1@,
                ),
                0 <= i <= n,
                r@.len() == i,
                forall|j: int| 0 <= j < i ==> (#[trigger] r@[j])@ == self@[j].1,
            decreases n - i,
        {
            r.push(self.entries[i].1.clone());
            i += 1;
        }
        proof {
            assert(crate::frontmatter_file::doc_views(r@) =~= self.docs());
        }
        r
    }
}

} // verus!
