//! The file cache: what was extracted from each file, kept under the file's
//! path until the path is invalidated.

use crate::extract::{well_formed, ClassView, FileClassMap};
use vstd::prelude::*;

verus! {

/// One cached file: its path and its classes.
pub struct CachedFileView {
    pub path: Seq<char>,
    pub classes: Seq<ClassView>,
}

/// One cached file: its path and what was extracted from it.
#[derive(Debug)]
pub struct CachedFile {
    path: String,
    map: FileClassMap,
}

impl View for CachedFile {
    type V = CachedFileView;

    closed spec fn view(&self) -> CachedFileView {
        CachedFileView { path: self.path@, classes: self.map@ }
    }
}

impl DeepView for CachedFile {
    type V = CachedFileView;

    open spec fn deep_view(&self) -> CachedFileView {
        self@
    }
}

impl CachedFile {
    /// The path under which the file is cached.
    pub fn path(&self) -> (path: &String)
        ensures
            path@ == self@.path,
    {
        &self.path
    }

    /// What was extracted from the file.
    pub fn class_map(&self) -> (map: &FileClassMap)
        ensures
            map@ == self@.classes,
    {
        &self.map
    }
}

/// Whether the file at `i` is cached under this path.
pub open spec fn cached_at(files: Seq<CachedFileView>, path: Seq<char>, i: int) -> bool {
    0 <= i < files.len() && files[i].path == path
}

/// Whether a file is cached under this path.
pub open spec fn is_cached(files: Seq<CachedFileView>, path: Seq<char>) -> bool {
    exists|i: int| cached_at(files, path, i)
}

/// The classes cached under this path, if any are.
pub open spec fn lookup(files: Seq<CachedFileView>, path: Seq<char>) -> Option<Seq<ClassView>> {
    if is_cached(files, path) {
        Some(files[choose|i: int| cached_at(files, path, i)].classes)
    } else {
        None
    }
}

/// No path occurs twice among the files.
pub open spec fn paths_distinct(files: Seq<CachedFileView>) -> bool {
    forall|i: int, j: int|
        0 <= i < j < files.len() ==> (#[trigger] files[i]).path != (#[trigger] files[j]).path
}

/// The invariant of a cache: each path once, and the classes of each file well
/// formed.
pub open spec fn cache_well_formed(files: Seq<CachedFileView>) -> bool {
    &&& paths_distinct(files)
    &&& forall|i: int| 0 <= i < files.len() ==> well_formed((#[trigger] files[i]).classes)
}

/// The cache after `classes` were put under `path`: they take the place of
/// what was cached under the path, or else come as a new file.
pub open spec fn with_file(files: Seq<CachedFileView>, path: Seq<char>, classes: Seq<ClassView>) -> Seq<
    CachedFileView,
> {
    if is_cached(files, path) {
        files.update(choose|i: int| cached_at(files, path, i), CachedFileView { path, classes })
    } else {
        files.push(CachedFileView { path, classes })
    }
}

/// The cache after `path` was invalidated: without the file cached under the
/// path, if there was one.
pub open spec fn without_file(files: Seq<CachedFileView>, path: Seq<char>) -> Seq<CachedFileView> {
    if is_cached(files, path) {
        files.remove(choose|i: int| cached_at(files, path, i))
    } else {
        files
    }
}

/// In a well-formed cache a path is cached at one place only.
pub proof fn lemma_cached_at_unique(files: Seq<CachedFileView>, path: Seq<char>, i: int, j: int)
    requires
        paths_distinct(files),
        cached_at(files, path, i),
        cached_at(files, path, j),
    ensures
        i == j,
{
    if i < j {
        assert(files[i].path != files[j].path);
    }
    if j < i {
        assert(files[j].path != files[i].path);
    }
}

/// Putting a file keeps the cache well formed and makes the file the one
/// cached under its path.
pub proof fn lemma_with_file(files: Seq<CachedFileView>, path: Seq<char>, classes: Seq<ClassView>)
    requires
        cache_well_formed(files),
        well_formed(classes),
    ensures
        cache_well_formed(with_file(files, path, classes)),
        lookup(with_file(files, path, classes), path) == Some(classes),
        forall|other: Seq<char>|
            other != path ==> lookup(with_file(files, path, classes), other) == lookup(files, other),
{
    let after = with_file(files, path, classes);
    let at = if is_cached(files, path) {
        choose|i: int| cached_at(files, path, i)
    } else {
        files.len() as int
    };
    assert(cached_at(after, path, at));
    assert forall|i: int, j: int| 0 <= i < j < after.len() implies (#[trigger] after[i]).path != (
    #[trigger] after[j]).path by {
        if is_cached(files, path) {
            assert(after[i].path == files[i].path);
            assert(after[j].path == files[j].path);
        } else {
            if j == files.len() {
                assert(!cached_at(files, path, i));
            } else {
                assert(after[i] == files[i] && after[j] == files[j]);
            }
        }
    }
    assert forall|i: int| 0 <= i < after.len() implies well_formed((#[trigger] after[i]).classes) by {
        if i != at {
            assert(after[i] == files[i]);
        }
    }
    lemma_cached_at_unique(after, path, at, choose|i: int| cached_at(after, path, i));
    assert forall|other: Seq<char>| other != path implies lookup(after, other) == lookup(
        files,
        other,
    ) by {
        if is_cached(files, other) {
            let k = choose|i: int| cached_at(files, other, i);
            assert(cached_at(after, other, k));
            lemma_cached_at_unique(after, other, k, choose|i: int| cached_at(after, other, i));
        } else {
            if is_cached(after, other) {
                let k = choose|i: int| cached_at(after, other, i);
                assert(cached_at(files, other, k));
            }
        }
    }
}

/// Invalidating a path keeps the cache well formed, leaves the path uncached
/// and every other path as it was.
pub proof fn lemma_without_file(files: Seq<CachedFileView>, path: Seq<char>)
    requires
        cache_well_formed(files),
    ensures
        cache_well_formed(without_file(files, path)),
        !is_cached(without_file(files, path), path),
        forall|other: Seq<char>|
            other != path ==> lookup(without_file(files, path), other) == lookup(files, other),
{
    let after = without_file(files, path);
    if is_cached(files, path) {
        let at = choose|i: int| cached_at(files, path, i);
        assert forall|i: int| 0 <= i < after.len() implies #[trigger] after[i] == files[if i < at {
            i
        } else {
            i + 1
        }] by {}
        assert forall|i: int, j: int| 0 <= i < j < after.len() implies (#[trigger] after[i]).path
            != (#[trigger] after[j]).path by {
            let a = if i < at { i } else { i + 1 };
            let b = if j < at { j } else { j + 1 };
            assert(after[i] == files[a] && after[j] == files[b]);
            assert(files[a].path != files[b].path);
        }
        assert forall|i: int| 0 <= i < after.len() implies well_formed(
            (#[trigger] after[i]).classes,
        ) by {
            let a = if i < at { i } else { i + 1 };
            assert(after[i] == files[a]);
        }
        assert forall|i: int| !cached_at(after, path, i) by {
            if 0 <= i < after.len() {
                let a = if i < at { i } else { i + 1 };
                assert(after[i] == files[a]);
                if files[a].path == path {
                    lemma_cached_at_unique(files, path, a, at);
                }
            }
        }
        assert forall|other: Seq<char>| other != path implies lookup(after, other) == lookup(
            files,
            other,
        ) by {
            if is_cached(files, other) {
                let k = choose|i: int| cached_at(files, other, i);
                let moved = if k < at { k } else { k - 1 };
                assert(after[moved] == files[k]);
                assert(cached_at(after, other, moved));
                lemma_cached_at_unique(
                    after,
                    other,
                    moved,
                    choose|i: int| cached_at(after, other, i),
                );
            } else {
                if is_cached(after, other) {
                    let k = choose|i: int| cached_at(after, other, i);
                    let a = if k < at { k } else { k + 1 };
                    assert(after[k] == files[a]);
                    assert(cached_at(files, other, a));
                }
            }
        }
    }
}

/// The extracted classes of every file that was parsed, under the file's path.
#[derive(Debug)]
pub struct FileCache {
    files: Vec<CachedFile>,
}

impl View for FileCache {
    type V = Seq<CachedFileView>;

    closed spec fn view(&self) -> Seq<CachedFileView> {
        self.files.deep_view()
    }
}

impl FileCache {
    /// Whether the cache keeps its invariant.
    pub open spec fn wf(&self) -> bool {
        cache_well_formed(self@)
    }

    /// A cache without files.
    pub fn new() -> (cache: FileCache)
        ensures
            cache@ == Seq::<CachedFileView>::empty(),
            cache.wf(),
    {
        let cache = FileCache { files: Vec::new() };
        assert(cache@ =~= Seq::<CachedFileView>::empty());
        cache
    }

    /// Where the file of this path stands, if it is cached.
    fn find(&self, path: &String) -> (found: Option<usize>)
        ensures
            match found {
                Some(i) => cached_at(self@, path@, i as int),
                None => !is_cached(self@, path@),
            },
    {
        let mut i: usize = 0;
        while i < self.files.len()
            invariant
                i <= self.files.len(),
                forall|j: int| 0 <= j < i ==> !cached_at(self@, path@, j),
            decreases self.files.len() - i,
        {
            if self.files[i].path == *path {
                return Some(i);
            }
            i += 1;
        }
        None
    }

    /// Whether a file is cached under `path`.
    pub fn contains(&self, path: &String) -> (cached: bool)
        ensures
            cached == is_cached(self@, path@),
    {
        self.find(path).is_some()
    }

    /// Puts `map` under `path`, in place of what was cached there.
    pub fn put(&mut self, path: String, map: FileClassMap)
        requires
            old(self).wf(),
            map.wf(),
        ensures
            final(self)@ == with_file(old(self)@, path@, map@),
            final(self).wf(),
            lookup(final(self)@, path@) == Some(map@),
    {
        let ghost before = self@;
        proof {
            lemma_with_file(before, path@, map@);
        }
        match self.find(&path) {
            Some(i) => {
                proof {
                    lemma_cached_at_unique(
                        before,
                        path@,
                        i as int,
                        choose|c: int| cached_at(before, path@, c),
                    );
                }
                self.files[i] = CachedFile { path, map };
                assert(self@ =~= with_file(before, path@, map@));
            },
            None => {
                self.files.push(CachedFile { path, map });
                assert(self@ =~= with_file(before, path@, map@));
            },
        }
    }

    /// Removes what is cached under `path`; without such a file nothing
    /// changes. Tells whether a file was removed.
    pub fn invalidate(&mut self, path: &String) -> (removed: bool)
        requires
            old(self).wf(),
        ensures
            final(self)@ == without_file(old(self)@, path@),
            final(self).wf(),
            removed == is_cached(old(self)@, path@),
            !is_cached(final(self)@, path@),
    {
        let ghost before = self@;
        proof {
            lemma_without_file(before, path@);
        }
        match self.find(path) {
            Some(i) => {
                proof {
                    lemma_cached_at_unique(
                        before,
                        path@,
                        i as int,
                        choose|c: int| cached_at(before, path@, c),
                    );
                }
                self.files.remove(i);
                assert(self@ =~= without_file(before, path@));
                true
            },
            None => false,
        }
    }

    /// Removes every file.
    pub fn invalidate_all(&mut self)
        ensures
            final(self)@ == Seq::<CachedFileView>::empty(),
            final(self).wf(),
    {
        self.files.clear();
        assert(self@ =~= Seq::<CachedFileView>::empty());
    }

    /// The number of cached files.
    pub fn len(&self) -> (n: usize)
        ensures
            n == self@.len(),
    {
        self.files.len()
    }

    /// The cached file at `i`, in the order in which the paths were first put.
    pub fn file(&self, i: usize) -> (file: &CachedFile)
        requires
            i < self@.len(),
        ensures
            file@ == self@[i as int],
    {
        &self.files[i]
    }

    /// What is cached under `path`, if anything is.
    pub fn get(&self, path: &String) -> (map: Option<&FileClassMap>)
        requires
            self.wf(),
        ensures
            match map {
                Some(map) => lookup(self@, path@) == Some(map@),
                None => lookup(self@, path@).is_none(),
            },
    {
        match self.find(path) {
            Some(i) => {
                proof {
                    lemma_cached_at_unique(
                        self@,
                        path@,
                        i as int,
                        choose|c: int| cached_at(self@, path@, c),
                    );
                }
                Some(self.files[i].class_map())
            },
            None => None,
        }
    }
}

} // verus!
