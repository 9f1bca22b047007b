//! The engine: the one entry point. It owns the file cache and the completion
//! list that is derived from it.

use crate::aggregate::{completions_of, rebuild};
use crate::cache::{cache_well_formed, is_cached, lookup, without_file, CachedFileView, FileCache};
use crate::diagnostics::{Diagnostic, DiagnosticView};
use crate::extract::{extract, lemma_extracted_well_formed};
use crate::request::{
    lemma_wanted_paths, load_records, load_records_all, loaded, loaded_all, names_path,
    wanted_paths, SourceFile,
};
use crate::serialize::{completions_json, completions_text, empty_array, list_text};
use crate::syntax::{Grammar, StartupError};
use vstd::prelude::*;

verus! {

/// The completion list: pairs of a class name and the text shown for it.
pub type Completions = Vec<(String, String)>;

/// Extracts class names and their rule sets from stylesheets, keeps what each
/// file gave, and serves the completion list of all files it keeps.
pub struct AutocompletionEngine {
    completions: Completions,
    file_class_map: FileCache,
    stale: bool,
    grammar: Grammar,
    diagnostics: Vec<Diagnostic>,
}

/// Whether `path` occurs among the first `i` sources.
fn named_before(sources: &Vec<SourceFile>, i: usize, path: &String) -> (named: bool)
    requires
        i <= sources.len(),
    ensures
        named == names_path(sources.deep_view().take(i as int), path@),
{
    let ghost firsts = sources.deep_view().take(i as int);
    let mut j: usize = 0;
    while j < i
        invariant
            j <= i <= sources.len(),
            firsts == sources.deep_view().take(i as int),
            forall|k: int| 0 <= k < j ==> (#[trigger] firsts[k]).path != path@,
        decreases i - j,
    {
        if sources[j].path == *path {
            assert(firsts[j as int].path == path@);
            return true;
        }
        j += 1;
    }
    false
}

/// Whether `text` is one of the texts.
fn holds_text(texts: &Vec<String>, text: &String) -> (held: bool)
    ensures
        held == texts.deep_view().contains(text@),
{
    let mut j: usize = 0;
    while j < texts.len()
        invariant
            j <= texts.len(),
            forall|k: int| 0 <= k < j ==> texts.deep_view()[k] != text@,
        decreases texts.len() - j,
    {
        if texts[j] == *text {
            assert(texts.deep_view()[j as int] == text@);
            return true;
        }
        j += 1;
    }
    false
}

impl AutocompletionEngine {
    /// The files that are cached, with what each gave.
    pub closed spec fn cache(&self) -> Seq<CachedFileView> {
        self.file_class_map@
    }

    /// The completion list as it was last built.
    pub closed spec fn listed(&self) -> Seq<(Seq<char>, Seq<char>)> {
        self.completions.deep_view()
    }

    /// Whether the cache has changed since the completion list was built.
    pub closed spec fn needs_rebuild(&self) -> bool {
        self.stale
    }

    /// The records that have not been taken yet.
    pub closed spec fn pending(&self) -> Seq<DiagnosticView> {
        self.diagnostics.deep_view()
    }

    /// The invariant of the engine: the cache is well formed, and the
    /// completion list is the one of the cache unless a rebuild is due.
    pub open spec fn wf(&self) -> bool {
        &&& cache_well_formed(self.cache())
        &&& !self.needs_rebuild() ==> self.listed() == completions_of(self.cache())
    }

    /// An engine with an empty cache around a grammar adapter that was set
    /// up.
    pub fn with_grammar(grammar: Grammar) -> (engine: AutocompletionEngine)
        ensures
            engine.wf(),
            engine.cache() == Seq::<CachedFileView>::empty(),
            engine.listed() == Seq::<(Seq<char>, Seq<char>)>::empty(),
            engine.pending() == Seq::<DiagnosticView>::empty(),
            engine.needs_rebuild(),
    {
        let engine = AutocompletionEngine {
            completions: Vec::new(),
            file_class_map: FileCache::new(),
            stale: true,
            grammar,
            diagnostics: Vec::new(),
        };
        assert(engine.pending() =~= Seq::<DiagnosticView>::empty());
        assert(engine.listed() =~= Seq::<(Seq<char>, Seq<char>)>::empty());
        engine
    }

    /// An engine with an empty cache. Fails where the grammar adapter cannot
    /// be set up: without it the engine can do nothing at all.
    pub fn new() -> (made: Result<AutocompletionEngine, StartupError>)
        ensures
            made matches Ok(engine) ==> {
                &&& engine.wf()
                &&& engine.cache() == Seq::<CachedFileView>::empty()
                &&& engine.listed() == Seq::<(Seq<char>, Seq<char>)>::empty()
                &&& engine.pending() == Seq::<DiagnosticView>::empty()
                &&& engine.needs_rebuild()
            },
    {
        match Grammar::load() {
            Ok(grammar) => Ok(AutocompletionEngine::with_grammar(grammar)),
            Err(e) => Err(e),
        }
    }

    /// Looks at one requested file that no earlier source of the request
    /// names.
    fn load(&mut self, source: &SourceFile)
        requires
            old(self).wf(),
        ensures
            final(self).wf(),
            final(self).cache() == loaded(old(self).cache(), source@),
            final(self).pending() == old(self).pending() + load_records(old(self).cache(), source@),
            final(self).needs_rebuild() == (old(self).needs_rebuild() || final(self).cache() != old(
                self,
            ).cache()),
    {
        let ghost before = self.cache();
        let ghost logged = self.pending();
        if self.file_class_map.contains(&source.path) {
            assert(self.pending() =~= logged + Seq::<DiagnosticView>::empty());
            return ;
        }
        match &source.content {
            None => {
                let record = Diagnostic::UnreadableFile { path: source.path.clone() };
                self.diagnostics.push(record);
                assert(self.pending() =~= logged + seq![record@]);
            },
            Some(text) => {
                proof {
                    lemma_extracted_well_formed(text@);
                }
                match extract(&mut self.grammar, &source.path, text.as_str(), &mut self.diagnostics) {
                    Ok(map) => {
                        self.stale = true;
                        self.file_class_map.put(source.path.clone(), map);
                        assert(self.cache() != before) by {
                            assert(self.cache().len() == before.len() + 1);
                        }
                    },
                    Err(_) => {
                        let record = Diagnostic::ParseFailed { path: source.path.clone() };
                        self.diagnostics.push(record);
                        assert(self.pending() =~= logged + seq![record@]);
                    },
                }
            },
        }
    }

    /// Serves the completion list for a request. Every source whose path is
    /// not cached yet is extracted and cached; a source without content, or
    /// one that the parser gives no tree for, is skipped with a record, and of
    /// several sources with one path only the first is looked at. The list
    /// that is returned is the one of the whole cache after that, never of the
    /// requested files alone.
    pub fn get_all_completions_for_files(&mut self, sources: Vec<SourceFile>) -> (served:
        &Completions)
        requires
            old(self).wf(),
        ensures
            final(self).wf(),
            final(self).cache() == loaded_all(old(self).cache(), sources.deep_view()),
            !final(self).needs_rebuild(),
            served.deep_view() == completions_of(final(self).cache()),
            final(self).listed() == served.deep_view(),
            final(self).pending() == old(self).pending() + load_records_all(
                old(self).cache(),
                sources.deep_view(),
            ),
    {
        let ghost before = self.cache();
        let ghost logged = self.pending();
        let ghost all = sources.deep_view();
        let mut i: usize = 0;
        assert(self.pending() =~= logged + load_records_all(before, all.take(0)));
        while i < sources.len()
            invariant
                i <= sources.len(),
                all == sources.deep_view(),
                self.wf(),
                self.cache() == loaded_all(before, all.take(i as int)),
                self.pending() == logged + load_records_all(before, all.take(i as int)),
            decreases sources.len() - i,
        {
            let ghost next = all.take(i + 1);
            assert(next.drop_last() =~= all.take(i as int));
            assert(next.last() == sources[i as int]@);
            if !named_before(&sources, i, &sources[i].path) {
                self.load(&sources[i]);
                assert(self.pending() =~= logged + load_records_all(before, next));
            }
            i += 1;
        }
        assert(all.take(i as int) =~= all);
        if self.stale {
            self.completions = rebuild(&self.file_class_map);
            self.stale = false;
        }
        &self.completions
    }

    /// Serves the completion list for a request as JSON: an array with one
    /// two-element array, class name and text, for each entry. A list that
    /// cannot be written is served as an empty array, and a record is left.
    pub fn get_all_completions_as_string(&mut self, sources: Vec<SourceFile>) -> (text: String)
        requires
            old(self).wf(),
        ensures
            final(self).wf(),
            final(self).cache() == loaded_all(old(self).cache(), sources.deep_view()),
            !final(self).needs_rebuild(),
            final(self).listed() == completions_of(final(self).cache()),
            text@ == list_text(final(self).listed()),
            ({
                let records = old(self).pending() + load_records_all(
                    old(self).cache(),
                    sources.deep_view(),
                );
                match completions_json(final(self).listed()) {
                    Some(json) => text@ == json && final(self).pending() == records,
                    None => text@ == empty_array() && final(self).pending() == records.push(
                        DiagnosticView::SerializationFailed,
                    ),
                }
            }),
    {
        self.get_all_completions_for_files(sources);
        completions_text(&self.completions, &mut self.diagnostics)
    }

    /// The paths that have to be read before a request for `files` can be
    /// served: those that are not cached, each once.
    pub fn uncached_paths(&self, files: &Vec<String>) -> (wanted: Vec<String>)
        ensures
            wanted.deep_view() == wanted_paths(self.cache(), files.deep_view()),
            wanted.deep_view().no_duplicates(),
            forall|path: Seq<char>|
                wanted.deep_view().contains(path) <==> (files.deep_view().contains(path)
                    && !is_cached(self.cache(), path)),
    {
        let ghost all = files.deep_view();
        let mut wanted: Vec<String> = Vec::new();
        let mut i: usize = 0;
        assert(wanted.deep_view() =~= wanted_paths(self.cache(), all.take(0)));
        while i < files.len()
            invariant
                i <= files.len(),
                all == files.deep_view(),
                wanted.deep_view() == wanted_paths(self.cache(), all.take(i as int)),
            decreases files.len() - i,
        {
            let ghost had = wanted.deep_view();
            assert(all.take(i + 1).drop_last() =~= all.take(i as int));
            assert(all.take(i + 1).last() == files[i as int]@);
            if !self.file_class_map.contains(&files[i]) && !holds_text(&wanted, &files[i]) {
                wanted.push(files[i].clone());
                assert(wanted.deep_view() =~= had.push(files[i as int]@));
            }
            i += 1;
        }
        assert(all.take(i as int) =~= all);
        proof {
            lemma_wanted_paths(self.cache(), all);
        }
        wanted
    }

    /// Drops the whole cache. The next request extracts every file anew and
    /// builds the completion list from nothing.
    pub fn invalidate_cache(&mut self)
        ensures
            final(self).wf(),
            final(self).cache() == Seq::<CachedFileView>::empty(),
            final(self).listed() == Seq::<(Seq<char>, Seq<char>)>::empty(),
            final(self).needs_rebuild(),
            final(self).pending() == old(self).pending(),
    {
        self.stale = true;
        self.file_class_map.invalidate_all();
        self.completions = Vec::new();
        assert(self.listed() =~= Seq::<(Seq<char>, Seq<char>)>::empty());
    }

    /// Drops what is cached under `file_path`, so that the next request that
    /// names the path extracts the file anew. Where the path is not cached
    /// nothing changes.
    pub fn invalidate_file_cache(&mut self, file_path: String)
        requires
            old(self).wf(),
        ensures
            final(self).wf(),
            final(self).cache() == without_file(old(self).cache(), file_path@),
            !is_cached(final(self).cache(), file_path@),
            final(self).needs_rebuild() == (old(self).needs_rebuild() || is_cached(
                old(self).cache(),
                file_path@,
            )),
            final(self).listed() == old(self).listed(),
            final(self).pending() == old(self).pending(),
    {
        if self.file_class_map.contains(&file_path) {
            self.stale = true;
            self.file_class_map.invalidate(&file_path);
        }
    }

    /// The completion list as it was last built. After an invalidation it is
    /// out of date until the next request is served.
    pub fn completions(&self) -> (list: &Completions)
        ensures
            list.deep_view() == self.listed(),
    {
        &self.completions
    }

    /// Whether a file is cached under `path`.
    pub fn is_cached(&self, path: &String) -> (cached: bool)
        ensures
            cached == is_cached(self.cache(), path@),
    {
        self.file_class_map.contains(path)
    }

    /// The number of cached files.
    pub fn cached_files(&self) -> (n: usize)
        ensures
            n == self.cache().len(),
    {
        self.file_class_map.len()
    }

    /// The number of class names that the file cached under `path` gave.
    pub fn class_count(&self, path: &String) -> (n: Option<usize>)
        requires
            self.wf(),
        ensures
            match lookup(self.cache(), path@) {
                Some(classes) => n == Some(classes.len() as usize),
                None => n.is_none(),
            },
    {
        match self.file_class_map.get(path) {
            Some(map) => Some(map.len()),
            None => None,
        }
    }

    /// Hands out the records of what was skipped since they were last taken.
    pub fn take_diagnostics(&mut self) -> (records: Vec<Diagnostic>)
        ensures
            records.deep_view() == old(self).pending(),
            final(self).pending() == Seq::<DiagnosticView>::empty(),
            final(self).cache() == old(self).cache(),
            final(self).listed() == old(self).listed(),
            final(self).needs_rebuild() == old(self).needs_rebuild(),
    {
        let mut records: Vec<Diagnostic> = Vec::new();
        std::mem::swap(&mut records, &mut self.diagnostics);
        assert(self.pending() =~= Seq::<DiagnosticView>::empty());
        records
    }
}

} // verus!
