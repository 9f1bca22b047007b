//! Requests: the files that a caller asks completions for, what looking at
//! them does to the cache, and what holds of every request.

use crate::aggregate::{
    cache_entries, completions_of, entry_order, file_entries, lemma_completions_sorted,
    lemma_entry_order_total,
};
use crate::cache::{
    cache_well_formed, cached_at, is_cached, lemma_with_file, lemma_without_file, lookup, with_file,
    without_file, CachedFileView,
};
use crate::diagnostics::DiagnosticView;
use crate::extract::{extracted, extraction_skips, lemma_extracted_well_formed, parsed};
use crate::syntax::CaptureView;
use vstd::prelude::*;
use vstd::seq_lib::*;

verus! {


/// A requested file: its path, and its content where it could be read.
pub struct SourceView {
    pub path: Seq<char>,
    pub content: Option<Seq<char>>,
}

/// A requested file: its path, and its content where it could be read.
#[derive(Debug)]
pub struct SourceFile {
    pub path: String,
    pub content: Option<String>,
}

impl View for SourceFile {
    type V = SourceView;

    open spec fn view(&self) -> SourceView {
        SourceView { path: self.path@, content: self.content.deep_view() }
    }
}

impl DeepView for SourceFile {
    type V = SourceView;

    open spec fn deep_view(&self) -> SourceView {
        self@
    }
}

/// Whether one of the sources has this path.
pub open spec fn names_path(sources: Seq<SourceView>, path: Seq<char>) -> bool {
    exists|j: int| 0 <= j < sources.len() && (#[trigger] sources[j]).path == path
}

/// The cache after one requested file was looked at. A cached path is left
/// alone, whatever the content says. An uncached file is extracted and put
/// into the cache; where it could not be read or not be parsed the cache stays
/// as it is.
pub open spec fn loaded(files: Seq<CachedFileView>, source: SourceView) -> Seq<CachedFileView> {
    if is_cached(files, source.path) {
        files
    } else {
        match source.content {
            None => files,
            Some(text) => match extracted(text) {
                None => files,
                Some(classes) => with_file(files, source.path, classes),
            },
        }
    }
}

/// The records that looking at one requested file leaves.
pub open spec fn load_records(files: Seq<CachedFileView>, source: SourceView) -> Seq<
    DiagnosticView,
> {
    if is_cached(files, source.path) {
        Seq::empty()
    } else {
        match source.content {
            None => seq![DiagnosticView::UnreadableFile { path: source.path }],
            Some(text) => match extracted(text) {
                None => seq![DiagnosticView::ParseFailed { path: source.path }],
                Some(_) => extraction_skips(source.path, text),
            },
        }
    }
}

/// The cache after a request: the sources are looked at in order, and of
/// several sources with one path only the first counts.
pub open spec fn loaded_all(files: Seq<CachedFileView>, sources: Seq<SourceView>) -> Seq<
    CachedFileView,
>
    decreases sources.len(),
{
    if sources.len() == 0 {
        files
    } else {
        let before = loaded_all(files, sources.drop_last());
        if names_path(sources.drop_last(), sources.last().path) {
            before
        } else {
            loaded(before, sources.last())
        }
    }
}

/// The records that a request leaves, in the order of the sources.
pub open spec fn load_records_all(files: Seq<CachedFileView>, sources: Seq<SourceView>) -> Seq<
    DiagnosticView,
>
    decreases sources.len(),
{
    if sources.len() == 0 {
        Seq::empty()
    } else {
        let records = load_records_all(files, sources.drop_last());
        if names_path(sources.drop_last(), sources.last().path) {
            records
        } else {
            records + load_records(loaded_all(files, sources.drop_last()), sources.last())
        }
    }
}

/// The paths that have to be read for a request: those that are not cached,
/// each once, in the order in which the request first names them.
pub open spec fn wanted_paths(files: Seq<CachedFileView>, paths: Seq<Seq<char>>) -> Seq<Seq<char>>
    decreases paths.len(),
{
    if paths.len() == 0 {
        Seq::empty()
    } else {
        let before = wanted_paths(files, paths.drop_last());
        if is_cached(files, paths.last()) || before.contains(paths.last()) {
            before
        } else {
            before.push(paths.last())
        }
    }
}

/// A request keeps the cache well formed.
pub proof fn lemma_loaded_all_well_formed(files: Seq<CachedFileView>, sources: Seq<SourceView>)
    requires
        cache_well_formed(files),
    ensures
        cache_well_formed(loaded_all(files, sources)),
    decreases sources.len(),
{
    if sources.len() > 0 {
        lemma_loaded_all_well_formed(files, sources.drop_last());
        let before = loaded_all(files, sources.drop_last());
        let source = sources.last();
        if let Some(text) = source.content {
            if let Some(classes) = extracted(text) {
                lemma_extracted_well_formed(text);
                lemma_with_file(before, source.path, classes);
            }
        }
    }
}

/// A cache whose files know no class name has an empty completion list.
pub proof fn lemma_no_classes_no_completions(files: Seq<CachedFileView>)
    requires
        forall|i: int| 0 <= i < files.len() ==> (#[trigger] files[i]).classes.len() == 0,
    ensures
        completions_of(files) == Seq::<(Seq<char>, Seq<char>)>::empty(),
{
    lemma_no_classes_no_entries(files);
    lemma_completions_sorted(files);
    assert(completions_of(files) =~= Seq::<(Seq<char>, Seq<char>)>::empty());
}

/// A cache whose files know no class name has no entries.
pub proof fn lemma_no_classes_no_entries(files: Seq<CachedFileView>)
    requires
        forall|i: int| 0 <= i < files.len() ==> (#[trigger] files[i]).classes.len() == 0,
    ensures
        cache_entries(files).len() == 0,
    decreases files.len(),
{
    if files.len() > 0 {
        let firsts = files.drop_last();
        assert forall|i: int| 0 <= i < firsts.len() implies (#[trigger] firsts[i]).classes.len()
            == 0 by {
            assert(firsts[i] == files[i]);
        }
        lemma_no_classes_no_entries(firsts);
        assert(files[files.len() - 1].classes.len() == 0);
        assert(file_entries(files.last().classes).len() == 0);
    }
}

/// A request for one file without class selectors, put to an engine that has
/// nothing cached, is served an empty completion list.
pub proof fn lemma_file_without_class_selectors(source: SourceView)
    requires
        source.content matches Some(text) && parsed(text) == Some(
            Seq::<Seq<CaptureView>>::empty(),
        ),
    ensures
        completions_of(loaded_all(Seq::empty(), seq![source])) == Seq::<
            (Seq<char>, Seq<char>),
        >::empty(),
{
    let none = Seq::<CachedFileView>::empty();
    let sources = seq![source];
    assert(sources.drop_last() =~= Seq::<SourceView>::empty());
    assert(loaded_all(none, sources.drop_last()) == none);
    assert(!names_path(sources.drop_last(), source.path));
    assert(!is_cached(none, source.path));
    let after = loaded_all(none, sources);
    assert(after == loaded(none, source));
    assert(after.len() == 1 && after[0].classes.len() == 0);
    lemma_no_classes_no_completions(after);
}

/// What is cached stays cached when a requested file is looked at.
pub proof fn lemma_loaded_keeps_cached(
    files: Seq<CachedFileView>,
    source: SourceView,
    path: Seq<char>,
)
    requires
        is_cached(files, path),
    ensures
        is_cached(loaded(files, source), path),
{
    let i = choose|i: int| cached_at(files, path, i);
    assert(cached_at(loaded(files, source), path, i));
}

/// A requested file that changes nothing now changes nothing after another
/// file was looked at.
pub proof fn lemma_settled_stays_settled(
    files: Seq<CachedFileView>,
    settled: SourceView,
    source: SourceView,
)
    requires
        loaded(files, settled) == files,
    ensures
        loaded(loaded(files, source), settled) == loaded(files, source),
{
    if is_cached(files, settled.path) {
        lemma_loaded_keeps_cached(files, source, settled.path);
    } else if let Some(text) = settled.content {
        if let Some(classes) = extracted(text) {
            assert(with_file(files, settled.path, classes).len() == files.len() + 1);
        }
    }
}

/// After a request, each of its sources that counted changes nothing when it
/// is looked at once more: its file is cached, or cannot be had.
pub proof fn lemma_source_settled(files: Seq<CachedFileView>, sources: Seq<SourceView>, k: int)
    requires
        0 <= k < sources.len(),
        !names_path(sources.take(k), sources[k].path),
    ensures
        loaded(loaded_all(files, sources), sources[k]) == loaded_all(files, sources),
    decreases sources.len(),
{
    let firsts = sources.drop_last();
    let last = sources.len() - 1;
    let before = loaded_all(files, firsts);
    if k == last {
        assert(sources.take(k) =~= firsts);
        let source = sources[k];
        if !is_cached(before, source.path) {
            if let Some(text) = source.content {
                if let Some(classes) = extracted(text) {
                    let after = with_file(before, source.path, classes);
                    assert(cached_at(after, source.path, before.len() as int));
                }
            }
        }
    } else {
        assert(firsts.take(k) =~= sources.take(k));
        assert(firsts[k] == sources[k]);
        lemma_source_settled(files, firsts, k);
        if !names_path(firsts, sources.last().path) {
            lemma_settled_stays_settled(before, sources[k], sources.last());
        }
    }
}

/// The same request put twice, with nothing invalidated in between, leaves the
/// cache after the second time as it was after the first, and so is served the
/// same completion list.
pub proof fn lemma_request_is_idempotent(files: Seq<CachedFileView>, sources: Seq<SourceView>)
    ensures
        loaded_all(loaded_all(files, sources), sources) == loaded_all(files, sources),
        completions_of(loaded_all(loaded_all(files, sources), sources)) == completions_of(
            loaded_all(files, sources),
        ),
{
    lemma_second_pass(files, sources, sources.len() as int);
    assert(sources.take(sources.len() as int) =~= sources);
}

/// Looking once more at the first `n` sources of a request that was served
/// changes nothing.
pub proof fn lemma_second_pass(files: Seq<CachedFileView>, sources: Seq<SourceView>, n: int)
    requires
        0 <= n <= sources.len(),
    ensures
        loaded_all(loaded_all(files, sources), sources.take(n)) == loaded_all(files, sources),
    decreases n,
{
    if n > 0 {
        lemma_second_pass(files, sources, n - 1);
        assert(sources.take(n).drop_last() =~= sources.take(n - 1));
        assert(sources.take(n).last() == sources[n - 1]);
        if !names_path(sources.take(n - 1), sources[n - 1].path) {
            lemma_source_settled(files, sources, n - 1);
        }
    }
}

/// A request that names cached paths only changes nothing and leaves no
/// record, whatever the contents say.
pub proof fn lemma_cached_request(files: Seq<CachedFileView>, sources: Seq<SourceView>)
    requires
        forall|j: int| 0 <= j < sources.len() ==> is_cached(files, (#[trigger] sources[j]).path),
    ensures
        loaded_all(files, sources) == files,
        load_records_all(files, sources) == Seq::<DiagnosticView>::empty(),
    decreases sources.len(),
{
    if sources.len() > 0 {
        let firsts = sources.drop_last();
        assert forall|j: int| 0 <= j < firsts.len() implies is_cached(
            files,
            (#[trigger] firsts[j]).path,
        ) by {
            assert(firsts[j] == sources[j]);
        }
        lemma_cached_request(files, firsts);
        assert(is_cached(files, sources[sources.len() - 1].path));
        assert(load_records_all(files, sources) =~= Seq::<DiagnosticView>::empty());
    }
}

/// After a path was invalidated, a request that names it has the file read
/// and extracted anew: what is cached under the path afterwards is what the
/// new content gives, and every other path keeps what it had.
pub proof fn lemma_invalidated_file_is_extracted_anew(
    files: Seq<CachedFileView>,
    path: Seq<char>,
    text: Seq<char>,
)
    requires
        cache_well_formed(files),
    ensures
        ({
            let dropped = without_file(files, path);
            let after = loaded_all(dropped, seq![SourceView { path, content: Some(text) }]);
            &&& wanted_paths(dropped, seq![path]) == seq![path]
            &&& lookup(after, path) == extracted(text)
            &&& forall|other: Seq<char>| other != path ==> lookup(after, other) == lookup(files, other)
        }),
{
    let dropped = without_file(files, path);
    let source = SourceView { path, content: Some(text) };
    let sources = seq![source];
    let after = loaded_all(dropped, sources);
    lemma_without_file(files, path);
    assert(sources.drop_last() =~= Seq::<SourceView>::empty());
    assert(loaded_all(dropped, sources.drop_last()) == dropped);
    assert(!names_path(sources.drop_last(), path));
    assert(after == loaded(dropped, source));
    if let Some(classes) = extracted(text) {
        lemma_extracted_well_formed(text);
        lemma_with_file(dropped, path, classes);
    }
    let paths = seq![path];
    assert(paths.drop_last() =~= Seq::<Seq<char>>::empty());
    assert(wanted_paths(dropped, paths.drop_last()) =~= Seq::<Seq<char>>::empty());
    assert(wanted_paths(dropped, paths) =~= seq![path]);
}

/// The paths to read are the requested paths that are not cached, each once.
pub proof fn lemma_wanted_paths(files: Seq<CachedFileView>, paths: Seq<Seq<char>>)
    ensures
        wanted_paths(files, paths).no_duplicates(),
        forall|path: Seq<char>|
            wanted_paths(files, paths).contains(path) <==> (paths.contains(path) && !is_cached(
                files,
                path,
            )),
    decreases paths.len(),
{
    let wanted = wanted_paths(files, paths);
    if paths.len() > 0 {
        let firsts = paths.drop_last();
        let before = wanted_paths(files, firsts);
        let last = paths.last();
        lemma_wanted_paths(files, firsts);
        assert forall|path: Seq<char>| wanted.contains(path) <==> (paths.contains(path)
            && !is_cached(files, path)) by {
            if paths.contains(path) {
                let j = choose|j: int| 0 <= j < paths.len() && paths[j] == path;
                if j < firsts.len() {
                    assert(firsts[j] == path);
                }
            }
            if firsts.contains(path) {
                let j = choose|j: int| 0 <= j < firsts.len() && firsts[j] == path;
                assert(paths[j] == path);
            }
            assert(paths[paths.len() - 1] == last);
            if before.contains(path) {
                let j = choose|j: int| 0 <= j < before.len() && before[j] == path;
                if wanted.len() > before.len() {
                    assert(wanted[j] == path);
                }
            }
            if wanted.contains(path) {
                let j = choose|j: int| 0 <= j < wanted.len() && wanted[j] == path;
                if j < before.len() {
                    assert(before[j] == path);
                }
            }
            if wanted.len() > before.len() && path == last {
                assert(wanted[before.len() as int] == path);
            }
        }
    }
}


/// No path occurs twice among the sources.
pub open spec fn source_paths_distinct(sources: Seq<SourceView>) -> bool {
    forall|i: int, j: int|
        0 <= i < j < sources.len() ==> (#[trigger] sources[i]).path != (#[trigger] sources[j]).path
}

/// The entries that one requested file adds to those of the cache.
pub open spec fn source_entries(files: Seq<CachedFileView>, source: SourceView) -> Seq<
    (Seq<char>, Seq<char>),
> {
    if is_cached(files, source.path) {
        Seq::empty()
    } else {
        match source.content {
            None => Seq::empty(),
            Some(text) => match extracted(text) {
                None => Seq::empty(),
                Some(classes) => file_entries(classes),
            },
        }
    }
}

/// The entries that the files of a request add to those of the cache, in the
/// order of the sources.
pub open spec fn request_entries(files: Seq<CachedFileView>, sources: Seq<SourceView>) -> Seq<
    (Seq<char>, Seq<char>),
>
    decreases sources.len(),
{
    if sources.len() == 0 {
        Seq::empty()
    } else {
        request_entries(files, sources.drop_last()) + source_entries(files, sources.last())
    }
}

/// Looking at one requested file adds the entries of that file to those of
/// the cache.
pub proof fn lemma_loaded_entries(files: Seq<CachedFileView>, source: SourceView)
    ensures
        cache_entries(loaded(files, source)) == cache_entries(files) + source_entries(files, source),
{
    let after = loaded(files, source);
    if after == files {
        if source_entries(files, source).len() > 0 {
            let text = source.content->0;
            let classes = extracted(text)->0;
            assert(with_file(files, source.path, classes).len() == files.len() + 1);
        }
        assert(cache_entries(files) + source_entries(files, source) =~= cache_entries(files));
    } else {
        assert(after.drop_last() =~= files);
    }
}

/// Looking at a requested file leaves every other path cached or uncached as
/// it was.
pub proof fn lemma_loaded_other_path(files: Seq<CachedFileView>, source: SourceView, path: Seq<char>)
    requires
        path != source.path,
    ensures
        is_cached(loaded(files, source), path) == is_cached(files, path),
{
    let after = loaded(files, source);
    if is_cached(files, path) {
        lemma_loaded_keeps_cached(files, source, path);
    }
    if is_cached(after, path) {
        let i = choose|i: int| cached_at(after, path, i);
        if after != files {
            assert(i < files.len());
            assert(after[i] == files[i]);
        }
        assert(cached_at(files, path, i));
    }
}

/// A request leaves every path that it does not name cached or uncached as it
/// was.
pub proof fn lemma_loaded_all_other_path(
    files: Seq<CachedFileView>,
    sources: Seq<SourceView>,
    path: Seq<char>,
)
    requires
        !names_path(sources, path),
    ensures
        is_cached(loaded_all(files, sources), path) == is_cached(files, path),
    decreases sources.len(),
{
    if sources.len() > 0 {
        let firsts = sources.drop_last();
        assert forall|j: int| 0 <= j < firsts.len() implies (#[trigger] firsts[j]).path != path by {
            assert(firsts[j] == sources[j]);
        }
        lemma_loaded_all_other_path(files, firsts, path);
        assert(sources[sources.len() - 1].path != path);
        if !names_path(firsts, sources.last().path) {
            lemma_loaded_other_path(loaded_all(files, firsts), sources.last(), path);
        }
    }
}

/// A request that names no path twice adds to the entries of the cache those
/// of each of its files.
pub proof fn lemma_request_entries(files: Seq<CachedFileView>, sources: Seq<SourceView>)
    requires
        source_paths_distinct(sources),
    ensures
        cache_entries(loaded_all(files, sources)) == cache_entries(files) + request_entries(
            files,
            sources,
        ),
    decreases sources.len(),
{
    if sources.len() == 0 {
        assert(cache_entries(files) + request_entries(files, sources) =~= cache_entries(files));
    } else {
        let firsts = sources.drop_last();
        let last = sources.last();
        let before = loaded_all(files, firsts);
        assert forall|i: int, j: int| 0 <= i < j < firsts.len() implies (#[trigger] firsts[i]).path
            != (#[trigger] firsts[j]).path by {
            assert(firsts[i] == sources[i] && firsts[j] == sources[j]);
        }
        assert forall|j: int| 0 <= j < firsts.len() implies (#[trigger] firsts[j]).path
            != last.path by {
            assert(firsts[j] == sources[j]);
            assert(sources[j].path != sources[sources.len() - 1].path);
        }
        lemma_request_entries(files, firsts);
        lemma_loaded_all_other_path(files, firsts, last.path);
        lemma_loaded_entries(before, last);
        assert(source_entries(before, last) == source_entries(files, last));
        assert(cache_entries(loaded_all(files, sources)) =~= cache_entries(files)
            + request_entries(files, sources));
    }
}

/// The entries that two runs of sources add are those of the first run and
/// those of the second.
pub proof fn lemma_request_entries_concat(
    files: Seq<CachedFileView>,
    a: Seq<SourceView>,
    b: Seq<SourceView>,
)
    ensures
        request_entries(files, a + b) == request_entries(files, a) + request_entries(files, b),
    decreases b.len(),
{
    if b.len() == 0 {
        assert(a + b =~= a);
        assert(request_entries(files, a) + request_entries(files, b) =~= request_entries(files, a));
    } else {
        lemma_request_entries_concat(files, a, b.drop_last());
        assert((a + b).drop_last() =~= a + b.drop_last());
        assert((a + b).last() == b.last());
        assert(request_entries(files, a + b) =~= request_entries(files, a) + request_entries(
            files,
            b,
        ));
    }
}

/// Which entries a request adds, and how often each, does not depend on the
/// order of its sources.
pub proof fn lemma_request_entries_permutation(
    files: Seq<CachedFileView>,
    a: Seq<SourceView>,
    b: Seq<SourceView>,
)
    requires
        a.to_multiset() == b.to_multiset(),
    ensures
        request_entries(files, a).to_multiset() == request_entries(files, b).to_multiset(),
    decreases a.len(),
{
    a.to_multiset_ensures();
    b.to_multiset_ensures();
    if a.len() == 0 {
        assert(b.len() == 0);
    } else {
        let x = a.last();
        let rest = a.drop_last();
        assert(a =~= rest.push(x));
        rest.to_multiset_ensures();
        assert(a.to_multiset() =~= rest.to_multiset().insert(x));
        assert(b.to_multiset().count(x) > 0);
        assert(b.contains(x));
        let i = choose|i: int| 0 <= i < b.len() && b[i] == x;
        let others = b.remove(i);
        assert(others.to_multiset() =~= b.to_multiset().remove(x));
        assert(rest.to_multiset() =~= a.to_multiset().remove(x));
        lemma_request_entries_permutation(files, rest, others);
        let head = b.take(i);
        let tail = b.skip(i + 1);
        let one = seq![x];
        assert(b =~= head + one + tail);
        assert(others =~= head + tail);
        lemma_request_entries_concat(files, head + one, tail);
        lemma_request_entries_concat(files, head, one);
        lemma_request_entries_concat(files, head, tail);
        assert(one.drop_last() =~= Seq::<SourceView>::empty());
        assert(request_entries(files, one.drop_last()) =~= Seq::<(Seq<char>, Seq<char>)>::empty());
        assert(one.last() == x);
        let of_x = source_entries(files, x);
        assert(request_entries(files, one) =~= of_x);
        let of_head = request_entries(files, head);
        let of_tail = request_entries(files, tail);
        lemma_multiset_commutative(of_head + of_x, of_tail);
        lemma_multiset_commutative(of_head, of_x);
        lemma_multiset_commutative(of_head, of_tail);
        lemma_multiset_commutative(request_entries(files, rest), of_x);
        assert(request_entries(files, a).to_multiset() =~= request_entries(files, rest).to_multiset().add(
            of_x.to_multiset(),
        ));
        assert(request_entries(files, b).to_multiset() =~= request_entries(
            files,
            others,
        ).to_multiset().add(of_x.to_multiset()));
    }
}

/// The completion list that a request is served does not depend on the order
/// in which the request names its files.
pub proof fn lemma_request_order_is_irrelevant(
    files: Seq<CachedFileView>,
    a: Seq<SourceView>,
    b: Seq<SourceView>,
)
    requires
        source_paths_distinct(a),
        source_paths_distinct(b),
        a.to_multiset() == b.to_multiset(),
    ensures
        completions_of(loaded_all(files, a)) == completions_of(loaded_all(files, b)),
{
    lemma_request_entries(files, a);
    lemma_request_entries(files, b);
    lemma_request_entries_permutation(files, a, b);
    lemma_multiset_commutative(cache_entries(files), request_entries(files, a));
    lemma_multiset_commutative(cache_entries(files), request_entries(files, b));
    lemma_completions_sorted(loaded_all(files, a));
    lemma_completions_sorted(loaded_all(files, b));
    lemma_entry_order_total();
    lemma_sorted_unique(
        completions_of(loaded_all(files, a)),
        completions_of(loaded_all(files, b)),
        entry_order(),
    );
}


} // verus!
