//! The aggregator: from the whole file cache to the ordered completion list.

use crate::cache::{cache_well_formed, CachedFileView, FileCache};
use crate::extract::{
    class_at, has_class, names_distinct, ClassRules, ClassView, FileClassMap, RuleView,
};
use crate::text::{join_texts, joined, lemma_text_order_total, text_le, text_order};
use vstd::prelude::*;
use vstd::relations::*;
use vstd::seq_lib::*;

verus! {

/// The order of completion entries: by class name, and under one class name by
/// text.
pub open spec fn entry_le(a: (Seq<char>, Seq<char>), b: (Seq<char>, Seq<char>)) -> bool {
    if a.0 == b.0 {
        text_le(a.1, b.1)
    } else {
        text_le(a.0, b.0)
    }
}

/// `entry_le` as a relation value, for use with sorting specifications.
pub open spec fn entry_order() -> spec_fn((Seq<char>, Seq<char>), (Seq<char>, Seq<char>)) -> bool {
    |a: (Seq<char>, Seq<char>), b: (Seq<char>, Seq<char>)| entry_le(a, b)
}

/// The order of completion entries is a total order.
pub proof fn lemma_entry_order_total()
    ensures
        total_ordering(entry_order()),
{
    lemma_text_order_total();
    let t = text_order();
    let r = entry_order();
    assert forall|x: (Seq<char>, Seq<char>)| #[trigger] r(x, x) by {
        assert(t(x.1, x.1));
    }
    assert forall|x: (Seq<char>, Seq<char>), y: (Seq<char>, Seq<char>)| #[trigger]
        r(x, y) && #[trigger] r(y, x) implies x == y by {
        if x.0 == y.0 {
            assert(t(x.1, y.1) && t(y.1, x.1));
        } else {
            assert(t(x.0, y.0) && t(y.0, x.0));
        }
    }
    assert forall|x: (Seq<char>, Seq<char>), y: (Seq<char>, Seq<char>), z: (Seq<char>, Seq<char>)|
        #[trigger] r(x, y) && #[trigger] r(y, z) implies r(x, z) by {
        if x.0 == y.0 {
            if y.0 == z.0 {
                assert(t(x.1, y.1) && t(y.1, z.1));
            }
        } else {
            if y.0 == z.0 {
            } else {
                assert(t(x.0, y.0) && t(y.0, z.0));
                if x.0 == z.0 {
                    assert(t(z.0, y.0) && t(y.0, z.0));
                }
            }
        }
    }
    assert forall|x: (Seq<char>, Seq<char>), y: (Seq<char>, Seq<char>)| #[trigger]
        r(x, y) || #[trigger] r(y, x) by {
        assert(t(x.1, y.1) || t(y.1, x.1));
        assert(t(x.0, y.0) || t(y.0, x.0));
    }
}

/// The blank line that stands between two rule sets of one entry.
pub open spec fn separator() -> Seq<char> {
    "\n\n"@
}

/// The texts of the rule sets, in the order of the rule sets.
pub open spec fn rule_texts(rules: Seq<RuleView>) -> Seq<Seq<char>> {
    rules.map_values(|rule: RuleView| rule.text)
}

/// The entry of one class of one file: the class name, and the texts of its
/// rule sets in ascending order with a blank line between them.
pub open spec fn class_entry(class: ClassView) -> (Seq<char>, Seq<char>) {
    (class.name, joined(rule_texts(class.rules).sort_by(text_order()), separator()))
}

/// The entries of one file, one for each of its classes.
pub open spec fn file_entries(classes: Seq<ClassView>) -> Seq<(Seq<char>, Seq<char>)> {
    classes.map_values(|class: ClassView| class_entry(class))
}

/// The entries of all cached files, file after file. Two files that both know
/// a class name each give an entry of their own for it.
pub open spec fn cache_entries(files: Seq<CachedFileView>) -> Seq<(Seq<char>, Seq<char>)>
    decreases files.len(),
{
    if files.len() == 0 {
        Seq::empty()
    } else {
        cache_entries(files.drop_last()) + file_entries(files.last().classes)
    }
}

/// The completion list of a cache: the entries of all its files in ascending
/// order.
pub open spec fn completions_of(files: Seq<CachedFileView>) -> Seq<(Seq<char>, Seq<char>)> {
    cache_entries(files).sort_by(entry_order())
}

/// The completion list is in ascending order and holds the entries of the
/// cached files, each as often as the files give it, and nothing else.
pub proof fn lemma_completions_sorted(files: Seq<CachedFileView>)
    ensures
        sorted_by(completions_of(files), entry_order()),
        completions_of(files).to_multiset() == cache_entries(files).to_multiset(),
        completions_of(files).len() == cache_entries(files).len(),
{
    lemma_entry_order_total();
    cache_entries(files).lemma_sort_by_ensures(entry_order());
    cache_entries(files).to_multiset_ensures();
    completions_of(files).to_multiset_ensures();
}

/// `itertools::Itertools::sorted` on the texts, collected into a vector
/// again: the same texts, each as often as before, in ascending order of
/// `String`, which is the order of their bytes.
#[verifier::external_body]
fn sorted_texts(texts: Vec<String>) -> (sorted: Vec<String>)
    ensures
        sorted_by(sorted.deep_view(), text_order()),
        sorted.deep_view().to_multiset() == texts.deep_view().to_multiset(),
{
    itertools::Itertools::sorted(texts.into_iter()).collect()
}

/// `sort_unstable` of slices, on the entries: the same entries, each as often
/// as before, in ascending order of the pairs, which compares the class names
/// first and the texts where the names are equal.
#[verifier::external_body]
fn sort_entries(entries: &mut Vec<(String, String)>)
    ensures
        sorted_by(final(entries).deep_view(), entry_order()),
        final(entries).deep_view().to_multiset() == old(entries).deep_view().to_multiset(),
{
    entries.sort_unstable();
}

/// The entry of one class: its name, and the texts of its rule sets sorted
/// and joined with a blank line.
pub fn entry_for(class: &ClassRules) -> (entry: (String, String))
    ensures
        entry.deep_view() == class_entry(class@),
{
    let ghost wanted = rule_texts(class@.rules);
    let mut texts: Vec<String> = Vec::new();
    let mut k: usize = 0;
    assert(texts.deep_view() =~= wanted.take(0));
    while k < class.rules.len()
        invariant
            k <= class.rules.len(),
            wanted == rule_texts(class@.rules),
            texts.deep_view() == wanted.take(k as int),
        decreases class.rules.len() - k,
    {
        let ghost had = texts.deep_view();
        let text = class.rules[k].text.clone();
        texts.push(text);
        assert(texts.deep_view() =~= had.push(text@));
        assert(text@ == wanted[k as int]);
        assert(texts.deep_view() =~= wanted.take(k + 1));
        k += 1;
    }
    assert(wanted.take(k as int) =~= wanted);
    let sorted = sorted_texts(texts);
    proof {
        lemma_text_order_total();
        wanted.lemma_sort_by_ensures(text_order());
        lemma_sorted_unique(sorted.deep_view(), wanted.sort_by(text_order()), text_order());
    }
    let text = join_texts(&sorted, "\n\n");
    (class.name.clone(), text)
}

/// Adds the entries of one file to `entries`.
pub fn append_file_entries(map: &FileClassMap, entries: &mut Vec<(String, String)>)
    ensures
        final(entries).deep_view() == old(entries).deep_view() + file_entries(map@),
{
    let ghost had = entries.deep_view();
    let ghost wanted = file_entries(map@);
    let mut j: usize = 0;
    assert(entries.deep_view() =~= had + wanted.take(0));
    while j < map.len()
        invariant
            j <= map@.len(),
            wanted == file_entries(map@),
            entries.deep_view() == had + wanted.take(j as int),
        decreases map@.len() - j,
    {
        let ghost now = entries.deep_view();
        let entry = entry_for(map.class(j));
        entries.push(entry);
        assert(entries.deep_view() =~= now.push(entry.deep_view()));
        assert(entries.deep_view() =~= had + wanted.take(j + 1));
        j += 1;
    }
    assert(wanted.take(j as int) =~= wanted);
}

/// Builds the completion list from the whole cache: for every class of every
/// file one entry, and all entries in ascending order.
pub fn rebuild(cache: &FileCache) -> (completions: Vec<(String, String)>)
    ensures
        completions.deep_view() == completions_of(cache@),
        sorted_by(completions.deep_view(), entry_order()),
        completions.deep_view().to_multiset() == cache_entries(cache@).to_multiset(),
{
    let mut entries: Vec<(String, String)> = Vec::new();
    let mut i: usize = 0;
    assert(entries.deep_view() =~= cache_entries(cache@.take(0)));
    while i < cache.len()
        invariant
            i <= cache@.len(),
            entries.deep_view() == cache_entries(cache@.take(i as int)),
        decreases cache@.len() - i,
    {
        assert(cache@.take(i + 1).drop_last() =~= cache@.take(i as int));
        append_file_entries(cache.file(i).class_map(), &mut entries);
        i += 1;
    }
    assert(cache@.take(i as int) =~= cache@);
    let ghost unsorted = entries.deep_view();
    sort_entries(&mut entries);
    proof {
        lemma_entry_order_total();
        unsorted.lemma_sort_by_ensures(entry_order());
        lemma_sorted_unique(entries.deep_view(), unsorted.sort_by(entry_order()), entry_order());
        lemma_completions_sorted(cache@);
    }
    entries
}

/// How many of the entries carry this class name.
pub open spec fn entries_named(entries: Seq<(Seq<char>, Seq<char>)>, name: Seq<char>) -> nat
    decreases entries.len(),
{
    if entries.len() == 0 {
        0
    } else {
        entries_named(entries.drop_last(), name) + if entries.last().0 == name {
            1nat
        } else {
            0nat
        }
    }
}

/// How many of the cached files know this class name.
pub open spec fn files_with_class(files: Seq<CachedFileView>, name: Seq<char>) -> nat
    decreases files.len(),
{
    if files.len() == 0 {
        0
    } else {
        files_with_class(files.drop_last(), name) + if has_class(files.last().classes, name) {
            1nat
        } else {
            0nat
        }
    }
}

/// The entries of a class name in two lists are those of the first list and
/// those of the second.
pub proof fn lemma_entries_named_concat(
    a: Seq<(Seq<char>, Seq<char>)>,
    b: Seq<(Seq<char>, Seq<char>)>,
    name: Seq<char>,
)
    ensures
        entries_named(a + b, name) == entries_named(a, name) + entries_named(b, name),
    decreases b.len(),
{
    if b.len() == 0 {
        assert(a + b =~= a);
    } else {
        lemma_entries_named_concat(a, b.drop_last(), name);
        assert((a + b).drop_last() =~= a + b.drop_last());
        assert((a + b).last() == b.last());
    }
}

/// Taking one entry out of a list takes one from the count of its class name
/// and leaves every other count as it was.
pub proof fn lemma_entries_named_remove(
    entries: Seq<(Seq<char>, Seq<char>)>,
    i: int,
    name: Seq<char>,
)
    requires
        0 <= i < entries.len(),
    ensures
        entries_named(entries, name) == entries_named(entries.remove(i), name) + if entries[i].0
            == name {
            1nat
        } else {
            0nat
        },
{
    let head = entries.take(i);
    let tail = entries.skip(i + 1);
    let one = seq![entries[i]];
    assert(entries =~= head + one + tail);
    assert(entries.remove(i) =~= head + tail);
    lemma_entries_named_concat(head + one, tail, name);
    lemma_entries_named_concat(head, one, name);
    lemma_entries_named_concat(head, tail, name);
    assert(one.drop_last() =~= Seq::<(Seq<char>, Seq<char>)>::empty());
    assert(entries_named(one.drop_last(), name) == 0);
    assert(one.last() == entries[i]);
    assert(entries_named(one, name) == if entries[i].0 == name {
        1nat
    } else {
        0nat
    });
}

/// Two lists that hold the same entries, each as often as the other, hold as
/// many entries of each class name.
pub proof fn lemma_entries_named_permutation(
    a: Seq<(Seq<char>, Seq<char>)>,
    b: Seq<(Seq<char>, Seq<char>)>,
    name: Seq<char>,
)
    requires
        a.to_multiset() == b.to_multiset(),
    ensures
        entries_named(a, name) == entries_named(b, name),
    decreases a.len(),
{
    a.to_multiset_ensures();
    b.to_multiset_ensures();
    if a.len() == 0 {
        assert(b.len() == 0);
    } else {
        let x = a.last();
        let rest = a.drop_last();
        assert(a =~= rest.push(x));
        rest.to_multiset_ensures();
        assert(a.to_multiset() =~= rest.to_multiset().insert(x));
        assert(b.to_multiset().count(x) > 0);
        assert(b.contains(x));
        let i = choose|i: int| 0 <= i < b.len() && b[i] == x;
        let others = b.remove(i);
        assert(others.to_multiset() =~= b.to_multiset().remove(x));
        assert(rest.to_multiset() =~= a.to_multiset().remove(x));
        lemma_entries_named_permutation(rest, others, name);
        lemma_entries_named_remove(b, i, name);
    }
}

/// One file gives one entry for each class name it knows, and none for any
/// other.
pub proof fn lemma_file_entries_named(classes: Seq<ClassView>, name: Seq<char>)
    requires
        names_distinct(classes),
    ensures
        entries_named(file_entries(classes), name) == if has_class(classes, name) {
            1nat
        } else {
            0nat
        },
    decreases classes.len(),
{
    if classes.len() == 0 {
        assert(!has_class(classes, name));
    } else {
        let firsts = classes.drop_last();
        let last = classes.len() - 1;
        lemma_file_entries_named(firsts, name);
        assert(file_entries(classes).drop_last() =~= file_entries(firsts));
        assert(file_entries(classes).last().0 == classes[last].name);
        if has_class(firsts, name) {
            let i = choose|i: int| class_at(firsts, name, i);
            assert(class_at(classes, name, i));
            assert(classes[i].name != classes[last].name);
        }
        if classes[last].name == name {
            assert(class_at(classes, name, last));
        }
        if has_class(classes, name) {
            let i = choose|i: int| class_at(classes, name, i);
            if i < last {
                assert(class_at(firsts, name, i));
            }
        }
    }
}

/// The entries of a cache hold one entry of a class name for each file that
/// knows the class name.
pub proof fn lemma_cache_entries_named(files: Seq<CachedFileView>, name: Seq<char>)
    requires
        cache_well_formed(files),
    ensures
        entries_named(cache_entries(files), name) == files_with_class(files, name),
    decreases files.len(),
{
    if files.len() > 0 {
        let firsts = files.drop_last();
        assert forall|i: int, j: int| 0 <= i < j < firsts.len() implies (#[trigger] firsts[i]).path
            != (#[trigger] firsts[j]).path by {
            assert(firsts[i] == files[i] && firsts[j] == files[j]);
        }
        assert forall|i: int| 0 <= i < firsts.len() implies crate::extract::well_formed(
            (#[trigger] firsts[i]).classes,
        ) by {
            assert(firsts[i] == files[i]);
        }
        lemma_cache_entries_named(firsts, name);
        assert(crate::extract::well_formed(files[files.len() - 1].classes));
        lemma_file_entries_named(files.last().classes, name);
        lemma_entries_named_concat(cache_entries(firsts), file_entries(files.last().classes), name);
    }
}

/// The completion list holds, for each class name, one entry for each cached
/// file that knows the class name: what two files give for one class name is
/// never merged into one entry.
pub proof fn lemma_one_entry_per_file_and_class(files: Seq<CachedFileView>, name: Seq<char>)
    requires
        cache_well_formed(files),
    ensures
        entries_named(completions_of(files), name) == files_with_class(files, name),
{
    lemma_completions_sorted(files);
    lemma_entries_named_permutation(completions_of(files), cache_entries(files), name);
    lemma_cache_entries_named(files, name);
}

/// Two lists in ascending order that hold the same entries, each as often as
/// the other, are one list: the completion list does not depend on the order
/// in which the files came into the cache.
pub proof fn lemma_completions_unique(
    files: Seq<CachedFileView>,
    list: Seq<(Seq<char>, Seq<char>)>,
)
    requires
        sorted_by(list, entry_order()),
        list.to_multiset() == cache_entries(files).to_multiset(),
    ensures
        list == completions_of(files),
{
    lemma_entry_order_total();
    lemma_completions_sorted(files);
    lemma_sorted_unique(list, completions_of(files), entry_order());
}


} // verus!
