//! The text form of the completion list: a JSON array of pairs.

use crate::diagnostics::{Diagnostic, DiagnosticView};
use vstd::prelude::*;

verus! {

#[verifier::external_type_specification]
#[verifier::external_body]
pub struct ExJsonError(serde_json::Error);

/// The JSON text that `serde_json` writes for a list of pairs of strings: an
/// array with one two-element array for each pair, in the order of the list.
/// `None` stands for a list that it does not write.
pub uninterp spec fn completions_json(entries: Seq<(Seq<char>, Seq<char>)>) -> Option<Seq<char>>;

/// `serde_json::to_string` on the list. Its outcome depends on the list alone
/// and is what `completions_json` stands for: the text where it succeeds, and
/// `None` where it fails. That it succeeds on every list is not claimed.
#[verifier::external_body]
fn to_json(entries: &Vec<(String, String)>) -> (written: Result<String, serde_json::Error>)
    ensures
        match written {
            Ok(text) => completions_json(entries.deep_view()) == Some(text@),
            Err(_) => completions_json(entries.deep_view()) is None,
        },
{
    serde_json::to_string(entries)
}

/// The text of an array without elements.
pub open spec fn empty_array() -> Seq<char> {
    "[]"@
}

/// The text that is served for an outcome of the serialiser: what it wrote,
/// or an empty array where it failed.
pub open spec fn served_text(written: Result<String, serde_json::Error>) -> Seq<char> {
    match written {
        Ok(text) => text@,
        Err(_) => empty_array(),
    }
}

/// The records that an outcome of the serialiser leaves: one where it failed.
pub open spec fn serialization_records(written: Result<String, serde_json::Error>) -> Seq<
    DiagnosticView,
> {
    match written {
        Ok(_) => Seq::empty(),
        Err(_) => seq![DiagnosticView::SerializationFailed],
    }
}

/// Turns the outcome of the serialiser into the text that is served. A
/// failure is not handed on: it leaves a record in `sink`, and the text is an
/// empty array.
pub fn text_or_empty_array(written: Result<String, serde_json::Error>, sink: &mut Vec<Diagnostic>) -> (text:
    String)
    ensures
        text@ == served_text(written),
        final(sink).deep_view() == old(sink).deep_view() + serialization_records(written),
{
    let ghost logged = sink.deep_view();
    match written {
        Ok(text) => {
            assert(sink.deep_view() =~= logged + Seq::<DiagnosticView>::empty());
            text
        },
        Err(_) => {
            let record = Diagnostic::SerializationFailed;
            sink.push(record);
            assert(sink.deep_view() =~= logged + seq![record@]);
            "[]".to_owned()
        },
    }
}

/// The text form of a list: its JSON text, or an empty array where the list
/// cannot be written. It depends on the list alone.
pub open spec fn list_text(entries: Seq<(Seq<char>, Seq<char>)>) -> Seq<char> {
    match completions_json(entries) {
        Some(json) => json,
        None => empty_array(),
    }
}

/// Writes the list as JSON. A list that cannot be written is served as an
/// empty array, and leaves a record in `sink`.
pub fn completions_text(entries: &Vec<(String, String)>, sink: &mut Vec<Diagnostic>) -> (text:
    String)
    ensures
        text@ == list_text(entries.deep_view()),
        match completions_json(entries.deep_view()) {
            Some(json) => text@ == json && final(sink).deep_view() == old(sink).deep_view(),
            None => text@ == empty_array() && final(sink).deep_view() == old(
                sink,
            ).deep_view().push(DiagnosticView::SerializationFailed),
        },
{
    let ghost logged = sink.deep_view();
    let written = to_json(entries);
    let ghost outcome = written;
    let text = text_or_empty_array(written, sink);
    proof {
        match outcome {
            Ok(_) => {
                assert(sink.deep_view() =~= logged);
            },
            Err(_) => {
                assert(sink.deep_view() =~= logged.push(DiagnosticView::SerializationFailed));
            },
        }
    }
    text
}

} // verus!
