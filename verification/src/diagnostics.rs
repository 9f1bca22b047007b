//! The records that the engine leaves of everything it had to skip.

use vstd::prelude::*;

verus! {

/// Why one match of the class-selector query was skipped.
pub enum MatchFaultView {
    CaptureCount { found: int },
    NoEnclosingRule { selector: Option<Seq<char>> },
    UndecodableNode { kind: Seq<char> },
}

/// Why one match of the class-selector query was skipped.
#[derive(Debug)]
pub enum MatchFault {
    /// The match does not hold exactly two captures.
    CaptureCount { found: usize },
    /// No ancestor of the class selector is a rule set. `selector` is the text
    /// of the class selector, where its byte range spells one.
    NoEnclosingRule { selector: Option<String> },
    /// The byte range of a node of this kind does not spell a text.
    UndecodableNode { kind: String },
}

impl View for MatchFault {
    type V = MatchFaultView;

    open spec fn view(&self) -> MatchFaultView {
        match self {
            MatchFault::CaptureCount { found } => MatchFaultView::CaptureCount {
                found: *found as int,
            },
            MatchFault::NoEnclosingRule { selector } => MatchFaultView::NoEnclosingRule {
                selector: selector.deep_view(),
            },
            MatchFault::UndecodableNode { kind } => MatchFaultView::UndecodableNode { kind: kind@ },
        }
    }
}

impl DeepView for MatchFault {
    type V = MatchFaultView;

    open spec fn deep_view(&self) -> MatchFaultView {
        self@
    }
}

/// One thing that was skipped, and where.
pub enum DiagnosticView {
    UnreadableFile { path: Seq<char> },
    ParseFailed { path: Seq<char> },
    MalformedMatch { path: Seq<char>, fault: MatchFaultView },
    SerializationFailed,
}

/// One thing that was skipped, and where.
#[derive(Debug)]
pub enum Diagnostic {
    /// The content of the file at `path` could not be had.
    UnreadableFile { path: String },
    /// The parser gave no syntax tree for the file at `path`.
    ParseFailed { path: String },
    /// One match in the file at `path` was skipped.
    MalformedMatch { path: String, fault: MatchFault },
    /// The completion list could not be written as JSON.
    SerializationFailed,
}

impl View for Diagnostic {
    type V = DiagnosticView;

    open spec fn view(&self) -> DiagnosticView {
        match self {
            Diagnostic::UnreadableFile { path } => DiagnosticView::UnreadableFile { path: path@ },
            Diagnostic::ParseFailed { path } => DiagnosticView::ParseFailed { path: path@ },
            Diagnostic::MalformedMatch { path, fault } => DiagnosticView::MalformedMatch {
                path: path@,
                fault: fault@,
            },
            Diagnostic::SerializationFailed => DiagnosticView::SerializationFailed,
        }
    }
}

impl DeepView for Diagnostic {
    type V = DiagnosticView;

    open spec fn deep_view(&self) -> DiagnosticView {
        self@
    }
}

} // verus!
