//! The grammar adapter: the CSS parser and the class-selector query of
//! tree-sitter, and the plain values in which their findings are handed on.

use vstd::prelude::*;
use vstd::string::StringSliceAdditionalSpecFns;

verus! {

/// What the extractor reads of one syntax node.
pub struct NodeView {
    pub kind: Seq<char>,
    pub start: int,
    pub end: int,
}

/// One node of a syntax tree: its kind and the byte range it covers.
#[derive(Debug)]
pub struct SyntaxNode {
    pub kind: String,
    pub start: usize,
    pub end: usize,
}

impl View for SyntaxNode {
    type V = NodeView;

    open spec fn view(&self) -> NodeView {
        NodeView { kind: self.kind@, start: self.start as int, end: self.end as int }
    }
}

impl DeepView for SyntaxNode {
    type V = NodeView;

    open spec fn deep_view(&self) -> NodeView {
        self@
    }
}

/// A captured node with its ancestors, nearest first.
pub struct CaptureView {
    pub node: NodeView,
    pub ancestors: Seq<NodeView>,
}

/// One capture of a query match: the captured node, then its parent, the
/// parent's parent and so on up to the root of the tree.
#[derive(Debug)]
pub struct Capture {
    pub node: SyntaxNode,
    pub ancestors: Vec<SyntaxNode>,
}

impl View for Capture {
    type V = CaptureView;

    open spec fn view(&self) -> CaptureView {
        CaptureView { node: self.node@, ancestors: self.ancestors.deep_view() }
    }
}

impl DeepView for Capture {
    type V = CaptureView;

    open spec fn deep_view(&self) -> CaptureView {
        self@
    }
}

/// One match of the class-selector query: its captures in the order in which
/// the query engine lists them.
#[derive(Debug)]
pub struct QueryMatch {
    pub captures: Vec<Capture>,
}

impl View for QueryMatch {
    type V = Seq<CaptureView>;

    open spec fn view(&self) -> Seq<CaptureView> {
        self.captures.deep_view()
    }
}

impl DeepView for QueryMatch {
    type V = Seq<CaptureView>;

    open spec fn deep_view(&self) -> Seq<CaptureView> {
        self@
    }
}

/// Why the grammar adapter could not be set up.
#[derive(Clone, Copy, Debug, PartialEq, Eq, Structural)]
pub enum StartupError {
    /// The parser refused the CSS grammar.
    Grammar,
    /// The class-selector query did not compile against the grammar.
    Query,
}

#[verifier::external_type_specification]
#[verifier::external_body]
pub struct ExParser(tree_sitter::Parser);

#[verifier::external_type_specification]
#[verifier::external_body]
pub struct ExQuery(tree_sitter::Query);

#[verifier::external_type_specification]
#[verifier::external_body]
pub struct ExQueryCursor(tree_sitter::QueryCursor);

#[verifier::external_type_specification]
#[verifier::external_body]
pub struct ExLanguageError(tree_sitter::LanguageError);

#[verifier::external_type_specification]
#[verifier::external_body]
pub struct ExQueryError(tree_sitter::QueryError);

/// `tree_sitter::QueryCursor::new`: a cursor for running queries. Nothing is
/// claimed of it.
pub assume_specification[ tree_sitter::QueryCursor::new ]() -> (cursor: tree_sitter::QueryCursor)
;

/// `tree_sitter::Parser::new`, then `tree_sitter::Parser::set_language` with
/// the language of `tree_sitter_css::language`. Nothing is claimed of the
/// outcome: the parser refuses a grammar of a version it does not know.
#[verifier::external_body]
fn build_parser() -> (built: Result<tree_sitter::Parser, tree_sitter::LanguageError>) {
    let mut parser = tree_sitter::Parser::new();
    parser.set_language(tree_sitter_css::language())?;
    Ok(parser)
}

/// The source of the query that finds every class selector together with the
/// class name inside it. In each match the class selector is the first
/// capture and the class name the second.
pub open spec fn class_selector_query() -> Seq<char> {
    "(class_selector (class_name) @class_name) @class_selector"@
}

/// `tree_sitter::Query::new` on the source of the class-selector query, for
/// the language of `tree_sitter_css::language`. Nothing is claimed of the
/// outcome. Other sources are left out: the function slices the source at the
/// place of an error, which is not known to succeed for every source.
#[verifier::external_body]
fn get_class_selectors_query_for_tree(source: &str) -> (compiled: Result<
    tree_sitter::Query,
    tree_sitter::QueryError,
>)
    requires
        source@ == class_selector_query(),
{
    tree_sitter::Query::new(tree_sitter_css::language(), source)
}

/// The longest text, in bytes, that the parser can address: it counts bytes
/// in 32 bits.
pub open spec fn parser_limit() -> int {
    0xffff_ffff
}

/// The matches of the class-selector query in the CSS syntax tree of `text`, or
/// `None` where the parser yields no tree. Stands for what tree-sitter and its
/// CSS grammar compute from the text.
pub uninterp spec fn class_selector_matches(text: Seq<char>) -> Option<Seq<Seq<CaptureView>>>;

/// `tree_sitter::Parser::parse` on the text, then
/// `tree_sitter::QueryCursor::matches` on the root of the tree. Each match is
/// handed on with all its captures, each capture as the node's kind and byte
/// range (`Node::kind`, `Node::start_byte`, `Node::end_byte`) followed by the
/// same of each ancestor, found with `Node::parent`. The contract only gives
/// the outcome its name: the parser and the query of a `Grammar` are fixed when
/// it is loaded, so the outcome depends on the text alone. Texts beyond what
/// the parser can address are left out.
#[verifier::external_body]
pub(crate) fn find_class_selectors(grammar: &mut Grammar, text: &str) -> (found: Option<
    Vec<QueryMatch>,
>)
    requires
        text.spec_bytes().len() <= parser_limit(),
    ensures
        found.deep_view() == class_selector_matches(text@),
{
    let tree = grammar.parser.parse(text, None)?;
    let plain = |n: tree_sitter::Node| SyntaxNode {
        kind: n.kind().to_string(),
        start: n.start_byte(),
        end: n.end_byte(),
    };
    let matches = grammar.cursor.matches(&grammar.query, tree.root_node(), text.as_bytes());
    Some(matches.map(|m| QueryMatch {
        captures: m.captures.iter().map(|c| Capture {
            node: plain(c.node),
            ancestors: std::iter::successors(c.node.parent(), |n| n.parent()).map(plain).collect(),
        }).collect(),
    }).collect())
}

/// The CSS parser together with the compiled class-selector query.
pub struct Grammar {
    parser: tree_sitter::Parser,
    query: tree_sitter::Query,
    cursor: tree_sitter::QueryCursor,
}

impl Grammar {
    /// Puts the adapter together from what the parser and the query compiler
    /// gave. A refused grammar is reported before a query that did not
    /// compile.
    fn assemble(
        parser: Result<tree_sitter::Parser, tree_sitter::LanguageError>,
        query: Result<tree_sitter::Query, tree_sitter::QueryError>,
        cursor: tree_sitter::QueryCursor,
    ) -> (made: Result<Grammar, StartupError>)
        ensures
            match (parser, query) {
                (Err(_), _) => made == Err::<Grammar, StartupError>(StartupError::Grammar),
                (Ok(_), Err(_)) => made == Err::<Grammar, StartupError>(StartupError::Query),
                (Ok(_), Ok(_)) => made is Ok,
            },
    {
        let parser = match parser {
            Ok(parser) => parser,
            Err(_) => {
                return Err(StartupError::Grammar);
            },
        };
        let query = match query {
            Ok(query) => query,
            Err(_) => {
                return Err(StartupError::Query);
            },
        };
        Ok(Grammar { parser, query, cursor })
    }

    /// Sets up the parser for CSS and the query that finds every class
    /// selector together with the class name inside it. Fails where the parser
    /// refuses the grammar or the query does not compile, which no input can
    /// mend.
    pub fn load() -> (loaded: Result<Grammar, StartupError>) {
        let parser = build_parser();
        let query = get_class_selectors_query_for_tree(
            "(class_selector (class_name) @class_name) @class_selector",
        );
        Grammar::assemble(parser, query, tree_sitter::QueryCursor::new())
    }
}

} // verus!
