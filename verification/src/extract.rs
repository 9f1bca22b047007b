//! The extractor: from the matches of the class-selector query in one file to
//! the rule sets that each class name of the file is mentioned in.

use crate::diagnostics::{Diagnostic, DiagnosticView, MatchFault, MatchFaultView};
use crate::syntax::{
    class_selector_matches, find_class_selectors, parser_limit, CaptureView, Grammar, NodeView,
    QueryMatch, SyntaxNode,
};
use crate::text::{byte_slice, slice_text};
use vstd::prelude::*;
use vstd::string::StringSliceAdditionalSpecFns;
use vstd::utf8::encode_utf8;

verus! {

/// One rule set of a file: the byte range of its node, by which it is told
/// apart from every other rule set of the file, and its source text.
pub struct RuleView {
    pub start: int,
    pub end: int,
    pub text: Seq<char>,
}

/// One rule set of a file: the byte range of its node, by which it is told
/// apart from every other rule set of the file, and its source text.
#[derive(Debug)]
pub struct RuleSet {
    pub start: usize,
    pub end: usize,
    pub text: String,
}

impl View for RuleSet {
    type V = RuleView;

    open spec fn view(&self) -> RuleView {
        RuleView { start: self.start as int, end: self.end as int, text: self.text@ }
    }
}

impl DeepView for RuleSet {
    type V = RuleView;

    open spec fn deep_view(&self) -> RuleView {
        self@
    }
}

/// A class name of a file with the rule sets that mention it, in the order in
/// which they were first met.
pub struct ClassView {
    pub name: Seq<char>,
    pub rules: Seq<RuleView>,
}

/// A class name of a file with the rule sets that mention it.
#[derive(Debug)]
pub struct ClassRules {
    pub name: String,
    pub rules: Vec<RuleSet>,
}

impl View for ClassRules {
    type V = ClassView;

    open spec fn view(&self) -> ClassView {
        ClassView { name: self.name@, rules: self.rules.deep_view() }
    }
}

impl DeepView for ClassRules {
    type V = ClassView;

    open spec fn deep_view(&self) -> ClassView {
        self@
    }
}

/// Whether a node is a rule set: a selector list with its declaration block.
pub open spec fn is_rule_set(node: NodeView) -> bool {
    node.kind == "rule_set"@
}

/// Whether the ancestor at `i` is a rule set and none nearer is.
pub open spec fn nearest_rule_at(ancestors: Seq<NodeView>, i: int) -> bool {
    &&& 0 <= i < ancestors.len()
    &&& is_rule_set(ancestors[i])
    &&& forall|j: int| 0 <= j < i ==> !is_rule_set(#[trigger] ancestors[j])
}

/// The nearest ancestor that is a rule set, if any is.
pub open spec fn enclosing_rule(ancestors: Seq<NodeView>) -> Option<NodeView> {
    if exists|i: int| nearest_rule_at(ancestors, i) {
        Some(ancestors[choose|i: int| nearest_rule_at(ancestors, i)])
    } else {
        None
    }
}

/// Walks upward through the ancestors, nearest first, to the first rule set.
pub fn find_enclosing_rule(ancestors: &Vec<SyntaxNode>) -> (found: Option<usize>)
    ensures
        match found {
            Some(i) => nearest_rule_at(ancestors.deep_view(), i as int),
            None => forall|j: int|
                0 <= j < ancestors.len() ==> !is_rule_set(#[trigger] ancestors.deep_view()[j]),
        },
        enclosing_rule(ancestors.deep_view()) == match found {
            Some(i) => Some(ancestors.deep_view()[i as int]),
            None => None,
        },
{
    let wanted = "rule_set".to_owned();
    let ghost nodes = ancestors.deep_view();
    let mut i: usize = 0;
    while i < ancestors.len()
        invariant
            i <= ancestors.len(),
            wanted@ == "rule_set"@,
            nodes == ancestors.deep_view(),
            forall|j: int| 0 <= j < i ==> !is_rule_set(#[trigger] nodes[j]),
        decreases ancestors.len() - i,
    {
        if ancestors[i].kind == wanted {
            proof {
                assert(nearest_rule_at(nodes, i as int));
                let k = choose|k: int| nearest_rule_at(nodes, k);
                assert(k == i) by {
                    if k < i {
                        assert(!is_rule_set(nodes[k]));
                    }
                    if i < k {
                        assert(!is_rule_set(nodes[i as int]));
                    }
                }
            }
            return Some(i);
        }
        i += 1;
    }
    proof {
        assert forall|k: int| !nearest_rule_at(nodes, k) by {
            if 0 <= k < nodes.len() {
                assert(!is_rule_set(nodes[k]));
            }
        }
    }
    None
}

/// What one match of the query gives: the class name and the rule set that
/// mentions it, or the reason why the match is skipped. The first capture is
/// the class selector, the second the class name inside it.
pub open spec fn match_finding(text: Seq<char>, m: Seq<CaptureView>) -> Result<
    (Seq<char>, RuleView),
    MatchFaultView,
> {
    if m.len() != 2 {
        Err(MatchFaultView::CaptureCount { found: m.len() as int })
    } else {
        match enclosing_rule(m[0].ancestors) {
            None => Err(
                MatchFaultView::NoEnclosingRule {
                    selector: byte_slice(text, m[0].node.start, m[0].node.end),
                },
            ),
            Some(node) => match byte_slice(text, node.start, node.end) {
                None => Err(MatchFaultView::UndecodableNode { kind: node.kind }),
                Some(rule_text) => match byte_slice(text, m[1].node.start, m[1].node.end) {
                    None => Err(MatchFaultView::UndecodableNode { kind: m[1].node.kind }),
                    Some(name) => Ok(
                        (name, RuleView { start: node.start, end: node.end, text: rule_text }),
                    ),
                },
            },
        }
    }
}

/// The plain value of what `examine_match` returns.
pub open spec fn finding_view(finding: Result<(String, RuleSet), MatchFault>) -> Result<
    (Seq<char>, RuleView),
    MatchFaultView,
> {
    match finding {
        Ok((name, rule)) => Ok((name@, rule@)),
        Err(fault) => Err(fault@),
    }
}

/// Reads one match of the query: the class name and its enclosing rule set,
/// or why there is none to record.
pub fn examine_match(text: &str, m: &QueryMatch) -> (finding: Result<(String, RuleSet), MatchFault>)
    ensures
        finding_view(finding) == match_finding(text@, m@),
{
    if m.captures.len() != 2 {
        return Err(MatchFault::CaptureCount { found: m.captures.len() });
    }
    let selector = &m.captures[0];
    let class_name = &m.captures[1];
    assert(m@[0] == selector@);
    assert(m@[1] == class_name@);
    let at = match find_enclosing_rule(&selector.ancestors) {
        Some(at) => at,
        None => {
            let shown = slice_text(text, selector.node.start, selector.node.end);
            return Err(MatchFault::NoEnclosingRule { selector: shown });
        },
    };
    let node = &selector.ancestors[at];
    assert(selector@.ancestors[at as int] == node@);
    let rule_text = match slice_text(text, node.start, node.end) {
        Some(rule_text) => rule_text,
        None => {
            return Err(MatchFault::UndecodableNode { kind: node.kind.clone() });
        },
    };
    let name = match slice_text(text, class_name.node.start, class_name.node.end) {
        Some(name) => name,
        None => {
            return Err(MatchFault::UndecodableNode { kind: class_name.node.kind.clone() });
        },
    };
    Ok((name, RuleSet { start: node.start, end: node.end, text: rule_text }))
}

/// Whether two rule sets are the same rule set of a file: whether their nodes
/// cover the same bytes.
pub open spec fn same_span(a: RuleView, b: RuleView) -> bool {
    a.start == b.start && a.end == b.end
}

/// Whether one of the rule sets covers the bytes that `rule` covers.
pub open spec fn has_span(rules: Seq<RuleView>, rule: RuleView) -> bool {
    exists|k: int| 0 <= k < rules.len() && same_span(#[trigger] rules[k], rule)
}

/// Whether the class at `i` has this name.
pub open spec fn class_at(classes: Seq<ClassView>, name: Seq<char>, i: int) -> bool {
    0 <= i < classes.len() && classes[i].name == name
}

/// Whether a class of this name is among the classes.
pub open spec fn has_class(classes: Seq<ClassView>, name: Seq<char>) -> bool {
    exists|i: int| class_at(classes, name, i)
}

/// No rule set occurs twice among the rule sets.
pub open spec fn spans_distinct(rules: Seq<RuleView>) -> bool {
    forall|i: int, j: int|
        0 <= i < j < rules.len() ==> !same_span(#[trigger] rules[i], #[trigger] rules[j])
}

/// No class name occurs twice among the classes.
pub open spec fn names_distinct(classes: Seq<ClassView>) -> bool {
    forall|i: int, j: int|
        0 <= i < j < classes.len() ==> (#[trigger] classes[i]).name != (#[trigger] classes[j]).name
}

/// The invariant of a file's classes: each class name once, each with at least
/// one rule set, and under one class name each rule set once.
pub open spec fn well_formed(classes: Seq<ClassView>) -> bool {
    &&& names_distinct(classes)
    &&& forall|i: int|
        0 <= i < classes.len() ==> (#[trigger] classes[i]).rules.len() > 0 && spans_distinct(
            classes[i].rules,
        )
}

/// The classes after `rule` was recorded under `name`: a rule set already
/// there under that name changes nothing, a new one is added to the class, and
/// a new name gets a class of its own.
pub open spec fn recorded(classes: Seq<ClassView>, name: Seq<char>, rule: RuleView) -> Seq<
    ClassView,
> {
    if has_class(classes, name) {
        let i = choose|i: int| class_at(classes, name, i);
        if has_span(classes[i].rules, rule) {
            classes
        } else {
            classes.update(i, ClassView { name, rules: classes[i].rules.push(rule) })
        }
    } else {
        classes.push(ClassView { name, rules: seq![rule] })
    }
}

/// Recording a rule set keeps the classes well formed.
pub proof fn lemma_recorded_well_formed(classes: Seq<ClassView>, name: Seq<char>, rule: RuleView)
    requires
        well_formed(classes),
    ensures
        well_formed(recorded(classes, name, rule)),
{
    let after = recorded(classes, name, rule);
    if has_class(classes, name) {
        let i = choose|i: int| class_at(classes, name, i);
        if !has_span(classes[i].rules, rule) {
            let rules = classes[i].rules.push(rule);
            assert forall|a: int, b: int| 0 <= a < b < rules.len() implies !same_span(
                #[trigger] rules[a],
                #[trigger] rules[b],
            ) by {
                if b == rules.len() - 1 {
                    assert(same_span(rules[a], rule) ==> same_span(classes[i].rules[a], rule));
                } else {
                    assert(!same_span(classes[i].rules[a], classes[i].rules[b]));
                }
            }
            assert forall|a: int, b: int| 0 <= a < b < after.len() implies (#[trigger] after[a]).name
                != (#[trigger] after[b]).name by {
                assert(after[a].name == classes[a].name);
                assert(after[b].name == classes[b].name);
            }
            assert forall|a: int| 0 <= a < after.len() implies (#[trigger] after[a]).rules.len() > 0
                && spans_distinct(after[a].rules) by {
                if a != i {
                    assert(after[a] == classes[a]);
                }
            }
        }
    } else {
        assert forall|a: int, b: int| 0 <= a < b < after.len() implies (#[trigger] after[a]).name
            != (#[trigger] after[b]).name by {
            if b == after.len() - 1 {
                assert(!class_at(classes, name, a));
            } else {
                assert(after[a] == classes[a] && after[b] == classes[b]);
            }
        }
        assert forall|a: int| 0 <= a < after.len() implies (#[trigger] after[a]).rules.len() > 0
            && spans_distinct(after[a].rules) by {
            if a < classes.len() {
                assert(after[a] == classes[a]);
            }
        }
    }
}

/// What one file gives: its class names, each with the rule sets that mention
/// it.
#[derive(Debug)]
pub struct FileClassMap {
    classes: Vec<ClassRules>,
}

impl View for FileClassMap {
    type V = Seq<ClassView>;

    closed spec fn view(&self) -> Seq<ClassView> {
        self.classes.deep_view()
    }
}

impl DeepView for FileClassMap {
    type V = Seq<ClassView>;

    open spec fn deep_view(&self) -> Seq<ClassView> {
        self@
    }
}

impl FileClassMap {
    /// Whether the map keeps its invariant.
    pub open spec fn wf(&self) -> bool {
        well_formed(self@)
    }

    /// A map without classes.
    pub fn new() -> (map: FileClassMap)
        ensures
            map@ == Seq::<ClassView>::empty(),
            map.wf(),
    {
        let map = FileClassMap { classes: Vec::new() };
        assert(map@ =~= Seq::<ClassView>::empty());
        map
    }

    /// The number of class names in the map.
    pub fn len(&self) -> (n: usize)
        ensures
            n == self@.len(),
    {
        self.classes.len()
    }

    /// The class at `i`, in the order in which the class names were first met.
    pub fn class(&self, i: usize) -> (class: &ClassRules)
        requires
            i < self@.len(),
        ensures
            class@ == self@[i as int],
    {
        &self.classes[i]
    }

    /// Where the class of this name stands, if there is one.
    fn find_class(&self, name: &String) -> (found: Option<usize>)
        ensures
            match found {
                Some(i) => class_at(self@, name@, i as int),
                None => !has_class(self@, name@),
            },
    {
        let mut i: usize = 0;
        while i < self.classes.len()
            invariant
                i <= self.classes.len(),
                forall|j: int| 0 <= j < i ==> !class_at(self@, name@, j),
            decreases self.classes.len() - i,
        {
            if self.classes[i].name == *name {
                return Some(i);
            }
            i += 1;
        }
        None
    }

    /// Records that the rule set `rule` mentions the class `name`.
    pub fn insert(&mut self, name: String, rule: RuleSet)
        requires
            old(self).wf(),
        ensures
            final(self)@ == recorded(old(self)@, name@, rule@),
            final(self).wf(),
    {
        let ghost before = self@;
        proof {
            lemma_recorded_well_formed(before, name@, rule@);
        }
        match self.find_class(&name) {
            Some(i) => {
                let ghost chosen = choose|c: int| class_at(before, name@, c);
                assert(chosen == i) by {
                    if chosen < i {
                        assert(before[chosen].name != before[i as int].name);
                    }
                    if i < chosen {
                        assert(before[i as int].name != before[chosen].name);
                    }
                }
                if !knows_rule(&self.classes[i].rules, &rule) {
                    self.classes[i].rules.push(rule);
                    assert(self@ =~= recorded(before, name@, rule@)) by {
                        let want = recorded(before, name@, rule@);
                        assert(self@.len() == want.len());
                        assert forall|a: int| 0 <= a < want.len() implies self@[a] == want[a] by {
                            if a == i {
                                assert(self@[a].rules =~= before[a].rules.push(rule@));
                            }
                        }
                    }
                }
            },
            None => {
                let mut rules = Vec::new();
                rules.push(rule);
                self.classes.push(ClassRules { name, rules });
                assert(self@ =~= recorded(before, name@, rule@)) by {
                    let want = recorded(before, name@, rule@);
                    assert(self@.len() == want.len());
                    assert forall|a: int| 0 <= a < want.len() implies self@[a] == want[a] by {
                        if a == before.len() {
                            assert(self@[a].rules =~= seq![rule@]);
                        }
                    }
                }
            },
        }
    }
}

/// Whether one of the rule sets covers the bytes that `rule` covers.
fn knows_rule(rules: &Vec<RuleSet>, rule: &RuleSet) -> (known: bool)
    ensures
        known == has_span(rules.deep_view(), rule@),
{
    let mut k: usize = 0;
    while k < rules.len()
        invariant
            k <= rules.len(),
            forall|j: int| 0 <= j < k ==> !same_span(#[trigger] rules.deep_view()[j], rule@),
        decreases rules.len() - k,
    {
        if rules[k].start == rule.start && rules[k].end == rule.end {
            assert(same_span(rules.deep_view()[k as int], rule@));
            return true;
        }
        k += 1;
    }
    false
}

/// The classes of a file whose query matches are `matches`, taken in order:
/// each match that gives a class name and a rule set is recorded, each other
/// one changes nothing.
pub open spec fn collected(text: Seq<char>, matches: Seq<Seq<CaptureView>>) -> Seq<ClassView>
    decreases matches.len(),
{
    if matches.len() == 0 {
        Seq::empty()
    } else {
        let before = collected(text, matches.drop_last());
        match match_finding(text, matches.last()) {
            Ok((name, rule)) => recorded(before, name, rule),
            Err(_) => before,
        }
    }
}

/// One record for each match that was skipped, in the order of the matches.
pub open spec fn skipped(path: Seq<char>, text: Seq<char>, matches: Seq<Seq<CaptureView>>) -> Seq<
    DiagnosticView,
>
    decreases matches.len(),
{
    if matches.len() == 0 {
        Seq::empty()
    } else {
        let before = skipped(path, text, matches.drop_last());
        match match_finding(text, matches.last()) {
            Ok(_) => before,
            Err(fault) => before.push(DiagnosticView::MalformedMatch { path, fault }),
        }
    }
}

/// The classes of a file are well formed, whatever its matches are.
pub proof fn lemma_collected_well_formed(text: Seq<char>, matches: Seq<Seq<CaptureView>>)
    ensures
        well_formed(collected(text, matches)),
    decreases matches.len(),
{
    if matches.len() > 0 {
        lemma_collected_well_formed(text, matches.drop_last());
        match match_finding(text, matches.last()) {
            Ok((name, rule)) => {
                lemma_recorded_well_formed(collected(text, matches.drop_last()), name, rule);
            },
            Err(_) => {},
        }
    }
}

/// Whether the classes hold, under this class name, the rule set that covers
/// the bytes that `rule` covers.
pub open spec fn knows_rule_of(classes: Seq<ClassView>, name: Seq<char>, rule: RuleView) -> bool {
    exists|i: int| class_at(classes, name, i) && has_span(classes[i].rules, rule)
}

/// Whether one of the matches gives this class name together with the rule
/// set that covers the bytes that `rule` covers.
pub open spec fn some_match_gives(
    text: Seq<char>,
    matches: Seq<Seq<CaptureView>>,
    name: Seq<char>,
    rule: RuleView,
) -> bool {
    exists|j: int|
        0 <= j < matches.len() && (match match_finding(text, #[trigger] matches[j]) {
            Ok((found, from)) => found == name && same_span(from, rule),
            Err(_) => false,
        })
}

/// The text of a rule set is the text that its bytes spell in the file.
pub open spec fn texts_from(text: Seq<char>, classes: Seq<ClassView>) -> bool {
    forall|i: int, k: int|
        0 <= i < classes.len() && 0 <= k < classes[i].rules.len() ==> byte_slice(
            text,
            (#[trigger] classes[i].rules[k]).start,
            classes[i].rules[k].end,
        ) == Some(classes[i].rules[k].text)
}

/// Builds the classes of one file from the matches of the class-selector
/// query in it. A match that cannot be read is skipped and leaves one record
/// in `sink`; the other matches are not affected by it.
pub fn collect_rules(
    path: &String,
    text: &str,
    matches: &Vec<QueryMatch>,
    sink: &mut Vec<Diagnostic>,
) -> (map: FileClassMap)
    ensures
        map@ == collected(text@, matches.deep_view()),
        map.wf(),
        texts_from(text@, map@),
        forall|name: Seq<char>, rule: RuleView| #[trigger]
            knows_rule_of(map@, name, rule) <==> some_match_gives(
                text@,
                matches.deep_view(),
                name,
                rule,
            ),
        final(sink).deep_view() == old(sink).deep_view() + skipped(
            path@,
            text@,
            matches.deep_view(),
        ),
{
    let mut map = FileClassMap::new();
    let ghost all = matches.deep_view();
    let ghost logged = sink.deep_view();
    let mut i: usize = 0;
    assert(sink.deep_view() =~= logged + skipped(path@, text@, all.take(0)));
    while i < matches.len()
        invariant
            i <= matches.len(),
            all == matches.deep_view(),
            map@ == collected(text@, all.take(i as int)),
            map.wf(),
            sink.deep_view() == logged + skipped(path@, text@, all.take(i as int)),
        decreases matches.len() - i,
    {
        let ghost done = all.take(i as int);
        let ghost next = all.take(i + 1);
        assert(next.drop_last() =~= done);
        assert(next.last() == matches[i as int]@);
        match examine_match(text, &matches[i]) {
            Ok((name, rule)) => {
                map.insert(name, rule);
            },
            Err(fault) => {
                let ghost noted = sink.deep_view();
                let record = Diagnostic::MalformedMatch { path: path.clone(), fault };
                sink.push(record);
                assert(sink.deep_view() =~= noted.push(record@));
                assert(sink.deep_view() =~= logged + skipped(path@, text@, next));
            },
        }
        i += 1;
    }
    assert(all.take(i as int) =~= all);
    proof {
        lemma_collected_texts(text@, all);
        assert forall|name: Seq<char>, rule: RuleView| #[trigger]
            knows_rule_of(map@, name, rule) <==> some_match_gives(text@, all, name, rule) by {
            lemma_collected_knows(text@, all, name, rule);
        }
    }
    map
}

/// Why a file gave no classes at all.
#[derive(Clone, Copy, Debug, PartialEq, Eq, Structural)]
pub enum ExtractError {
    /// The parser gave no syntax tree for the text.
    ParseFailed,
}

/// The matches of the class-selector query in a file with this text, where
/// the parser can address the text and gives a syntax tree for it.
pub open spec fn parsed(text: Seq<char>) -> Option<Seq<Seq<CaptureView>>> {
    if encode_utf8(text).len() <= parser_limit() {
        class_selector_matches(text)
    } else {
        None
    }
}

/// The classes of a file with this text, where the text can be parsed.
pub open spec fn extracted(text: Seq<char>) -> Option<Seq<ClassView>> {
    match parsed(text) {
        Some(matches) => Some(collected(text, matches)),
        None => None,
    }
}

/// The records of the matches that are skipped in a file with this text.
pub open spec fn extraction_skips(path: Seq<char>, text: Seq<char>) -> Seq<DiagnosticView> {
    match parsed(text) {
        Some(matches) => skipped(path, text, matches),
        None => Seq::empty(),
    }
}

/// What is extracted is well formed.
pub proof fn lemma_extracted_well_formed(text: Seq<char>)
    ensures
        extracted(text) matches Some(classes) ==> well_formed(classes),
{
    if let Some(matches) = parsed(text) {
        lemma_collected_well_formed(text, matches);
    }
}

/// Parses the text of the file at `path`, runs the class-selector query over
/// the syntax tree and builds the classes of the file. Fails only where the
/// text is longer than the parser can address or the parser gives no tree; a
/// match that cannot be read leaves one record in `sink` and is skipped.
pub fn extract(grammar: &mut Grammar, path: &String, text: &str, sink: &mut Vec<Diagnostic>) -> (out:
    Result<FileClassMap, ExtractError>)
    ensures
        match extracted(text@) {
            Some(classes) => out matches Ok(map) && map@ == classes && map.wf(),
            None => out == Err::<FileClassMap, ExtractError>(ExtractError::ParseFailed),
        },
        final(sink).deep_view() == old(sink).deep_view() + extraction_skips(path@, text@),
{
    assert(sink.deep_view() =~= sink.deep_view() + Seq::<DiagnosticView>::empty());
    if text.as_bytes().len() > 0xffff_ffff {
        return Err(ExtractError::ParseFailed);
    }
    match find_class_selectors(grammar, text) {
        Some(matches) => Ok(collect_rules(path, text, &matches, sink)),
        None => Err(ExtractError::ParseFailed),
    }
}

/// After recording, the classes hold what they held before and the rule set
/// that was recorded, and nothing else.
pub proof fn lemma_recorded_knows(
    classes: Seq<ClassView>,
    name: Seq<char>,
    rule: RuleView,
    other_name: Seq<char>,
    other: RuleView,
)
    requires
        well_formed(classes),
    ensures
        knows_rule_of(recorded(classes, name, rule), other_name, other) <==> (knows_rule_of(
            classes,
            other_name,
            other,
        ) || (other_name == name && same_span(other, rule))),
{
    let after = recorded(classes, name, rule);
    lemma_recorded_well_formed(classes, name, rule);
    if has_class(classes, name) {
        let at = choose|i: int| class_at(classes, name, i);
        if has_span(classes[at].rules, rule) {
            if other_name == name && same_span(other, rule) {
                let k = choose|k: int|
                    0 <= k < classes[at].rules.len() && same_span(
                        #[trigger] classes[at].rules[k],
                        rule,
                    );
                assert(same_span(classes[at].rules[k], other));
                assert(class_at(classes, other_name, at) && has_span(classes[at].rules, other));
            }
        } else {
            let grown = classes[at].rules.push(rule);
            if knows_rule_of(classes, other_name, other) {
                let i = choose|i: int|
                    class_at(classes, other_name, i) && has_span(classes[i].rules, other);
                let k = choose|k: int|
                    0 <= k < classes[i].rules.len() && same_span(
                        #[trigger] classes[i].rules[k],
                        other,
                    );
                if i == at {
                    assert(same_span(grown[k], other));
                } else {
                    assert(after[i] == classes[i]);
                }
                assert(class_at(after, other_name, i) && has_span(after[i].rules, other));
            }
            if other_name == name && same_span(other, rule) {
                assert(same_span(grown[grown.len() - 1], other));
                assert(class_at(after, other_name, at) && has_span(after[at].rules, other));
            }
            if knows_rule_of(after, other_name, other) {
                let i = choose|i: int|
                    class_at(after, other_name, i) && has_span(after[i].rules, other);
                let k = choose|k: int|
                    0 <= k < after[i].rules.len() && same_span(#[trigger] after[i].rules[k], other);
                if i == at {
                    if k < classes[at].rules.len() {
                        assert(same_span(classes[at].rules[k], other));
                        assert(class_at(classes, other_name, at) && has_span(
                            classes[at].rules,
                            other,
                        ));
                    }
                } else {
                    assert(after[i] == classes[i]);
                    assert(class_at(classes, other_name, i) && has_span(classes[i].rules, other));
                }
            }
        }
    } else {
        let last = classes.len() as int;
        if knows_rule_of(classes, other_name, other) {
            let i = choose|i: int|
                class_at(classes, other_name, i) && has_span(classes[i].rules, other);
            assert(after[i] == classes[i]);
            assert(class_at(after, other_name, i) && has_span(after[i].rules, other));
        }
        if other_name == name && same_span(other, rule) {
            assert(same_span(after[last].rules[0], other));
            assert(class_at(after, other_name, last) && has_span(after[last].rules, other));
        }
        if knows_rule_of(after, other_name, other) {
            let i = choose|i: int|
                class_at(after, other_name, i) && has_span(after[i].rules, other);
            if i == last {
                let k = choose|k: int|
                    0 <= k < after[i].rules.len() && same_span(#[trigger] after[i].rules[k], other);
                assert(k == 0);
            } else {
                assert(after[i] == classes[i]);
                assert(class_at(classes, other_name, i) && has_span(classes[i].rules, other));
            }
        }
    }
}

/// The classes of a file hold a rule set under a class name exactly where one
/// of the matches gives the two together.
pub proof fn lemma_collected_knows(
    text: Seq<char>,
    matches: Seq<Seq<CaptureView>>,
    name: Seq<char>,
    rule: RuleView,
)
    ensures
        knows_rule_of(collected(text, matches), name, rule) <==> some_match_gives(
            text,
            matches,
            name,
            rule,
        ),
    decreases matches.len(),
{
    if matches.len() == 0 {
        assert(!knows_rule_of(collected(text, matches), name, rule));
    } else {
        let firsts = matches.drop_last();
        let before = collected(text, firsts);
        lemma_collected_knows(text, firsts, name, rule);
        lemma_collected_well_formed(text, firsts);
        let last = matches.len() - 1;
        if some_match_gives(text, firsts, name, rule) {
            let j = choose|j: int|
                0 <= j < firsts.len() && (match match_finding(text, #[trigger] firsts[j]) {
                    Ok((found, from)) => found == name && same_span(from, rule),
                    Err(_) => false,
                });
            assert(matches[j] == firsts[j]);
        }
        if some_match_gives(text, matches, name, rule) {
            let j = choose|j: int|
                0 <= j < matches.len() && (match match_finding(text, #[trigger] matches[j]) {
                    Ok((found, from)) => found == name && same_span(from, rule),
                    Err(_) => false,
                });
            if j < last {
                assert(matches[j] == firsts[j]);
            }
        }
        match match_finding(text, matches.last()) {
            Ok((found, from)) => {
                lemma_recorded_knows(before, found, from, name, rule);
                if found == name && same_span(from, rule) {
                    assert(matches[last] == matches.last());
                }
            },
            Err(_) => {},
        }
    }
}

/// Every rule set among the classes of a file carries the text that its bytes
/// spell in the file.
pub proof fn lemma_collected_texts(text: Seq<char>, matches: Seq<Seq<CaptureView>>)
    ensures
        texts_from(text, collected(text, matches)),
    decreases matches.len(),
{
    if matches.len() > 0 {
        let before = collected(text, matches.drop_last());
        lemma_collected_texts(text, matches.drop_last());
        match match_finding(text, matches.last()) {
            Ok((name, rule)) => {
                let after = recorded(before, name, rule);
                assert forall|i: int, k: int|
                    0 <= i < after.len() && 0 <= k < after[i].rules.len() implies byte_slice(
                    text,
                    (#[trigger] after[i].rules[k]).start,
                    after[i].rules[k].end,
                ) == Some(after[i].rules[k].text) by {
                    if i < before.len() && k < before[i].rules.len() {
                        assert(after[i].rules[k] == before[i].rules[k]);
                    }
                }
            },
            Err(_) => {},
        }
    }
}

/// A match that gives what the classes hold already changes nothing: under one
/// class name a rule set is held once, however many selectors of the rule set
/// mention the class.
pub proof fn lemma_known_rule_is_not_recorded_again(
    classes: Seq<ClassView>,
    name: Seq<char>,
    rule: RuleView,
)
    requires
        well_formed(classes),
        knows_rule_of(classes, name, rule),
    ensures
        recorded(classes, name, rule) == classes,
{
    let i = choose|i: int| class_at(classes, name, i) && has_span(classes[i].rules, rule);
    let at = choose|i: int| class_at(classes, name, i);
    if i < at {
        assert(classes[i].name != classes[at].name);
    }
    if at < i {
        assert(classes[at].name != classes[i].name);
    }
}

/// Recording one rule set twice under one class name is recording it once.
pub proof fn lemma_recorded_twice(classes: Seq<ClassView>, name: Seq<char>, rule: RuleView)
    requires
        well_formed(classes),
    ensures
        recorded(recorded(classes, name, rule), name, rule) == recorded(classes, name, rule),
{
    lemma_recorded_well_formed(classes, name, rule);
    lemma_recorded_knows(classes, name, rule, name, rule);
    lemma_known_rule_is_not_recorded_again(recorded(classes, name, rule), name, rule);
}

/// A match that is skipped leaves no trace in the classes of the file,
/// wherever among the matches it stands.
pub proof fn lemma_skipped_match_is_ignored(
    text: Seq<char>,
    before: Seq<Seq<CaptureView>>,
    m: Seq<CaptureView>,
    after: Seq<Seq<CaptureView>>,
)
    requires
        match_finding(text, m) is Err,
    ensures
        collected(text, before.push(m) + after) == collected(text, before + after),
    decreases after.len(),
{
    if after.len() == 0 {
        assert(before.push(m) + after =~= before.push(m));
        assert(before + after =~= before);
        assert(before.push(m).drop_last() =~= before);
    } else {
        lemma_skipped_match_is_ignored(text, before, m, after.drop_last());
        assert((before.push(m) + after).drop_last() =~= before.push(m) + after.drop_last());
        assert((before + after).drop_last() =~= before + after.drop_last());
        assert((before.push(m) + after).last() == after.last());
        assert((before + after).last() == after.last());
    }
}

/// A class selector with no rule set among its ancestors is skipped: the
/// stylesheet is malformed at that place, and the classes of the file are
/// those that the other matches give.
pub proof fn lemma_selector_outside_rules_is_ignored(
    text: Seq<char>,
    before: Seq<Seq<CaptureView>>,
    m: Seq<CaptureView>,
    after: Seq<Seq<CaptureView>>,
)
    requires
        m.len() == 2,
        forall|j: int| 0 <= j < m[0].ancestors.len() ==> !is_rule_set(#[trigger] m[0].ancestors[j]),
    ensures
        match_finding(text, m) == Err::<(Seq<char>, RuleView), MatchFaultView>(
            MatchFaultView::NoEnclosingRule {
                selector: byte_slice(text, m[0].node.start, m[0].node.end),
            },
        ),
        collected(text, before.push(m) + after) == collected(text, before + after),
{
    assert forall|i: int| !nearest_rule_at(m[0].ancestors, i) by {
        if 0 <= i < m[0].ancestors.len() {
            assert(!is_rule_set(m[0].ancestors[i]));
        }
    }
    lemma_skipped_match_is_ignored(text, before, m, after);
}


} // verus!
