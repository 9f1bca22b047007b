use autocompletion_engine_core::diagnostics::{Diagnostic, MatchFault};
use autocompletion_engine_core::extract::{
    collect_rules, examine_match, extract, find_enclosing_rule, ExtractError, FileClassMap, RuleSet,
};
use autocompletion_engine_core::syntax::{Capture, Grammar, QueryMatch, SyntaxNode};

fn node(kind: &str, start: usize, end: usize) -> SyntaxNode {
    SyntaxNode { kind: kind.to_string(), start, end }
}

fn capture(own: SyntaxNode, ancestors: Vec<SyntaxNode>) -> Capture {
    Capture { node: own, ancestors }
}

// The two captures that the query gives for the class `b` of `.a,.b{color:red}`.
fn match_of_b() -> QueryMatch {
    QueryMatch {
        captures: vec![
            capture(
                node("class_selector", 3, 5),
                vec![node("selectors", 0, 5), node("rule_set", 0, 16), node("stylesheet", 0, 16)],
            ),
            capture(
                node("class_name", 4, 5),
                vec![
                    node("class_selector", 3, 5),
                    node("selectors", 0, 5),
                    node("rule_set", 0, 16),
                    node("stylesheet", 0, 16),
                ],
            ),
        ],
    }
}

fn stray_match(start: usize, end: usize) -> QueryMatch {
    QueryMatch {
        captures: vec![
            capture(
                node("class_selector", start, end),
                vec![node("ERROR", start, end + 1), node("stylesheet", 0, end + 2)],
            ),
            capture(
                node("class_name", start + 1, end),
                vec![
                    node("class_selector", start, end),
                    node("ERROR", start, end + 1),
                    node("stylesheet", 0, end + 2),
                ],
            ),
        ],
    }
}

fn rule(start: usize, end: usize, text: &str) -> RuleSet {
    RuleSet { start, end, text: text.to_string() }
}

fn shape(map: &FileClassMap) -> Vec<(String, Vec<(usize, usize, String)>)> {
    let mut out = Vec::new();
    for i in 0..map.len() {
        let class = map.class(i);
        let rules = class.rules.iter().map(|r| (r.start, r.end, r.text.clone())).collect();
        out.push((class.name.clone(), rules));
    }
    out
}

#[test]
fn nearest_rule_set_is_found() {
    let ancestors = vec![
        node("selectors", 46, 53),
        node("rule_set", 46, 69),
        node("block", 44, 71),
        node("rule_set", 41, 71),
        node("stylesheet", 0, 71),
    ];
    assert_eq!(find_enclosing_rule(&ancestors), Some(1));
}

#[test]
fn rule_set_may_be_the_parent_itself() {
    assert_eq!(find_enclosing_rule(&vec![node("rule_set", 0, 3)]), Some(0));
}

#[test]
fn walk_that_reaches_the_root_finds_nothing() {
    let ancestors = vec![node("ERROR", 46, 55), node("stylesheet", 0, 56)];
    assert_eq!(find_enclosing_rule(&ancestors), None);
    assert_eq!(find_enclosing_rule(&Vec::new()), None);
}

#[test]
fn kind_must_be_rule_set_exactly() {
    let ancestors = vec![node("rule_sets", 0, 1), node("Rule_set", 0, 1), node("rule", 0, 1)];
    assert_eq!(find_enclosing_rule(&ancestors), None);
}

#[test]
fn match_gives_class_name_and_rule_set() {
    let (name, rule) = examine_match(".a,.b{color:red}", &match_of_b()).expect("a rule set");
    assert_eq!(name, "b");
    assert_eq!((rule.start, rule.end), (0, 16));
    assert_eq!(rule.text, ".a,.b{color:red}");
}

#[test]
fn match_with_one_capture_is_skipped() {
    let mut m = match_of_b();
    m.captures.pop();
    let fault = examine_match(".a,.b{color:red}", &m).expect_err("one capture");
    assert!(matches!(fault, MatchFault::CaptureCount { found: 1 }));
}

#[test]
fn match_with_three_captures_is_skipped() {
    let mut m = match_of_b();
    m.captures.push(capture(node("class_name", 4, 5), Vec::new()));
    let fault = examine_match(".a,.b{color:red}", &m).expect_err("three captures");
    assert!(matches!(fault, MatchFault::CaptureCount { found: 3 }));
}

#[test]
fn match_without_captures_is_skipped() {
    let fault = examine_match("", &QueryMatch { captures: Vec::new() }).expect_err("no capture");
    assert!(matches!(fault, MatchFault::CaptureCount { found: 0 }));
}

#[test]
fn selector_outside_every_rule_is_skipped_with_its_text() {
    let fault = examine_match(".stray;\n", &stray_match(0, 6)).expect_err("no rule set");
    match fault {
        MatchFault::NoEnclosingRule { selector } => assert_eq!(selector, Some(".stray".to_string())),
        other => panic!("unexpected fault {:?}", other),
    }
}

#[test]
fn selector_outside_every_rule_may_have_no_text() {
    let fault = examine_match("ab", &stray_match(5, 9)).expect_err("no rule set");
    match fault {
        MatchFault::NoEnclosingRule { selector } => assert_eq!(selector, None),
        other => panic!("unexpected fault {:?}", other),
    }
}

#[test]
fn rule_set_beyond_the_text_is_skipped() {
    let fault = examine_match(".a,.b{", &match_of_b()).expect_err("range too long");
    match fault {
        MatchFault::UndecodableNode { kind } => assert_eq!(kind, "rule_set"),
        other => panic!("unexpected fault {:?}", other),
    }
}

#[test]
fn class_name_that_cuts_a_character_is_skipped() {
    // byte 4 lies inside the two-byte character that starts at byte 3
    let text = ".a,\u{e9}b{color:red}";
    let fault = examine_match(text, &match_of_b()).expect_err("cut character");
    match fault {
        MatchFault::UndecodableNode { kind } => assert_eq!(kind, "class_name"),
        other => panic!("unexpected fault {:?}", other),
    }
}

#[test]
fn new_map_is_empty() {
    assert_eq!(FileClassMap::new().len(), 0);
}

#[test]
fn insert_adds_classes_in_order_of_first_mention() {
    let mut map = FileClassMap::new();
    map.insert("b".to_string(), rule(0, 3, "r1"));
    map.insert("a".to_string(), rule(0, 3, "r1"));
    map.insert("b".to_string(), rule(4, 9, "r2"));
    assert_eq!(
        shape(&map),
        vec![
            ("b".to_string(), vec![(0, 3, "r1".to_string()), (4, 9, "r2".to_string())]),
            ("a".to_string(), vec![(0, 3, "r1".to_string())]),
        ]
    );
}

#[test]
fn insert_of_a_known_rule_set_changes_nothing() {
    let mut map = FileClassMap::new();
    map.insert("a".to_string(), rule(0, 3, "r1"));
    map.insert("a".to_string(), rule(0, 3, "r1"));
    map.insert("a".to_string(), rule(0, 3, "another text"));
    assert_eq!(shape(&map), vec![("a".to_string(), vec![(0, 3, "r1".to_string())])]);
}

#[test]
fn rule_sets_are_told_apart_by_range_not_by_text() {
    let mut map = FileClassMap::new();
    map.insert("a".to_string(), rule(0, 8, ".a{x:y}"));
    map.insert("a".to_string(), rule(9, 17, ".a{x:y}"));
    map.insert("a".to_string(), rule(0, 17, ".a{x:y}"));
    assert_eq!(
        shape(&map),
        vec![(
            "a".to_string(),
            vec![
                (0, 8, ".a{x:y}".to_string()),
                (9, 17, ".a{x:y}".to_string()),
                (0, 17, ".a{x:y}".to_string()),
            ]
        )]
    );
}

#[test]
fn collect_skips_bad_matches_and_keeps_the_others() {
    let text = ".a,.b{color:red}\n.c;";
    let matches = vec![
        QueryMatch { captures: Vec::new() },
        match_of_b(),
        stray_match(17, 19),
        match_of_b(),
    ];
    let mut sink = vec![Diagnostic::SerializationFailed];
    let map = collect_rules(&"f.css".to_string(), text, &matches, &mut sink);
    assert_eq!(
        shape(&map),
        vec![("b".to_string(), vec![(0, 16, ".a,.b{color:red}".to_string())])]
    );
    assert_eq!(sink.len(), 3);
    assert!(matches!(sink[0], Diagnostic::SerializationFailed));
    assert!(matches!(
        &sink[1],
        Diagnostic::MalformedMatch { path, fault: MatchFault::CaptureCount { found: 0 } }
            if path == "f.css"
    ));
    assert!(matches!(
        &sink[2],
        Diagnostic::MalformedMatch { path, fault: MatchFault::NoEnclosingRule { selector: Some(s) } }
            if path == "f.css" && s == ".c"
    ));
}

#[test]
fn collect_of_no_matches_is_empty() {
    let mut sink = Vec::new();
    let map = collect_rules(&"f.css".to_string(), "body{}", &Vec::new(), &mut sink);
    assert_eq!(map.len(), 0);
    assert!(sink.is_empty());
}

#[test]
fn extract_finds_nothing_without_class_selectors() {
    let mut grammar = Grammar::load().expect("grammar");
    let mut sink = Vec::new();
    let path = "f.css".to_string();
    assert_eq!(extract(&mut grammar, &path, "body { margin: 0; }", &mut sink).expect("tree").len(), 0);
    assert_eq!(extract(&mut grammar, &path, "", &mut sink).expect("tree").len(), 0);
    assert!(sink.is_empty());
}

#[test]
fn extract_gives_each_class_its_rule_set() {
    let mut grammar = Grammar::load().expect("grammar");
    let mut sink = Vec::new();
    let map = extract(&mut grammar, &"f.css".to_string(), ".a,.b{color:red}", &mut sink)
        .expect("extracted");
    assert_eq!(
        shape(&map),
        vec![
            ("a".to_string(), vec![(0, 16, ".a,.b{color:red}".to_string())]),
            ("b".to_string(), vec![(0, 16, ".a,.b{color:red}".to_string())]),
        ]
    );
    assert!(sink.is_empty());
}

#[test]
fn extract_counts_a_rule_set_once_per_class() {
    let mut grammar = Grammar::load().expect("grammar");
    let mut sink = Vec::new();
    let text = "p.x, div .x, .x.y { top: 0 }";
    let map = extract(&mut grammar, &"f.css".to_string(), text, &mut sink).expect("extracted");
    assert_eq!(
        shape(&map),
        vec![
            ("x".to_string(), vec![(0, text.len(), text.to_string())]),
            ("y".to_string(), vec![(0, text.len(), text.to_string())]),
        ]
    );
}

#[test]
fn extract_keeps_equal_rules_at_different_places_apart() {
    let mut grammar = Grammar::load().expect("grammar");
    let mut sink = Vec::new();
    let map = extract(&mut grammar, &"f.css".to_string(), ".a{x:y}\n.a{x:y}", &mut sink)
        .expect("extracted");
    assert_eq!(
        shape(&map),
        vec![(
            "a".to_string(),
            vec![(0, 7, ".a{x:y}".to_string()), (8, 15, ".a{x:y}".to_string())]
        )]
    );
}

#[test]
fn extract_takes_the_innermost_rule_set() {
    let mut grammar = Grammar::load().expect("grammar");
    let mut sink = Vec::new();
    let text = "@media screen { .inner { color: red; } }";
    let map = extract(&mut grammar, &"f.css".to_string(), text, &mut sink).expect("extracted");
    assert_eq!(
        shape(&map),
        vec![("inner".to_string(), vec![(16, 38, ".inner { color: red; }".to_string())])]
    );
}

#[test]
fn extract_records_the_selector_it_skips() {
    let mut grammar = Grammar::load().expect("grammar");
    let mut sink = Vec::new();
    let text = "#peek2 .wrapper {\n  border: 1px solid red;\n}\n\n.wrapper;\n";
    let map = extract(&mut grammar, &"m.css".to_string(), text, &mut sink).expect("extracted");
    assert_eq!(map.len(), 1);
    assert_eq!(sink.len(), 1);
    assert!(matches!(
        &sink[0],
        Diagnostic::MalformedMatch { path, fault: MatchFault::NoEnclosingRule { selector: Some(s) } }
            if path == "m.css" && s == ".wrapper"
    ));
}

#[test]
fn parse_failure_is_the_only_extract_error() {
    assert_eq!(ExtractError::ParseFailed, ExtractError::ParseFailed);
    let mut grammar = Grammar::load().expect("grammar");
    let mut sink = Vec::new();
    assert!(extract(&mut grammar, &"f.css".to_string(), "}}}{{{ not css", &mut sink).is_ok());
}
