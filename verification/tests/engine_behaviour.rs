use autocompletion_engine_core::diagnostics::{Diagnostic, MatchFault};
use autocompletion_engine_core::{AutocompletionEngine, Completions, SourceFile};

fn readable(path: &str, content: &str) -> SourceFile {
    SourceFile { path: path.to_string(), content: Some(content.to_string()) }
}

fn unreadable(path: &str) -> SourceFile {
    SourceFile { path: path.to_string(), content: None }
}

fn pair(name: &str, text: &str) -> (String, String) {
    (name.to_string(), text.to_string())
}

fn new_engine() -> AutocompletionEngine {
    AutocompletionEngine::new().expect("grammar")
}

fn named(list: &Completions, name: &str) -> usize {
    list.iter().filter(|(class_name, _)| class_name == name).count()
}

#[test]
fn new_engine_has_nothing_cached() {
    let mut engine = new_engine();
    assert_eq!(engine.cached_files(), 0);
    assert!(engine.take_diagnostics().is_empty());
    assert!(engine.get_all_completions_for_files(Vec::new()).is_empty());
    assert_eq!(engine.get_all_completions_as_string(Vec::new()), "[]");
}

#[test]
fn file_without_class_selectors_is_cached_and_gives_nothing() {
    let mut engine = new_engine();
    let list = engine
        .get_all_completions_for_files(vec![readable("plain.css", "body { margin: 0 }\n#id { top: 0 }")])
        .clone();
    assert!(list.is_empty());
    assert!(engine.is_cached(&"plain.css".to_string()));
    assert_eq!(engine.class_count(&"plain.css".to_string()), Some(0));
    assert!(engine.take_diagnostics().is_empty());
}

#[test]
fn two_classes_of_one_rule_each_get_the_rule() {
    let mut engine = new_engine();
    let list = engine.get_all_completions_for_files(vec![readable("ab.css", ".a,.b{color:red}")]);
    assert_eq!(list, &vec![pair("a", ".a,.b{color:red}"), pair("b", ".a,.b{color:red}")]);
}

#[test]
fn class_of_two_files_gets_two_entries() {
    let mut engine = new_engine();
    let list = engine.get_all_completions_for_files(vec![
        readable("x.css", "#x .wrapper{width:1px}"),
        readable("y.css", "#y .wrapper{height:2px}"),
    ]);
    assert_eq!(
        list,
        &vec![pair("wrapper", "#x .wrapper{width:1px}"), pair("wrapper", "#y .wrapper{height:2px}")]
    );
    assert_eq!(named(list, "wrapper"), 2);
}

#[test]
fn entries_of_two_files_are_kept_apart_even_when_equal() {
    let mut engine = new_engine();
    let list = engine
        .get_all_completions_for_files(vec![readable("x.css", ".foo{}"), readable("y.css", ".foo{}")]);
    assert_eq!(list, &vec![pair("foo", ".foo{}"), pair("foo", ".foo{}")]);
}

#[test]
fn rule_mentioning_a_class_twice_is_listed_once() {
    let mut engine = new_engine();
    let text = "a.x, b.x, .x .y { top: 0 }";
    let list = engine.get_all_completions_for_files(vec![readable("x.css", text)]);
    assert_eq!(list, &vec![pair("x", text), pair("y", text)]);
}

#[test]
fn missing_file_gives_nothing_and_is_not_cached() {
    let mut engine = new_engine();
    assert!(engine.get_all_completions_for_files(vec![unreadable("gone.css")]).is_empty());
    assert!(!engine.is_cached(&"gone.css".to_string()));
    assert_eq!(engine.class_count(&"gone.css".to_string()), None);
    let records = engine.take_diagnostics();
    assert_eq!(records.len(), 1);
    assert!(matches!(&records[0], Diagnostic::UnreadableFile { path } if path == "gone.css"));
    assert!(engine.take_diagnostics().is_empty());
}

#[test]
fn missing_file_does_not_harm_the_others() {
    let mut engine = new_engine();
    let list = engine.get_all_completions_for_files(vec![
        unreadable("gone.css"),
        readable("a.css", ".a{}"),
        unreadable("lost.css"),
    ]);
    assert_eq!(list, &vec![pair("a", ".a{}")]);
    assert_eq!(engine.cached_files(), 1);
    assert_eq!(engine.take_diagnostics().len(), 2);
}

#[test]
fn missing_file_is_tried_again_at_the_next_request() {
    let mut engine = new_engine();
    engine.get_all_completions_for_files(vec![unreadable("late.css")]);
    assert_eq!(engine.uncached_paths(&vec!["late.css".to_string()]), vec!["late.css".to_string()]);
    let list = engine.get_all_completions_for_files(vec![readable("late.css", ".late{}")]);
    assert_eq!(list, &vec![pair("late", ".late{}")]);
}

#[test]
fn request_put_twice_is_served_the_same() {
    let mut engine = new_engine();
    let sources = || vec![readable("a.css", ".a{}\n.b;\n"), unreadable("gone.css"), readable("b.css", ".b{}")];
    let first = engine.get_all_completions_for_files(sources()).clone();
    let first_text = engine.get_all_completions_as_string(sources());
    let second = engine.get_all_completions_for_files(sources()).clone();
    let second_text = engine.get_all_completions_as_string(sources());
    assert_eq!(first, vec![pair("a", ".a{}"), pair("b", ".b{}")]);
    assert_eq!(first, second);
    assert_eq!(first_text, second_text);
    assert_eq!(first_text, "[[\"a\",\".a{}\"],[\"b\",\".b{}\"]]");
}

#[test]
fn cached_file_is_not_extracted_again() {
    let mut engine = new_engine();
    engine.get_all_completions_for_files(vec![readable("a.css", ".old{}")]);
    let list = engine.get_all_completions_for_files(vec![readable("a.css", ".new{}")]);
    assert_eq!(list, &vec![pair("old", ".old{}")]);
}

#[test]
fn invalidated_file_is_extracted_anew() {
    let mut engine = new_engine();
    engine.get_all_completions_for_files(vec![readable("a.css", ".old{}"), readable("b.css", ".b{}")]);
    engine.invalidate_file_cache("a.css".to_string());
    assert_eq!(
        engine.uncached_paths(&vec!["a.css".to_string(), "b.css".to_string()]),
        vec!["a.css".to_string()]
    );
    let list = engine.get_all_completions_for_files(vec![readable("a.css", ".new{}")]);
    assert_eq!(list, &vec![pair("b", ".b{}"), pair("new", ".new{}")]);
}

#[test]
fn invalidated_file_leaves_the_list_at_the_next_request() {
    let mut engine = new_engine();
    engine.get_all_completions_for_files(vec![readable("a.css", ".a{}"), readable("b.css", ".b{}")]);
    engine.invalidate_file_cache("a.css".to_string());
    let list = engine.get_all_completions_for_files(vec![readable("b.css", ".b{}")]);
    assert_eq!(list, &vec![pair("b", ".b{}")]);
}

#[test]
fn invalidating_an_unknown_path_changes_nothing() {
    let mut engine = new_engine();
    engine.get_all_completions_for_files(vec![readable("a.css", ".a{}")]);
    engine.invalidate_file_cache("b.css".to_string());
    assert_eq!(engine.cached_files(), 1);
    assert_eq!(engine.get_all_completions_for_files(Vec::new()), &vec![pair("a", ".a{}")]);
}

#[test]
fn invalidate_cache_drops_every_file() {
    let mut engine = new_engine();
    engine.get_all_completions_for_files(vec![readable("a.css", ".a{}"), readable("b.css", ".b{}")]);
    engine.invalidate_cache();
    assert_eq!(engine.cached_files(), 0);
    assert!(engine.get_all_completions_for_files(Vec::new()).is_empty());
    let list = engine.get_all_completions_for_files(vec![readable("b.css", ".c{}")]);
    assert_eq!(list, &vec![pair("c", ".c{}")]);
}

#[test]
fn list_is_of_the_whole_cache_and_never_grows_by_repetition() {
    let mut engine = new_engine();
    engine.get_all_completions_for_files(vec![readable("a.css", ".a{}")]);
    let list = engine.get_all_completions_for_files(vec![readable("b.css", ".b{}")]).clone();
    assert_eq!(list, vec![pair("a", ".a{}"), pair("b", ".b{}")]);
    let again = engine
        .get_all_completions_for_files(vec![readable("a.css", ".a{}"), readable("c.css", ".c{}")])
        .clone();
    assert_eq!(again, vec![pair("a", ".a{}"), pair("b", ".b{}"), pair("c", ".c{}")]);
}

#[test]
fn stray_selector_is_skipped_with_a_record() {
    let mut engine = new_engine();
    let list = engine
        .get_all_completions_for_files(vec![readable(
            "m.css",
            "#peek2 .wrapper {\n  border: 1px solid red;\n}\n\n.stray;\n",
        )])
        .clone();
    assert_eq!(list, vec![pair("wrapper", "#peek2 .wrapper {\n  border: 1px solid red;\n}")]);
    let records = engine.take_diagnostics();
    assert_eq!(records.len(), 1);
    assert!(matches!(
        &records[0],
        Diagnostic::MalformedMatch { path, fault: MatchFault::NoEnclosingRule { selector: Some(s) } }
            if path == "m.css" && s == ".stray"
    ));
}

#[test]
fn paths_to_read_are_the_uncached_ones_each_once() {
    let mut engine = new_engine();
    engine.get_all_completions_for_files(vec![readable("a.css", ".a{}")]);
    let wanted = engine.uncached_paths(&vec![
        "c.css".to_string(),
        "a.css".to_string(),
        "b.css".to_string(),
        "c.css".to_string(),
        "b.css".to_string(),
    ]);
    assert_eq!(wanted, vec!["c.css".to_string(), "b.css".to_string()]);
    assert!(engine.uncached_paths(&Vec::new()).is_empty());
}

#[test]
fn text_form_keeps_the_order_of_the_list() {
    let mut engine = new_engine();
    let text = engine.get_all_completions_as_string(vec![
        readable("y.css", "#y .wrapper{height:2px}"),
        readable("x.css", "#x .wrapper{width:1px}"),
    ]);
    assert_eq!(
        text,
        "[[\"wrapper\",\"#x .wrapper{width:1px}\"],[\"wrapper\",\"#y .wrapper{height:2px}\"]]"
    );
}

#[test]
fn order_of_the_request_does_not_show_in_the_list() {
    let mut forward = new_engine();
    let mut backward = new_engine();
    let one = forward
        .get_all_completions_for_files(vec![
            readable("x.css", ".b{}\n.a{}"),
            unreadable("gone.css"),
            readable("y.css", ".a{top:0}"),
        ])
        .clone();
    let other = backward
        .get_all_completions_for_files(vec![
            readable("y.css", ".a{top:0}"),
            readable("x.css", ".b{}\n.a{}"),
            unreadable("gone.css"),
        ])
        .clone();
    assert_eq!(one, vec![pair("a", ".a{top:0}"), pair("a", ".a{}"), pair("b", ".b{}")]);
    assert_eq!(one, other);
}
