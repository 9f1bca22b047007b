use autocompletion_engine_core::aggregate::{append_file_entries, entry_for, rebuild};
use autocompletion_engine_core::cache::FileCache;
use autocompletion_engine_core::extract::{ClassRules, FileClassMap, RuleSet};

fn rule(start: usize, text: &str) -> RuleSet {
    RuleSet { start, end: start + text.len(), text: text.to_string() }
}

fn pair(name: &str, text: &str) -> (String, String) {
    (name.to_string(), text.to_string())
}

#[test]
fn entry_sorts_the_texts_and_joins_them_with_a_blank_line() {
    let class = ClassRules {
        name: "wrapper".to_string(),
        rules: vec![rule(40, "#peek2 .wrapper {}"), rule(0, "#peek .wrapper {}"), rule(80, ".wrapper {}")],
    };
    assert_eq!(
        entry_for(&class),
        pair("wrapper", "#peek .wrapper {}\n\n#peek2 .wrapper {}\n\n.wrapper {}")
    );
}

#[test]
fn entry_of_one_rule_set_is_its_text() {
    let class = ClassRules { name: "a".to_string(), rules: vec![rule(0, ".a{}")] };
    assert_eq!(entry_for(&class), pair("a", ".a{}"));
}

#[test]
fn entry_orders_texts_by_their_bytes() {
    let class = ClassRules {
        name: "a".to_string(),
        rules: vec![rule(0, "b"), rule(10, "\u{e9}"), rule(20, "B"), rule(30, "ab"), rule(40, "a")],
    };
    assert_eq!(entry_for(&class), pair("a", "B\n\na\n\nab\n\nb\n\n\u{e9}"));
}

#[test]
fn entry_shows_equal_texts_of_different_rule_sets_each_time() {
    let class = ClassRules { name: "a".to_string(), rules: vec![rule(0, ".a{}"), rule(9, ".a{}")] };
    assert_eq!(entry_for(&class), pair("a", ".a{}\n\n.a{}"));
}

#[test]
fn file_entries_come_after_what_was_there() {
    let mut map = FileClassMap::new();
    map.insert("z".to_string(), rule(0, ".z{}"));
    map.insert("a".to_string(), rule(5, ".a{}"));
    let mut entries = vec![pair("m", ".m{}")];
    append_file_entries(&map, &mut entries);
    assert_eq!(entries, vec![pair("m", ".m{}"), pair("z", ".z{}"), pair("a", ".a{}")]);
}

#[test]
fn rebuild_of_an_empty_cache_is_empty() {
    assert!(rebuild(&FileCache::new()).is_empty());
}

#[test]
fn rebuild_sorts_by_class_name_then_text() {
    let mut first = FileClassMap::new();
    first.insert("wrapper".to_string(), rule(0, "#y .wrapper{height:2px}"));
    first.insert("b".to_string(), rule(30, ".b{}"));
    let mut second = FileClassMap::new();
    second.insert("wrapper".to_string(), rule(0, "#x .wrapper{width:1px}"));
    second.insert("a".to_string(), rule(30, ".a{}"));
    let mut cache = FileCache::new();
    cache.put("one.css".to_string(), first);
    cache.put("two.css".to_string(), second);
    assert_eq!(
        rebuild(&cache),
        vec![
            pair("a", ".a{}"),
            pair("b", ".b{}"),
            pair("wrapper", "#x .wrapper{width:1px}"),
            pair("wrapper", "#y .wrapper{height:2px}"),
        ]
    );
}

#[test]
fn rebuild_keeps_equal_entries_of_two_files() {
    let mut first = FileClassMap::new();
    first.insert("a".to_string(), rule(0, ".a{}"));
    let mut second = FileClassMap::new();
    second.insert("a".to_string(), rule(0, ".a{}"));
    let mut cache = FileCache::new();
    cache.put("one.css".to_string(), first);
    cache.put("two.css".to_string(), second);
    assert_eq!(rebuild(&cache), vec![pair("a", ".a{}"), pair("a", ".a{}")]);
}

#[test]
fn rebuild_puts_a_shorter_name_before_the_one_it_starts() {
    let mut map = FileClassMap::new();
    map.insert("focused".to_string(), rule(0, ".focused{}"));
    map.insert("focus".to_string(), rule(20, ".focus{}"));
    map.insert("Focus".to_string(), rule(40, ".Focus{}"));
    let mut cache = FileCache::new();
    cache.put("one.css".to_string(), map);
    assert_eq!(
        rebuild(&cache),
        vec![pair("Focus", ".Focus{}"), pair("focus", ".focus{}"), pair("focused", ".focused{}")]
    );
}
