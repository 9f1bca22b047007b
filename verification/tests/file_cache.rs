use autocompletion_engine_core::cache::FileCache;
use autocompletion_engine_core::extract::{FileClassMap, RuleSet};

fn map_with(names: &[&str]) -> FileClassMap {
    let mut map = FileClassMap::new();
    for (i, name) in names.iter().enumerate() {
        map.insert(name.to_string(), RuleSet { start: i, end: i + 1, text: format!("rule {}", i) });
    }
    map
}

fn paths(cache: &FileCache) -> Vec<String> {
    (0..cache.len()).map(|i| cache.file(i).path().clone()).collect()
}

#[test]
fn new_cache_is_empty() {
    let cache = FileCache::new();
    assert_eq!(cache.len(), 0);
    assert!(!cache.contains(&"a.css".to_string()));
    assert!(cache.get(&"a.css".to_string()).is_none());
}

#[test]
fn put_adds_a_file() {
    let mut cache = FileCache::new();
    cache.put("a.css".to_string(), map_with(&["x", "y"]));
    cache.put("b.css".to_string(), map_with(&["z"]));
    assert_eq!(paths(&cache), vec!["a.css".to_string(), "b.css".to_string()]);
    assert!(cache.contains(&"a.css".to_string()));
    assert_eq!(cache.get(&"a.css".to_string()).unwrap().len(), 2);
    assert_eq!(cache.get(&"b.css".to_string()).unwrap().len(), 1);
    assert_eq!(cache.file(1).class_map().class(0).name, "z");
}

#[test]
fn put_replaces_what_was_cached() {
    let mut cache = FileCache::new();
    cache.put("a.css".to_string(), map_with(&["x", "y"]));
    cache.put("b.css".to_string(), map_with(&["z"]));
    cache.put("a.css".to_string(), map_with(&["w"]));
    assert_eq!(cache.len(), 2);
    let map = cache.get(&"a.css".to_string()).unwrap();
    assert_eq!(map.len(), 1);
    assert_eq!(map.class(0).name, "w");
    assert_eq!(cache.get(&"b.css".to_string()).unwrap().len(), 1);
}

#[test]
fn invalidate_removes_one_file() {
    let mut cache = FileCache::new();
    cache.put("a.css".to_string(), map_with(&["x"]));
    cache.put("b.css".to_string(), map_with(&["y"]));
    cache.put("c.css".to_string(), map_with(&["z"]));
    assert!(cache.invalidate(&"b.css".to_string()));
    assert_eq!(paths(&cache), vec!["a.css".to_string(), "c.css".to_string()]);
    assert!(!cache.contains(&"b.css".to_string()));
    assert_eq!(cache.get(&"c.css".to_string()).unwrap().class(0).name, "z");
}

#[test]
fn invalidate_of_an_unknown_path_changes_nothing() {
    let mut cache = FileCache::new();
    cache.put("a.css".to_string(), map_with(&["x"]));
    assert!(!cache.invalidate(&"b.css".to_string()));
    assert!(!cache.invalidate(&"A.css".to_string()));
    assert_eq!(paths(&cache), vec!["a.css".to_string()]);
}

#[test]
fn invalidate_all_removes_every_file() {
    let mut cache = FileCache::new();
    cache.put("a.css".to_string(), map_with(&["x"]));
    cache.put("b.css".to_string(), map_with(&["y"]));
    cache.invalidate_all();
    assert_eq!(cache.len(), 0);
    assert!(!cache.contains(&"a.css".to_string()));
    cache.put("a.css".to_string(), map_with(&["x"]));
    assert_eq!(cache.len(), 1);
}
