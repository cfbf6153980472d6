use jsonref::cache::Cache;
use jsonref::json::Json;

#[test]
fn empty_cache_holds_nothing() {
    let cache = Cache::new();
    assert_eq!(cache.get("http://example.com/a.json"), None);
    assert!(!cache.contains("http://example.com/a.json"));
}

#[test]
fn cache_gives_back_what_was_put_in() {
    let mut cache = Cache::new();
    cache.insert("http://example.com/a.json".to_string(), Json::Bool(true));
    cache.insert("http://example.com/b.json".to_string(), Json::Null);
    assert_eq!(cache.get("http://example.com/a.json"), Some(&Json::Bool(true)));
    assert_eq!(cache.get("http://example.com/b.json"), Some(&Json::Null));
    assert!(cache.contains("http://example.com/b.json"));
    assert!(!cache.contains("http://example.com/c.json"));
}

#[test]
fn cache_insert_replaces_the_document_of_an_identifier() {
    let mut cache = Cache::new();
    cache.insert("a".to_string(), Json::Bool(true));
    cache.insert("b".to_string(), Json::Null);
    cache.insert("a".to_string(), Json::Bool(false));
    assert_eq!(cache.get("a"), Some(&Json::Bool(false)));
    assert_eq!(cache.get("b"), Some(&Json::Null));
}
