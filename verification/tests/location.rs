use jsonref::error::ErrorKind;
use jsonref::location::document_identifier;
use jsonref::location::file_path;
use jsonref::location::resolve_reference;
use jsonref::location::transport_for;
use jsonref::outcome::Transport;

#[test]
fn fragment_only_reference_keeps_the_document() {
    let target = resolve_reference("file:///tmp/anon.json", "#/properties/prop1").unwrap();
    assert_eq!(target.full, "file:///tmp/anon.json#/properties/prop1");
    assert_eq!(target.document, "file:///tmp/anon.json");
    assert_eq!(target.fragment, Some("/properties/prop1".to_string()));
}

#[test]
fn empty_fragment_is_a_fragment() {
    let target = resolve_reference("file:///tmp/anon.json", "#").unwrap();
    assert_eq!(target.full, "file:///tmp/anon.json#");
    assert_eq!(target.document, "file:///tmp/anon.json");
    assert_eq!(target.fragment, Some(String::new()));
}

#[test]
fn relative_reference_replaces_the_last_segment() {
    let target = resolve_reference("https://example.net/a/b.json", "c.json#/x").unwrap();
    assert_eq!(target.full, "https://example.net/a/c.json#/x");
    assert_eq!(target.document, "https://example.net/a/c.json");
    assert_eq!(target.fragment, Some("/x".to_string()));
}

#[test]
fn absolute_reference_replaces_the_base() {
    let target = resolve_reference("https://alice.com/a", "http://eve.com/b").unwrap();
    assert_eq!(target.full, "http://eve.com/b");
    assert_eq!(target.document, "http://eve.com/b");
    assert_eq!(target.fragment, None);
}

#[test]
fn rooted_and_scheme_relative_references_keep_the_scheme() {
    let rooted = resolve_reference("https://alice.com/a/b", "/v1/meta").unwrap();
    assert_eq!(rooted.full, "https://alice.com/v1/meta");
    let other_host = resolve_reference("https://alice.com/a", "//eve.com/b").unwrap();
    assert_eq!(other_host.full, "https://eve.com/b");
}

#[test]
fn reference_drops_the_fragment_of_the_base() {
    let target = resolve_reference("http://example.com/a.json#/old", "b.json").unwrap();
    assert_eq!(target.full, "http://example.com/b.json");
    assert_eq!(target.fragment, None);
}

#[test]
fn base_without_a_scheme_is_invalid() {
    assert_eq!(resolve_reference("sub.json", "#/a"), Err(ErrorKind::InvalidBaseUri));
    assert_eq!(resolve_reference("", "http://example.com/"), Err(ErrorKind::InvalidBaseUri));
}

#[test]
fn reference_that_cannot_be_joined_is_invalid() {
    assert_eq!(
        resolve_reference("http://example.com/a.json", "http://[::1"),
        Err(ErrorKind::InvalidReference)
    );
    assert_eq!(resolve_reference("mailto:a@example.com", "b.json"), Err(ErrorKind::InvalidReference));
}

#[test]
fn transport_goes_by_the_scheme() {
    assert_eq!(transport_for("http://example.com/a.json"), Some(Transport::Http));
    assert_eq!(transport_for("https://example.com/a.json"), Some(Transport::Http));
    assert_eq!(transport_for("file:///tmp/a.json"), Some(Transport::File));
    assert_eq!(transport_for("ftp://example.com/a.json"), None);
    assert_eq!(transport_for("httpx://example.com/a.json"), None);
    assert_eq!(transport_for("files:///tmp/a.json"), None);
    assert_eq!(transport_for("http"), None);
    assert_eq!(transport_for(""), None);
}

#[test]
fn file_path_is_the_path_of_the_identifier() {
    assert_eq!(file_path("file:///tmp/a%20b.json"), Some("/tmp/a%20b.json".to_string()));
    assert_eq!(file_path("https://example.com/api/versions?page=2"), Some("/api/versions".to_string()));
    assert_eq!(file_path("not a url"), None);
}

#[test]
fn document_identifier_is_the_text_as_the_resolver_writes_it() {
    assert_eq!(document_identifier("http://h.example"), Some("http://h.example/".to_string()));
    assert_eq!(
        document_identifier("HTTP://H.example/a/../b.json#/x"),
        Some("http://h.example/b.json".to_string())
    );
    assert_eq!(
        document_identifier("file:///my dir/anon.json"),
        Some("file:///my%20dir/anon.json".to_string())
    );
    assert_eq!(document_identifier("sub.json"), None);
}
