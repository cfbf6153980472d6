use jsonref::engine::JsonRef;
use jsonref::engine::DEFAULT_DEPTH_LIMIT;
use jsonref::error::Error;
use jsonref::error::ErrorKind;
use jsonref::json::Json;
use jsonref::json::Number;
use jsonref::location::Target;
use jsonref::outcome::Stop;
use jsonref::outcome::Transport;

fn text(s: &str) -> Json {
    Json::String(s.to_string())
}

fn object(members: Vec<(&str, Json)>) -> Json {
    let mut object = Json::object();
    for (name, value) in members {
        object.insert(name, value);
    }
    object
}

/// Resolves `value`, answering each request for a document from `store`,
/// and records the identifiers asked for.
fn resolve_with(
    engine: &mut JsonRef,
    value: &mut Json,
    store: &[(&str, Json)],
    asked: &mut Vec<String>,
) -> Result<(), Error> {
    loop {
        match engine.deref_value(value, "/work") {
            Ok(()) => return Ok(()),
            Err(Stop::Failed(error)) => return Err(error),
            Err(Stop::Load(request)) => {
                asked.push(request.identifier.clone());
                match store.iter().find(|(identifier, _)| *identifier == request.identifier) {
                    Some((_, document)) => engine.provide(&request.identifier, document.clone()),
                    None => return Err(request.failure()),
                }
            }
        }
    }
}

#[test]
fn json_no_refs() {
    let no_ref_example = object(vec![(
        "properties",
        object(vec![("prop1", object(vec![("title", text("proptitle"))]))]),
    )]);

    let mut jsonref = JsonRef::new();

    let mut input = no_ref_example.clone();

    jsonref.deref_value(&mut input, "/work").unwrap();

    assert_eq!(input, no_ref_example)
}

#[test]
fn json_with_recursion() {
    let mut simple_refs_example = object(vec![(
        "properties",
        object(vec![("prop1", object(vec![("$ref", text("#"))]))]),
    )]);

    let simple_refs_expected = object(vec![(
        "properties",
        object(vec![(
            "prop1",
            object(vec![("properties", object(vec![("prop1", object(vec![]))]))]),
        )]),
    )]);

    let mut jsonref = JsonRef::new();
    jsonref.deref_value(&mut simple_refs_example, "/work").unwrap();
    jsonref.set_reference_key("__reference__");

    println!("{:?}", simple_refs_example);

    assert_eq!(simple_refs_example, simple_refs_expected)
}

#[test]
fn simple_from_url() {
    let url = "https://gist.githubusercontent.com/kindly/35a631d33792413ed8e34548abaa9d61/raw/b43dc7a76cc2a04fde2a2087f0eb389099b952fb/test.json";
    let mut simple_refs_example = object(vec![(
        "properties",
        object(vec![
            ("prop1", object(vec![("title", text("name"))])),
            ("prop2", object(vec![("$ref", text(url)), ("title", text("old_title"))])),
        ]),
    )]);

    let simple_refs_expected = object(vec![(
        "properties",
        object(vec![
            ("prop1", object(vec![("title", text("name"))])),
            (
                "prop2",
                object(vec![
                    ("title", text("title from url")),
                    ("__reference__", object(vec![("title", text("old_title"))])),
                ]),
            ),
        ]),
    )]);

    let store = [(url, object(vec![("title", text("title from url"))]))];
    let mut asked = Vec::new();

    let mut jsonref = JsonRef::new();
    jsonref.set_reference_key("__reference__");
    resolve_with(&mut jsonref, &mut simple_refs_example, &store, &mut asked).unwrap();

    assert_eq!(simple_refs_example, simple_refs_expected);
    assert_eq!(asked, vec![url.to_string()]);
}

#[test]
fn nested_with_ref_from_url() {
    let url = "https://gist.githubusercontent.com/kindly/35a631d33792413ed8e34548abaa9d61/raw/0a691c035251f742e8710f71ba92ead307823385/test_nested.json";
    let mut simple_refs_example = object(vec![(
        "properties",
        object(vec![
            ("prop1", object(vec![("title", text("name"))])),
            ("prop2", object(vec![("$ref", text(url))])),
        ]),
    )]);

    let simple_refs_expected = object(vec![(
        "properties",
        object(vec![
            ("prop1", object(vec![("title", text("name"))])),
            (
                "prop2",
                object(vec![
                    ("__reference__", object(vec![])),
                    ("title", text("title from url")),
                    (
                        "properties",
                        object(vec![
                            ("prop1", object(vec![("title", text("sub property title in url"))])),
                            (
                                "prop2",
                                object(vec![
                                    ("__reference__", object(vec![])),
                                    ("title", text("sub property title in url")),
                                ]),
                            ),
                        ]),
                    ),
                ]),
            ),
        ]),
    )]);

    let remote = object(vec![
        ("title", text("title from url")),
        (
            "properties",
            object(vec![
                ("prop1", object(vec![("title", text("sub property title in url"))])),
                ("prop2", object(vec![("$ref", text("#/properties/prop1"))])),
            ]),
        ),
    ]);
    let store = [(url, remote)];
    let mut asked = Vec::new();

    let mut jsonref = JsonRef::new();
    jsonref.set_reference_key("__reference__");
    resolve_with(&mut jsonref, &mut simple_refs_example, &store, &mut asked).unwrap();

    assert_eq!(simple_refs_example, simple_refs_expected)
}

#[test]
fn reference_to_a_sibling_property_is_replaced_by_it() {
    let mut input = object(vec![(
        "properties",
        object(vec![
            ("prop1", object(vec![("title", text("name"))])),
            ("prop2", object(vec![("$ref", text("#/properties/prop1"))])),
        ]),
    )]);
    let expected = object(vec![(
        "properties",
        object(vec![
            ("prop1", object(vec![("title", text("name"))])),
            ("prop2", object(vec![("title", text("name"))])),
        ]),
    )]);
    let mut jsonref = JsonRef::new();
    jsonref.deref_value(&mut input, "/work").unwrap();
    assert_eq!(input, expected);
}

#[test]
fn reference_key_keeps_what_stood_beside_the_reference() {
    let mut input = object(vec![(
        "properties",
        object(vec![
            ("prop1", object(vec![("title", text("name"))])),
            (
                "prop2",
                object(vec![("$ref", text("#/properties/prop1")), ("title", text("old_title"))]),
            ),
        ]),
    )]);
    let expected = object(vec![(
        "properties",
        object(vec![
            ("prop1", object(vec![("title", text("name"))])),
            (
                "prop2",
                object(vec![
                    ("title", text("name")),
                    ("__reference__", object(vec![("title", text("old_title"))])),
                ]),
            ),
        ]),
    )]);
    let mut jsonref = JsonRef::new();
    jsonref.set_reference_key("__reference__");
    jsonref.deref_value(&mut input, "/work").unwrap();
    assert_eq!(input, expected);
}

#[test]
fn without_a_reference_key_what_stood_beside_is_dropped() {
    let mut input = object(vec![
        ("a", object(vec![("title", text("name"))])),
        ("b", object(vec![("$ref", text("#/a")), ("title", text("old_title"))])),
    ]);
    let expected = object(vec![
        ("a", object(vec![("title", text("name"))])),
        ("b", object(vec![("title", text("name"))])),
    ]);
    let mut jsonref = JsonRef::new();
    jsonref.deref_value(&mut input, "/work").unwrap();
    assert_eq!(input, expected);
}

#[test]
fn missing_fragment_is_pointer_not_found() {
    let mut input = object(vec![(
        "properties",
        object(vec![
            ("prop1", object(vec![("title", text("name"))])),
            ("prop2", object(vec![("$ref", text("#/properties/nowhere"))])),
        ]),
    )]);
    let before = input.clone();
    let mut jsonref = JsonRef::new();
    match jsonref.deref_value(&mut input, "/work") {
        Err(Stop::Failed(error)) => {
            assert_eq!(error.kind, ErrorKind::PointerNotFound);
            assert_eq!(error.reference, "#/properties/nowhere");
            assert_eq!(error.base, "file:///work/anon.json");
        }
        other => panic!("unexpected outcome: {:?}", other),
    }
    assert_eq!(input, before);
}

#[test]
fn self_reference_at_the_root_is_unrolled_once() {
    let mut input = object(vec![("$ref", text("#"))]);
    let mut jsonref = JsonRef::new();
    jsonref.deref_value(&mut input, "/work").unwrap();
    assert_eq!(input, object(vec![]));

    let mut input = object(vec![("$ref", text("#")), ("title", text("t"))]);
    let mut jsonref = JsonRef::new();
    jsonref.set_reference_key("was");
    jsonref.deref_value(&mut input, "/work").unwrap();
    let beside = object(vec![("title", text("t"))]);
    assert_eq!(input, object(vec![("title", text("t")), ("was", beside)]));
}

#[test]
fn distinct_fragments_of_one_document_do_not_stop_each_other() {
    let mut input = object(vec![
        ("a", object(vec![("$ref", text("#/b"))])),
        ("b", object(vec![("$ref", text("#/c"))])),
        ("c", object(vec![("title", text("end"))])),
    ]);
    let end = object(vec![("title", text("end"))]);
    let expected = object(vec![("a", end.clone()), ("b", end.clone()), ("c", end)]);
    let mut jsonref = JsonRef::new();
    jsonref.deref_value(&mut input, "/work").unwrap();
    assert_eq!(input, expected);
}

#[test]
fn reference_on_the_trail_is_left_as_its_siblings() {
    let jsonref = JsonRef::new();
    let node = object(vec![("$ref", text("#")), ("title", text("t"))]);
    let mut engine = jsonref;
    engine.provide("file:///work/anon.json", node.clone());
    let trail = vec!["file:///work/anon.json#".to_string()];
    let outcome = engine.deref(&node, "file:///work/anon.json", &trail, 4).unwrap();
    assert_eq!(outcome, object(vec![("title", text("t"))]));
}

#[test]
fn reference_that_is_no_string_is_removed() {
    let mut input = object(vec![
        ("a", object(vec![("$ref", Json::Number(Number::PosInt(3))), ("title", text("t"))])),
        ("b", object(vec![("$ref", Json::Null)])),
    ]);
    let expected =
        object(vec![("a", object(vec![("title", text("t"))])), ("b", object(vec![]))]);
    let mut jsonref = JsonRef::new();
    jsonref.deref_value(&mut input, "/work").unwrap();
    assert_eq!(input, expected);
}

#[test]
fn references_inside_arrays_are_resolved() {
    let mut input = object(vec![
        ("defs", object(vec![("x", Json::Bool(true))])),
        (
            "items",
            Json::Array(vec![
                object(vec![("$ref", text("#/defs/x"))]),
                Json::Array(vec![object(vec![("$ref", text("#/defs"))])]),
                Json::Number(Number::NegInt(-1)),
            ]),
        ),
    ]);
    let expected = object(vec![
        ("defs", object(vec![("x", Json::Bool(true))])),
        (
            "items",
            Json::Array(vec![
                Json::Bool(true),
                Json::Array(vec![object(vec![("x", Json::Bool(true))])]),
                Json::Number(Number::NegInt(-1)),
            ]),
        ),
    ]);
    let mut jsonref = JsonRef::new();
    jsonref.deref_value(&mut input, "/work").unwrap();
    assert_eq!(input, expected);
}

#[test]
fn reference_through_an_array_index() {
    let mut input = object(vec![
        ("list", Json::Array(vec![text("zero"), text("one")])),
        ("pick", object(vec![("$ref", text("#/list/1"))])),
    ]);
    let mut jsonref = JsonRef::new();
    jsonref.deref_value(&mut input, "/work").unwrap();
    assert_eq!(input.get("pick"), Some(&text("one")));
}

#[test]
fn own_identifier_is_the_base_of_references_below_it() {
    let mut input = object(vec![(
        "nested",
        object(vec![
            ("$id", text("http://example.com/schemas/sub.json")),
            ("inner", object(vec![("$ref", text("other.json#/title"))])),
        ]),
    )]);
    let store = [("http://example.com/schemas/other.json", object(vec![("title", text("far"))]))];
    let mut asked = Vec::new();
    let mut jsonref = JsonRef::new();
    resolve_with(&mut jsonref, &mut input, &store, &mut asked).unwrap();
    assert_eq!(asked, vec!["http://example.com/schemas/other.json".to_string()]);
    assert_eq!(input.get("nested").unwrap().get("inner"), Some(&text("far")));
}

#[test]
fn relative_own_identifier_is_no_base() {
    let mut input = object(vec![(
        "nested",
        object(vec![
            ("$id", text("sub.json")),
            ("inner", object(vec![("$ref", text("other.json"))])),
        ]),
    )]);
    let mut jsonref = JsonRef::new();
    match jsonref.deref_value(&mut input, "/work") {
        Err(Stop::Failed(error)) => {
            assert_eq!(error.kind, ErrorKind::InvalidBaseUri);
            assert_eq!(error.base, "sub.json");
            assert_eq!(error.reference, "other.json");
        }
        other => panic!("unexpected outcome: {:?}", other),
    }
}

#[test]
fn node_with_identifier_and_reference_resolves_against_its_identifier() {
    let mut input = object(vec![(
        "nested",
        object(vec![("$id", text("http://example.com/a/b.json")), ("$ref", text("c.json"))]),
    )]);
    let mut jsonref = JsonRef::new();
    match jsonref.deref_value(&mut input, "/work") {
        Err(Stop::Load(request)) => {
            assert_eq!(request.transport, Transport::Http);
            assert_eq!(request.identifier, "http://example.com/a/c.json");
            assert_eq!(request.path, None);
            assert_eq!(request.base, "http://example.com/a/b.json");
            assert_eq!(request.reference, "c.json");
        }
        other => panic!("unexpected outcome: {:?}", other),
    }
}

#[test]
fn unjoinable_reference_is_invalid() {
    let mut input = object(vec![("a", object(vec![("$ref", text("http://[::1"))]))]);
    let mut jsonref = JsonRef::new();
    match jsonref.deref_value(&mut input, "/work") {
        Err(Stop::Failed(error)) => {
            assert_eq!(error.kind, ErrorKind::InvalidReference);
            assert_eq!(error.reference, "http://[::1");
        }
        other => panic!("unexpected outcome: {:?}", other),
    }
}

#[test]
fn document_of_another_scheme_is_unsupported() {
    let mut input = object(vec![("a", object(vec![("$ref", text("ftp://example.com/x.json"))]))]);
    let mut jsonref = JsonRef::new();
    match jsonref.deref_value(&mut input, "/work") {
        Err(Stop::Failed(error)) => {
            assert_eq!(error.kind, ErrorKind::UnsupportedScheme);
            assert_eq!(error.reference, "ftp://example.com/x.json");
            assert_eq!(error.base, "file:///work/anon.json");
        }
        other => panic!("unexpected outcome: {:?}", other),
    }
}

#[test]
fn relative_reference_asks_for_a_file_beside_the_document() {
    let mut input = object(vec![("a", object(vec![("$ref", text("defs/other file.json#/x"))]))]);
    let mut jsonref = JsonRef::new();
    match jsonref.deref_value(&mut input, "/work") {
        Err(Stop::Load(request)) => {
            assert_eq!(request.transport, Transport::File);
            assert_eq!(request.identifier, "file:///work/defs/other%20file.json");
            assert_eq!(request.path, Some("/work/defs/other%20file.json".to_string()));
            let failure = request.failure();
            assert_eq!(failure.kind, ErrorKind::FileError);
            assert_eq!(failure.reference, "defs/other file.json#/x");
            assert_eq!(failure.base, "file:///work/anon.json");
        }
        other => panic!("unexpected outcome: {:?}", other),
    }
}

#[test]
fn failed_fetch_is_a_fetch_error() {
    let mut input = object(vec![("a", object(vec![("$ref", text("https://example.com/x.json"))]))]);
    let mut jsonref = JsonRef::new();
    let mut asked = Vec::new();
    let error = resolve_with(&mut jsonref, &mut input, &[], &mut asked).unwrap_err();
    assert_eq!(error.kind, ErrorKind::FetchError);
    assert_eq!(error.reference, "https://example.com/x.json");
}

#[test]
fn document_referenced_twice_is_fetched_once() {
    let url = "https://example.com/defs.json";
    let mut input = object(vec![
        ("a", object(vec![("$ref", text("https://example.com/defs.json#/x"))])),
        ("b", object(vec![("$ref", text("https://example.com/defs.json#/y"))])),
        ("c", object(vec![("$ref", text("https://example.com/defs.json"))])),
    ]);
    let remote = object(vec![("x", text("ex")), ("y", text("why"))]);
    let store = [(url, remote.clone())];
    let mut asked = Vec::new();
    let mut jsonref = JsonRef::new();
    resolve_with(&mut jsonref, &mut input, &store, &mut asked).unwrap();
    assert_eq!(asked, vec![url.to_string()]);
    assert_eq!(input, object(vec![("a", text("ex")), ("b", text("why")), ("c", remote)]));

    let mut again = object(vec![("d", object(vec![("$ref", text(url))]))]);
    resolve_with(&mut jsonref, &mut again, &store, &mut asked).unwrap();
    assert_eq!(asked.len(), 1);
}

#[test]
fn references_in_a_fetched_document_are_relative_to_it() {
    let mut input = object(vec![("a", object(vec![("$ref", text("http://example.com/s/one.json"))]))]);
    let one = object(vec![("next", object(vec![("$ref", text("two.json#/v"))]))]);
    let two = object(vec![("v", text("deep"))]);
    let store = [("http://example.com/s/one.json", one), ("http://example.com/s/two.json", two)];
    let mut asked = Vec::new();
    let mut jsonref = JsonRef::new();
    resolve_with(&mut jsonref, &mut input, &store, &mut asked).unwrap();
    assert_eq!(
        asked,
        vec!["http://example.com/s/one.json".to_string(), "http://example.com/s/two.json".to_string()]
    );
    assert_eq!(input, object(vec![("a", object(vec![("next", text("deep"))]))]));
}

#[test]
fn nesting_beyond_the_limit_is_refused() {
    let chain = object(vec![
        ("a", object(vec![("$ref", text("#/b"))])),
        ("b", object(vec![("$ref", text("#/c"))])),
        ("c", object(vec![("title", text("end"))])),
    ]);
    let mut jsonref = JsonRef::new();
    jsonref.set_depth_limit(1);
    let mut input = chain.clone();
    match jsonref.deref_value(&mut input, "/work") {
        Err(Stop::Failed(error)) => {
            assert_eq!(error.kind, ErrorKind::DepthExceeded);
            assert_eq!(error.reference, "#/c");
        }
        other => panic!("unexpected outcome: {:?}", other),
    }
    assert_eq!(input, chain);
    jsonref.set_depth_limit(2);
    assert_eq!(jsonref.deref_value(&mut input, "/work"), Ok(()));
}

#[test]
fn endless_unrolling_ends_at_the_limit() {
    let mut input = object(vec![
        ("$ref", text("#/a")),
        ("a", object(vec![("b", object(vec![("$ref", text("#"))]))])),
    ]);
    let mut jsonref = JsonRef::new();
    jsonref.set_depth_limit(64);
    match jsonref.deref_value(&mut input, "/work") {
        Err(Stop::Failed(error)) => assert_eq!(error.kind, ErrorKind::DepthExceeded),
        other => panic!("unexpected outcome: {:?}", other),
    }
}

#[test]
fn new_engine_sets_no_limit_of_its_own() {
    assert_eq!(DEFAULT_DEPTH_LIMIT, usize::MAX);
    let mut members = vec![("n0", text("end"))];
    let names: Vec<String> = (1..=80).map(|i| format!("n{}", i)).collect();
    let references: Vec<String> = (0..80).map(|i| format!("#/n{}", i)).collect();
    for i in 0..80 {
        members.push((names[i].as_str(), object(vec![("$ref", text(&references[i]))])));
    }
    let mut input = object(members);
    let mut jsonref = JsonRef::new();
    jsonref.deref_value(&mut input, "/work").unwrap();
    assert_eq!(input.get("n80"), Some(&text("end")));
    assert_eq!(input.get("n1"), Some(&text("end")));
}

#[test]
fn depth_that_is_enough_gives_what_more_depth_gives() {
    let document = object(vec![
        ("a", object(vec![("$ref", text("#/b"))])),
        ("b", object(vec![("$ref", text("#/c"))])),
        ("c", object(vec![("title", text("end"))])),
    ]);
    let mut outcomes = Vec::new();
    for limit in [2usize, 3, 10, usize::MAX] {
        let mut jsonref = JsonRef::new();
        jsonref.set_depth_limit(limit);
        let mut input = document.clone();
        jsonref.deref_value(&mut input, "/work").unwrap();
        outcomes.push(input);
    }
    assert!(outcomes.iter().all(|outcome| *outcome == outcomes[0]));
}

#[test]
fn root_from_a_url_without_a_path_is_found_by_its_own_references() {
    let document = object(vec![
        ("a", object(vec![("title", text("t"))])),
        ("b", object(vec![("$ref", text("#/a"))])),
    ]);
    let expected = object(vec![
        ("a", object(vec![("title", text("t"))])),
        ("b", object(vec![("title", text("t"))])),
    ]);
    let mut jsonref = JsonRef::new();
    assert_eq!(jsonref.deref_url("http://h.example", &document), Ok(expected.clone()));

    let mut with_fragment = JsonRef::new();
    assert_eq!(
        with_fragment.deref_url("http://h.example/s.json#/somewhere", &document),
        Ok(expected.clone())
    );
    let mut again = object(vec![("c", object(vec![("$ref", text("http://h.example/s.json#/a"))]))]);
    with_fragment.deref_value(&mut again, "/work").unwrap();
    assert_eq!(again, object(vec![("c", object(vec![("title", text("t"))]))]));
}

#[test]
fn root_in_a_directory_with_escaped_characters_is_found_by_its_own_references() {
    let document = object(vec![
        ("a", object(vec![("title", text("t"))])),
        ("b", object(vec![("$ref", text("#/a"))])),
    ]);
    let expected = object(vec![
        ("a", object(vec![("title", text("t"))])),
        ("b", object(vec![("title", text("t"))])),
    ]);
    let mut input = document.clone();
    let mut jsonref = JsonRef::new();
    assert_eq!(jsonref.deref_value(&mut input, "/my dir/caf\u{e9}"), Ok(()));
    assert_eq!(input, expected);

    let mut from_file = JsonRef::new();
    assert_eq!(from_file.deref_file("/my dir/caf\u{e9}/base.json", &document), Ok(expected));
    let side = object(vec![("x", object(vec![("$ref", text("side.json"))]))]);
    match from_file.deref_file("/my dir/caf\u{e9}/base.json", &side) {
        Err(Stop::Load(request)) => {
            assert_eq!(request.identifier, "file:///my%20dir/caf%C3%A9/side.json");
            assert_eq!(request.base, "file:///my%20dir/caf%C3%A9/base.json");
        }
        other => panic!("unexpected outcome: {:?}", other),
    }
}

#[test]
fn root_identifier_that_is_no_absolute_uri_is_refused() {
    let document = object(vec![("a", text("t"))]);
    let mut jsonref = JsonRef::new();
    match jsonref.deref_url("not a url", &document) {
        Err(Stop::Failed(error)) => {
            assert_eq!(error.kind, ErrorKind::InvalidBaseUri);
            assert_eq!(error.base, "not a url");
            assert_eq!(error.reference, "");
        }
        other => panic!("unexpected outcome: {:?}", other),
    }
    let mut input = object(vec![("r", object(vec![("$ref", text("not a url"))]))]);
    match jsonref.deref_value(&mut input, "/work") {
        Err(Stop::Load(request)) => assert_eq!(request.identifier, "file:///work/not%20a%20url"),
        other => panic!("unexpected outcome: {:?}", other),
    }
}

#[test]
fn value_at_a_place_is_found_in_the_cached_document() {
    let mut jsonref = JsonRef::new();
    jsonref.provide("http://example.com/d.json", object(vec![("k", text("v"))]));
    let place = Target {
        full: "http://example.com/d.json#/k".to_string(),
        document: "http://example.com/d.json".to_string(),
        fragment: Some("/k".to_string()),
    };
    assert_eq!(jsonref.value_at(&place, "base", "ref"), Ok(&text("v")));
    let whole = Target { full: place.document.clone(), document: place.document.clone(), fragment: None };
    assert_eq!(jsonref.value_at(&whole, "base", "ref"), Ok(&object(vec![("k", text("v"))])));
    let nowhere = Target { fragment: Some("/zz".to_string()), ..whole };
    match jsonref.value_at(&nowhere, "base", "ref") {
        Err(Stop::Failed(error)) => {
            assert_eq!(error.kind, ErrorKind::PointerNotFound);
            assert_eq!(error.base, "base");
            assert_eq!(error.reference, "ref");
        }
        other => panic!("unexpected outcome: {:?}", other),
    }
    let missing = Target {
        full: "https://example.com/e.json".to_string(),
        document: "https://example.com/e.json".to_string(),
        fragment: None,
    };
    match jsonref.value_at(&missing, "base", "ref") {
        Err(Stop::Load(request)) => {
            assert_eq!(request.transport, Transport::Http);
            assert_eq!(request.identifier, "https://example.com/e.json");
        }
        other => panic!("unexpected outcome: {:?}", other),
    }
}

#[test]
fn resolved_output_holds_no_reference() {
    fn holds_reference(node: &Json) -> bool {
        match node {
            Json::Object(members) => {
                members.iter().any(|(name, value)| name == "$ref" || holds_reference(value))
            }
            Json::Array(items) => items.iter().any(holds_reference),
            _ => false,
        }
    }
    let mut input = object(vec![
        ("a", object(vec![("$ref", text("#")), ("x", object(vec![("$ref", text("#/c"))]))])),
        ("c", object(vec![("deep", Json::Array(vec![object(vec![("$ref", text("#/d"))])]))])),
        ("d", text("leaf")),
    ]);
    assert!(holds_reference(&input));
    let mut jsonref = JsonRef::new();
    jsonref.set_reference_key("was");
    jsonref.deref_value(&mut input, "/work").unwrap();
    assert!(!holds_reference(&input));
}

#[test]
fn document_from_a_url_is_resolved_against_the_url() {
    let url = "http://example.com/root/base.json";
    let document = object(vec![
        ("local", object(vec![("$ref", text("#/value"))])),
        ("value", text("v")),
        ("other", object(vec![("$ref", text("side.json"))])),
    ]);
    let mut jsonref = JsonRef::new();
    match jsonref.deref_url(url, &document) {
        Err(Stop::Load(request)) => {
            assert_eq!(request.identifier, "http://example.com/root/side.json");
            jsonref.provide(&request.identifier, text("side"));
        }
        other => panic!("unexpected outcome: {:?}", other),
    }
    let resolved = jsonref.deref_url(url, &document).unwrap();
    assert_eq!(
        resolved,
        object(vec![("local", text("v")), ("value", text("v")), ("other", text("side"))])
    );
}

#[test]
fn document_from_a_file_is_resolved_against_its_path() {
    let document = object(vec![("other", object(vec![("$ref", text("nested/side.json#/k"))]))]);
    let mut jsonref = JsonRef::new();
    jsonref.set_reference_key("__reference__");
    match jsonref.deref_file("/data/schemas/base.json", &document) {
        Err(Stop::Load(request)) => {
            assert_eq!(request.transport, Transport::File);
            assert_eq!(request.identifier, "file:///data/schemas/nested/side.json");
            assert_eq!(request.path, Some("/data/schemas/nested/side.json".to_string()));
            jsonref.provide(&request.identifier, object(vec![("k", object(vec![("t", text("x"))]))]));
        }
        other => panic!("unexpected outcome: {:?}", other),
    }
    let resolved = jsonref.deref_file("/data/schemas/base.json", &document).unwrap();
    let expected = object(vec![(
        "other",
        object(vec![("t", text("x")), ("__reference__", object(vec![]))]),
    )]);
    assert_eq!(resolved, expected);
}

#[test]
fn provided_document_is_not_replaced() {
    let mut jsonref = JsonRef::new();
    jsonref.provide("http://example.com/d.json", text("first"));
    jsonref.provide("http://example.com/d.json", text("second"));
    let mut input = object(vec![("a", object(vec![("$ref", text("http://example.com/d.json"))]))]);
    jsonref.deref_value(&mut input, "/work").unwrap();
    assert_eq!(input, object(vec![("a", text("first"))]));
}

#[test]
fn engines_do_not_share_their_caches() {
    let mut first = JsonRef::new();
    first.provide("http://example.com/d.json", text("cached"));
    let mut second = JsonRef::new();
    let mut input = object(vec![("a", object(vec![("$ref", text("http://example.com/d.json"))]))]);
    match second.deref_value(&mut input, "/work") {
        Err(Stop::Load(request)) => assert_eq!(request.identifier, "http://example.com/d.json"),
        other => panic!("unexpected outcome: {:?}", other),
    }
}

#[test]
fn target_that_is_no_object_keeps_nothing() {
    let mut input = object(vec![
        ("a", object(vec![("$ref", text("#/b")), ("title", text("old"))])),
        ("b", Json::Array(vec![text("x")])),
        ("c", object(vec![("$ref", text("#/d")), ("title", text("old"))])),
        ("d", text("scalar")),
    ]);
    let mut jsonref = JsonRef::new();
    jsonref.set_reference_key("__reference__");
    jsonref.deref_value(&mut input, "/work").unwrap();
    assert_eq!(input.get("a"), Some(&Json::Array(vec![text("x")])));
    assert_eq!(input.get("c"), Some(&text("scalar")));
}

#[test]
fn kept_siblings_replace_a_member_of_the_same_name() {
    let mut input = object(vec![
        ("a", object(vec![("$ref", text("#/b")), ("title", text("old"))])),
        ("b", object(vec![("was", text("in the target")), ("title", text("new"))])),
    ]);
    let mut jsonref = JsonRef::new();
    jsonref.set_reference_key("was");
    jsonref.deref_value(&mut input, "/work").unwrap();
    let expected = object(vec![("title", text("new")), ("was", object(vec![("title", text("old"))]))]);
    assert_eq!(input.get("a"), Some(&expected));
}

#[test]
fn references_beside_a_reference_are_resolved_where_they_are_kept() {
    let mut input = object(vec![
        ("a", object(vec![("$ref", text("#/b")), ("extra", object(vec![("$ref", text("#/c"))]))])),
        ("b", object(vec![("title", text("bee"))])),
        ("c", text("sea")),
    ]);
    let mut jsonref = JsonRef::new();
    jsonref.set_reference_key("was");
    jsonref.deref_value(&mut input, "/work").unwrap();
    let expected =
        object(vec![("title", text("bee")), ("was", object(vec![("extra", text("sea"))]))]);
    assert_eq!(input.get("a"), Some(&expected));
}

#[test]
fn reference_key_that_is_the_reference_name_leaves_that_name() {
    let mut input = object(vec![("a", object(vec![("$ref", text("#/b"))])), ("b", object(vec![]))]);
    let mut jsonref = JsonRef::new();
    jsonref.set_reference_key("$ref");
    jsonref.deref_value(&mut input, "/work").unwrap();
    assert_eq!(input.get("a"), Some(&object(vec![("$ref", object(vec![]))])));
}

#[test]
fn identifier_that_is_no_string_changes_nothing() {
    let mut input = object(vec![
        ("$id", Json::Number(Number::PosInt(7))),
        ("a", object(vec![("$ref", text("#/b"))])),
        ("b", text("bee")),
    ]);
    let mut jsonref = JsonRef::new();
    jsonref.deref_value(&mut input, "/work").unwrap();
    assert_eq!(input.get("a"), Some(&text("bee")));
}

#[test]
fn root_identifier_is_the_base_of_the_whole_document() {
    let mut input = object(vec![
        ("$id", text("http://example.com/root.json")),
        ("a", object(vec![("$ref", text("#/b"))])),
        ("b", text("bee")),
    ]);
    let mut jsonref = JsonRef::new();
    match jsonref.deref_value(&mut input, "/work") {
        Err(Stop::Load(request)) => {
            assert_eq!(request.identifier, "http://example.com/root.json");
            assert_eq!(request.base, "http://example.com/root.json");
            assert_eq!(request.reference, "#/b");
        }
        other => panic!("unexpected outcome: {:?}", other),
    }
}

#[test]
fn resolution_of_canonical_documents_is_canonical() {
    let mut input = object(vec![
        ("zeta", object(vec![("$ref", text("#/alpha")), ("note", text("n"))])),
        ("alpha", object(vec![("title", text("t")), ("kind", text("k"))])),
    ]);
    assert!(input.is_canonical());
    let mut jsonref = JsonRef::new();
    jsonref.set_reference_key("__reference__");
    jsonref.deref_value(&mut input, "/work").unwrap();
    assert!(input.is_canonical());
    let names: Vec<&str> = match input.get("zeta") {
        Some(Json::Object(members)) => members.iter().map(|(name, _)| name.as_str()).collect(),
        _ => Vec::new(),
    };
    assert_eq!(names, vec!["__reference__", "kind", "title"]);
}
