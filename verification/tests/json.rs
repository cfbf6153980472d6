use jsonref::json::find;
use jsonref::json::members_without;
use jsonref::json::set_member;
use jsonref::json::Json;
use jsonref::json::Number;
use jsonref::text::chars_of;
use jsonref::text::comes_before;
use jsonref::text::spells;
use jsonref::text::starts_with;

fn text(s: &str) -> Json {
    Json::String(s.to_string())
}

#[test]
fn members_are_held_in_the_order_of_their_names() {
    let mut object = Json::object();
    object.insert("title", text("t"));
    object.insert("__reference__", text("r"));
    object.insert("properties", text("p"));
    object.insert("Zed", text("z"));
    let names: Vec<&str> = match &object {
        Json::Object(members) => members.iter().map(|(name, _)| name.as_str()).collect(),
        _ => Vec::new(),
    };
    assert_eq!(names, vec!["Zed", "__reference__", "properties", "title"]);
}

#[test]
fn insert_replaces_the_member_of_the_same_name() {
    let mut object = Json::object();
    object.insert("a", text("first"));
    object.insert("b", text("other"));
    object.insert("a", text("second"));
    assert_eq!(
        object,
        Json::Object(vec![("a".to_string(), text("second")), ("b".to_string(), text("other"))])
    );
    let mut scalar = Json::Bool(true);
    scalar.insert("a", Json::Null);
    assert_eq!(scalar, Json::Bool(true));
}

#[test]
fn get_finds_the_member_of_a_name() {
    let mut object = Json::object();
    object.insert("a", text("first"));
    object.insert("b", Json::Number(Number::Real(0x3ff8_0000_0000_0000)));
    assert_eq!(object.get("a"), Some(&text("first")));
    assert_eq!(object.get("b"), Some(&Json::Number(Number::Real(0x3ff8_0000_0000_0000))));
    assert_eq!(object.get("c"), None);
    assert_eq!(Json::Array(vec![object.clone()]).get("a"), None);
    assert_eq!(text("a").get("a"), None);
}

#[test]
fn find_gives_the_first_position_of_a_name() {
    let members = vec![
        ("x".to_string(), Json::Null),
        ("y".to_string(), Json::Bool(false)),
        ("x".to_string(), Json::Bool(true)),
    ];
    assert_eq!(find(&members, "x"), Some(0));
    assert_eq!(find(&members, "y"), Some(1));
    assert_eq!(find(&members, "z"), None);
}

#[test]
fn members_without_leaves_out_every_member_of_the_name() {
    let members = vec![
        ("x".to_string(), Json::Null),
        ("y".to_string(), Json::Bool(false)),
        ("x".to_string(), Json::Bool(true)),
        ("z".to_string(), Json::Null),
    ];
    assert_eq!(
        members_without(&members, "x"),
        vec![("y".to_string(), Json::Bool(false)), ("z".to_string(), Json::Null)]
    );
    assert_eq!(members_without(&members, "w"), members);
}

#[test]
fn set_member_puts_a_new_name_in_its_place() {
    let mut members = vec![("b".to_string(), Json::Null), ("d".to_string(), Json::Null)];
    set_member(&mut members, "c".to_string(), Json::Bool(true));
    set_member(&mut members, "a".to_string(), Json::Bool(false));
    set_member(&mut members, "e".to_string(), text("last"));
    let names: Vec<&str> = members.iter().map(|(name, _)| name.as_str()).collect();
    assert_eq!(names, vec!["a", "b", "c", "d", "e"]);
    assert_eq!(members[2].1, Json::Bool(true));
}

#[test]
fn copy_is_equal_to_the_original() {
    let mut object = Json::object();
    object.insert("list", Json::Array(vec![Json::Null, text("x"), Json::Number(Number::NegInt(-7))]));
    object.insert("flag", Json::Bool(true));
    assert_eq!(object.copy(), object);
    assert_eq!(object.clone(), object);
}

#[test]
fn text_order_is_by_code_point() {
    assert!(comes_before("a", "b"));
    assert!(!comes_before("b", "a"));
    assert!(!comes_before("a", "a"));
    assert!(comes_before("", "a"));
    assert!(!comes_before("a", ""));
    assert!(comes_before("ab", "abc"));
    assert!(comes_before("Z", "a"));
    assert!(comes_before("z", "é"));
    assert!(comes_before("\u{ffff}", "\u{10000}"));
}

#[test]
fn text_helpers_read_characters() {
    assert_eq!(chars_of("a€b"), vec!['a', '€', 'b']);
    assert!(spells("a€b", &vec!['a', '€', 'b']));
    assert!(!spells("a€b", &vec!['a', '€']));
    assert!(!spells("a€", &vec!['a', '€', 'b']));
    assert!(!spells("abc", &vec!['a', 'x', 'c']));
    assert!(starts_with(&chars_of("http://x"), &chars_of("http:")));
    assert!(!starts_with(&chars_of("htt"), &chars_of("http:")));
    assert!(starts_with(&chars_of("abc"), &chars_of("")));
}

#[test]
fn built_documents_are_canonical() {
    let mut inner = Json::object();
    inner.insert("b", Json::Null);
    inner.insert("a", Json::Null);
    let mut object = Json::object();
    object.insert("z", Json::Array(vec![inner.clone(), text("x")]));
    object.insert("m", inner);
    assert!(Json::object().is_canonical());
    assert!(object.is_canonical());
    assert!(text("x").is_canonical());
}

#[test]
fn members_out_of_order_or_twice_are_not_canonical() {
    let unordered = Json::Object(vec![("b".to_string(), Json::Null), ("a".to_string(), Json::Null)]);
    let twice = Json::Object(vec![("a".to_string(), Json::Null), ("a".to_string(), Json::Null)]);
    let ordered = Json::Object(vec![("a".to_string(), Json::Null), ("b".to_string(), Json::Null)]);
    assert!(!unordered.is_canonical());
    assert!(!twice.is_canonical());
    assert!(ordered.is_canonical());
    assert!(!Json::Array(vec![ordered.clone(), unordered.clone()]).is_canonical());
    assert!(!Json::Object(vec![("k".to_string(), unordered)]).is_canonical());
    assert!(Json::Object(vec![("k".to_string(), ordered)]).is_canonical());
}
