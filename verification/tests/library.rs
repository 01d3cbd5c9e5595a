use httpcliparser::body::{apply_body_component, set_path_value, BodyComponent};
use httpcliparser::error::MismatchKind;
use httpcliparser::json::value_type_name;
use httpcliparser::part::{
    is_header_name_char, is_query_name_char, is_valid_header_name, is_valid_query_name,
    json_assignment_from, parse_part, ParsedPart,
};
use httpcliparser::path::{is_plain_object_key_char, parse_access_path, PathSegment};
use httpcliparser::text::{chars_of, split_once_exec, substring};
use httpcliparser::{parse_input, try_parse_input, JsonValue, ParseInputError, ParsedHeader, ParsedQueryParam};

fn text(s: &str) -> JsonValue {
    JsonValue::String(s.to_string())
}

fn member(k: &str, v: JsonValue) -> (String, JsonValue) {
    (k.to_string(), v)
}

fn message_of(parts: &[&str]) -> String {
    parse_input(parts).expect_err("expected error").message().to_string()
}

#[test]
fn later_assignment_to_a_path_overwrites_earlier() {
    let parsed = parse_input(&["a[b]=1", "a[c]=3", "a[b]=2"]).expect("parse");
    assert_eq!(
        parsed.body,
        Some(JsonValue::Object(vec![member(
            "a",
            JsonValue::Object(vec![member("b", text("2")), member("c", text("3"))])
        )]))
    );
}

#[test]
fn first_assignment_creates_every_container() {
    let parsed = parse_input(&["x[1][k][]=v"]).expect("parse");
    assert_eq!(
        parsed.body,
        Some(JsonValue::Object(vec![member(
            "x",
            JsonValue::Array(vec![
                JsonValue::Null,
                JsonValue::Object(vec![member("k", JsonValue::Array(vec![text("v")]))]),
            ])
        )]))
    );
}

#[test]
fn appends_keep_input_order() {
    let parsed = parse_input(&["[]=a", "[]=b", "[]=c"]).expect("parse");
    assert_eq!(parsed.body, Some(JsonValue::Array(vec![text("a"), text("b"), text("c")])));
}

#[test]
fn index_past_end_pads_with_nulls() {
    let parsed = parse_input(&["[]=a", "[3]=d"]).expect("parse");
    assert_eq!(
        parsed.body,
        Some(JsonValue::Array(vec![text("a"), JsonValue::Null, JsonValue::Null, text("d")]))
    );
}

#[test]
fn object_members_are_kept_in_key_order() {
    let parsed = parse_input(&["zeta=1", "alpha=2", "Beta=3", "alphabet=4"]).expect("parse");
    assert_eq!(
        parsed.body,
        Some(JsonValue::Object(vec![
            member("Beta", text("3")),
            member("alpha", text("2")),
            member("alphabet", text("4")),
            member("zeta", text("1")),
        ]))
    );
}

#[test]
fn index_step_on_string_reports_mismatch() {
    assert_eq!(
        message_of(&["foo=bar", "foo[0]=baz"]),
        "attempted to access index of non-array (string): \"bar\""
    );
}

#[test]
fn key_step_on_array_reports_mismatch() {
    assert_eq!(
        message_of(&["x[]=a", "x[k]=b"]),
        "attempted to access key of non-object (array): [\"a\"]"
    );
}

#[test]
fn append_step_on_number_reports_mismatch() {
    assert_eq!(
        message_of(&["x:=5", "x[]=b"]),
        "attempted to access end of non-array (number): 5"
    );
}

#[test]
fn index_step_on_object_reports_mismatch() {
    assert_eq!(
        message_of(&["x[k]=1", "x[0]=2"]),
        "attempted to access index of non-array (object): {\"k\":\"1\"}"
    );
}

#[test]
fn key_step_on_bool_reports_mismatch() {
    assert_eq!(
        message_of(&["x:=true", "x.y=2"]),
        "attempted to access key of non-object (bool): true"
    );
}

#[test]
fn parsing_stops_at_first_error() {
    assert_eq!(message_of(&["a=1", "oops", "b[=2"]), "unexpected input: \"oops\"");
}

#[test]
fn invalid_json_reports_serde_json_message() {
    assert_eq!(
        message_of(&["foo:={bar"]),
        "invalid JSON value in \"foo:={bar\": key must be a string at line 1 column 2"
    );
}

#[test]
fn json_assignment_comes_before_query() {
    assert!(message_of(&["a:=1==2"]).starts_with("invalid JSON value in \"a:=1==2\""));
}

#[test]
fn query_comes_before_header() {
    let parsed = parse_input(&["Accept:a==b"]).expect("parse");
    assert_eq!(
        parsed.query_params,
        vec![ParsedQueryParam { name: "Accept:a".to_string(), value: "b".to_string() }]
    );
    assert!(parsed.headers.is_empty());
}

#[test]
fn header_comes_before_string_assignment() {
    let parsed = parse_input(&["x:y=z"]).expect("parse");
    assert_eq!(
        parsed.headers,
        vec![ParsedHeader { name: "x".to_string(), value: "y=z".to_string() }]
    );
    assert_eq!(parsed.body, None);
}

#[test]
fn header_value_keeps_further_colons() {
    let parsed = parse_input(&["X-Trace-Id:a:b:c"]).expect("parse");
    assert_eq!(
        parsed.headers,
        vec![ParsedHeader { name: "X-Trace-Id".to_string(), value: "a:b:c".to_string() }]
    );
}

#[test]
fn query_value_may_be_empty() {
    let parsed = parse_input(&["tag==", "tag==parser"]).expect("parse");
    assert_eq!(
        parsed.query_params,
        vec![
            ParsedQueryParam { name: "tag".to_string(), value: String::new() },
            ParsedQueryParam { name: "tag".to_string(), value: "parser".to_string() },
        ]
    );
}

#[test]
fn query_name_with_equals_is_refused() {
    assert_eq!(message_of(&["a=b==c"]), "unexpected input: \"a=b==c\"");
}

#[test]
fn part_without_separator_is_refused_with_escaped_text() {
    assert_eq!(message_of(&["a\"b"]), "unexpected input: \"a\\\"b\"");
    assert_eq!(message_of(&["tab\there"]), "unexpected input: \"tab\\there\"");
}

#[test]
fn bracket_key_with_colon_is_read_as_header_first() {
    assert_eq!(message_of(&["a[b:c]=x"]), "unexpected input: \"a[b:c]=x\"");
}

#[test]
fn bracket_key_holds_other_special_characters() {
    let parsed = parse_input(&["a[b.c[d]=x"]).expect("parse");
    assert_eq!(
        parsed.body,
        Some(JsonValue::Object(vec![member(
            "a",
            JsonValue::Object(vec![member("b.c[d", text("x"))])
        )]))
    );
}

#[test]
fn string_assignment_keeps_json_looking_text() {
    let parsed = parse_input(&["n=2", "b=true", "z=null"]).expect("parse");
    assert_eq!(
        parsed.body,
        Some(JsonValue::Object(vec![
            member("b", text("true")),
            member("n", text("2")),
            member("z", text("null")),
        ]))
    );
}

#[test]
fn json_assignment_decodes_nested_values() {
    let parsed = parse_input(&["x:=[1,\"a\",{\"b\":null,\"a\":false}]"]).expect("parse");
    assert_eq!(
        parsed.body,
        Some(JsonValue::Object(vec![member(
            "x",
            JsonValue::Array(vec![
                JsonValue::Number(serde_json::Number::from(1u64)),
                text("a"),
                JsonValue::Object(vec![
                    member("a", JsonValue::Bool(false)),
                    member("b", JsonValue::Null),
                ]),
            ])
        )]))
    );
}

#[test]
fn numeric_key_segments_are_indexes() {
    let parsed = parse_input(&["0=a", "1=b"]).expect("parse");
    assert_eq!(parsed.body, Some(JsonValue::Array(vec![text("a"), text("b")])));
}

#[test]
fn leading_digits_split_into_index_then_key() {
    let path = parse_access_path("3a").expect("path");
    assert_eq!(path, vec![PathSegment::ArrayIndex(3), PathSegment::ObjectKey("a".to_string())]);
}

#[test]
fn access_path_reads_every_segment_form() {
    let path = parse_access_path("foo.3[][]a[]4[].b[c][][d]").expect("path");
    assert_eq!(
        path,
        vec![
            PathSegment::ObjectKey("foo".to_string()),
            PathSegment::ArrayIndex(3),
            PathSegment::ArrayEnd,
            PathSegment::ArrayEnd,
            PathSegment::ObjectKey("a".to_string()),
            PathSegment::ArrayEnd,
            PathSegment::ArrayIndex(4),
            PathSegment::ArrayEnd,
            PathSegment::ObjectKey("b".to_string()),
            PathSegment::ObjectKey("c".to_string()),
            PathSegment::ArrayEnd,
            PathSegment::ObjectKey("d".to_string()),
        ]
    );
}

#[test]
fn access_path_refuses_leftover_text() {
    let err = parse_access_path("foo[bar").expect_err("not a path");
    assert_eq!(err.message(), "unexpected input: \"foo[bar\"");
    assert!(parse_access_path("").is_err());
}

#[test]
fn oversized_index_saturates() {
    let path = parse_access_path("[99999999999999999999999999]").expect("path");
    assert_eq!(path, vec![PathSegment::ArrayIndex(usize::MAX)]);
    let path = parse_access_path(".007").expect("path");
    assert_eq!(path, vec![PathSegment::ArrayIndex(7)]);
}

#[test]
fn try_parse_refuses_unreachable_index() {
    assert!(try_parse_input(&["a=1", "x[99999999999999999999999999]=1"]).is_none());
    let parsed = try_parse_input(&["a[2]=1"]).expect("reachable").expect("parse");
    assert_eq!(
        parsed.body,
        Some(JsonValue::Object(vec![member(
            "a",
            JsonValue::Array(vec![JsonValue::Null, JsonValue::Null, text("1")])
        )]))
    );
    assert_eq!(
        try_parse_input(&["nope"]).expect("reachable").expect_err("error").message(),
        "unexpected input: \"nope\""
    );
}

#[test]
fn name_character_classes() {
    assert!(is_header_name_char('a') && is_header_name_char('Z') && is_header_name_char('7'));
    assert!(is_header_name_char('-') && is_header_name_char('_'));
    assert!(!is_header_name_char(' ') && !is_header_name_char('/') && !is_header_name_char('é'));
    assert!(is_query_name_char(' ') && !is_query_name_char('='));
    assert!(is_plain_object_key_char(']') && !is_plain_object_key_char('.'));
    assert!(is_valid_header_name("X-Id_2") && !is_valid_header_name("") && !is_valid_header_name("a b"));
    assert!(is_valid_query_name("a b:c") && !is_valid_query_name("") && !is_valid_query_name("a=b"));
}

#[test]
fn parse_part_reads_each_form() {
    assert_eq!(
        parse_part("h:v").expect("part"),
        ParsedPart::Header(ParsedHeader { name: "h".to_string(), value: "v".to_string() })
    );
    assert_eq!(
        parse_part("q==v").expect("part"),
        ParsedPart::Query(ParsedQueryParam { name: "q".to_string(), value: "v".to_string() })
    );
    assert_eq!(
        parse_part("p=v").expect("part"),
        ParsedPart::Body(BodyComponent {
            path: vec![PathSegment::ObjectKey("p".to_string())],
            value: text("v"),
        })
    );
}

#[test]
fn json_assignment_from_passes_value_or_reports_error() {
    let ok = json_assignment_from("p:=1", vec![PathSegment::ArrayEnd], Ok(JsonValue::Null))
        .expect("component");
    assert_eq!(ok, BodyComponent { path: vec![PathSegment::ArrayEnd], value: JsonValue::Null });
    let err = json_assignment_from("p:=x", vec![], Err("boom".to_string())).expect_err("error");
    assert_eq!(err.message(), "invalid JSON value in \"p:=x\": boom");
}

#[test]
fn error_constructors_build_messages() {
    assert_eq!(ParseInputError::unexpected("a\nb").message(), "unexpected input: \"a\\nb\"");
    assert_eq!(
        ParseInputError::invalid_json("x", "bad").message(),
        "invalid JSON value in \"x\": bad"
    );
    assert_eq!(
        ParseInputError::mismatch_from(MismatchKind::Key, "string", "\"x\"").message(),
        "attempted to access key of non-object (string): \"x\""
    );
    let target = JsonValue::Array(vec![JsonValue::Null]);
    assert_eq!(
        ParseInputError::type_mismatch(MismatchKind::End, &target).message(),
        "attempted to access end of non-array (array): [null]"
    );
}

#[test]
fn kind_names_of_values() {
    assert_eq!(value_type_name(&JsonValue::Null), "null");
    assert_eq!(value_type_name(&JsonValue::Bool(true)), "bool");
    assert_eq!(value_type_name(&JsonValue::Number(serde_json::Number::from(3u64))), "number");
    assert_eq!(value_type_name(&text("s")), "string");
    assert_eq!(value_type_name(&JsonValue::Array(vec![])), "array");
    assert_eq!(value_type_name(&JsonValue::Object(vec![])), "object");
}

#[test]
fn text_helpers() {
    assert_eq!(chars_of("añb"), vec!['a', 'ñ', 'b']);
    assert_eq!(substring("añbc", 1, 3), "ñb");
    let s = "k:=v:=w";
    let cs = chars_of(s);
    assert_eq!(
        split_once_exec(s, &cs, &vec![':', '=']),
        Some(("k".to_string(), "v:=w".to_string()))
    );
    assert_eq!(split_once_exec(s, &cs, &vec!['=', '=']), None);
}

#[test]
fn non_ascii_text_is_kept() {
    let parsed = parse_input(&["clé=été", "q==ü"]).expect("parse");
    assert_eq!(parsed.body, Some(JsonValue::Object(vec![member("clé", text("été"))])));
    assert_eq!(
        parsed.query_params,
        vec![ParsedQueryParam { name: "q".to_string(), value: "ü".to_string() }]
    );
}

#[test]
fn failed_set_leaves_target_unchanged() {
    let mut target = JsonValue::Object(vec![member("foo", text("bar"))]);
    let path = vec![PathSegment::ObjectKey("foo".to_string()), PathSegment::ArrayIndex(0)];
    let err = set_path_value(&mut target, &path, text("baz")).expect_err("mismatch");
    assert_eq!(err.message(), "attempted to access index of non-array (string): \"bar\"");
    assert_eq!(target, JsonValue::Object(vec![member("foo", text("bar"))]));
}

#[test]
fn set_path_value_sets_in_place() {
    let mut target = JsonValue::Null;
    let path = vec![PathSegment::ObjectKey("a".to_string()), PathSegment::ArrayIndex(1)];
    set_path_value(&mut target, &path, text("x")).expect("set");
    assert_eq!(
        target,
        JsonValue::Object(vec![member("a", JsonValue::Array(vec![JsonValue::Null, text("x")]))])
    );
}

#[test]
fn failed_component_leaves_body_unchanged() {
    let before = JsonValue::Object(vec![member("x", JsonValue::Array(vec![text("a")]))]);
    let mut body = Some(before.clone());
    let component = BodyComponent {
        path: vec![PathSegment::ObjectKey("x".to_string()), PathSegment::ObjectKey("k".to_string())],
        value: text("b"),
    };
    let err = apply_body_component(&mut body, component).expect_err("mismatch");
    assert_eq!(err.message(), "attempted to access key of non-object (array): [\"a\"]");
    assert_eq!(body, Some(before));
}

#[test]
fn index_limit_after_an_error_is_not_reached() {
    let huge = "a[99999999999999999999]=1";
    assert_eq!(
        try_parse_input(&["bad", huge]).expect("not reached").expect_err("error").message(),
        "unexpected input: \"bad\""
    );
    assert_eq!(
        try_parse_input(&["foo=bar", "foo[99999999999999999999]=1"])
            .expect("not reached")
            .expect_err("error")
            .message(),
        "attempted to access index of non-array (string): \"bar\""
    );
    assert_eq!(parse_input(&["bad", huge]).expect_err("error").message(), "unexpected input: \"bad\"");
    assert!(try_parse_input(&["a:=[1]", huge]).is_none());
}

#[test]
fn values_and_inputs_clone_and_default() {
    let parsed = parse_input(&["h:v", "x:=[1,{\"a\":true}]"]).expect("parse");
    assert_eq!(parsed.clone(), parsed);
    let body = parsed.body.clone().expect("body");
    assert_eq!(body.clone(), body);
    let empty = httpcliparser::ParsedInput::default();
    assert_eq!(empty, parse_input(&[]).expect("parse"));
}
