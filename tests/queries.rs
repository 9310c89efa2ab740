use jsonpath_rust_bindings::finder::Finder;
use jsonpath_rust_bindings::path::canonical_path;
use jsonpath_rust_bindings::query::{
    check_parsed, collect_matches, execute_query, find_data, find_paths, has_valid_steps,
    parse_query, paths_of, values_of, QueryError, QueryMatch,
};
use serde_json::Value;

fn doc(text: &str) -> Value {
    serde_json::from_str(text).unwrap()
}

fn values(d: &Value, q: &str) -> Vec<Value> {
    execute_query(d, q)
        .unwrap()
        .into_iter()
        .map(|m| m.value)
        .collect()
}

fn paths(d: &Value, q: &str) -> Vec<String> {
    find_paths(d, q).unwrap()
}

#[test]
fn root_query_returns_the_document() {
    for text in [r#"{"a":1,"b":[true,null]}"#, "[1,2,3]", "42", r#""s""#, "null"] {
        let d = doc(text);
        let ms = execute_query(&d, "$").unwrap();
        assert_eq!(ms.len(), 1);
        assert_eq!(ms[0].path, "$");
        assert_eq!(ms[0].value, d);
    }
}

#[test]
fn rendered_paths_resolve_to_the_same_value() {
    let d = doc(r#"{"store":{"book":[{"title":"A","price":8},{"title":"B","price":12}],"odd key":{"it's":[5,6]}}}"#);
    for q in ["$..*", "$.store.book[*].title", "$..[1]", "$.store['odd key'].*"] {
        let ms = execute_query(&d, q).unwrap();
        assert!(!ms.is_empty());
        for m in ms {
            let again = execute_query(&d, &m.path).unwrap();
            assert_eq!(again.len(), 1, "path {}", m.path);
            assert_eq!(again[0].value, m.value);
            assert_eq!(again[0].path, m.path);
        }
    }
}

#[test]
fn recursive_descent_is_pre_order() {
    let d = doc(r#"{"a":1,"b":{"a":2}}"#);
    assert_eq!(values(&d, "$..a"), vec![doc("1"), doc("2")]);
    assert_eq!(paths(&d, "$..a"), vec!["$.a".to_string(), "$.b.a".to_string()]);
}

#[test]
fn slices_follow_python_semantics() {
    let d = doc("[10,20,30,40]");
    assert_eq!(values(&d, "$[1:3]"), vec![doc("20"), doc("30")]);
    assert_eq!(values(&d, "$[-2:]"), vec![doc("30"), doc("40")]);
    assert_eq!(
        values(&d, "$[::-1]"),
        vec![doc("40"), doc("30"), doc("20"), doc("10")]
    );
    assert_eq!(paths(&d, "$[-2:]"), vec!["$[2]".to_string(), "$[3]".to_string()]);
}

#[test]
fn wildcard_on_object_yields_each_field() {
    let d = doc(r#"{"x":1,"y":2}"#);
    assert_eq!(values(&d, "$.*"), vec![doc("1"), doc("2")]);
    assert_eq!(paths(&d, "$.*"), vec!["$.x".to_string(), "$.y".to_string()]);
    let e = doc(r#"{"y":1,"x":2,"a":3}"#);
    assert_eq!(values(&e, "$.*"), vec![doc("1"), doc("2"), doc("3")]);
    assert_eq!(
        paths(&e, "$.*"),
        vec!["$.y".to_string(), "$.x".to_string(), "$.a".to_string()]
    );
}

#[test]
fn filter_that_rejects_everything_yields_nothing() {
    let d = doc(r#"[{"v":1},{"v":2}]"#);
    assert!(values(&d, "$[?(@.v>100)]").is_empty());
    assert_eq!(values(&d, "$[?(@.v>1)]"), vec![doc(r#"{"v":2}"#)]);
}

#[test]
fn missing_name_yields_nothing() {
    let d = doc(r#"{"a":1}"#);
    assert!(values(&d, "$.missing").is_empty());
    assert!(values(&d, "$[7]").is_empty());
}

#[test]
fn zero_step_is_a_syntax_error() {
    let d = doc("[1,2,3]");
    assert!(matches!(parse_query("$[1:2:0]"), Err(QueryError::Syntax(_))));
    assert!(matches!(
        execute_query(&d, "$[1:2:0]"),
        Err(QueryError::Syntax(_))
    ));
    assert!(matches!(
        execute_query(&d, "$..[::0]"),
        Err(QueryError::Syntax(_))
    ));
    assert!(matches!(
        execute_query(&d, "$[0, 1:2:0]"),
        Err(QueryError::Syntax(_))
    ));
}

#[test]
fn evaluation_is_repeatable() {
    let d = doc(r#"{"a":[1,{"b":2}],"c":{"a":3}}"#);
    for q in ["$..a", "$..*", "$.a[*]", "$[?(@.a)]"] {
        let first = execute_query(&d, q).unwrap();
        let second = execute_query(&d, q).unwrap();
        assert_eq!(first.len(), second.len());
        for (x, y) in first.iter().zip(second.iter()) {
            assert_eq!(x.value, y.value);
            assert_eq!(x.path, y.path);
        }
    }
}

#[test]
fn malformed_queries_are_syntax_errors() {
    let d = doc("[1]");
    for q in ["", "$[", "$['a", "a.b", "$[1x]", "$.."] {
        assert!(
            matches!(execute_query(&d, q), Err(QueryError::Syntax(_))),
            "query {:?}",
            q
        );
    }
}

#[test]
fn union_keeps_declared_order_and_duplicates() {
    let d = doc("[10,20,30]");
    assert_eq!(values(&d, "$[2,0,2]"), vec![doc("30"), doc("10"), doc("30")]);
}

#[test]
fn negative_index_counts_from_the_end() {
    let d = doc("[10,20,30]");
    assert_eq!(values(&d, "$[-1]"), vec![doc("30")]);
    assert_eq!(paths(&d, "$[-1]"), vec!["$[2]".to_string()]);
    assert!(values(&d, "$[-4]").is_empty());
}

#[test]
fn filter_comparisons_do_not_cross_types() {
    let d = doc(r#"[{"v":"1"},{"v":1}]"#);
    assert_eq!(values(&d, "$[?(@.v==1)]"), vec![doc(r#"{"v":1}"#)]);
    assert_eq!(values(&d, r#"$[?(@.v=="1")]"#), vec![doc(r#"{"v":"1"}"#)]);
}

#[test]
fn canonical_path_shortens_identifier_names() {
    assert_eq!(canonical_path("$").unwrap(), "$");
    assert_eq!(canonical_path("$['a'][2]['b']").unwrap(), "$.a[2].b");
    assert_eq!(canonical_path("$['_x9']").unwrap(), "$._x9");
}

#[test]
fn canonical_path_keeps_brackets_for_other_names() {
    assert_eq!(canonical_path("$['a b']").unwrap(), "$['a b']");
    assert_eq!(canonical_path("$['9a']").unwrap(), "$['9a']");
    assert_eq!(canonical_path("$['']").unwrap(), "$['']");
    assert_eq!(canonical_path(r"$['it\'s'][0]").unwrap(), r"$['it\'s'][0]");
    assert_eq!(canonical_path(r"$['a\\']").unwrap(), r"$['a\\']");
    assert_eq!(canonical_path("$['é']").unwrap(), "$['é']");
}

#[test]
fn canonical_path_rejects_other_text() {
    for raw in ["", "a", "$a", "$[", "$[]", "$['a]", "$['a'", "$[1", "$[-1]", "$['a\\']", "$.a", "$['a']x"] {
        assert!(canonical_path(raw).is_none(), "raw {:?}", raw);
    }
}

#[test]
fn names_with_escapes_render_and_resolve() {
    let d = doc(r#"{"it's":{"a\\b":[1,2]},"x y":3}"#);
    assert_eq!(
        paths(&d, "$..[1]"),
        vec![r"$['it\'s']['a\\b'][1]".to_string()]
    );
    assert_eq!(paths(&d, "$['x y']"), vec!["$['x y']".to_string()]);
    assert_eq!(values(&d, r"$['it\'s']['a\\b'][1]"), vec![doc("2")]);
}

#[test]
fn collect_matches_pairs_values_with_canonical_paths() {
    let raw = vec![
        (doc("1"), "$['a']".to_string()),
        (doc("2"), "$[3]['b c']".to_string()),
    ];
    let ms = collect_matches(raw).unwrap();
    assert_eq!(ms.len(), 2);
    assert_eq!(ms[0].value, doc("1"));
    assert_eq!(ms[0].path, "$.a");
    assert_eq!(ms[1].value, doc("2"));
    assert_eq!(ms[1].path, "$[3]['b c']");
    assert!(collect_matches(vec![(doc("1"), "$.a".to_string())]).is_none());
    assert_eq!(collect_matches(Vec::new()).unwrap().len(), 0);
}

#[test]
fn paths_and_values_are_projected_in_order() {
    let ms = vec![
        QueryMatch { value: doc("1"), path: "$.a".to_string() },
        QueryMatch { value: doc("[2]"), path: "$.b".to_string() },
    ];
    assert_eq!(paths_of(&ms), vec!["$.a".to_string(), "$.b".to_string()]);
    assert_eq!(values_of(ms), vec![doc("1"), doc("[2]")]);
}

#[test]
fn find_data_returns_the_values() {
    let d = doc(r#"{"a":[1,2]}"#);
    assert_eq!(find_data(&d, "$.a[*]").unwrap(), vec![doc("1"), doc("2")]);
    assert!(matches!(find_data(&d, "$[1:2:0]"), Err(QueryError::Syntax(_))));
}

#[test]
fn step_check_looks_into_every_segment() {
    let ok = jsonpath_rust::parser::parse_json_path("$.a[1:5:2]..[::-1]").unwrap();
    assert!(has_valid_steps(&ok));
    let bad = jsonpath_rust::parser::parse_json_path("$.a..[::0]").unwrap();
    assert!(!has_valid_steps(&bad));
    assert!(check_parsed("$.a[1:5:2]..[::-1]", Ok(ok)).is_ok());
    match check_parsed("$.a..[::0]", Ok(bad)) {
        Err(QueryError::Syntax(m)) => assert_eq!(m, "zero slice step in $.a..[::0]"),
        _ => panic!("zero step accepted"),
    }
    let err = format!("{:?}", jsonpath_rust::parser::parse_json_path("$[").unwrap_err());
    match check_parsed("$[", Err(err.clone())) {
        Err(QueryError::Syntax(m)) => assert_eq!(m, err),
        _ => panic!("parse error lost"),
    }
}

#[test]
fn finder_answers_repeated_queries() {
    let f = Finder::new(doc(r#"{"a":[1,2],"b c":{"d":true}}"#));
    assert_eq!(f.value(), &doc(r#"{"a":[1,2],"b c":{"d":true}}"#));
    let ms = f.find("$.a[*]").unwrap();
    assert_eq!(ms.len(), 2);
    assert_eq!(ms[1].value, doc("2"));
    assert_eq!(ms[1].path, "$.a[1]");
    assert_eq!(f.find_data("$['b c'].d").unwrap(), vec![doc("true")]);
    assert_eq!(
        f.find_absolute_path("$..d").unwrap(),
        vec!["$['b c'].d".to_string()]
    );
    assert_eq!(f.find_absolute_path("$").unwrap(), vec!["$".to_string()]);
    assert!(matches!(f.find("$[1:2:0]"), Err(QueryError::Syntax(_))));
    assert!(matches!(f.find_data("$.a[?"), Err(QueryError::Syntax(_))));
}

#[test]
fn syntax_errors_describe_the_failure() {
    let d = doc("[1]");
    match execute_query(&d, "$[1x]") {
        Err(QueryError::Syntax(msg)) => assert!(!msg.is_empty()),
        other => panic!("unexpected {:?}", other.map(|ms| ms.len())),
    }
    match parse_query("$[::0]") {
        Err(QueryError::Syntax(msg)) => assert!(!msg.is_empty()),
        _ => panic!("zero step accepted"),
    }
}

fn syntax_text<T>(r: Result<T, QueryError>) -> String {
    match r {
        Err(QueryError::Syntax(m)) => m,
        Err(QueryError::Evaluation(m)) => panic!("evaluation error {}", m),
        Ok(_) => panic!("query accepted"),
    }
}

#[test]
fn error_texts_are_fixed_by_the_query() {
    let d = doc(r#"{"a":[1,2,3]}"#);
    let f = Finder::new(d.clone());
    for q in ["$[1x]", "$['a", "$.a[1:2:0]", "$..[::0]"] {
        let expected = if jsonpath_rust::parser::parse_json_path(q).is_err() {
            format!("{:?}", jsonpath_rust::parser::parse_json_path(q).unwrap_err())
        } else {
            format!("zero slice step in {}", q)
        };
        assert!(!expected.is_empty());
        assert_eq!(syntax_text(parse_query(q)), expected);
        assert_eq!(syntax_text(execute_query(&d, q)), expected);
        assert_eq!(syntax_text(execute_query(&d, q)), expected);
        assert_eq!(syntax_text(find_data(&d, q)), expected);
        assert_eq!(syntax_text(find_paths(&d, q)), expected);
        assert_eq!(syntax_text(f.find(q)), expected);
        assert_eq!(syntax_text(f.find_data(q)), expected);
        assert_eq!(syntax_text(f.find_absolute_path(q)), expected);
    }
}

#[test]
fn zero_step_inside_a_filter_selects_nothing() {
    let d = doc(r#"[[1,2],[3]]"#);
    assert!(values(&d, "$[?@[0:1:0]]").is_empty());
    assert_eq!(values(&d, "$[?@[0:1]]"), vec![doc("[1,2]"), doc("[3]")]);
}
