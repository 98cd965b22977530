use rustylang::cli::{dry_run_updates, merge_updates, plan_locale, resolve_translation, LocalePlan};
use rustylang::diff::{compute_missing_translations, escape_key, flatten_string_paths, usize_to_string};
use rustylang::document::Document;
use rustylang::errors::RustyLangError;
use rustylang::json_utils::{parse_dot_path, set_value_at_path, PathSegment};

fn obj(entries: Vec<(&str, Document)>) -> Document {
    Document::Object(entries.into_iter().map(|(k, v)| (k.to_string(), v)).collect())
}

fn text(s: &str) -> Document {
    Document::Text(s.to_string())
}

#[test]
fn missing_only_when_not_overwrite() {
    let source = obj(vec![("a", obj(vec![("b", text("hello"))]))]);
    let target = obj(vec![("a", obj(vec![("b", text(""))]))]);
    let v = compute_missing_translations(&source, &target, false);
    assert_eq!(v.len(), 1);
    assert_eq!(v[0].0, "a.b");
}

#[test]
fn all_when_overwrite() {
    let source = obj(vec![("a", obj(vec![("b", text("hello"))]))]);
    let target = obj(vec![("a", obj(vec![("b", text("world"))]))]);
    let v = compute_missing_translations(&source, &target, true);
    assert_eq!(v.len(), 1);
    assert_eq!(v[0].0, "a.b");
    assert_eq!(v[0].1, "hello");
}

#[test]
fn filled_target_needs_nothing_without_overwrite() {
    let source = obj(vec![("a", obj(vec![("b", text("hello"))]))]);
    let target = obj(vec![("a", obj(vec![("b", text("world"))]))]);
    let v = compute_missing_translations(&source, &target, false);
    assert_eq!(v, vec![]);
}

#[test]
fn extra_target_keys_are_left_alone() {
    let source = obj(vec![("a", text("x"))]);
    let target = obj(vec![("a", text("y")), ("extra", text("keep"))]);
    let v = compute_missing_translations(&source, &target, false);
    assert_eq!(v, vec![]);
}

#[test]
fn flatten_is_sorted_and_skips_non_strings() {
    let d = obj(vec![
        ("b", text("two")),
        ("a", text("one")),
        ("n", Document::Number("7".to_string())),
        ("t", Document::Bool(true)),
        ("z", Document::Null),
    ]);
    let flat = flatten_string_paths(&d, None);
    let expected = vec![
        ("a".to_string(), "one".to_string()),
        ("b".to_string(), "two".to_string()),
    ];
    assert_eq!(flat, expected);
}

#[test]
fn flatten_array_paths_and_bare_string() {
    let d = obj(vec![("a", Document::Array(vec![text("x"), Document::Null, text("y")]))]);
    let flat = flatten_string_paths(&d, None);
    let expected = vec![
        ("a[0]".to_string(), "x".to_string()),
        ("a[2]".to_string(), "y".to_string()),
    ];
    assert_eq!(flat, expected);
    assert_eq!(flatten_string_paths(&text("alone"), None), vec![]);
}

#[test]
fn escaping_survives_the_round_trip() {
    assert_eq!(escape_key("a.b"), "a\\.b");
    let segs = parse_dot_path("a\\.b").unwrap();
    assert_eq!(segs, vec![PathSegment::Key("a.b".to_string())]);
    let d = obj(vec![("a.b", text("dotted"))]);
    let flat = flatten_string_paths(&d, None);
    assert_eq!(flat, vec![("a\\.b".to_string(), "dotted".to_string())]);
}

#[test]
fn parse_dot_path_cases() {
    assert_eq!(parse_dot_path("").unwrap(), vec![]);
    assert_eq!(
        parse_dot_path("a[0].b").unwrap(),
        vec![
            PathSegment::Key("a".to_string()),
            PathSegment::Index(0),
            PathSegment::Key("b".to_string()),
        ]
    );
    assert_eq!(parse_dot_path("[12]").unwrap(), vec![PathSegment::Index(12)]);
    match parse_dot_path("a[]") {
        Err(RustyLangError::InvalidDotPath(p)) => assert_eq!(p, "a[]"),
        other => panic!("expected InvalidDotPath, got {:?}", other),
    }
    match parse_dot_path("a[x]") {
        Err(RustyLangError::InvalidDotPath(_)) => {}
        other => panic!("expected InvalidDotPath, got {:?}", other),
    }
}

#[test]
fn huge_bracket_bodies_are_rejected() {
    match parse_dot_path("[99999999999999999999999999]") {
        Err(RustyLangError::InvalidDotPath(_)) => {}
        other => panic!("expected InvalidDotPath, got {:?}", other),
    }
}

#[test]
fn nested_array_paths_build_through_null() {
    let mut root = Document::Null;
    set_value_at_path(&mut root, "[1].b", text("deep"), true).unwrap();
    assert_eq!(
        root,
        Document::Array(vec![Document::Null, obj(vec![("b", text("deep"))])])
    );
}

#[test]
fn created_keys_hold_objects_so_an_index_after_one_fails() {
    // a missing key is created as an empty object; a following index
    // segment cannot address it, and what was created stays
    let mut root = obj(vec![]);
    match set_value_at_path(&mut root, "a[1]", text("x"), true) {
        Err(RustyLangError::InvalidDotPath(p)) => assert_eq!(p, "a[1]"),
        other => panic!("expected InvalidDotPath, got {:?}", other),
    }
    assert_eq!(root, obj(vec![("a", obj(vec![]))]));
}

#[test]
fn array_growth_pads_with_nulls() {
    let mut root = Document::Null;
    set_value_at_path(&mut root, "[2]", text("x"), true).unwrap();
    assert_eq!(
        root,
        Document::Array(vec![Document::Null, Document::Null, text("x")])
    );
}

#[test]
fn set_creates_intermediate_objects() {
    let mut root = obj(vec![]);
    set_value_at_path(&mut root, "a.b", text("v"), true).unwrap();
    assert_eq!(root, obj(vec![("a", obj(vec![("b", text("v"))]))]));
}

#[test]
fn set_overwrites_any_prior_leaf() {
    let mut root = obj(vec![("a", Document::Number("3".to_string()))]);
    set_value_at_path(&mut root, "a", text("now text"), false).unwrap();
    assert_eq!(root, obj(vec![("a", text("now text"))]));
}

#[test]
fn set_without_create_reports_path_not_found() {
    let mut root = obj(vec![]);
    match set_value_at_path(&mut root, "a.b", text("v"), false) {
        Err(RustyLangError::PathNotFound(p)) => assert_eq!(p, "a.b"),
        other => panic!("expected PathNotFound, got {:?}", other),
    }
}

#[test]
fn set_through_scalar_reports_invalid_path() {
    let mut root = obj(vec![("a", text("leaf"))]);
    match set_value_at_path(&mut root, "a.b", text("v"), true) {
        Err(RustyLangError::InvalidDotPath(p)) => assert_eq!(p, "a.b"),
        other => panic!("expected InvalidDotPath, got {:?}", other),
    }
}

#[test]
fn error_messages_name_the_path() {
    let e = RustyLangError::InvalidDotPath("x[".to_string());
    assert_eq!(e.message(), "Invalid dot path: x[");
    let e2 = RustyLangError::PathNotFound("a.b".to_string());
    assert_eq!(e2.message(), "Path not found: a.b");
}

#[test]
fn round_trip_reproduces_the_flat_mapping() {
    let d = obj(vec![
        ("a", obj(vec![("b", text("hello")), ("c.d", text("dotted"))])),
        ("plain", text("flat")),
    ]);
    let flat = flatten_string_paths(&d, None);
    let mut rebuilt = obj(vec![]);
    let updates: Vec<(String, String)> = flat.clone();
    merge_updates(&mut rebuilt, &updates).unwrap();
    assert_eq!(flatten_string_paths(&rebuilt, None), flat);
}

#[test]
fn usize_rendering_is_decimal() {
    assert_eq!(usize_to_string(0), "0");
    assert_eq!(usize_to_string(120), "120");
    assert_eq!(usize_to_string(9), "9");
}

#[test]
fn plan_skips_the_source_locale() {
    let source = obj(vec![("a", text("x"))]);
    let target = obj(vec![]);
    match plan_locale("en-GB", "en-GB", &source, &target, false) {
        LocalePlan::SkipSource => {}
        other => panic!("expected SkipSource, got {:?}", other),
    }
}

#[test]
fn plan_reports_up_to_date() {
    let source = obj(vec![("a", text("x"))]);
    let target = obj(vec![("a", text("y"))]);
    match plan_locale("fr", "en-GB", &source, &target, false) {
        LocalePlan::UpToDate => {}
        other => panic!("expected UpToDate, got {:?}", other),
    }
}

#[test]
fn dry_run_count_equals_diff_size() {
    let source = obj(vec![("a", text("one {x}")), ("b", text("two"))]);
    let target = obj(vec![]);
    match plan_locale("fr", "en-GB", &source, &target, false) {
        LocalePlan::Translate(tasks) => {
            assert_eq!(tasks.len(), 2);
            assert_eq!(tasks[0].path, "a");
            assert_eq!(tasks[0].placeholders, vec!["{x}".to_string()]);
            let updates = dry_run_updates(&tasks);
            assert_eq!(updates.len(), 2);
            assert_eq!(updates[0], ("a".to_string(), "<translated>".to_string()));
            assert_eq!(updates[1], ("b".to_string(), "<translated>".to_string()));
        }
        other => panic!("expected Translate, got {:?}", other),
    }
}

#[test]
fn partial_failure_falls_back_to_source_text() {
    let source = obj(vec![("bad", text("keep me")), ("good", text("hello"))]);
    let target = obj(vec![]);
    let tasks = match plan_locale("fr", "en-GB", &source, &target, false) {
        LocalePlan::Translate(tasks) => tasks,
        other => panic!("expected Translate, got {:?}", other),
    };
    let mut updates: Vec<(String, String)> = Vec::new();
    for t in tasks {
        let outcome: Result<String, String> = if t.path == "good" {
            Ok("bonjour".to_string())
        } else {
            Err("provider kept failing".to_string())
        };
        updates.push(resolve_translation(t.path.clone(), t.source_text.clone(), outcome));
    }
    let mut merged = obj(vec![]);
    merge_updates(&mut merged, &updates).unwrap();
    assert_eq!(
        merged,
        obj(vec![("bad", text("keep me")), ("good", text("bonjour"))])
    );
}
