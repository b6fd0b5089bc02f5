use dict_picker::engine::query_at;
use dict_picker::path::{parse_i64, tokenize, QueryError};
use dict_picker::query::{query_batch_compact, query_by_path, query_by_paths, query_single};
use dict_picker::value::Value;

fn num(n: i64) -> Value {
    Value::Number(n.to_string())
}

fn text(s: &str) -> Value {
    Value::Str(s.to_string())
}

fn list(items: Vec<Value>) -> Value {
    Value::Sequence(items)
}

fn map(entries: Vec<(&str, Value)>) -> Value {
    Value::Mapping(entries.into_iter().map(|(k, v)| (k.to_string(), v)).collect())
}

fn toks(parts: &[&str]) -> Vec<String> {
    parts.iter().map(|p| p.to_string()).collect()
}

fn nums(ns: &[i64]) -> Value {
    list(ns.iter().map(|n| num(*n)).collect())
}

#[test]
fn strided_slice_tests_absolute_index() {
    let root = map(vec![("a", map(vec![("b", nums(&[1, 2, 3, 4, 5]))]))]);
    let r = query_by_path(&root, "a/b/1:4:2", Some("/"));
    assert_eq!(r, Ok(Some(nums(&[3]))));
}

#[test]
fn mapping_wildcard_descends_one_level_and_stops_at_first_hit() {
    // `a` holds no `b` directly, so the first entry that resolves `b` is `c`.
    let root = map(vec![
        ("a", map(vec![("x", map(vec![("b", num(1))]))])),
        ("c", map(vec![("b", num(2))])),
    ]);
    let r = query_single(&root, &toks(&["*", "b"]));
    assert_eq!(r, Ok(Some(num(2))));
}

#[test]
fn mapping_wildcard_returns_only_the_first_match() {
    let root = map(vec![
        ("a", map(vec![("b", num(1))])),
        ("c", map(vec![("b", num(2))])),
    ]);
    let r = query_single(&root, &toks(&["*", "b"]));
    assert_eq!(r, Ok(Some(num(1))));
}

#[test]
fn sequence_wildcard_collects_over_mappings_only() {
    let root = map(vec![(
        "list",
        list(vec![map(vec![("b", num(1))]), map(vec![("b", num(2))]), text("skip")]),
    )]);
    let r = query_single(&root, &toks(&["list", "*", "b"]));
    assert_eq!(r, Ok(Some(nums(&[1, 2]))));
}

#[test]
fn literal_path_gives_the_subtree() {
    let inner = map(vec![("c", text("deep")), ("d", Value::Null)]);
    let root = map(vec![("a", map(vec![("b", inner.deep_copy())])), ("z", num(0))]);
    assert_eq!(query_by_path(&root, "a/b", None), Ok(Some(inner)));
    assert_eq!(query_by_path(&root, "a/b/c", None), Ok(Some(text("deep"))));
    assert_eq!(query_by_path(&root, "a/b/d", None), Ok(Some(Value::Null)));
    assert_eq!(query_by_path(&root, "a/x", None), Ok(None));
    assert_eq!(query_by_path(&root, "z/q", None), Ok(None));
}

#[test]
fn negative_index_counts_from_the_end() {
    let root = nums(&[10, 20, 30]);
    for i in 0..3i64 {
        let pos = query_single(&root, &toks(&[&i.to_string()]));
        let neg = query_single(&root, &toks(&[&(i - 3).to_string()]));
        assert_eq!(pos, neg);
        assert_eq!(pos, Ok(Some(num(10 * (i + 1)))));
    }
}

#[test]
fn out_of_range_index_gives_no_result() {
    let root = nums(&[10, 20, 30]);
    assert_eq!(query_single(&root, &toks(&["3"])), Ok(None));
    assert_eq!(query_single(&root, &toks(&["-4"])), Ok(None));
    assert_eq!(query_single(&root, &toks(&["99999999999999999999"])), Ok(None));
    assert_eq!(query_single(&list(vec![]), &toks(&["0"])), Ok(None));
}

#[test]
fn full_slice_gives_every_element() {
    let root = nums(&[1, 2, 3, 4]);
    assert_eq!(query_single(&root, &toks(&[":"])), Ok(Some(nums(&[1, 2, 3, 4]))));
    assert_eq!(query_single(&root, &toks(&["::"])), Ok(Some(nums(&[1, 2, 3, 4]))));
    assert_eq!(query_single(&list(vec![]), &toks(&[":"])), Ok(Some(list(vec![]))));
}

#[test]
fn zero_step_is_an_error() {
    let root = nums(&[1, 2, 3]);
    assert_eq!(query_single(&root, &toks(&["::0"])), Err(QueryError::ZeroStep));
    assert_eq!(query_single(&root, &toks(&["1:3:0"])), Err(QueryError::ZeroStep));
    assert_eq!(query_single(&root, &toks(&["5:-7:-0", "x"])), Err(QueryError::ZeroStep));
}

#[test]
fn unparsable_slice_part_is_an_error() {
    let root = nums(&[1, 2, 3]);
    assert_eq!(query_single(&root, &toks(&["a:2"])), Err(QueryError::BadSliceBound));
    assert_eq!(query_single(&root, &toks(&["1:2:x"])), Err(QueryError::BadSliceBound));
    // three colons make no slice token
    assert_eq!(query_single(&root, &toks(&["1:2:1:"])), Ok(None));
}

#[test]
fn wildcard_last_gives_the_node_itself() {
    let m = map(vec![("a", num(1)), ("b", nums(&[2, 3]))]);
    assert_eq!(query_single(&m, &toks(&["*"])), Ok(Some(m.deep_copy())));
    let s = nums(&[4, 5]);
    assert_eq!(query_single(&s, &toks(&["*"])), Ok(Some(s.deep_copy())));
    let root = map(vec![("k", s.deep_copy())]);
    assert_eq!(query_by_path(&root, "k/*", None), Ok(Some(s)));
}

#[test]
fn batch_lengths() {
    let root = map(vec![("a", num(1)), ("b", nums(&[2, 3]))]);
    let queries = vec![toks(&["a"]), toks(&["missing"]), toks(&["b", "0:1:0"]), toks(&["b", "-1"])];
    let compact = query_batch_compact(&root, &queries);
    assert_eq!(compact, vec![num(1), num(3)]);
    assert!(compact.len() <= queries.len());
    let paths = toks(&["a", "missing", "b/::0", "b/-1"]);
    let each = query_by_paths(&root, &paths, None);
    assert_eq!(each.len(), paths.len());
    assert_eq!(
        each,
        vec![Ok(Some(num(1))), Ok(None), Err(QueryError::ZeroStep), Ok(Some(num(3)))]
    );
    assert_eq!(query_batch_compact(&root, &vec![]), vec![]);
    assert_eq!(query_by_paths(&root, &vec![], None), vec![]);
}

#[test]
fn paths_with_another_delimiter() {
    let root = map(vec![("a", map(vec![("b", num(7))]))]);
    let each = query_by_paths(&root, &toks(&["a.b", "a/b"]), Some("."));
    assert_eq!(each, vec![Ok(Some(num(7))), Ok(None)]);
}

#[test]
fn negative_step_visits_backwards() {
    let root = nums(&[0, 1, 2, 3, 4]);
    assert_eq!(query_single(&root, &toks(&["::-2"])), Ok(Some(nums(&[4, 2, 0]))));
    assert_eq!(query_single(&root, &toks(&["1:5:-2"])), Ok(Some(nums(&[3, 1]))));
    assert_eq!(query_single(&root, &toks(&["::-1"])), Ok(Some(nums(&[4, 3, 2, 1, 0]))));
    assert_eq!(query_single(&root, &toks(&["3:99:-1"])), Ok(Some(nums(&[4, 3]))));
}

#[test]
fn positive_step_divides_the_absolute_index() {
    let root = nums(&[0, 1, 2, 3, 4, 5, 6]);
    assert_eq!(query_single(&root, &toks(&["1:7:3"])), Ok(Some(nums(&[3, 6]))));
    assert_eq!(query_single(&root, &toks(&["2:4"])), Ok(Some(nums(&[2, 3]))));
    assert_eq!(query_single(&root, &toks(&["-3:2"])), Ok(Some(nums(&[0, 1]))));
}

#[test]
fn slice_with_more_tokens_keeps_misses_as_null() {
    let root = list(vec![map(vec![("b", num(1))]), text("x"), map(vec![("c", num(2))])]);
    assert_eq!(
        query_single(&root, &toks(&[":", "b"])),
        Ok(Some(list(vec![num(1), Value::Null, Value::Null])))
    );
}

#[test]
fn empty_tokens_give_no_result() {
    let root = map(vec![("", num(1)), ("a", nums(&[1]))]);
    assert_eq!(query_single(&root, &toks(&[""])), Ok(None));
    assert_eq!(query_by_path(&root, "", None), Ok(None));
    assert_eq!(query_by_path(&root, "a/", None), Ok(None));
    assert_eq!(query_single(&root, &vec![]), Ok(None));
    assert_eq!(query_single(&num(5), &vec![]), Ok(Some(num(5))));
    assert_eq!(query_single(&num(5), &toks(&["a"])), Ok(None));
}

#[test]
fn numeric_key_is_a_key_at_a_mapping() {
    let root = map(vec![("0", text("zero")), ("*", text("star"))]);
    assert_eq!(query_single(&root, &toks(&["0"])), Ok(Some(text("zero"))));
    let nested = map(vec![("k", root)]);
    assert_eq!(query_single(&nested, &toks(&["k", "-1"])), Ok(None));
}

#[test]
fn lookup_takes_the_first_entry_with_the_key() {
    let root = map(vec![("a", num(1)), ("a", num(2))]);
    assert_eq!(query_single(&root, &toks(&["a"])), Ok(Some(num(1))));
}

#[test]
fn query_from_a_later_position() {
    let root = map(vec![("b", num(4))]);
    assert_eq!(query_at(&root, &toks(&["a", "b"]), 1), Ok(Some(num(4))));
}

#[test]
fn tokenize_splits_on_the_delimiter() {
    assert_eq!(tokenize("a/b/c", "/"), toks(&["a", "b", "c"]));
    assert_eq!(tokenize("", "/"), toks(&[""]));
    assert_eq!(tokenize("a//b/", "/"), toks(&["a", "", "b", ""]));
    assert_eq!(tokenize("a::b:c", "::"), toks(&["a", "b:c"]));
    assert_eq!(tokenize("a:::b", "::"), toks(&["a", ":b"]));
    assert_eq!(tokenize("ab", ""), toks(&["", "a", "b", ""]));
    assert_eq!(tokenize("é/ü", "/"), toks(&["é", "ü"]));
}

#[test]
fn integers_parse_like_i64() {
    let p = |s: &str| parse_i64(&s.chars().collect());
    assert_eq!(p("42"), Some(42));
    assert_eq!(p("+5"), Some(5));
    assert_eq!(p("-0"), Some(0));
    assert_eq!(p("-9223372036854775808"), Some(i64::MIN));
    assert_eq!(p("9223372036854775807"), Some(i64::MAX));
    assert_eq!(p("9223372036854775808"), None);
    assert_eq!(p(""), None);
    assert_eq!(p("-"), None);
    assert_eq!(p("12a"), None);
    assert_eq!(p(" 1"), None);
}

#[test]
fn deep_copy_is_equal() {
    let v = map(vec![("a", list(vec![Value::Bool(true), text("t"), num(3)]))]);
    assert_eq!(v.deep_copy(), v);
}
