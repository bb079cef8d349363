use locale_diff::align::{align, TranslationItem};
use locale_diff::diff::{diff, DiffResult};
use locale_diff::flatten::flatten;
use locale_diff::order::str_less;
use locale_diff::value::Value;

fn obj(members: Vec<(&str, Value)>) -> Value {
    Value::Object(members.into_iter().map(|(k, v)| (k.to_string(), v)).collect())
}

fn num(n: i64) -> Value {
    Value::Number(n.to_string())
}

fn text(s: &str) -> Value {
    Value::String(s.to_string())
}

fn key(s: &str) -> String {
    s.to_string()
}

fn is_empty(r: &DiffResult) -> bool {
    r.renamed.is_empty() && r.modified.is_empty() && r.added.is_empty() && r.deleted.is_empty()
}

fn same(a: &Value, b: &Value) -> bool {
    a.equals(b)
}

fn opt_same(a: &Option<Value>, b: Option<Value>) -> bool {
    match (a, b) {
        (Some(x), Some(y)) => x.equals(&y),
        (None, None) => true,
        _ => false,
    }
}

#[test]
fn flatten_flat_document_one_entry_per_key() {
    let d = obj(vec![("a", num(1)), ("b", text("x")), ("c", Value::Bool(true))]);
    let f = flatten(&d);
    assert_eq!(f.len(), 3);
    assert!(same(f.get(&key("a")).unwrap(), &num(1)));
    assert!(same(f.get(&key("b")).unwrap(), &text("x")));
    assert!(same(f.get(&key("c")).unwrap(), &Value::Bool(true)));
}

#[test]
fn flatten_nested_uses_dotted_paths() {
    let a = obj(vec![("a", obj(vec![("b", num(1))]))]);
    let b = obj(vec![("a", obj(vec![("b", num(1)), ("c", num(2))]))]);
    let fa = flatten(&a);
    let fb = flatten(&b);
    assert_eq!(fa.len(), 1);
    assert!(same(fa.get(&key("a.b")).unwrap(), &num(1)));
    assert_eq!(fb.len(), 2);
    assert!(same(fb.get(&key("a.b")).unwrap(), &num(1)));
    assert!(same(fb.get(&key("a.c")).unwrap(), &num(2)));
    assert!(fb.get(&key("a")).is_none());
}

#[test]
fn flatten_keeps_arrays_as_leaves() {
    let arr = Value::Array(vec![num(1), obj(vec![("x", num(2))])]);
    let d = obj(vec![("list", arr)]);
    let f = flatten(&d);
    assert_eq!(f.len(), 1);
    let expected = Value::Array(vec![num(1), obj(vec![("x", num(2))])]);
    assert!(same(f.get(&key("list")).unwrap(), &expected));
    assert!(f.get(&key("list.x")).is_none());
}

#[test]
fn flatten_drops_empty_mapping() {
    let d = obj(vec![("a", obj(vec![]))]);
    let f = flatten(&d);
    assert_eq!(f.len(), 0);
    assert!(f.get(&key("a")).is_none());
    assert!(f.get(&key("a.b")).is_none());
}

#[test]
fn flatten_root_leaf_sits_at_empty_path() {
    let f = flatten(&text("solo"));
    assert_eq!(f.len(), 1);
    assert!(same(f.get(&key("")).unwrap(), &text("solo")));
}

#[test]
fn flatten_dotted_key_collides_with_nesting() {
    let d = obj(vec![("a", obj(vec![("b", num(2))])), ("a.b", num(1))]);
    let f = flatten(&d);
    assert_eq!(f.len(), 1);
    assert!(same(f.get(&key("a.b")).unwrap(), &num(1)));
}

#[test]
fn diff_of_document_with_itself_is_empty() {
    let d = obj(vec![
        ("title", text("Hello")),
        ("menu", obj(vec![("open", text("Open")), ("close", text("Close"))])),
        ("count", num(3)),
    ]);
    assert!(is_empty(&diff(&d, &d)));
}

#[test]
fn diff_reports_rename() {
    let a = obj(vec![("a", text("hello"))]);
    let b = obj(vec![("b", text("hello"))]);
    let r = diff(&a, &b);
    assert_eq!(r.renamed.len(), 1);
    assert_eq!(r.renamed[0].old_key, "a");
    assert_eq!(r.renamed[0].new_key, "b");
    assert!(same(&r.renamed[0].value, &text("hello")));
    assert!(r.modified.is_empty() && r.added.is_empty() && r.deleted.is_empty());
}

#[test]
fn diff_reports_modification() {
    let a = obj(vec![("a", num(1))]);
    let b = obj(vec![("a", num(2))]);
    let r = diff(&a, &b);
    assert_eq!(r.modified.len(), 1);
    assert_eq!(r.modified[0].key, "a");
    assert!(same(&r.modified[0].old_value, &num(1)));
    assert!(same(&r.modified[0].new_value, &num(2)));
    assert!(r.renamed.is_empty() && r.added.is_empty() && r.deleted.is_empty());
}

#[test]
fn diff_reports_nested_addition() {
    let a = obj(vec![("a", obj(vec![("b", num(1))]))]);
    let b = obj(vec![("a", obj(vec![("b", num(1)), ("c", num(2))]))]);
    let r = diff(&a, &b);
    assert_eq!(r.added.len(), 1);
    assert_eq!(r.added[0].key, "a.c");
    assert!(same(&r.added[0].value, &num(2)));
    assert!(r.renamed.is_empty() && r.modified.is_empty() && r.deleted.is_empty());
}

#[test]
fn diff_ambiguous_rename_pairs_one_to_one() {
    let a = obj(vec![("x", Value::Bool(true)), ("y", Value::Bool(true))]);
    let b = obj(vec![("z", Value::Bool(true))]);
    let r = diff(&a, &b);
    assert_eq!(r.renamed.len(), 1);
    assert_eq!(r.deleted.len(), 1);
    assert_eq!(r.renamed[0].new_key, "z");
    let old = r.renamed[0].old_key.clone();
    let gone = r.deleted[0].key.clone();
    assert!((old == "x" && gone == "y") || (old == "y" && gone == "x"));
    assert!(r.modified.is_empty() && r.added.is_empty());
}

#[test]
fn diff_empty_mapping_then_filled_is_addition() {
    let a = obj(vec![("a", obj(vec![]))]);
    let b = obj(vec![("a", obj(vec![("b", num(1))]))]);
    let r = diff(&a, &b);
    assert_eq!(r.added.len(), 1);
    assert_eq!(r.added[0].key, "a.b");
    assert!(r.modified.is_empty() && r.renamed.is_empty() && r.deleted.is_empty());
}

#[test]
fn diff_deletion_and_addition_with_different_values() {
    let a = obj(vec![("keep", num(1)), ("old", text("bye"))]);
    let b = obj(vec![("keep", num(1)), ("new", text("hi"))]);
    let r = diff(&a, &b);
    assert_eq!(r.deleted.len(), 1);
    assert_eq!(r.deleted[0].key, "old");
    assert!(same(&r.deleted[0].value, &text("bye")));
    assert_eq!(r.added.len(), 1);
    assert_eq!(r.added[0].key, "new");
    assert!(r.renamed.is_empty() && r.modified.is_empty());
}

#[test]
fn diff_partition_covers_every_path_once() {
    let a = obj(vec![("same", num(1)), ("changed", num(2)), ("moved", text("m")), ("gone", text("g"))]);
    let b = obj(vec![("same", num(1)), ("changed", num(3)), ("moved_to", text("m")), ("fresh", text("f"))]);
    let r = diff(&a, &b);
    let mut from_a: Vec<String> = Vec::new();
    from_a.extend(r.modified.iter().map(|m| m.key.clone()));
    from_a.extend(r.renamed.iter().map(|m| m.old_key.clone()));
    from_a.extend(r.deleted.iter().map(|m| m.key.clone()));
    from_a.push("same".to_string());
    from_a.sort();
    assert_eq!(from_a, vec!["changed", "gone", "moved", "same"]);
    let mut from_b: Vec<String> = Vec::new();
    from_b.extend(r.modified.iter().map(|m| m.key.clone()));
    from_b.extend(r.renamed.iter().map(|m| m.new_key.clone()));
    from_b.extend(r.added.iter().map(|m| m.key.clone()));
    from_b.push("same".to_string());
    from_b.sort();
    assert_eq!(from_b, vec!["changed", "fresh", "moved_to", "same"]);
}

#[test]
fn diff_compares_arrays_deeply() {
    let a = obj(vec![("l", Value::Array(vec![num(1), num(2)]))]);
    let b = obj(vec![("l", Value::Array(vec![num(1), num(3)]))]);
    let r = diff(&a, &b);
    assert_eq!(r.modified.len(), 1);
    let c = obj(vec![("l", Value::Array(vec![num(1), num(2)]))]);
    assert!(is_empty(&diff(&a, &c)));
}

#[test]
fn diff_number_and_string_differ() {
    let a = obj(vec![("a", num(1))]);
    let b = obj(vec![("a", text("1"))]);
    let r = diff(&a, &b);
    assert_eq!(r.modified.len(), 1);
}

#[test]
fn align_missing_target() {
    let a = obj(vec![("a", num(1))]);
    let b = obj(vec![]);
    let r: Vec<TranslationItem> = align(&a, &b);
    assert_eq!(r.len(), 1);
    assert_eq!(r[0].key, "a");
    assert!(opt_same(&r[0].source, Some(num(1))));
    assert!(r[0].target.is_none());
}

#[test]
fn align_sorts_union_of_paths() {
    let a = obj(vec![("b", text("B")), ("a", obj(vec![("z", text("Z"))]))]);
    let b = obj(vec![("c", text("C")), ("b", text(""))]);
    let r = align(&a, &b);
    let keys: Vec<String> = r.iter().map(|t| t.key.clone()).collect();
    assert_eq!(keys, vec!["a.z", "b", "c"]);
    assert!(opt_same(&r[0].source, Some(text("Z"))));
    assert!(r[0].target.is_none());
    assert!(opt_same(&r[1].source, Some(text("B"))));
    assert!(opt_same(&r[1].target, Some(text(""))));
    assert!(r[2].source.is_none());
    assert!(opt_same(&r[2].target, Some(text("C"))));
}

#[test]
fn value_equality_is_structural() {
    let x = obj(vec![("k", Value::Array(vec![Value::Null, text("a")]))]);
    let y = x.duplicate();
    assert!(x.equals(&y));
    assert!(!x.equals(&obj(vec![("k", Value::Array(vec![Value::Null]))])));
    assert!(!Value::Null.equals(&Value::Bool(false)));
    assert!(!num(1).equals(&Value::Number("1.0".to_string())));
}

#[test]
fn string_order_is_lexicographic() {
    assert!(str_less("a", "b"));
    assert!(str_less("a", "ab"));
    assert!(!str_less("ab", "a"));
    assert!(!str_less("a", "a"));
    assert!(str_less("", "a"));
    assert!(str_less("Z", "a"));
    assert!(str_less("a.b", "a.c"));
    assert!(str_less("z", "é"));
}

fn descend<'a>(v: &'a Value, segs: &[&str]) -> Option<&'a Value> {
    if segs.is_empty() {
        return Some(v);
    }
    match v {
        Value::Object(members) => {
            let child = members.iter().rev().find(|(k, _)| k == segs[0]).map(|(_, c)| c)?;
            descend(child, &segs[1..])
        }
        _ => None,
    }
}

#[test]
fn flatten_paths_lead_back_to_their_leaves() {
    let d = obj(vec![
        ("app", obj(vec![("title", text("T")), ("menu", obj(vec![("file", text("File"))]))])),
        ("count", num(7)),
        ("tags", Value::Array(vec![text("x")])),
    ]);
    let f = flatten(&d);
    assert_eq!(f.len(), 4);
    for i in 0..f.len() {
        let path = f.key(i).clone();
        let segs: Vec<&str> = path.split('.').collect();
        let leaf = descend(&d, &segs).unwrap();
        assert!(leaf.equals(f.value(i)));
        assert!(!matches!(leaf, Value::Object(_)));
    }
}
