use senile::commands::collect;
use senile::matcher::PathMatcher;
use senile::sort::sort_items;
use senile::types::ToDoItem;

fn todo_pair() -> Vec<(String, String)> {
    vec![(String::from("// TODO!("), String::from("):"))]
}

fn item(priority: &str, assignee: &str, body: &str) -> ToDoItem {
    ToDoItem {
        priority: String::from(priority),
        body: String::from(body),
        assignee: String::from(assignee),
        context: Vec::new(),
        file: String::from("f"),
        line: 0,
    }
}

#[test]
fn sort_orders_by_priority() {
    let mut v = vec![item("b", "x", "1"), item("a", "y", "2"), item("c", "z", "3")];
    sort_items(&mut v);
    assert_eq!(v[0].priority, "a");
    assert_eq!(v[1].priority, "b");
    assert_eq!(v[2].priority, "c");
}

#[test]
fn sort_is_lexicographic_not_numeric() {
    let mut v = vec![item("10", "x", "1"), item("2", "y", "2"), item("1", "z", "3")];
    sort_items(&mut v);
    assert_eq!(v[0].priority, "1");
    assert_eq!(v[1].priority, "10");
    assert_eq!(v[2].priority, "2");
}

#[test]
fn sorting_a_sorted_collection_changes_nothing() {
    let mut v = vec![item("a", "x", "1"), item("b", "y", "2"), item("b", "z", "3")];
    sort_items(&mut v);
    let before = v.clone();
    sort_items(&mut v);
    assert_eq!(v, before);
}

#[test]
fn matcher_rejects_bad_pattern() {
    assert!(PathMatcher::new("(").is_err());
}

#[test]
fn matcher_decides_eligibility() {
    let m = PathMatcher::new("^a.*z$").unwrap();
    assert_eq!(m.matches("abcz").unwrap(), true);
    assert_eq!(m.matches("b").unwrap(), false);
    assert_eq!(m.matches("abcza").unwrap(), false);
}

#[test]
fn matcher_supports_lookaround() {
    let m = PathMatcher::new(r"^(?!(\./target/)).*\.rs$").unwrap();
    assert_eq!(m.matches("./src/a.rs").unwrap(), true);
    assert_eq!(m.matches("./target/a.rs").unwrap(), false);
}

#[test]
fn collect_parses_filters_and_sorts() {
    let files = vec![
        (
            String::from("b.rs"),
            String::from("// TODO!(2, bob, 0): second\n// TODO!(1, ann, 0): first"),
        ),
        (String::from("skip.txt"), String::from("// TODO!(0, zed, 0): excluded")),
    ];
    let matcher = PathMatcher::new(r"\.rs$").unwrap();
    let items = collect(files, &matcher, &todo_pair()).unwrap();
    assert_eq!(items.len(), 2);
    assert_eq!(items[0].priority, "1");
    assert_eq!(items[0].assignee, "ann");
    assert_eq!(items[0].file, "b.rs");
    assert_eq!(items[1].priority, "2");
    assert_eq!(items[1].assignee, "bob");
}

#[test]
fn excluded_file_contributes_nothing_in_either_order() {
    let matched = (String::from("a.rs"), String::from("// TODO!(1, a, 0): kept"));
    let excluded = (String::from("b.txt"), String::from("// TODO!(2, b, 0): dropped"));
    let matcher = PathMatcher::new(r"\.rs$").unwrap();
    let first = collect(vec![matched.clone(), excluded.clone()], &matcher, &todo_pair()).unwrap();
    let second = collect(vec![excluded, matched], &matcher, &todo_pair()).unwrap();
    assert_eq!(first, second);
    assert_eq!(first.len(), 1);
    assert_eq!(first[0].body, "kept");
}

#[test]
fn visit_order_does_not_change_the_result() {
    let a = (String::from("a.rs"), String::from("// TODO!(3, x, 0): c"));
    let b = (String::from("b.rs"), String::from("// TODO!(1, y, 0): a"));
    let c = (String::from("c.rs"), String::from("// TODO!(2, z, 0): b"));
    let matcher = PathMatcher::new(".*").unwrap();
    let one = collect(vec![a.clone(), b.clone(), c.clone()], &matcher, &todo_pair()).unwrap();
    let other = collect(vec![c, a, b], &matcher, &todo_pair()).unwrap();
    assert_eq!(one, other);
    assert_eq!(one.len(), 3);
    assert_eq!(one[0].priority, "1");
    assert_eq!(one[1].priority, "2");
    assert_eq!(one[2].priority, "3");
}

#[test]
fn failing_file_contributes_nothing() {
    let files = vec![
        (String::from("bad.rs"), String::from("// TODO!(1, a, zzz): broken")),
        (String::from("good.rs"), String::from("// TODO!(2, b, 0): kept")),
    ];
    let matcher = PathMatcher::new(".*").unwrap();
    let items = collect(files, &matcher, &todo_pair()).unwrap();
    assert_eq!(items.len(), 1);
    assert_eq!(items[0].body, "kept");
}
