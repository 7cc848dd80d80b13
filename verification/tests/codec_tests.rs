use senile::codec::{decode_items, encode_items};
use senile::commands::collect;
use senile::matcher::PathMatcher;
use senile::types::ToDoItem;

fn sample_item() -> ToDoItem {
    ToDoItem {
        priority: String::from("1"),
        body: String::from("fix bug"),
        assignee: String::from("alice"),
        context: Vec::new(),
        file: String::from("a.rs"),
        line: 0,
    }
}

#[test]
fn encode_empty_collection() {
    let out = encode_items(&Vec::new());
    assert_eq!(out, "[]");
}

#[test]
fn encode_one_item_exactly() {
    let out = encode_items(&vec![sample_item()]);
    assert_eq!(
        out,
        "[{\"priority\":\"1\",\"body\":\"fix bug\",\"assignee\":\"alice\",\
         \"context\":[],\"file\":\"a.rs\",\"line\":0}]"
    );
}

#[test]
fn encode_escapes_specials() {
    let mut it = sample_item();
    it.body = String::from("say \"hi\" \\ twice");
    it.context = vec![String::from("\ttabbed")];
    let out = encode_items(&vec![it]);
    assert_eq!(
        out,
        "[{\"priority\":\"1\",\"body\":\"say \\\"hi\\\" \\\\ twice\",\
         \"assignee\":\"alice\",\"context\":[\"\\u0009tabbed\"],\
         \"file\":\"a.rs\",\"line\":0}]"
    );
}

#[test]
fn round_trip_returns_the_same_items() {
    let mut second = sample_item();
    second.priority = String::from("min");
    second.body = String::from("quote \" backslash \\ control \u{1} end");
    second.context = vec![String::from("  x"), String::from("y\tz")];
    second.line = 41;
    let items = vec![sample_item(), second];
    let encoded = encode_items(&items);
    let decoded = decode_items(encoded.as_str()).unwrap();
    assert_eq!(decoded, items);
}

#[test]
fn round_trip_of_large_line_number() {
    let mut it = sample_item();
    it.line = u32::MAX;
    let items = vec![it];
    let decoded = decode_items(encode_items(&items).as_str()).unwrap();
    assert_eq!(decoded, items);
}

#[test]
fn decode_rejects_malformed_input() {
    assert!(decode_items("").is_none());
    assert!(decode_items("x").is_none());
    assert!(decode_items("[").is_none());
    assert!(decode_items("[]x").is_none());
    assert!(decode_items("[{\"priority\":\"1\"}]").is_none());
}

#[test]
fn encoded_output_is_json_for_an_outside_reader() {
    let mut it = sample_item();
    it.body = String::from("say \"hi\"\u{7} there");
    it.context = vec![String::from("line one"), String::from("  two")];
    it.line = 7;
    let out = encode_items(&vec![it.clone()]);
    let parsed: serde_json::Value = serde_json::from_str(out.as_str()).unwrap();
    let arr = parsed.as_array().unwrap();
    assert_eq!(arr.len(), 1);
    assert_eq!(arr[0]["priority"].as_str().unwrap(), it.priority);
    assert_eq!(arr[0]["body"].as_str().unwrap(), it.body);
    assert_eq!(arr[0]["assignee"].as_str().unwrap(), it.assignee);
    assert_eq!(arr[0]["file"].as_str().unwrap(), it.file);
    assert_eq!(arr[0]["line"].as_u64().unwrap(), 7);
    let ctx = arr[0]["context"].as_array().unwrap();
    assert_eq!(ctx.len(), 2);
    assert_eq!(ctx[0].as_str().unwrap(), "line one");
    assert_eq!(ctx[1].as_str().unwrap(), "  two");
}

#[test]
fn pipeline_output_round_trips_whatever_the_scan_order() {
    let a = (String::from("a.rs"), String::from("// TODO!(2, bob, 1): second\n  ctx"));
    let b = (String::from("b.rs"), String::from("// TODO!(1, ann, 0): first"));
    let matcher = PathMatcher::new(".*").unwrap();
    let literals = vec![(String::from("// TODO!("), String::from("):"))];
    let one = collect(vec![a.clone(), b.clone()], &matcher, &literals).unwrap();
    let other = collect(vec![b, a], &matcher, &literals).unwrap();
    let decoded = decode_items(encode_items(&one).as_str()).unwrap();
    assert_eq!(decoded, one);
    assert_eq!(decoded, other);
}
