use senile::parser::{ContentParser, ContentParserParams, ParseErrorKind};

fn todo_pair() -> Vec<(String, String)> {
    vec![(String::from("// TODO!("), String::from("):"))]
}

fn parser_for(content: &str, literals: Vec<(String, String)>) -> ContentParser {
    ContentParser::new(
        String::from(content),
        ContentParserParams { file: String::from("src/a.rs"), literals },
    )
}

#[test]
fn unmatched_lines_yield_nothing() {
    let content = "fn main() {}\n// a comment\nlet x = 1;\n";
    let items = parser_for(content, todo_pair()).parse().unwrap();
    assert_eq!(items.len(), 0);
}

#[test]
fn empty_content_yields_nothing() {
    let items = parser_for("", todo_pair()).parse().unwrap();
    assert_eq!(items.len(), 0);
}

#[test]
fn basic_annotation() {
    let items = parser_for("// TODO!(1, alice, 0): fix bug", todo_pair()).parse().unwrap();
    assert_eq!(items.len(), 1);
    assert_eq!(items[0].priority, "1");
    assert_eq!(items[0].assignee, "alice");
    assert_eq!(items[0].body, "fix bug");
    assert_eq!(items[0].context.len(), 0);
    assert_eq!(items[0].file, "src/a.rs");
    assert_eq!(items[0].line, 0);
}

#[test]
fn context_lines_captured_untrimmed() {
    let content = "// TODO!(min, bob, 2): refactor\n  x\n  y";
    let items = parser_for(content, todo_pair()).parse().unwrap();
    assert_eq!(items.len(), 1);
    assert_eq!(items[0].priority, "min");
    assert_eq!(items[0].assignee, "bob");
    assert_eq!(items[0].body, "refactor");
    assert_eq!(items[0].context, vec![String::from("  x"), String::from("  y")]);
}

#[test]
fn context_truncated_at_end_of_file() {
    let content = "// TODO!(1, a, 5): short\nonly line";
    let items = parser_for(content, todo_pair()).parse().unwrap();
    assert_eq!(items.len(), 1);
    assert_eq!(items[0].context, vec![String::from("only line")]);
}

#[test]
fn context_lines_are_not_scanned() {
    let content = "// TODO!(1, a, 1): first\n// TODO!(2, b, 0): swallowed";
    let items = parser_for(content, todo_pair()).parse().unwrap();
    assert_eq!(items.len(), 1);
    assert_eq!(items[0].body, "first");
    assert_eq!(items[0].context, vec![String::from("// TODO!(2, b, 0): swallowed")]);
}

#[test]
fn line_numbers_count_context_lines() {
    let content = "// TODO!(1, a, 1): first\nctx\n// TODO!(2, b, 0): second";
    let items = parser_for(content, todo_pair()).parse().unwrap();
    assert_eq!(items.len(), 2);
    assert_eq!(items[0].line, 0);
    assert_eq!(items[1].line, 2);
}

#[test]
fn fields_and_line_are_trimmed() {
    let content = "   // TODO!( 0 ,  carol , 0):   padded body  ";
    let items = parser_for(content, todo_pair()).parse().unwrap();
    assert_eq!(items.len(), 1);
    assert_eq!(items[0].priority, "0");
    assert_eq!(items[0].assignee, "carol");
    assert_eq!(items[0].body, "padded body");
}

#[test]
fn plus_prefixed_count_is_accepted() {
    let content = "// TODO!(1, a, +1): x\nctx";
    let items = parser_for(content, todo_pair()).parse().unwrap();
    assert_eq!(items.len(), 1);
    assert_eq!(items[0].context, vec![String::from("ctx")]);
}

#[test]
fn extra_parameter_fields_are_ignored() {
    let content = "// TODO!(1, a, 0, extra): x";
    let items = parser_for(content, todo_pair()).parse().unwrap();
    assert_eq!(items.len(), 1);
    assert_eq!(items[0].priority, "1");
    assert_eq!(items[0].assignee, "a");
    assert_eq!(items[0].body, "x");
}

#[test]
fn first_configured_pair_wins() {
    let literals = vec![
        (String::from("// TODO!("), String::from("):")),
        (String::from("<<("), String::from(")>>")),
    ];
    let content = "<<(1,2,0))>> // TODO!(3,4,0): z";
    let items = parser_for(content, literals).parse().unwrap();
    assert_eq!(items.len(), 1);
    assert_eq!(items[0].priority, "3");
    assert_eq!(items[0].assignee, "4");
    assert_eq!(items[0].body, "z");
}

#[test]
fn authoritative_pair_is_the_first_that_matches() {
    // Only the second pair matches the head shape; the first pair's start
    // literal occurs near the end of the line but does not preempt it.
    let literals = vec![
        (String::from("A("), String::from("):")),
        (String::from("B("), String::from("):")),
    ];
    let items = parser_for("B(1,2,3): A(", literals).parse().unwrap();
    assert_eq!(items.len(), 1);
    assert_eq!(items[0].priority, "1");
    assert_eq!(items[0].assignee, "2");
    assert_eq!(items[0].body, "A(");
}

#[test]
fn short_start_of_a_non_matching_pair_is_ignored() {
    // The first pair's start literal occurs with too little text after it
    // to ever match, so the line parses with the pair that does match.
    let literals = vec![
        (String::from("A("), String::from("]]")),
        (String::from("B("), String::from(")")),
    ];
    let items = parser_for("B(1,2,3) A(", literals).parse().unwrap();
    assert_eq!(items.len(), 1);
    assert_eq!(items[0].priority, "1");
    assert_eq!(items[0].assignee, "2");
    assert_eq!(items[0].body, "A(");
}

#[test]
fn endless_start_of_a_non_matching_pair_is_ignored() {
    // The first pair's start literal occurs but its end literal never
    // follows, so that pair does not match and the second one parses.
    let literals = vec![
        (String::from("A("), String::from("]]")),
        (String::from("B("), String::from(")")),
    ];
    let items = parser_for("B(1,2,3)xx A(some more text", literals).parse().unwrap();
    assert_eq!(items.len(), 1);
    assert_eq!(items[0].priority, "1");
    assert_eq!(items[0].assignee, "2");
    assert_eq!(items[0].body, "xx A(some more text");
}

#[test]
fn too_few_fields_is_an_error() {
    // The head shape matches thanks to a later closing literal, but the
    // first closing literal cuts the parameter list down to one field.
    let literals = vec![(String::from("T("), String::from(")"))];
    let err = parser_for("T(a) T(1,2,3)", literals).parse().unwrap_err();
    assert_eq!(err.line, 0);
    assert_eq!(err.kind, ParseErrorKind::MissingFields);
}

#[test]
fn non_numeric_count_is_an_error() {
    let err = parser_for("// TODO!(1, alice, x): hi", todo_pair()).parse().unwrap_err();
    assert_eq!(err.line, 0);
    assert_eq!(err.kind, ParseErrorKind::BadCount);
}

#[test]
fn overflowing_count_is_an_error() {
    let err = parser_for("// TODO!(1, alice, 99999999999999999999): hi", todo_pair())
        .parse()
        .unwrap_err();
    assert_eq!(err.kind, ParseErrorKind::BadCount);
}

#[test]
fn error_discards_the_whole_file() {
    let content = "// TODO!(1, a, 0): good\n// TODO!(2, b, zzz): bad";
    let err = parser_for(content, todo_pair()).parse().unwrap_err();
    assert_eq!(err.line, 1);
    assert_eq!(err.kind, ParseErrorKind::BadCount);
}

#[test]
fn annotation_shorter_than_shape_is_skipped() {
    // Two fields only: the grammar needs three, so the line never matches
    // and is skipped silently rather than failing the file.
    let content = "// TODO!(1, alice): no count";
    let items = parser_for(content, todo_pair()).parse().unwrap();
    assert_eq!(items.len(), 0);
}

#[test]
fn head_of_exactly_minimal_length_parses() {
    // start (2) + three one-character fields (3) + two separators (2) +
    // end (2) = 9 characters
    let literals = vec![(String::from("T("), String::from("):"))];
    let items = ContentParser::new(
        String::from("T(a,b,0):"),
        ContentParserParams { file: String::from("f"), literals },
    )
        .parse()
        .unwrap();
    assert_eq!(items.len(), 1);
    assert_eq!(items[0].priority, "a");
    assert_eq!(items[0].assignee, "b");
    assert_eq!(items[0].body, "");
}

#[test]
fn unicode_whitespace_is_trimmed() {
    // no-break spaces around the line, the fields and the body
    let content = "\u{a0}// TODO!(\u{a0}1\u{a0}, alice, 0):\u{a0}x\u{a0}";
    let items = parser_for(content, todo_pair()).parse().unwrap();
    assert_eq!(items.len(), 1);
    assert_eq!(items[0].priority, "1");
    assert_eq!(items[0].assignee, "alice");
    assert_eq!(items[0].body, "x");
}
