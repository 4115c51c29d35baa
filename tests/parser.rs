use json_stream::parser::{Event, EventKind, Parser, PE};

fn event(parser: &mut Parser, data: &str) -> (EventKind, String, String) {
    let ev: Event = parser.parse(data).unwrap();
    (ev.kind, ev.text, ev.path)
}

fn expect(parser: &mut Parser, data: &str, kind: EventKind, text: &str, path: &str) {
    let (k, t, p) = event(parser, data);
    assert_eq!(k, kind);
    assert_eq!(t, text);
    assert_eq!(p, path);
}

#[test]
fn empty_object_then_end_of_data() {
    let mut parser = Parser::new(512);
    let data = "{}";
    expect(&mut parser, data, EventKind::BeginObject, "{", "$");
    expect(&mut parser, data, EventKind::EndObject, "}", "$");
    assert_eq!(parser.parse(data).err(), Some(PE::EndOfData));
}

#[test]
fn object_with_array_member() {
    let mut parser = Parser::new(512);
    let data = "{\"a\":[1,2]}";
    expect(&mut parser, data, EventKind::BeginObject, "{", "$");
    expect(&mut parser, data, EventKind::ObjectKey, "a", "$.a");
    expect(&mut parser, data, EventKind::BeginArray, "[", "$.a");
    expect(&mut parser, data, EventKind::NumberValue, "1", "$.a[0]");
    expect(&mut parser, data, EventKind::NumberValue, "2", "$.a[1]");
    expect(&mut parser, data, EventKind::EndArray, "]", "$.a");
    expect(&mut parser, data, EventKind::EndObject, "}", "$");
    assert_eq!(parser.parse(data).err(), Some(PE::EndOfData));
}

#[test]
fn nested_paths_and_sibling_keys() {
    let mut parser = Parser::new(8);
    let data = " { \"x\" : { \"y\" : \"v\" } , \"z\" : [ [ ] , { } , \"w\" ] } ";
    expect(&mut parser, data, EventKind::BeginObject, "{", "$");
    expect(&mut parser, data, EventKind::ObjectKey, "x", "$.x");
    expect(&mut parser, data, EventKind::BeginObject, "{", "$.x");
    expect(&mut parser, data, EventKind::ObjectKey, "y", "$.x.y");
    expect(&mut parser, data, EventKind::StringValue, "v", "$.x.y");
    expect(&mut parser, data, EventKind::EndObject, "}", "$.x");
    expect(&mut parser, data, EventKind::ObjectKey, "z", "$.z");
    expect(&mut parser, data, EventKind::BeginArray, "[", "$.z");
    expect(&mut parser, data, EventKind::BeginArray, "[", "$.z[0]");
    expect(&mut parser, data, EventKind::EndArray, "]", "$.z[0]");
    expect(&mut parser, data, EventKind::BeginObject, "{", "$.z[1]");
    expect(&mut parser, data, EventKind::EndObject, "}", "$.z[1]");
    expect(&mut parser, data, EventKind::StringValue, "w", "$.z[2]");
    expect(&mut parser, data, EventKind::EndArray, "]", "$.z");
    expect(&mut parser, data, EventKind::EndObject, "}", "$");
    assert_eq!(parser.parse(data).err(), Some(PE::EndOfData));
}

#[test]
fn array_index_with_two_digits() {
    let mut parser = Parser::new(4);
    let data = "[0,1,2,3,4,5,6,7,8,9,10]";
    expect(&mut parser, data, EventKind::BeginArray, "[", "$");
    for i in 0..=10 {
        let text = format!("{}", i);
        let path = format!("$[{}]", i);
        expect(&mut parser, data, EventKind::NumberValue, &text, &path);
    }
    expect(&mut parser, data, EventKind::EndArray, "]", "$");
}

#[test]
fn events_across_buffers() {
    let mut parser = Parser::new(512);
    expect(&mut parser, "{\"k", EventKind::BeginObject, "{", "$");
    assert_eq!(parser.parse("{\"k").err(), Some(PE::NeedMoreData));
    parser.tokenizer.next_buffer();
    expect(&mut parser, "ey\": \"v\\", EventKind::ObjectKey, "key", "$.key");
    assert_eq!(parser.parse("ey\": \"v\\").err(), Some(PE::NeedMoreData));
    parser.tokenizer.next_buffer();
    expect(&mut parser, "u0031\"}", EventKind::StringValue, "v1", "$.key");
    expect(&mut parser, "u0031\"}", EventKind::EndObject, "}", "$");
}

#[test]
fn close_bracket_on_empty_stack_is_unbalanced() {
    let mut parser = Parser::new(512);
    assert_eq!(parser.parse("]").err(), Some(PE::UnbalancedClose));
}

#[test]
fn close_bracket_in_object_is_unbalanced() {
    let mut parser = Parser::new(512);
    let data = "{]";
    expect(&mut parser, data, EventKind::BeginObject, "{", "$");
    assert_eq!(parser.parse(data).err(), Some(PE::UnbalancedClose));
}

#[test]
fn close_brace_in_array_is_unbalanced() {
    let mut parser = Parser::new(512);
    let data = "[}";
    expect(&mut parser, data, EventKind::BeginArray, "[", "$");
    assert_eq!(parser.parse(data).err(), Some(PE::UnbalancedClose));
}

#[test]
fn close_after_document_is_unbalanced() {
    let mut parser = Parser::new(512);
    let data = "[]]";
    expect(&mut parser, data, EventKind::BeginArray, "[", "$");
    expect(&mut parser, data, EventKind::EndArray, "]", "$");
    assert_eq!(parser.parse(data).err(), Some(PE::UnbalancedClose));
}

#[test]
fn nesting_beyond_capacity_is_refused() {
    let mut parser = Parser::new(2);
    let data = "[[[1]]]";
    expect(&mut parser, data, EventKind::BeginArray, "[", "$");
    expect(&mut parser, data, EventKind::BeginArray, "[", "$[0]");
    assert_eq!(parser.parse(data).err(), Some(PE::CapacityExceeded));
}

#[test]
fn zero_capacity_refuses_any_container() {
    let mut parser = Parser::new(0);
    assert_eq!(parser.parse("{").err(), Some(PE::CapacityExceeded));
}

#[test]
fn missing_colon_is_unexpected() {
    let mut parser = Parser::new(512);
    let data = "{\"a\" 1}";
    expect(&mut parser, data, EventKind::BeginObject, "{", "$");
    expect(&mut parser, data, EventKind::ObjectKey, "a", "$.a");
    assert_eq!(parser.parse(data).err(), Some(PE::UnexpectedToken));
}

#[test]
fn second_document_value_is_unexpected() {
    let mut parser = Parser::new(512);
    let data = "{} {";
    expect(&mut parser, data, EventKind::BeginObject, "{", "$");
    expect(&mut parser, data, EventKind::EndObject, "}", "$");
    assert_eq!(parser.parse(data).err(), Some(PE::UnexpectedToken));
}

#[test]
fn top_level_string_value() {
    let mut parser = Parser::new(512);
    let data = "\"only\"";
    expect(&mut parser, data, EventKind::StringValue, "only", "$");
    assert_eq!(parser.parse(data).err(), Some(PE::EndOfData));
}

#[test]
fn lexical_errors_pass_through() {
    let mut parser = Parser::new(512);
    expect(&mut parser, "{x", EventKind::BeginObject, "{", "$");
    assert_eq!(parser.parse("{x").err(), Some(PE::WrongFormat(1)));
    let mut parser = Parser::new(512);
    let data = "[\"\\x\"]";
    expect(&mut parser, data, EventKind::BeginArray, "[", "$");
    assert_eq!(parser.parse(data).err(), Some(PE::WrongEscapeSequence(3)));
}

#[test]
fn path_text_of_a_fresh_parser() {
    let parser = Parser::new(1);
    assert_eq!(parser.path_text(), "$");
}

#[test]
fn parser_error_offset_counts_bytes() {
    let mut parser = Parser::new(4);
    let data = "{\"\u{e9}\":x}";
    expect(&mut parser, data, EventKind::BeginObject, "{", "$");
    expect(&mut parser, data, EventKind::ObjectKey, "\u{e9}", "$.\u{e9}");
    assert_eq!(parser.parse(data).err(), Some(PE::WrongFormat(6)));
}

fn first_error(data: &str) -> PE {
    let mut parser = Parser::new(8);
    loop {
        match parser.parse(data) {
            Ok(_) => {}
            Err(e) => return e,
        }
    }
}

#[test]
fn commas_only_between_members() {
    assert_eq!(first_error("[1 2]"), PE::UnexpectedToken);
    assert_eq!(first_error("[,1]"), PE::UnexpectedToken);
    assert_eq!(first_error("[1,]"), PE::UnexpectedToken);
    assert_eq!(first_error("[1,,2]"), PE::UnexpectedToken);
    assert_eq!(first_error("{,}"), PE::UnexpectedToken);
    assert_eq!(first_error("{\"a\":1 \"b\":2}"), PE::UnexpectedToken);
    assert_eq!(first_error("{\"a\":1,}"), PE::UnexpectedToken);
    assert_eq!(first_error("{\"a\":1,,\"b\":2}"), PE::UnexpectedToken);
    assert_eq!(first_error("[1,{\"a\":[]},\"x\"] "), PE::EndOfData);
}

#[test]
fn close_bracket_after_member_is_unbalanced() {
    assert_eq!(first_error("{\"a\":1]"), PE::UnbalancedClose);
    assert_eq!(first_error("[1}"), PE::UnbalancedClose);
}

#[test]
fn surrogate_pair_through_parser() {
    let mut parser = Parser::new(4);
    let data = "[\"\\uD83D\\uDE00\"]";
    expect(&mut parser, data, EventKind::BeginArray, "[", "$");
    expect(&mut parser, data, EventKind::StringValue, "\u{1F600}", "$[0]");
    expect(&mut parser, data, EventKind::EndArray, "]", "$");
}
