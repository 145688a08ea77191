use surfing::{JSONParser, Marker};

fn extract_whole(input: &str) -> String {
    let mut parser = JSONParser::new();
    let mut out = String::new();
    parser.extract_json_from_stream(&mut out, input);
    out
}

#[test]
fn test_json_parser_empty() {
    let parser = JSONParser::new();
    assert!(!parser.is_in_json());
    assert_eq!(parser.depth(), 0);
}

#[test]
fn test_json_parser_extract_simple_json() {
    let mut parser = JSONParser::new();
    let mut buffer = String::new();
    parser.extract_json_from_stream(&mut buffer, "{}");
    assert!(!parser.is_in_json());
    assert_eq!(buffer, "{}");
}

#[test]
fn test_json_parser_extract_nested_json() {
    let mut parser = JSONParser::new();
    let mut buffer = String::new();
    parser.extract_json_from_stream(&mut buffer, "{\"key\": [1, 2, 3]}");
    assert!(!parser.is_in_json());
    assert_eq!(buffer, "{\"key\": [1, 2, 3]}");
}

#[test]
fn test_json_parser_extract_partial_json() {
    let mut parser = JSONParser::new();
    let mut buffer = String::new();
    parser.extract_json_from_stream(&mut buffer, "{\"key");
    assert!(parser.is_in_json());
    parser.extract_json_from_stream(&mut buffer, "\": [1, 2, 3]}");
    assert!(!parser.is_in_json());
    assert_eq!(buffer, "{\"key\": [1, 2, 3]}");
}

#[test]
fn test_json_parser_extract_json_mixed_with_text() {
    let mut parser = JSONParser::new();
    let mut buffer = String::new();

    parser.extract_json_from_stream(&mut buffer, "Some plain text {\"id\": 123, \"data\": ");
    assert!(parser.is_in_json());

    parser.extract_json_from_stream(&mut buffer, "{\"nested\": [1, 2, {\"deep\": true}]}}");
    assert!(!parser.is_in_json());

    parser.extract_json_from_stream(&mut buffer, " followed by more text");
    assert!(!parser.is_in_json());

    parser.extract_json_from_stream(&mut buffer, " and another {\"array\": [4, 5, 6]}");
    assert!(!parser.is_in_json());

    assert_eq!(
        buffer,
        "{\"id\": 123, \"data\": {\"nested\": [1, 2, {\"deep\": true}]}}{\"array\": [4, 5, 6]}"
    );
}

#[test]
fn test_marker_new() {
    let marker = Marker::new(&'{');
    assert!(marker.is_some());
    assert_eq!(marker.unwrap().expected_counterpart(), '}');

    let marker = Marker::new(&'[');
    assert!(marker.is_some());
    assert_eq!(marker.unwrap().expected_counterpart(), ']');

    let marker = Marker::new(&'x');
    assert!(marker.is_none());
}

#[test]
fn test_marker_is_counter_part() {
    let marker = Marker::new(&'{').unwrap();
    assert!(marker.is_counter_part(&'}'));
    assert!(!marker.is_counter_part(&']'));

    let marker = Marker::new(&'[').unwrap();
    assert!(marker.is_counter_part(&']'));
    assert!(!marker.is_counter_part(&'}'));
}

#[test]
fn closers_make_no_marker() {
    assert!(Marker::new(&'}').is_none());
    assert!(Marker::new(&']').is_none());
    assert!(Marker::new(&'"').is_none());
}

#[test]
fn chunked_extraction_equals_whole() {
    let input = "pre {\"a\": [1, {\"b\": 2}]} mid [3, 4] x}y {\"c\": \"z\"";
    let whole = extract_whole(input);
    assert_eq!(whole, "{\"a\": [1, {\"b\": 2}]}[3, 4]}{\"c\": \"z\"");

    let chars: Vec<char> = input.chars().collect();
    for cut in 0..=chars.len() {
        let first: String = chars[..cut].iter().collect();
        let second: String = chars[cut..].iter().collect();
        let mut parser = JSONParser::new();
        let mut out = String::new();
        parser.extract_json_from_stream(&mut out, &first);
        parser.extract_json_from_stream(&mut out, &second);
        assert_eq!(out, whole, "cut at {}", cut);
        assert!(parser.is_in_json());
    }

    let mut parser = JSONParser::new();
    let mut out = String::new();
    for c in input.chars() {
        parser.extract_json_from_stream(&mut out, &c.to_string());
    }
    assert_eq!(out, whole);
}

#[test]
fn single_span_is_extracted_exactly() {
    assert_eq!(extract_whole("some words {abc: 1} and more"), "{abc: 1}");
    assert_eq!(extract_whole("lead [1, 2, 3] tail"), "[1, 2, 3]");
    assert_eq!(extract_whole("{}"), "{}");
}

#[test]
fn open_until_last_closer() {
    let span = "{\"a\":[1,{\"b\":2}]}";
    let chars: Vec<char> = span.chars().collect();
    for k in 1..chars.len() {
        let prefix: String = chars[..k].iter().collect();
        let rest: String = chars[k..].iter().collect();
        let mut parser = JSONParser::new();
        let mut out = String::new();
        parser.extract_json_from_stream(&mut out, &prefix);
        assert!(parser.is_in_json(), "prefix of length {}", k);
        parser.extract_json_from_stream(&mut out, &rest);
        assert!(!parser.is_in_json());
        assert_eq!(out, span);
    }
}

#[test]
fn multiple_sequential_spans() {
    let mut parser = JSONParser::new();
    let mut out = String::new();
    parser.extract_json_from_stream(&mut out, "a{\"x\":1}b{\"y\":2}c");
    assert_eq!(out, "{\"x\":1}{\"y\":2}");
    assert!(!parser.is_in_json());
}

#[test]
fn nested_span_closes_only_at_the_end() {
    let input = "{\"k\":[1,2,{\"d\":true}]}";
    assert_eq!(extract_whole(input), input);

    let mut parser = JSONParser::new();
    let mut out = String::new();
    let n = input.chars().count();
    for (i, c) in input.chars().enumerate() {
        parser.extract_json_from_stream(&mut out, &c.to_string());
        assert_eq!(parser.is_in_json(), i + 1 < n, "after character {}", i);
    }
    assert_eq!(out, input);
}

#[test]
fn depth_counts_open_structures() {
    let mut parser = JSONParser::new();
    let mut out = String::new();
    parser.extract_json_from_stream(&mut out, "{[{");
    assert_eq!(parser.depth(), 3);
    parser.extract_json_from_stream(&mut out, "}");
    assert_eq!(parser.depth(), 2);
    parser.extract_json_from_stream(&mut out, "]}");
    assert_eq!(parser.depth(), 0);
}

#[test]
fn stray_closer_is_written_out() {
    assert_eq!(extract_whole("a}b]c"), "}]");
    let mut parser = JSONParser::new();
    let mut out = String::new();
    parser.extract_json_from_stream(&mut out, "}");
    assert!(!parser.is_in_json());
}

#[test]
fn closer_out_of_order_pops_innermost() {
    let mut parser = JSONParser::new();
    let mut out = String::new();
    parser.extract_json_from_stream(&mut out, "x{[}y");
    assert_eq!(out, "{[}y");
    assert_eq!(parser.depth(), 1);
    parser.extract_json_from_stream(&mut out, ")");
    assert_eq!(parser.depth(), 1);
    parser.extract_json_from_stream(&mut out, "]");
    assert_eq!(parser.depth(), 1);
    parser.extract_json_from_stream(&mut out, "}");
    assert_eq!(parser.depth(), 0);
    assert_eq!(out, "{[}y)]}");
}

#[test]
fn brackets_inside_strings_count() {
    assert_eq!(extract_whole("{\"s\":\"}\"}"), "{\"s\":\"}}");
}

#[test]
fn empty_and_plain_inputs_write_nothing() {
    assert_eq!(extract_whole(""), "");
    assert_eq!(extract_whole("no structure here"), "");
}

#[test]
fn output_is_appended_to_writer() {
    let mut parser = JSONParser::new();
    let mut out = String::from("kept:");
    parser.extract_json_from_stream(&mut out, "t[1]t");
    assert_eq!(out, "kept:[1]");
}

#[test]
fn extract_char_drops_text_outside_spans() {
    let mut parser = JSONParser::new();
    let mut out = String::new();
    parser.extract_char(&mut out, 'a');
    assert_eq!(out, "");
    parser.extract_char(&mut out, '[');
    parser.extract_char(&mut out, 'a');
    assert_eq!(out, "[a");
    assert!(parser.is_in_json());
}

#[test]
fn would_emit_leaves_the_parser_unchanged() {
    let mut parser = JSONParser::new();
    assert!(!parser.would_emit('a'));
    assert!(parser.would_emit('}'));
    assert!(parser.would_emit('{'));
    assert!(!parser.is_in_json());
    let mut out = String::new();
    parser.extract_char(&mut out, '{');
    assert!(parser.would_emit('a'));
    assert_eq!(parser.depth(), 1);
    assert_eq!(out, "{");
}
