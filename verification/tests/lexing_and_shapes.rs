use adf::AdfError;
use adf::Lexer;
use adf::TokenType;
use adf::parse;
use adf::parse_with_options;
use adf::ParseOptions;
use adf::object_get;

#[test]
fn test_quote_run_must_match_exactly() {
    // The block opens with three quotes; a run of four quotes does not close
    // it, nor does a run of two; only exactly three do.
    let text = "# a:\nbody = \"\"\"\nx\n\"\"\"\"\n\"\"\n\"\"\"\n";
    let doc = parse(text).unwrap();
    let body_value = doc.get("a.body").unwrap();
    let body = body_value.as_str().unwrap();
    assert_eq!(body, "x\n\"\"\"\"\n\"\"");
}

#[test]
fn test_quoted_value_single_line() {
    let text = "# a:\nname = \"\"\"hello world\"\"\"\n";
    let doc = parse(text).unwrap();
    assert_eq!(doc.get("a.name").unwrap().as_str().unwrap(), "hello world");
}

#[test]
fn test_multiline_text_is_never_inferred() {
    // "42" as a bare value becomes an integer, but multiline-sourced text
    // always stays text.
    let text = "# a:\nplain = 42\nblock = \"\"\"\n42\n\"\"\"\n";
    let doc = parse(text).unwrap();
    assert!(doc.get("a.plain").unwrap().is_integer());
    let block = doc.get("a.block").unwrap();
    assert!(block.is_string());
    assert_eq!(block.as_str().unwrap(), "42");
}

#[test]
fn test_trailing_blank_is_not_object_array() {
    // A blank line with no further content after it does not make an object
    // array.
    let text = "# a:\nx = 1\n\n";
    let doc = parse(text).unwrap();
    assert_eq!(doc.get("a.x").unwrap().as_i64().unwrap(), 1);
}

#[test]
fn test_leading_blank_is_not_object_array() {
    let text = "# a:\n\nx = 1\n";
    let doc = parse(text).unwrap();
    assert_eq!(doc.get("a.x").unwrap().as_i64().unwrap(), 1);
}

#[test]
fn test_inference_precedence_and_case() {
    let text = "#:\nb1 = TRUE\nb2 = False\nn = 42\nf = 1e3\ns = hello\nplus = +7\n";
    let doc = parse(text).unwrap();
    assert_eq!(doc.get("b1").unwrap().as_bool().unwrap(), true);
    assert_eq!(doc.get("b2").unwrap().as_bool().unwrap(), false);
    assert_eq!(doc.get("n").unwrap().as_i64().unwrap(), 42);
    assert_eq!(doc.get("f").unwrap().as_float_lit().unwrap(), "1e3");
    assert!(doc.get("s").unwrap().is_string());
    assert_eq!(doc.get("plus").unwrap().as_i64().unwrap(), 7);
}

#[test]
fn test_integer_bounds() {
    let text = "#:\nbig = 9223372036854775807\nsmall = -9223372036854775808\nover = 9223372036854775808\n";
    let doc = parse(text).unwrap();
    assert_eq!(doc.get("big").unwrap().as_i64().unwrap(), i64::MAX);
    assert_eq!(doc.get("small").unwrap().as_i64().unwrap(), i64::MIN);
    // One past the maximum is no integer; it still reads as a float literal.
    assert!(doc.get("over").unwrap().is_float());
}

#[test]
fn test_inference_off_keeps_text() {
    let options = ParseOptions { infer_types: false, strict: false };
    let doc = parse_with_options("#:\nn = 42\nb = true\n", options).unwrap();
    assert_eq!(doc.get("n").unwrap().as_str().unwrap(), "42");
    assert_eq!(doc.get("b").unwrap().as_str().unwrap(), "true");
}

#[test]
fn test_relative_sections_overwrite() {
    let text = "s:\nx = 1\ns:\ny = 2\n";
    let doc = parse(text).unwrap();
    let rel = doc.relative_sections();
    let s_val = object_get(rel, &"s".to_string()).unwrap();
    let s = s_val.as_object().unwrap();
    assert!(object_get(s, &"x".to_string()).is_none());
    assert_eq!(
        object_get(s, &"y".to_string()).unwrap().as_i64().unwrap(),
        2
    );
}

#[test]
fn test_nested_key_conflict_is_validation_error() {
    // The nested-key rule: `x` already holds a non-object, so `x.y` is a
    // validation error naming the offending segment.
    let text = "# a:\nx = 1\nx.y = 2\n";
    let r = parse(text);
    match r {
        Err(AdfError::ValidationError { path, message }) => {
            assert_eq!(path, "x");
            assert!(message.contains("'x'"));
        }
        other => panic!("expected a validation error, got {:?}", other),
    }
}

#[test]
fn test_section_path_conflict_is_validation_error() {
    let text = "# a:\nx = 1\n# a.x.y:\nz = 1\n";
    let r = parse(text);
    assert!(matches!(r, Err(AdfError::ValidationError { .. })));
}

#[test]
fn test_unicode_header_segment() {
    // Alphanumeric path segments go by the Unicode classification.
    let text = "# caf\u{e9}:\nx = 1\n";
    let doc = parse(text).unwrap();
    assert_eq!(doc.get("caf\u{e9}.x").unwrap().as_i64().unwrap(), 1);
}

#[test]
fn test_invalid_header_is_scalar_line() {
    // A line ending with a colon whose path has a bad character is not a
    // header; it is a bare scalar in the current section.
    let text = "# a:\nnot a header:\n";
    let doc = parse(text).unwrap();
    let a_value = doc.get("a").unwrap();
    let a = a_value.as_array().unwrap();
    assert_eq!(a.len(), 1);
    assert_eq!(a[0].as_str().unwrap(), "not a header:");
}

#[test]
fn test_constraint_annotation_on_token() {
    let mut lexer = Lexer::new();
    let tokens = lexer.tokenize("x = 5 (minimum)\n").unwrap();
    assert_eq!(tokens.len(), 1);
    assert!(tokens[0].token_type == TokenType::KeyValue);
    assert_eq!(tokens[0].key.as_deref().unwrap(), "x");
    assert_eq!(tokens[0].value.as_deref().unwrap(), "5");
    assert_eq!(tokens[0].constraint.as_deref().unwrap(), "minimum");
}

#[test]
fn test_tokenizer_token_kinds() {
    let mut lexer = Lexer::new();
    let tokens = lexer
        .tokenize("# a:\n\nkey = v\nbare\nrel.path:\nm = \"\"\"\nline\n\"\"\"\n")
        .unwrap();
    let kinds: Vec<TokenType> = tokens.iter().map(|t| t.token_type).collect();
    assert_eq!(
        kinds,
        vec![
            TokenType::AbsoluteHeader,
            TokenType::BlankLine,
            TokenType::KeyValue,
            TokenType::ScalarValue,
            TokenType::RelativeHeader,
            TokenType::MultilineStart,
            TokenType::MultilineContent,
            TokenType::MultilineEnd,
        ]
    );
    assert_eq!(tokens[0].path.as_deref().unwrap(), "a");
    assert_eq!(tokens[0].is_absolute, Some(true));
    assert_eq!(tokens[4].path.as_deref().unwrap(), "rel.path");
    assert_eq!(tokens[4].is_absolute, Some(false));
    assert_eq!(tokens[5].quote_count, Some(3));
}

#[test]
fn test_carriage_return_line_endings() {
    let text = "# a:\r\nx = 1\r\ny = two\r\n";
    let doc = parse(text).unwrap();
    assert_eq!(doc.get("a.x").unwrap().as_i64().unwrap(), 1);
    assert_eq!(doc.get("a.y").unwrap().as_str().unwrap(), "two");
}

#[test]
fn test_root_section_header_alone() {
    let text = "#:\nk = v\n";
    let doc = parse(text).unwrap();
    assert_eq!(doc.get("k").unwrap().as_str().unwrap(), "v");
}

#[test]
fn test_relative_path_conflict_is_validation_error() {
    // The first relative section stores an array at `s`; descending through
    // it from a later relative header is a path conflict.
    let text = "s:\none\ntwo\ns.b:\nx = 1\n";
    let r = parse(text);
    assert!(matches!(r, Err(AdfError::ValidationError { .. })));
}

#[test]
fn test_scalar_array_at_root_is_dropped() {
    // Setting the empty path to a non-object does nothing: bare lines under
    // the root header leave the root empty.
    let text = "#:\none\ntwo\n";
    let doc = parse(text).unwrap();
    assert_eq!(doc.as_map().len(), 0);
}
