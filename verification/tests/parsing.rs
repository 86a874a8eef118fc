//! Tests for the schema parser itself and a smoke test of the whole library.

use protobuf_native::parser::{parse, DiagKind};

#[test]
fn test_parse_imports_and_messages() {
    let input = b"syntax = \"proto3\";\nimport \"x/y.proto\";\nimport \"z.proto\";\nmessage Alpha { int a = 1; }\nmessage Beta {}\n"
        .to_vec();
    let (file, diags) = parse(&input);
    assert_eq!(diags.len(), 0);
    let (deps, msgs) = file.unwrap();
    assert_eq!(deps, vec![b"x/y.proto".to_vec(), b"z.proto".to_vec()]);
    assert_eq!(msgs, vec![b"Alpha".to_vec(), b"Beta".to_vec()]);
}

#[test]
fn test_parse_empty_input() {
    let (file, diags) = parse(&Vec::new());
    assert_eq!(diags.len(), 0);
    let (deps, msgs) = file.unwrap();
    assert_eq!(deps.len(), 0);
    assert_eq!(msgs.len(), 0);
}

#[test]
fn test_parse_nested_braces() {
    let input = b"message Outer { message Inner { int a = 1; } }\nmessage After {}\n".to_vec();
    let (file, diags) = parse(&input);
    assert_eq!(diags.len(), 0);
    let (_, msgs) = file.unwrap();
    // Nested declarations stay inside the outer body.
    assert_eq!(msgs, vec![b"Outer".to_vec(), b"After".to_vec()]);
}

#[test]
fn test_parse_unknown_declaration() {
    let input = b"option x = 1;\n".to_vec();
    let (file, diags) = parse(&input);
    assert!(file.is_none());
    assert_eq!(diags.len(), 1);
    assert_eq!(diags[0].kind, DiagKind::UnexpectedToken);
    assert_eq!(diags[0].line, 0);
    assert_eq!(diags[0].col, 0);
}

#[test]
fn test_parse_unterminated_string() {
    let input = b"import \"half\n".to_vec();
    let (file, diags) = parse(&input);
    assert!(file.is_none());
    assert_eq!(diags.len(), 1);
    assert_eq!(diags[0].kind, DiagKind::UnterminatedString);
}

#[test]
fn test_parse_missing_semicolon() {
    let input = b"import \"a.proto\" message M {}\n".to_vec();
    let (file, diags) = parse(&input);
    assert!(file.is_none());
    assert_eq!(diags.len(), 1);
    assert_eq!(diags[0].kind, DiagKind::ExpectedSemicolon);
    assert_eq!(diags[0].line, 0);
    assert_eq!(diags[0].col, 17);
}

#[test]
fn test_parse_missing_equals() {
    let input = b"syntax \"proto3\";".to_vec();
    let (file, diags) = parse(&input);
    assert!(file.is_none());
    assert_eq!(diags[0].kind, DiagKind::ExpectedEquals);
}

#[test]
fn test_parse_missing_name() {
    let input = b"message;".to_vec();
    let (file, diags) = parse(&input);
    assert!(file.is_none());
    assert_eq!(diags[0].kind, DiagKind::ExpectedName);
}

#[test]
fn test_parse_missing_brace() {
    let input = b"message M;".to_vec();
    let (file, diags) = parse(&input);
    assert!(file.is_none());
    assert_eq!(diags[0].kind, DiagKind::ExpectedBrace);
}

#[test]
fn test_parse_truncated_declaration() {
    let input = b"import".to_vec();
    let (file, diags) = parse(&input);
    assert!(file.is_none());
    assert_eq!(diags[0].kind, DiagKind::UnexpectedEnd);
}

#[test]
fn test_parse_style_warning_keeps_file() {
    let input = b"message snake_case {}".to_vec();
    let (file, diags) = parse(&input);
    assert!(file.is_some());
    assert_eq!(diags.len(), 1);
    assert_eq!(diags[0].kind, DiagKind::MessageNameStyle);
    assert_eq!(diags[0].line, 0);
    assert_eq!(diags[0].col, 8);
}

// Simple test that calls through the crate to verify the library links and
// computes.
#[test]
fn test_linkage() {
    let mut output = protobuf_native::io::CodedOutputStream::new();
    output.write_varint64(42).unwrap();
    let bytes = output.finish();
    assert_eq!(bytes, vec![42u8]);
    let mut input = protobuf_native::io::CodedInputStream::new(
        protobuf_native::io::SliceInputStream::new(&bytes),
    );
    assert_eq!(input.read_varint64().unwrap(), 42);
    assert!(input.consumed_entire_message());
}
