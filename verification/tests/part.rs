use tree_doc::part::{parse_kv_pair, parse_line, parse_meta_block, parse_quoted_string, ComplexKind, Input, Kind, NodeName, Span};

struct SpanCase<'a> {
    input: &'a str,
    offset: usize,
    line: usize,
    column: usize,
}

#[test]
fn test_span_from_offset() {
    let inputs = [
        SpanCase { input: "hello\nworld", offset: 0, line: 1, column: 1 },
        SpanCase { input: "hello\nworld", offset: 0, line: 1, column: 1 },
        SpanCase { input: "hello\nworld", offset: 4, line: 1, column: 5 },
        SpanCase { input: "hello\nworld", offset: 6, line: 2, column: 1 },
        SpanCase { input: "hello\nworld", offset: 10, line: 2, column: 5 },
        SpanCase { input: "a\nb\nc", offset: 2, line: 2, column: 1 },
        SpanCase { input: "a\nb\nc", offset: 4, line: 3, column: 1 },
        SpanCase { input: "", offset: 0, line: 1, column: 1 },
        SpanCase { input: "\n", offset: 1, line: 2, column: 1 },
        SpanCase { input: "hello\nworld", offset: 11, line: 2, column: 6 },
    ];
    for tc in inputs {
        let span = Span::from_offset(tc.input, tc.offset);
        assert!(span.line == tc.line, "input: {:?}, offset: {}", tc.input, tc.offset);
        assert!(span.column == tc.column, "input: {:?}, offset: {}", tc.input, tc.offset);
    }
}

#[test]
fn test_span_from_offset_multibyte_columns_count_bytes() {
    let input = "日本\nab";
    assert_eq!(Span::from_offset(input, 3), Span { line: 1, column: 4 });
    assert_eq!(Span::from_offset(input, 7), Span { line: 2, column: 1 });
    assert_eq!(Span::from_offset(input, 9), Span { line: 2, column: 3 });
}

struct LineCase<'a> {
    raw: &'a str,
    some: bool,
    indent: usize,
    name: Option<&'a str>,
    kind: Kind,
}

#[test]
fn test_parse_line() {
    let inputs = [
        LineCase { raw: r#"- servers { type: "map", name: "servers" }"#, some: true, indent: 0, name: Some("servers"), kind: Kind::Complex(ComplexKind::Mapping) },
        LineCase { raw: r#"- root { type: "struct" }"#, some: true, indent: 0, name: None, kind: Kind::Complex(ComplexKind::Struct) },
        LineCase { raw: r#"  - child { type: "array", name: "items" }"#, some: true, indent: 2, name: Some("items"), kind: Kind::Complex(ComplexKind::Array) },
        LineCase { raw: r#"- host"#, some: false, indent: 0, name: None, kind: Kind::Leaf },
        LineCase { raw: r#"- root{} { type: "struct" }"#, some: true, indent: 0, name: None, kind: Kind::Complex(ComplexKind::Struct) },
    ];
    for tc in inputs {
        let mut input = Input::new(tc.raw);
        let result = parse_line(&mut input).unwrap();
        assert!(result.info.is_some() == tc.some, "input: {}", tc.raw);
        assert!(result.indent == tc.indent, "input: {}", tc.raw);
        let Some(p) = result.info else { continue };
        let expected_name = match tc.name {
            Some(s) => NodeName::AsField(s.to_string()),
            None => NodeName::Anonymous,
        };
        assert!(p.name == expected_name, "input: {}", tc.raw);
        assert!(p.kind == tc.kind, "input: {}", tc.raw);
    }
}

#[test]
fn test_parse_line_bare_line_leaves_input_unread() {
    let mut input = Input::new("   - just text");
    let line = parse_line(&mut input).unwrap();
    assert_eq!(line.indent, 3);
    assert!(line.info.is_none());
    assert_eq!(input.current_token_start(), 0);
    assert_eq!(input.rest(), "   - just text");
}

#[test]
fn test_parse_line_unknown_type_is_bare() {
    let mut input = Input::new(r#"- x { type: "tuple" }"#);
    let line = parse_line(&mut input).unwrap();
    assert!(line.info.is_none());
}

#[test]
fn test_parse_line_failures() {
    let mut input = Input::new("  * no dash");
    assert!(parse_line(&mut input).is_err());
    assert_eq!(input.current_token_start(), 2);
    // Two characters of three bytes each before the end: the free text is
    // taken as six characters, and only two follow the dash.
    let mut input = Input::new("- 日本");
    assert!(parse_line(&mut input).is_err());
    assert_eq!(input.current_token_start(), 2);
}

#[test]
fn test_parse_line_multibyte_text_before_block() {
    // The free text is taken as many characters as it has bytes, which here
    // runs into the block: the line is bare.
    let mut input = Input::new(r#"- é { type: "struct", name: "x" }"#);
    let line = parse_line(&mut input).unwrap();
    assert!(line.info.is_none());
}

#[test]
fn test_parse_line_trailing_text_after_block() {
    let mut input = Input::new(r#"- a { type: "struct" }   rest"#);
    let line = parse_line(&mut input).unwrap();
    assert!(line.info.is_some());
    assert_eq!(input.rest(), "rest");
}

struct MetaCase<'a> {
    raw: &'a str,
    kind: Kind,
    name: Option<&'a str>,
}

#[test]
fn test_parse_meta_block() {
    let inputs = [
        MetaCase { raw: r#"{ type: "array", name: "crates" }"#, kind: Kind::Complex(ComplexKind::Array), name: Some("crates") },
        MetaCase { raw: r#"{ type: "map", name: "servers" }"#, kind: Kind::Complex(ComplexKind::Mapping), name: Some("servers") },
        MetaCase { raw: r#"{ type: "struct" }"#, kind: Kind::Complex(ComplexKind::Struct), name: None },
        MetaCase { raw: r#"{ name: "foo", type: "array" }"#, kind: Kind::Complex(ComplexKind::Array), name: Some("foo") },
        MetaCase { raw: r#"{ name: "foo" }"#, kind: Kind::Leaf, name: Some("foo") },
    ];
    for tc in inputs {
        let mut input = Input::new(tc.raw);
        let (kind, name) = parse_meta_block(&mut input).unwrap();
        assert!(kind == tc.kind, "input: {}", tc.raw);
        let expected_name = match tc.name {
            Some(s) => NodeName::AsField(s.to_string()),
            None => NodeName::Anonymous,
        };
        assert!(name == expected_name, "input: {}", tc.raw);
    }
}

#[test]
fn test_parse_meta_block_edges() {
    let mut input = Input::new("{}");
    let (kind, name) = parse_meta_block(&mut input).unwrap();
    assert!(kind == Kind::Leaf);
    assert!(name == NodeName::Anonymous);
    assert_eq!(input.rest(), "");

    // The first pair with a key wins.
    let mut input = Input::new(r#"{ name: "a", name: "b", type: "map", type: "array" }"#);
    let (kind, name) = parse_meta_block(&mut input).unwrap();
    assert!(kind == Kind::Complex(ComplexKind::Mapping));
    assert!(name == NodeName::AsField("a".to_string()));

    // An unknown type fails after the block.
    let mut input = Input::new(r#"{ type: "tuple" } x"#);
    assert!(parse_meta_block(&mut input).is_err());
    assert_eq!(input.rest(), " x");

    // A missing brace fails where the brace should be.
    let mut input = Input::new(r#"{ type: "struct" "#);
    assert!(parse_meta_block(&mut input).is_err());
    assert_eq!(input.current_token_start(), 17);

    let mut input = Input::new("no brace");
    assert!(parse_meta_block(&mut input).is_err());
    assert_eq!(input.current_token_start(), 0);
}

struct KvCase<'a> {
    raw: &'a str,
    key: &'a str,
    val: &'a str,
}

#[test]
fn test_parse_kv_pair() {
    let inputs = [
        KvCase { raw: r#"type: "struct""#, key: "type", val: "struct" },
        KvCase { raw: r#"name: "servers""#, key: "name", val: "servers" },
        KvCase { raw: r#"  type: "array"  "#, key: "type", val: "array" },
    ];
    for tc in inputs {
        let mut input = Input::new(tc.raw);
        let (k, v) = parse_kv_pair(&mut input).unwrap();
        assert!(k == tc.key, "input: {}", tc.raw);
        assert!(v == tc.val, "input: {}", tc.raw);
    }
}

#[test]
fn test_parse_kv_pair_edges() {
    // The key is trimmed of Unicode white space on both sides.
    let mut input = Input::new("\u{3000} my key\u{a0} :\t\"v\" tail");
    let (k, v) = parse_kv_pair(&mut input).unwrap();
    assert_eq!(k, "my key");
    assert_eq!(v, "v");
    assert_eq!(input.rest(), " tail");

    // No key at all.
    let mut input = Input::new(r#"  : "v""#);
    assert!(parse_kv_pair(&mut input).is_err());
    assert_eq!(input.current_token_start(), 2);

    // No colon.
    let mut input = Input::new("key");
    assert!(parse_kv_pair(&mut input).is_err());
    assert_eq!(input.current_token_start(), 3);

    // No quoted value.
    let mut input = Input::new("key: v");
    assert!(parse_kv_pair(&mut input).is_err());
    assert_eq!(input.current_token_start(), 5);
}

struct QuotedCase<'a> {
    raw: &'a str,
    exp: &'a str,
}

#[test]
fn test_parse_quoted_string() {
    let inputs = [
        QuotedCase { raw: r#""hello world""#, exp: "hello world" },
        QuotedCase { raw: r#""""#, exp: "" },
        QuotedCase { raw: r#""path/to/crate.a""#, exp: "path/to/crate.a" },
        QuotedCase { raw: r#""v3""#, exp: "v3" },
    ];
    for tc in inputs {
        let mut input = Input::new(tc.raw);
        let s = parse_quoted_string(&mut input).unwrap();
        assert!(s == tc.exp, "input: {}", tc.raw);
    }
}

struct NastyCase<'a> {
    raw: &'a str,
    exp: &'a str,
    rest: &'a str,
}

#[test]
fn test_parse_quoted_string_nasty() {
    let inputs = [
        NastyCase { raw: r#"""trailing"#, exp: "", rest: "trailing" },
        NastyCase { raw: r#"""trailing"#, exp: "", rest: "trailing" },
        NastyCase { raw: r#""a"b""#, exp: "a", rest: r#"b""# },
        NastyCase { raw: r#""foo"bar"baz""#, exp: "foo", rest: r#"bar"baz""# },
        NastyCase { raw: r#""  spaces  ""#, exp: "  spaces  ", rest: "" },
        NastyCase { raw: r#""a""#, exp: "a", rest: "" },
        NastyCase { raw: r#""{ type: ""struct"" }""#, exp: "{ type: ", rest: r#""struct"" }""# },
        NastyCase { raw: r#""colons:here:and:here""#, exp: "colons:here:and:here", rest: "" },
        NastyCase { raw: r#""commas,and,stuff""#, exp: "commas,and,stuff", rest: "" },
        NastyCase { raw: r#""日本語""#, exp: "日本語", rest: "" },
        NastyCase { raw: r#""\n\t""#, exp: r#"\n\t"#, rest: "" },
        NastyCase { raw: r#""   ""#, exp: "   ", rest: "" },
        NastyCase { raw: r#""{}[]()<>""#, exp: "{}[]()<>", rest: "" },
        NastyCase { raw: r#""a""b""c""#, exp: "a", rest: r#""b""c""# },
        NastyCase { raw: r#""""""""#, exp: "", rest: r#""""""# },
        NastyCase { raw: r#""hello"world"#, exp: "hello", rest: "world" },
        NastyCase { raw: r#""\"hello"world"#, exp: "\"hello", rest: "world" },
        NastyCase { raw: r#""hello\""world"#, exp: "hello\"", rest: "world" },
        NastyCase { raw: r#""""#, exp: "", rest: "" },
        NastyCase { raw: r#""  ""#, exp: "  ", rest: "" },
        NastyCase { raw: r#""a b c d e f g""#, exp: "a b c d e f g", rest: "" },
    ];
    for tc in inputs {
        let mut input = Input::new(tc.raw);
        let s = parse_quoted_string(&mut input).unwrap();
        assert!(s == tc.exp, "input: {}", tc.raw);
        assert!(input.rest() == tc.rest, "input: {}", tc.raw);
    }
    let bad_inputs: &[&str] = &[r#"no quotes"#, r#""unclosed"#, "", r#"""#];
    for raw in bad_inputs {
        let mut input = Input::new(*raw);
        assert!(parse_quoted_string(&mut input).is_err(), "should fail: {raw}");
    }
}

#[test]
fn test_parse_quoted_string_escapes_and_failure_positions() {
    // A backslash before anything but a quote stands for itself.
    let mut input = Input::new(r#""a\\b\é" x"#);
    assert_eq!(parse_quoted_string(&mut input).unwrap(), r#"a\\b\é"#);
    assert_eq!(input.rest(), " x");

    // No opening quote: nothing is read.
    let mut input = Input::new("x\"");
    assert!(parse_quoted_string(&mut input).is_err());
    assert_eq!(input.current_token_start(), 0);

    // Running out: the input stands at its end.
    let mut input = Input::new(r#""abc\"#);
    assert!(parse_quoted_string(&mut input).is_err());
    assert_eq!(input.rest(), "");
}

#[test]
fn test_parse_quoted_string_escaped_round_trip() {
    for s in ["plain", "say \"hi\"", "\"", "\"\"x\"", "日本\"語", ""] {
        let quoted = format!("\"{}\"rest", s.replace('"', "\\\""));
        let mut input = Input::new(&quoted);
        assert_eq!(parse_quoted_string(&mut input).unwrap(), s);
        assert_eq!(input.rest(), "rest");
    }
}

#[test]
fn test_parse_meta_block_only_first_type_and_name_count() {
    let blocks = [
        r#"{ type: "array", name: "x" }"#,
        r#"{ name: "x", type: "array" }"#,
        r#"{ other: "1", name: "x", type: "array", name: "y", type: "map" }"#,
    ];
    for raw in blocks {
        let mut input = Input::new(raw);
        let (kind, name) = parse_meta_block(&mut input).unwrap();
        assert_eq!(kind, Kind::Complex(ComplexKind::Array), "input: {raw}");
        assert_eq!(name, NodeName::AsField("x".to_string()), "input: {raw}");
    }
}

#[test]
fn test_span_from_offset_monotone_and_prefix_only() {
    let input = "ab\ncd\n\nef";
    let a = Span::from_offset(input, 1);
    let b = Span::from_offset(input, 2);
    assert_eq!((b.line, b.column), (a.line, a.column + 1));
    let c = Span::from_offset(input, 8);
    assert_eq!(c.line, a.line + input[1..8].matches('\n').count());
    assert_eq!(Span::from_offset(input, 5), Span::from_offset(&input[..5], 5));
    assert_eq!(Span::from_offset(input, 5), Span::from_offset(&format!("{input}\nmore"), 5));
}

#[test]
fn test_parse_line_ascii_block_at_last_brace() {
    let cases = [
        ("   - a {b} { type: \"map\" }", 3, Some(Kind::Complex(ComplexKind::Mapping)), 26),
        ("- x { type: \"bad\" }", 0, None, 0),
        ("  - no block here", 2, None, 0),
        ("- y { }  ", 0, Some(Kind::Leaf), 9),
    ];
    for (raw, indent, kind, end) in cases {
        let mut input = Input::new(raw);
        let line = parse_line(&mut input).unwrap();
        assert_eq!(line.indent, indent, "input: {raw}");
        assert_eq!(line.info.map(|i| i.kind), kind, "input: {raw}");
        assert_eq!(input.current_token_start(), end, "input: {raw}");
    }
}
