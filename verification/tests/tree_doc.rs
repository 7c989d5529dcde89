use tree_doc::part::{ComplexKind, Kind, NodeName, Span};
use tree_doc::{
    has_single_root, parse, parse_raw, validate, Error, Node, NodeComplexKindSpecial, NodeKindSpecial, RawNode, ShapeDef, ShapeEntry,
    ShapeField, ShapeTable, ShapeType, StructFields,
};

fn children_of(node: &Node) -> &StructFields {
    match &node.kind_special {
        NodeKindSpecial::Complex(NodeComplexKindSpecial::Struct { children }) => children,
        _ => panic!(),
    }
}

#[test]
fn test_parse_merge() {
    let tc = r#"
- list { type: "array" }
  - a { type: "struct" }
    - a { name: "a" }
  - b { type: "struct" }
    - b { name: "b" }
  - this is just a comment; ignored
    - a comment as well"#;
    let node = parse(tc).unwrap();
    let grand_children = |frag_i: usize| {
        let child = match &node.kind_special {
            NodeKindSpecial::Complex(NodeComplexKindSpecial::Array { child_fragments }) => &child_fragments[frag_i],
            _ => panic!(),
        };
        children_of(child)
    };
    assert!(grand_children(0).get("a").is_some());
    assert!(grand_children(1).get("b").is_some());
}

#[test]
fn test_parse_bad() {
    let inputs = [r#"- a { type: "struct" }
              - b
                - c { type: "struct", name: "c" }"#];
    for tc in inputs {
        assert!(parse(tc).is_err());
    }
}

#[test]
fn test_parse_bad_reports_disconnected_line() {
    let tc = "- a { type: \"struct\" }\n  - b\n    - c { type: \"struct\", name: \"c\" }";
    let err = parse(tc).unwrap_err();
    assert_eq!(
        err,
        Error::ParseError { span: Span { line: 3, column: 5 }, msg: "Metadata block after leaf content".to_string() }
    );
}

#[test]
fn test_parse_raw_nesting_follows_indentation() {
    let tc = "\n- r { type: \"struct\" }\n    - a { name: \"a\", type: \"struct\" }\n      - x { name: \"x\" }\n  - b { name: \"b\" }\n\t\n  - c { name: \"c\" }\n";
    let raw = parse_raw(tc).unwrap();
    assert_eq!(raw.span, Span { line: 2, column: 1 });
    assert_eq!(raw.children.len(), 3);
    let names: Vec<NodeName> = raw.children.iter().map(|c| c.info.name.clone()).collect();
    assert_eq!(
        names,
        vec![NodeName::AsField("a".to_string()), NodeName::AsField("b".to_string()), NodeName::AsField("c".to_string())]
    );
    assert_eq!(raw.children[0].children.len(), 1);
    assert_eq!(raw.children[0].children[0].info.name, NodeName::AsField("x".to_string()));
    assert_eq!(raw.children[0].span, Span { line: 3, column: 5 });
    assert_eq!(raw.children[2].span, Span { line: 7, column: 3 });
    assert_eq!(raw.children[1].info.kind, Kind::Leaf);
    assert_eq!(raw.info.kind, Kind::Complex(ComplexKind::Struct));
}

#[test]
fn test_parse_raw_no_root() {
    let err = parse_raw("\n  \n- only text\n").unwrap_err();
    assert_eq!(err, Error::ParseError { span: Span { line: 1, column: 1 }, msg: "No root node found".to_string() });
    let err = parse_raw("").unwrap_err();
    assert_eq!(err, Error::ParseError { span: Span { line: 1, column: 1 }, msg: "No root node found".to_string() });
}

#[test]
fn test_parse_raw_line_failure_position() {
    let err = parse_raw("- r { type: \"struct\" }\n  x no dash").unwrap_err();
    assert_eq!(
        err,
        Error::ParseError {
            span: Span { line: 2, column: 3 },
            msg: "Parsing Error: ContextError { context: [], cause: None }".to_string()
        }
    );
}

#[test]
fn test_parse_conversion_errors() {
    let leaf_with_children = "- r { type: \"struct\" }\n  - a { name: \"a\" }\n    - b { name: \"b\" }";
    assert_eq!(
        parse(leaf_with_children).unwrap_err(),
        Error::ValidateError { span: Span { line: 2, column: 3 }, msg: "Leaf node should not have children".to_string() }
    );
    let unnamed = "- r { type: \"struct\" }\n  - a { type: \"struct\" }";
    assert_eq!(
        parse(unnamed).unwrap_err(),
        Error::ValidateError { span: Span { line: 2, column: 3 }, msg: "struct field must be named".to_string() }
    );
}

#[test]
fn test_parse_duplicate_field_keeps_last() {
    let tc = "- r { type: \"struct\" }\n  - a { name: \"a\" }\n  - b { name: \"b\" }\n  - a2 { name: \"a\", type: \"array\" }";
    let node = parse(tc).unwrap();
    let fields = children_of(&node);
    assert_eq!(fields.len(), 2);
    let a = fields.get("a").unwrap();
    assert_eq!(a.span, Span { line: 4, column: 3 });
    assert!(matches!(a.kind_special, NodeKindSpecial::Complex(NodeComplexKindSpecial::Array { .. })));
    assert_eq!(fields.entry(0).0, "a");
    assert_eq!(fields.entry(1).0, "b");
    assert!(fields.get("c").is_none());
}

// Rust types, described as tables of shapes.

fn other(text: &str) -> ShapeEntry {
    ShapeEntry { def: ShapeDef::Other, ty: ShapeType::Other, def_text: format!("Scalar({text})"), ty_text: format!("User(Opaque({text}))") }
}

fn structure(fields: &[(&str, usize)]) -> ShapeEntry {
    ShapeEntry {
        def: ShapeDef::Other,
        ty: ShapeType::Struct {
            fields: fields.iter().map(|(n, s)| ShapeField { name: n.to_string(), shape: *s }).collect(),
        },
        def_text: "Undefined".to_string(),
        ty_text: "User(Struct)".to_string(),
    }
}

fn list(item: usize) -> ShapeEntry {
    ShapeEntry { def: ShapeDef::List { item }, ty: ShapeType::Other, def_text: "List".to_string(), ty_text: "User(Opaque)".to_string() }
}

fn map(value: usize) -> ShapeEntry {
    ShapeEntry { def: ShapeDef::Mapping { value }, ty: ShapeType::Other, def_text: "Map".to_string(), ty_text: "User(Opaque)".to_string() }
}

/// `struct Root { items: Vec<Item> }` or `HashMap<String, Item>`,
/// `struct Item { name: String, nested: Nested }`, `struct Nested { value: i32 }`.
fn recurse_table(items: ShapeEntry) -> ShapeTable {
    ShapeTable {
        entries: vec![
            structure(&[("items", 1)]),
            items,
            structure(&[("name", 3), ("nested", 4)]),
            other("String"),
            structure(&[("value", 5)]),
            other("i32"),
        ],
    }
}

#[test]
fn test_validate_recurse_into_array_children() {
    let src = r#"
- root { type: "struct" }
  - items { type: "array", name: "items" }
    - item.a { type: "struct" }
      - name { name: "name" }
      - nested { type: "struct", name: "nested" }
        - value { name: "value" }
"#;
    let tree = parse(src).unwrap();
    let shapes = recurse_table(list(2));
    assert!(shapes.is_wf());
    assert!(validate(&tree, &shapes, 0).is_ok());
}

#[test]
fn test_validate_recurse_into_map_children() {
    let src = r#"
- root { type: "struct" }
  - items { type: "map", name: "items" }
    - item.a { type: "struct" }
      - name { name: "name" }
      - nested { type: "struct", name: "nested" }
        - value { name: "value" }
"#;
    let tree = parse(src).unwrap();
    let shapes = recurse_table(map(2));
    assert!(validate(&tree, &shapes, 0).is_ok());
}

#[test]
fn test_validate_recursion_reaches_wrong_nested_field() {
    let src = r#"
- root { type: "struct" }
  - items { type: "map", name: "items" }
    - item.a { type: "struct" }
      - nested { type: "struct", name: "nested" }
        - value { name: "valu" }
"#;
    let tree = parse(src).unwrap();
    let shapes = recurse_table(map(2));
    assert_eq!(
        validate(&tree, &shapes, 0).unwrap_err(),
        Error::ValidateError { span: Span { line: 5, column: 7 }, msg: "Field 'valu' not found in struct".to_string() }
    );
    let shapes = recurse_table(list(2));
    assert_eq!(
        validate(&tree, &shapes, 0).unwrap_err(),
        Error::ValidateError { span: Span { line: 3, column: 3 }, msg: "Expected map-like type, got List".to_string() }
    );
}

#[test]
fn test_validate_reject_complex_type_mapped_to_leaf_field() {
    let src = [
        r#"
- root { type: "struct" }
  - name { type: "struct", name: "name" }
    - value { name: "value" }
"#,
        r#"
- root { type: "struct" }
  - name { type: "array", name: "name" }
"#,
        r#"
- root { type: "struct" }
  - name { type: "map", name: "name" }
"#,
    ];
    // `struct StructToLeafFieldRoot { name: String }`
    let shapes = ShapeTable { entries: vec![structure(&[("name", 1)]), other("String")] };
    for src in src {
        let tree = parse(src).unwrap();
        let result = validate(&tree, &shapes, 0);
        assert!(result.is_err(), "Struct-typed doc node should not validate against String field");
    }
}

#[test]
fn test_validate_root_must_be_struct() {
    let tree = parse("- root { type: \"array\" }").unwrap();
    let shapes = ShapeTable { entries: vec![structure(&[])] };
    assert_eq!(
        validate(&tree, &shapes, 0).unwrap_err(),
        Error::ValidateError { span: Span { line: 1, column: 1 }, msg: "Expected struct node".to_string() }
    );
    let tree = parse("- root { type: \"struct\" }").unwrap();
    let shapes = ShapeTable { entries: vec![other("u8")] };
    assert_eq!(
        validate(&tree, &shapes, 0).unwrap_err(),
        Error::ValidateError { span: Span { line: 1, column: 1 }, msg: "Expected struct, got User(Opaque(u8))".to_string() }
    );
}

#[test]
fn test_shape_table_wf() {
    let bad = ShapeTable { entries: vec![structure(&[("a", 3)])] };
    assert!(!bad.is_wf());
    let bad = ShapeTable { entries: vec![list(1)] };
    assert!(!bad.is_wf());
    let good = ShapeTable { entries: vec![list(0)] };
    assert!(good.is_wf());
}

// An example document: a deployment workspace.
const EXAMPLE: &str = r#"- root { type: "struct" }
  - workspace.toml { type: "struct", name: "workspace" }
    - servers: { type: "map", name: "servers" }
      - server.a { type: "struct" }
        - deploy_path { name: "deploy_path" }
  - crates { type: "array", name: "crates" }
    - path/to/crate.a { type: "struct" }
      - versions { type: "array", name: "versions" }
        - v1
        - v2
          - ...
        - v3
          - install.nu
          - uninstall.nu
          - exe.git_hash
          - config.toml
          - unit.service
      - crate.toml { type: "struct", name: "meta" }
        - servers: { type: "array", name: "servers" }
          - server.a
        - default install: nu install.nu
        - default uninstall: nu uninstall.nu
        - versions { type: "map", name: "versions" }
          - v2 { type: "struct" }
            - install { name: "install" }
            - installed { name: "installed" }
          - v3
"#;

const NAMES: &[&str] = &["workspace", "servers", "crates", "versions", "meta", "deploy_path", "install", "installed"];
const NON_NAMES: &[&str] = &["v1"];

/// `OkRoot`, `MissingFieldRoot` (no `workspace`) and `BadKindRoot`
/// (`crates` a map) over the types of the example.
fn example_table(root: &str) -> ShapeTable {
    let root_entry = match root {
        "ok" => structure(&[("workspace", 1), ("crates", 5)]),
        "missing" => structure(&[("crates", 5)]),
        _ => structure(&[("workspace", 1), ("crates", 14)]),
    };
    ShapeTable {
        entries: vec![
            root_entry,                                         // 0
            structure(&[("servers", 2)]),                       // 1 Workspace
            map(3),                                             // 2 HashMap<String, WorkspaceServer>
            structure(&[("deploy_path", 4)]),                   // 3 WorkspaceServer
            other("String"),                                    // 4
            list(6),                                            // 5 Vec<Crate>
            structure(&[("versions", 7), ("meta", 9)]),         // 6 Crate
            list(8),                                            // 7 Vec<VersionStash>
            structure(&[("name", 4), ("path", 4)]),             // 8 VersionStash
            structure(&[("servers", 10), ("versions", 11)]),    // 9 CrateMeta
            list(4),                                            // 10 Vec<String>
            map(12),                                            // 11 HashMap<String, VersionMeta>
            structure(&[("random_stuff", 4), ("install", 4), ("installed", 13)]), // 12 VersionMeta
            other("bool"),                                      // 13
            map(6),                                             // 14 HashMap<String, Crate>
        ],
    }
}

#[test]
fn test_invalidate_badroot_against_example_doc() {
    let tree = parse(EXAMPLE).expect("Failed to parse example");
    for root in ["missing", "bad"] {
        let shapes = example_table(root);
        assert!(shapes.is_wf());
        let result = validate(&tree, &shapes, 0);
        assert!(result.is_err(), "Validation failed: {:?}", result);
    }
}

fn collect_names(node: &RawNode, out: &mut Vec<String>) {
    if let NodeName::AsField(name) = &node.info.name {
        out.push(name.clone());
    }
    for child in &node.children {
        collect_names(child, out);
    }
}

fn is_name_in_tree(node: &Node, name: &str) -> bool {
    match &node.kind_special {
        NodeKindSpecial::Leaf => false,
        NodeKindSpecial::Complex(NodeComplexKindSpecial::Struct { children }) => {
            for i in 0..children.len() {
                let (n, c) = children.entry(i);
                if n == name || is_name_in_tree(c, name) {
                    return true;
                }
            }
            false
        }
        NodeKindSpecial::Complex(NodeComplexKindSpecial::Array { child_fragments })
        | NodeKindSpecial::Complex(NodeComplexKindSpecial::Mapping { child_fragments }) => {
            child_fragments.iter().any(|c| is_name_in_tree(c, name))
        }
    }
}

#[test]
fn test_validate_okroot_against_example_doc() {
    let tree = parse(EXAMPLE).expect("Failed to parse example");
    let raw_tree = parse_raw(EXAMPLE).unwrap();
    let mut found = Vec::new();
    collect_names(&raw_tree, &mut found);
    for name in &found {
        assert!(!NON_NAMES.contains(&name.as_str()));
    }
    let mut found_set: Vec<&str> = found.iter().map(|s| s.as_str()).collect();
    found_set.sort();
    found_set.dedup();
    let mut expected: Vec<&str> = NAMES.to_vec();
    expected.sort();
    assert_eq!(found_set, expected);
    for name in NAMES {
        assert!(is_name_in_tree(&tree, name));
    }
    let result = validate(&tree, &example_table("ok"), 0);
    assert!(result.is_ok(), "Validation failed: {:?}", result);
}

fn preorder_spans(node: &RawNode, out: &mut Vec<Span>) {
    out.push(node.span);
    for child in &node.children {
        preorder_spans(child, out);
    }
}

#[test]
fn test_parse_raw_lists_described_lines_in_order() {
    let raw = parse_raw(EXAMPLE).unwrap();
    let mut spans = Vec::new();
    preorder_spans(&raw, &mut spans);
    let described: Vec<Span> = EXAMPLE
        .lines()
        .enumerate()
        .filter(|(_, l)| l.contains('{'))
        .map(|(i, l)| Span { line: i + 1, column: l.len() - l.trim_start().len() + 1 })
        .collect();
    assert_eq!(spans, described);
}

#[test]
fn test_validate_array_against_non_list() {
    let src = "- root { type: \"struct\" }\n  - items { type: \"array\", name: \"items\" }\n    - x { type: \"struct\" }";
    let tree = parse(src).unwrap();
    let shapes = recurse_table(map(2));
    assert_eq!(
        validate(&tree, &shapes, 0).unwrap_err(),
        Error::ValidateError { span: Span { line: 2, column: 3 }, msg: "Expected array-like type, got Map".to_string() }
    );
    // A leaf fits any type, and an array with no fragments fits any list.
    let src = "- root { type: \"struct\" }\n  - items { type: \"array\", name: \"items\" }\n  - x { name: \"items\" }";
    let tree = parse(src).unwrap();
    assert!(validate(&tree, &shapes, 0).is_ok());
}

#[test]
fn test_has_single_root() {
    assert!(has_single_root("- r { type: \"struct\" }\n  - a { name: \"a\" }\n"));
    assert!(!has_single_root("- a { type: \"struct\" }\n- b { type: \"struct\" }\n"));
    assert!(!has_single_root("  - a { type: \"struct\" }\n  - b { name: \"b\" }\n"));
    // Reading stops at the first error, so a second root after it does not count.
    assert!(has_single_root("- a { type: \"struct\" }\n  - b\n    - c { name: \"c\" }\n- d { type: \"struct\" }\n"));
    assert!(has_single_root(""));
    assert!(has_single_root("- only text\n"));
}

#[test]
fn test_clone_keeps_trees() {
    let src = "- r { type: \"struct\" }\n  - items { type: \"array\", name: \"items\" }\n    - x { type: \"struct\" }\n      - v { name: \"v\" }\n  - m { type: \"map\", name: \"m\" }";
    let raw = parse_raw(src).unwrap();
    assert_eq!(raw.clone(), raw);
    let node = parse(src).unwrap();
    let copy = node.clone();
    assert_eq!(copy, node);
    assert_eq!(node.kind_special.clone(), node.kind_special);
    let fields = children_of(&node);
    assert_eq!(fields.clone(), *fields);
    assert_eq!(fields.clone().len(), 2);
}

#[test]
fn test_validate_keeps_passing_on_a_narrower_document() {
    let full = r#"
- root { type: "struct" }
  - items { type: "array", name: "items" }
    - item.a { type: "struct" }
      - name { name: "name" }
      - nested { type: "struct", name: "nested" }
        - value { name: "value" }
    - item.b { type: "struct" }
      - name { name: "name" }
"#;
    let narrower = r#"
- root { type: "struct" }
  - items { type: "array", name: "items" }
    - item.b { type: "struct" }
      - nested { name: "nested" }
"#;
    let shapes = recurse_table(list(2));
    assert!(validate(&parse(full).unwrap(), &shapes, 0).is_ok());
    assert!(validate(&parse(narrower).unwrap(), &shapes, 0).is_ok());
}

#[test]
fn test_validate_keeps_passing_when_types_gain_fields() {
    let src = r#"
- root { type: "struct" }
  - items { type: "array", name: "items" }
    - item.a { type: "struct" }
      - name { name: "name" }
"#;
    let tree = parse(src).unwrap();
    let shapes = recurse_table(list(2));
    assert!(validate(&tree, &shapes, 0).is_ok());
    let mut wider = recurse_table(list(2));
    wider.entries[0] = structure(&[("extra", 3), ("items", 1)]);
    wider.entries[2] = structure(&[("name", 3), ("nested", 4), ("more", 5)]);
    assert!(wider.is_wf());
    assert!(validate(&tree, &wider, 0).is_ok());
}

#[test]
fn test_described_line_spans_are_from_offset() {
    let src = "\n- r { type: \"struct\" }\n  - text\n  - a { name: \"a\" }\n";
    let raw = parse_raw(src).unwrap();
    assert_eq!(raw.span, Span::from_offset(src, 1));
    let a_line = src.find("  - a").unwrap();
    assert_eq!(raw.children[0].span, Span::from_offset(src, a_line + 2));
    assert_eq!(raw.children[0].span, Span { line: 4, column: 3 });
}

#[test]
fn test_conversion_errors_are_validate_errors() {
    let inputs = [
        "- r { type: \"array\" }\n  - a { name: \"a\" }\n    - b { name: \"b\" }",
        "- r { type: \"map\" }\n  - s { type: \"struct\" }\n    - c { type: \"array\" }",
    ];
    for tc in inputs {
        assert!(matches!(parse(tc).unwrap_err(), Error::ValidateError { .. }), "input: {tc}");
    }
}

#[test]
fn test_struct_fields_come_from_children() {
    let tc = "- r { type: \"struct\" }\n  - a { name: \"a\" }\n  - b { name: \"b\", type: \"map\" }\n  - a2 { name: \"a\", type: \"struct\" }\n  - c { name: \"c\" }";
    let node = parse(tc).unwrap();
    let fields = children_of(&node);
    assert_eq!(fields.len(), 3);
    let names: Vec<&str> = (0..fields.len()).map(|i| fields.entry(i).0.as_str()).collect();
    assert_eq!(names, vec!["a", "b", "c"]);
    assert_eq!(fields.get("a").unwrap().span, Span { line: 4, column: 3 });
}

#[test]
fn test_fragments_ignore_names_and_first_failure_wins() {
    let ok = "- r { type: \"map\" }\n  - a { name: \"a\" }\n  - b { type: \"struct\" }\n    - x { name: \"x\" }\n  - c { }";
    let node = parse(ok).unwrap();
    match &node.kind_special {
        NodeKindSpecial::Complex(NodeComplexKindSpecial::Mapping { child_fragments }) => {
            assert_eq!(child_fragments.len(), 3);
            assert_eq!(child_fragments[1].span, Span { line: 3, column: 3 });
            assert!(matches!(child_fragments[2].kind_special, NodeKindSpecial::Leaf));
        }
        _ => panic!(),
    }
    let bad = "- r { type: \"array\" }\n  - a { type: \"struct\" }\n    - u { type: \"struct\" }\n  - b { name: \"b\" }\n    - y { name: \"y\" }";
    assert_eq!(
        parse(bad).unwrap_err(),
        Error::ValidateError { span: Span { line: 3, column: 5 }, msg: "struct field must be named".to_string() }
    );
}

#[test]
fn test_equal_indent_lines_are_siblings() {
    let src = "- r { type: \"struct\" }\n    - a { name: \"a\" }\n    - b { name: \"b\" }\n  - c { name: \"c\", type: \"struct\" }\n    - d { name: \"d\" }";
    let raw = parse_raw(src).unwrap();
    assert_eq!(raw.children.len(), 3);
    assert_eq!(raw.children[2].children.len(), 1);
    assert_eq!(raw.children[2].children[0].info.name, NodeName::AsField("d".to_string()));
}
