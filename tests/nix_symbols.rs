use codanna::{FileId, LanguageParser, NixParser, Symbol, SymbolCounter, SymbolKind, Visibility};

fn parse(code: &str, counter: &mut SymbolCounter) -> Vec<Symbol> {
    let mut parser = NixParser::new().expect("parser");
    parser.parse(code, FileId(7), counter)
}

/// The text of a single-line range of `code`.
fn text_at(code: &str, s: &Symbol) -> String {
    assert_eq!(s.range.start_line, s.range.end_line);
    let line = code.split('\n').nth(s.range.start_line as usize).unwrap();
    line[s.range.start_column as usize..s.range.end_column as usize].to_string()
}

#[test]
fn let_binding_symbol_targets_identifier() {
    let code = "let x = 42; in x";
    let mut counter = SymbolCounter::new();
    let symbols = parse(code, &mut counter);
    assert_eq!(symbols.len(), 1);
    let x = &symbols[0];
    assert_eq!(x.name, "x");
    assert_eq!(x.kind, SymbolKind::Variable);
    assert_eq!(x.range.start_line, 0);
    assert_eq!(x.range.start_column, 4);
    assert_eq!(x.range.end_line, 0);
    assert_eq!(x.range.end_column, 5);
    assert_eq!(x.signature.as_deref(), Some("x = <value>"));
    assert_eq!(x.doc_comment, None);
    assert_eq!(x.visibility, Visibility::Public);
    assert_eq!(x.file_id, FileId(7));
    assert_eq!(x.id.value(), 1);
    assert_eq!(counter.current_count(), 2);
}

#[test]
fn function_binding_signature() {
    let code = "let double = n: n * 2; in double 5";
    let mut counter = SymbolCounter::new();
    let symbols = parse(code, &mut counter);
    let double = symbols.iter().find(|s| s.name == "double").unwrap();
    assert_eq!(double.kind, SymbolKind::Function);
    assert!(double.signature.as_deref().unwrap().contains("<function>"));
    assert_eq!(double.signature.as_deref(), Some("double = <function>"));
    // The parameter `n` takes an id but emits no symbol.
    assert_eq!(symbols.len(), 1);
    assert_eq!(counter.current_count(), 3);
}

#[test]
fn recursive_set_takes_ids_before_values_when_parsed() {
    // Both names take ids before b's value is read, so the set { x = 1; }
    // inside a gets the next id after b's.
    let code = "rec { a = { x = 1; }; b = 2; }";
    let mut counter = SymbolCounter::new();
    let symbols = parse(code, &mut counter);
    let names: Vec<(&str, u32)> = symbols.iter().map(|s| (s.name.as_str(), s.id.value())).collect();
    assert_eq!(names, vec![("a", 1), ("x", 3), ("b", 2)]);
    let a = &symbols[0];
    assert_eq!((a.range.start_column, a.range.end_column), (6, 7));
}

#[test]
fn recursive_set_symbols_in_order() {
    let code = "rec { a = 1; b = a + 2; c = b * 3; }";
    let mut counter = SymbolCounter::new();
    let symbols = parse(code, &mut counter);
    let names: Vec<&str> = symbols.iter().map(|s| s.name.as_str()).collect();
    assert_eq!(names, vec!["a", "b", "c"]);
    assert!(symbols.iter().all(|s| s.kind == SymbolKind::Variable));
}

#[test]
fn path_literal_constants_are_numbered() {
    let code = "{ p = ./a.nix; q = ./b.nix; }";
    let mut counter = SymbolCounter::new();
    let symbols = parse(code, &mut counter);
    let names: Vec<&str> = symbols.iter().map(|s| s.name.as_str()).collect();
    assert_eq!(names, vec!["p", "path_1", "q", "path_3"]);
    assert_eq!(symbols[1].kind, SymbolKind::Constant);
    assert_eq!(symbols[1].signature.as_deref(), Some("path = ./a.nix"));
}

#[test]
fn doc_comment_joins_lines_across_blanks() {
    let code = "{\n  # first\n\n  ## second  \n  x = 1;\n  y = 2;\n}\n";
    let mut counter = SymbolCounter::new();
    let symbols = parse(code, &mut counter);
    let x = symbols.iter().find(|s| s.name == "x").unwrap();
    assert_eq!(x.doc_comment.as_deref(), Some("first second"));
    let y = symbols.iter().find(|s| s.name == "y").unwrap();
    assert_eq!(y.doc_comment, None);
}

#[test]
fn parsing_is_deterministic() {
    let code = "let\n  a = 1;\n  f = x: { y = x; };\nin rec { b = a; c = ./p; }\n";
    let mut c1 = SymbolCounter::new();
    let mut c2 = SymbolCounter::new();
    let first = parse(code, &mut c1);
    let second = parse(code, &mut c2);
    assert_eq!(first.len(), second.len());
    for (s, t) in first.iter().zip(second.iter()) {
        assert_eq!(s.id, t.id);
        assert_eq!(s.name, t.name);
        assert_eq!(s.kind, t.kind);
        assert_eq!(s.range, t.range);
        assert_eq!(s.signature, t.signature);
        assert_eq!(s.doc_comment, t.doc_comment);
    }
    // Starting the counter later shifts every id by the same amount.
    let mut c3 = SymbolCounter::starting_at(100);
    let third = parse(code, &mut c3);
    assert_eq!(first.len(), third.len());
    for (s, t) in first.iter().zip(third.iter()) {
        assert_eq!(s.id.value() + 99, t.id.value());
        assert_eq!(s.name, t.name);
    }
    assert_eq!(c1.current_count() + 99, c3.current_count());
}

#[test]
fn symbol_ranges_hold_their_names() {
    let code = "let\n  alpha = 1;\n  beta = x: x;\n  gamma = { delta = ./d.nix; };\nin alpha\n";
    let mut counter = SymbolCounter::new();
    let symbols = parse(code, &mut counter);
    assert!(symbols.len() >= 4);
    for s in &symbols {
        if s.kind == SymbolKind::Constant && s.name.starts_with("path_") {
            continue;
        }
        assert!(text_at(code, s).contains(s.name.as_str()), "{}", s.name);
    }
}

#[test]
fn empty_and_broken_input_do_not_panic() {
    let mut counter = SymbolCounter::new();
    assert!(parse("", &mut counter).is_empty());
    let symbols = parse("{ a = 1; b = ", &mut counter);
    assert!(symbols.iter().any(|s| s.name == "a"));
}

#[test]
fn relationship_finders_are_empty() {
    let mut parser = NixParser::new().unwrap();
    assert!(parser.find_calls("f x").is_empty());
    assert!(parser.find_method_calls("a.b").is_empty());
    assert!(parser.find_implementations("x").is_empty());
    assert!(parser.find_uses("x").is_empty());
    assert!(parser.find_defines("x").is_empty());
    assert!(parser.find_imports("import ./a.nix", FileId(1)).is_empty());
    assert_eq!(parser.language().as_str(), "nix");
}

#[test]
fn parse_outcome_reports_syntax_errors() {
    let mut parser = NixParser::new().unwrap();
    let mut counter = SymbolCounter::new();
    let (symbols, outcome) = parser.parse_with_outcome("{ a = 1; }", FileId(1), &mut counter);
    assert_eq!(outcome, codanna::ParseOutcome::Complete);
    assert_eq!(symbols.len(), 1);
    let (_, outcome) = parser.parse_with_outcome("{ a = ; }", FileId(1), &mut counter);
    assert_eq!(outcome, codanna::ParseOutcome::WithErrors);
    assert!(NixParser::new().is_ok());
    // A tree nested deeper than the copy limit is reported as cut.
    let deep = format!("{}1{}", "[".repeat(3000), "]".repeat(3000));
    let (_, outcome) = parser.parse_with_outcome(&deep, FileId(1), &mut counter);
    assert_eq!(outcome, codanna::ParseOutcome::Truncated);
}

fn node(kind: &str, field: Option<&str>, start: usize, end: usize, children: Vec<codanna::SyntaxNode>) -> codanna::SyntaxNode {
    codanna::SyntaxNode {
        kind: kind.to_string(),
        kind_id: 0,
        field: field.map(|f| f.to_string()),
        start_byte: start,
        end_byte: end,
        start_row: 0,
        start_column: start,
        end_row: 0,
        end_column: end,
        children,
    }
}

/// `rec { a = b; b = 1; }` with the bindings directly under the set.
fn recursive_set_tree() -> codanna::SyntaxNode {
    let a = node(
        "binding",
        None,
        6,
        12,
        vec![
            node("attrpath", Some("attrpath"), 6, 7, vec![node("identifier", Some("attr"), 6, 7, vec![])]),
            node("variable_expression", Some("expression"), 10, 11, vec![]),
        ],
    );
    let b = node(
        "binding",
        None,
        13,
        19,
        vec![
            node("attrpath", Some("attrpath"), 13, 14, vec![node("identifier", Some("attr"), 13, 14, vec![])]),
            node(
                "function_expression",
                Some("expression"),
                17,
                18,
                vec![node("identifier", Some("universal"), 17, 18, vec![])],
            ),
        ],
    );
    node("rec_attrset", None, 0, 21, vec![a, b])
}

#[test]
fn recursive_set_takes_ids_before_values() {
    let code = "rec { a = b; b = x; }";
    let tree = recursive_set_tree();
    let mut counter = SymbolCounter::new();
    let symbols = NixParser::parse_tree(&tree, code, FileId(3), &mut counter);
    let names: Vec<&str> = symbols.iter().map(|s| s.name.as_str()).collect();
    assert_eq!(names, vec!["a", "b"]);
    // Both names take their ids first; the parameter of b's value comes after.
    assert_eq!(symbols[0].id.value(), 1);
    assert_eq!(symbols[1].id.value(), 2);
    assert_eq!(counter.current_count(), 4);
    // The range is that of the name.
    assert_eq!(symbols[0].range.start_column, 6);
    assert_eq!(symbols[0].range.end_column, 7);
    assert_eq!(symbols[1].kind, SymbolKind::Function);
    assert_eq!(symbols[1].signature.as_deref(), Some("b = <function>"));
    assert_eq!(symbols[0].doc_comment, None);
}

#[test]
fn bindings_named_by_name_field_and_bad_ranges_skipped() {
    let code = "x = 1";
    let by_name = node(
        "binding",
        None,
        0,
        5,
        vec![node("identifier", Some("name"), 0, 1, vec![])],
    );
    let mut counter = SymbolCounter::new();
    let symbols = NixParser::parse_tree(&by_name, code, FileId(1), &mut counter);
    assert_eq!(symbols.len(), 1);
    assert_eq!(symbols[0].name, "x");
    // A byte range outside the text names nothing.
    let outside = node(
        "binding",
        None,
        0,
        5,
        vec![node("identifier", Some("name"), 3, 40, vec![])],
    );
    let symbols = NixParser::parse_tree(&outside, code, FileId(1), &mut counter);
    assert!(symbols.is_empty());
}

#[test]
fn doc_comment_of_a_node() {
    let code = "# one\n#two\nx = 1;\n";
    let mut n = node("binding", None, 11, 17, vec![]);
    n.start_row = 2;
    assert_eq!(NixParser::extract_doc_comment(&n, code).as_deref(), Some("one two"));
    n.start_row = 0;
    assert_eq!(NixParser::extract_doc_comment(&n, code), None);
}
