use codanna::CParserAudit;

fn strings(v: &[&str]) -> Vec<String> {
    v.iter().map(|s| s.to_string()).collect()
}

#[test]
fn report_lists_gaps_and_missing_nodes() {
    let mut audit = CParserAudit::new();
    audit.record_grammar_node("translation_unit".to_string(), 161);
    audit.record_grammar_node("declaration".to_string(), 198);
    audit.record_implemented("translation_unit".to_string());
    audit.record_symbol_kind("Function".to_string());
    audit.record_symbol_kind("Function".to_string());
    let report = audit.generate_report();
    assert!(report.starts_with("# C Parser Coverage Report\n\n## Summary\n"));
    assert!(report.contains("- Nodes in file: 2\n"));
    assert!(report.contains("- Nodes handled by parser: 1\n"));
    assert!(report.contains("- Symbol kinds extracted: 1\n"));
    assert!(report.contains("| translation_unit | 161 | ✅ implemented |\n"));
    assert!(report.contains("| declaration | 198 | ⚠️ gap |\n"));
    assert!(report.contains("| function_definition | - | ❌ not found |\n"));
    assert!(report.contains(
        "### Priority 1: Implementation Gaps\nThese nodes exist in your code but aren't being captured:\n\n- `declaration`: Add parsing logic in parser.rs\n\n"
    ));
    assert!(report.contains("- `expression_statement`: Add example to comprehensive.c or verify node name\n"));
    assert!(!report.contains("Excellent coverage"));
}

#[test]
fn report_praises_full_coverage() {
    let mut audit = CParserAudit::new();
    let keys = [
        "translation_unit",
        "function_definition",
        "declaration",
        "struct_specifier",
        "union_specifier",
        "enum_specifier",
        "typedef_declaration",
        "init_declarator",
        "parameter_declaration",
        "field_declaration",
        "enumerator",
        "macro_definition",
        "preproc_include",
        "compound_statement",
        "if_statement",
        "while_statement",
        "for_statement",
        "do_statement",
        "switch_statement",
        "case_statement",
        "expression_statement",
    ];
    for (i, k) in keys.iter().enumerate() {
        audit.record_grammar_node(k.to_string(), i as u16);
        audit.record_implemented(k.to_string());
    }
    let report = audit.generate_report();
    assert!(report.ends_with(
        "\n## Recommended Actions\n\n✨ **Excellent coverage!** All key nodes are implemented.\n"
    ));
    assert!(!report.contains("Priority"));
    let (handled, present) = audit.node_counts();
    assert_eq!((handled, present), (21, 21));
    assert_eq!(100 * handled / present, 100);
}

#[test]
fn audit_code_collects_c_node_kinds() {
    let code = "#include <stdio.h>\nint add(int a, int b) { return a + b; }\n";
    let handled = strings(&["translation_unit", "function_definition", "translation_unit"]);
    let kinds = strings(&["Function"]);
    let audit = CParserAudit::audit_code(code, &handled, &kinds).expect("audit");
    assert!(audit.grammar_node("translation_unit").is_some());
    assert!(audit.grammar_node("function_definition").is_some());
    assert!(audit.grammar_node("preproc_include").is_some());
    assert_eq!(audit.grammar_node("struct_specifier"), None);
    let (handled_count, present) = audit.node_counts();
    assert_eq!(handled_count, 2);
    assert!(present >= 3);
    assert!(handled_count <= present);
    let report = audit.generate_report();
    assert!(report.contains("| function_definition | "));
    assert!(report.contains("✅ implemented"));
}

#[test]
fn empty_audit_has_no_coverage_counts() {
    let audit = CParserAudit::new();
    assert_eq!(audit.node_counts(), (0, 0));
    let report = audit.generate_report();
    assert!(report.contains("- Nodes in file: 0\n"));
    assert!(report.contains("### Priority 2: Missing Examples\n"));
}

#[test]
fn audit_code_ignores_handled_kinds_absent_from_file() {
    let code = "int x;\n";
    let handled = strings(&["translation_unit", "struct_specifier", "while_statement"]);
    let audit = CParserAudit::audit_code(code, &handled, &strings(&[])).expect("audit");
    let (handled_count, present) = audit.node_counts();
    assert_eq!(handled_count, 1);
    assert!(handled_count <= present);
    // Recording a kind absent from the file does not count it either.
    let mut audit = audit;
    audit.record_implemented("enum_specifier".to_string());
    assert_eq!(audit.node_counts().0, 1);
    let report = audit.generate_report();
    assert!(report.contains("| struct_specifier | - | ❌ not found |\n"));
}
