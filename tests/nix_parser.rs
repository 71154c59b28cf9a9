use codanna::{FileId, LanguageParser, NixParser, SymbolCounter, SymbolKind};

#[test]
fn test_nix_parser_creation() {
    let parser = NixParser::new();
    assert!(
        parser.is_ok(),
        "Failed to create NixParser: {:?}",
        parser.err()
    );
}

#[test]
fn test_basic_nix_parsing() {
    let mut parser = NixParser::new().expect("Failed to create NixParser");
    let mut counter = SymbolCounter::new();
    let file_id = FileId(1);

    let code = r#"
# Variable binding
let x = 42; in x
"#;

    let symbols = parser.parse(code, file_id, &mut counter);

    assert!(!symbols.is_empty(), "Should extract at least one symbol");

    let x_symbol = symbols.iter().find(|s| s.name == "x");
    assert!(x_symbol.is_some(), "Should find variable 'x'");

    let x_symbol = x_symbol.unwrap();
    assert_eq!(
        x_symbol.kind,
        SymbolKind::Variable,
        "x should be a variable"
    );
}

#[test]
fn test_function_binding_parsing() {
    let mut parser = NixParser::new().expect("Failed to create NixParser");
    let mut counter = SymbolCounter::new();
    let file_id = FileId(1);

    let code = r#"
let double = n: n * 2; in double 5
"#;

    let symbols = parser.parse(code, file_id, &mut counter);

    let double_symbol = symbols.iter().find(|s| s.name == "double");
    assert!(double_symbol.is_some(), "Should find function 'double'");

    let double_symbol = double_symbol.unwrap();
    assert_eq!(
        double_symbol.kind,
        SymbolKind::Function,
        "double should be a function"
    );
}

#[test]
fn test_attribute_set_parsing() {
    let mut parser = NixParser::new().expect("Failed to create NixParser");
    let mut counter = SymbolCounter::new();
    let file_id = FileId(1);

    let code = r#"
{
  name = "test";
  value = 42;
}
"#;

    let symbols = parser.parse(code, file_id, &mut counter);

    let name_symbol = symbols.iter().find(|s| s.name == "name");
    let value_symbol = symbols.iter().find(|s| s.name == "value");

    assert!(name_symbol.is_some(), "Should find attribute 'name'");
    assert!(value_symbol.is_some(), "Should find attribute 'value'");

    assert_eq!(
        name_symbol.unwrap().kind,
        SymbolKind::Variable,
        "name should be a variable"
    );
    assert_eq!(
        value_symbol.unwrap().kind,
        SymbolKind::Variable,
        "value should be a variable"
    );
}

#[test]
fn test_recursive_attribute_set_parsing() {
    let mut parser = NixParser::new().expect("Failed to create NixParser");
    let mut counter = SymbolCounter::new();
    let file_id = FileId(1);

    let code = r#"
rec {
  a = 1;
  b = a + 2;
  c = b * 3;
}
"#;

    let symbols = parser.parse(code, file_id, &mut counter);

    let a_symbol = symbols.iter().find(|s| s.name == "a");
    let b_symbol = symbols.iter().find(|s| s.name == "b");
    let c_symbol = symbols.iter().find(|s| s.name == "c");

    assert!(a_symbol.is_some(), "Should find attribute 'a'");
    assert!(b_symbol.is_some(), "Should find attribute 'b'");
    assert!(c_symbol.is_some(), "Should find attribute 'c'");

    assert_eq!(
        a_symbol.unwrap().kind,
        SymbolKind::Variable,
        "a should be a variable"
    );
    assert_eq!(
        b_symbol.unwrap().kind,
        SymbolKind::Variable,
        "b should be a variable"
    );
    assert_eq!(
        c_symbol.unwrap().kind,
        SymbolKind::Variable,
        "c should be a variable"
    );
}

#[test]
fn test_with_expression_parsing() {
    let mut parser = NixParser::new().expect("Failed to create NixParser");
    let mut counter = SymbolCounter::new();
    let file_id = FileId(1);

    let code = r#"
let pkgs = { a = 1; b = 2; };
in with pkgs; a + b
"#;

    let symbols = parser.parse(code, file_id, &mut counter);

    let pkgs_symbol = symbols.iter().find(|s| s.name == "pkgs");
    assert!(pkgs_symbol.is_some(), "Should find variable 'pkgs'");
    assert_eq!(
        pkgs_symbol.unwrap().kind,
        SymbolKind::Variable,
        "pkgs should be a variable"
    );
}

#[test]
fn test_complex_function_parsing() {
    let mut parser = NixParser::new().expect("Failed to create NixParser");
    let mut counter = SymbolCounter::new();
    let file_id = FileId(1);

    let code = r#"
let
  # Simple function
  add = a: b: a + b;
  
  # Pattern matching function
  processConfig = { name, version ? "1.0", ... }: {
    inherit name version;
  };
  
  # Nested let-in with function
  buildPackage = name: let
    version = "2.0";
  in { inherit name version; };
in {
  inherit add processConfig buildPackage;
}
"#;

    let symbols = parser.parse(code, file_id, &mut counter);

    let add_symbol = symbols.iter().find(|s| s.name == "add");
    let process_config_symbol = symbols.iter().find(|s| s.name == "processConfig");
    let build_package_symbol = symbols.iter().find(|s| s.name == "buildPackage");

    assert!(add_symbol.is_some(), "Should find function 'add'");
    assert!(
        process_config_symbol.is_some(),
        "Should find function 'processConfig'"
    );
    assert!(
        build_package_symbol.is_some(),
        "Should find function 'buildPackage'"
    );

    assert_eq!(
        add_symbol.unwrap().kind,
        SymbolKind::Function,
        "add should be a function"
    );
    assert_eq!(
        process_config_symbol.unwrap().kind,
        SymbolKind::Function,
        "processConfig should be a function"
    );
    assert_eq!(
        build_package_symbol.unwrap().kind,
        SymbolKind::Function,
        "buildPackage should be a function"
    );
}

#[test]
fn test_string_interpolation_parsing() {
    let mut parser = NixParser::new().expect("Failed to create NixParser");
    let mut counter = SymbolCounter::new();
    let file_id = FileId(1);

    let code = r#"
let
  name = "world";
  greeting = "Hello ${name}!";
  complex = "The value is ${toString (42 + 8)}";
in { inherit name greeting complex; }
"#;

    let symbols = parser.parse(code, file_id, &mut counter);

    let name_symbol = symbols.iter().find(|s| s.name == "name");
    let greeting_symbol = symbols.iter().find(|s| s.name == "greeting");
    let complex_symbol = symbols.iter().find(|s| s.name == "complex");

    assert!(name_symbol.is_some(), "Should find variable 'name'");
    assert!(greeting_symbol.is_some(), "Should find variable 'greeting'");
    assert!(complex_symbol.is_some(), "Should find variable 'complex'");

    assert_eq!(
        name_symbol.unwrap().kind,
        SymbolKind::Variable,
        "name should be a variable"
    );
    assert_eq!(
        greeting_symbol.unwrap().kind,
        SymbolKind::Variable,
        "greeting should be a variable"
    );
    assert_eq!(
        complex_symbol.unwrap().kind,
        SymbolKind::Variable,
        "complex should be a variable"
    );
}

#[test]
fn test_path_literal_parsing() {
    let mut parser = NixParser::new().expect("Failed to create NixParser");
    let mut counter = SymbolCounter::new();
    let file_id = FileId(1);

    let code = r#"
let
  relativePath = ./config/default.nix;
  absolutePath = /etc/nixos/configuration.nix;
in { inherit relativePath absolutePath; }
"#;

    let symbols = parser.parse(code, file_id, &mut counter);

    let relative_symbol = symbols.iter().find(|s| s.name == "relativePath");
    let absolute_symbol = symbols.iter().find(|s| s.name == "absolutePath");

    assert!(
        relative_symbol.is_some(),
        "Should find variable 'relativePath'"
    );
    assert!(
        absolute_symbol.is_some(),
        "Should find variable 'absolutePath'"
    );

    assert_eq!(
        relative_symbol.unwrap().kind,
        SymbolKind::Variable,
        "relativePath should be a variable"
    );
    assert_eq!(
        absolute_symbol.unwrap().kind,
        SymbolKind::Variable,
        "absolutePath should be a variable"
    );

    let path_constants: Vec<_> = symbols
        .iter()
        .filter(|s| s.kind == SymbolKind::Constant && s.name.starts_with("path_"))
        .collect();
    assert!(
        !path_constants.is_empty(),
        "Should extract path literal constants"
    );
}

#[test]
fn test_nested_scoping() {
    let mut parser = NixParser::new().expect("Failed to create NixParser");
    let mut counter = SymbolCounter::new();
    let file_id = FileId(1);

    let code = r#"
let
  outer = "outer";
  func = arg: let
    inner = "inner";
    nested = arg + inner + outer;
  in nested;
in func "test"
"#;

    let symbols = parser.parse(code, file_id, &mut counter);

    let outer_symbol = symbols.iter().find(|s| s.name == "outer");
    let func_symbol = symbols.iter().find(|s| s.name == "func");
    let inner_symbol = symbols.iter().find(|s| s.name == "inner");
    let nested_symbol = symbols.iter().find(|s| s.name == "nested");

    assert!(outer_symbol.is_some(), "Should find variable 'outer'");
    assert!(func_symbol.is_some(), "Should find function 'func'");
    assert!(inner_symbol.is_some(), "Should find variable 'inner'");
    assert!(nested_symbol.is_some(), "Should find variable 'nested'");

    assert_eq!(
        outer_symbol.unwrap().kind,
        SymbolKind::Variable,
        "outer should be a variable"
    );
    assert_eq!(
        func_symbol.unwrap().kind,
        SymbolKind::Function,
        "func should be a function"
    );
    assert_eq!(
        inner_symbol.unwrap().kind,
        SymbolKind::Variable,
        "inner should be a variable"
    );
    assert_eq!(
        nested_symbol.unwrap().kind,
        SymbolKind::Variable,
        "nested should be a variable"
    );
}

#[test]
fn test_doc_comment_extraction() {
    let mut parser = NixParser::new().expect("Failed to create NixParser");
    let mut counter = SymbolCounter::new();
    let file_id = FileId(1);

    let code = r#"
let
  # This is a documented variable
  # It has multiple lines of documentation
  documented = "value";
  
  # This function adds two numbers
  add = a: b: a + b;
in { inherit documented add; }
"#;

    let symbols = parser.parse(code, file_id, &mut counter);

    let documented_symbol = symbols.iter().find(|s| s.name == "documented");
    let add_symbol = symbols.iter().find(|s| s.name == "add");

    assert!(
        documented_symbol.is_some(),
        "Should find documented variable"
    );
    assert!(add_symbol.is_some(), "Should find add function");

    let doc_symbol = documented_symbol.unwrap();
    assert!(
        doc_symbol.doc_comment.is_some(),
        "Should have documentation"
    );
    let doc_text = doc_symbol.doc_comment.as_ref().unwrap();
    assert!(
        doc_text.contains("documented variable"),
        "Should contain doc text"
    );

    let add_doc_symbol = add_symbol.unwrap();
    assert!(
        add_doc_symbol.doc_comment.is_some(),
        "Should have documentation for add"
    );
    let add_doc_text = add_doc_symbol.doc_comment.as_ref().unwrap();
    assert!(
        add_doc_text.contains("adds two numbers"),
        "Should contain function doc text"
    );
}
