use codanna::{
    FileId, LanguageBehavior, LanguageParser, NixBehavior, NixLanguage, NixParser, Settings,
    SymbolCounter,
};
use std::time::Instant;

#[test]
fn test_nix_parser_initialization() {
    let parser_result = NixParser::new();
    assert!(
        parser_result.is_ok(),
        "Failed to create NixParser: {:?}",
        parser_result.err()
    );

    let behavior = NixBehavior::new();
    let language = behavior.get_language();
    assert!(
        language.node_kind_count() > 0,
        "Language should have node kinds"
    );

    let language = NixLanguage;
    assert_eq!(language.name(), "Nix");
    assert_eq!(language.extensions(), &["nix"]);
    assert!(language.default_enabled());
}

fn generate_large_nix_file(num_bindings: usize) -> String {
    let mut content = String::from("{\n");

    for i in 0..num_bindings {
        match i % 4 {
            0 => {
                content.push_str(&format!("  var{} = \"value{}\";\n", i, i));
            }
            1 => {
                content.push_str(&format!("  func{} = x: x + {};\n", i, i));
            }
            2 => {
                content.push_str(&format!(
                    "  obj{} = {{ name = \"obj{}\"; value = {}; }};\n",
                    i, i, i
                ));
            }
            3 => {
                content.push_str(&format!("  list{} = [ {} {} {} ];\n", i, i, i + 1, i + 2));
            }
            _ => unreachable!(),
        }
    }

    content.push_str("}\n");
    content
}

#[test]
fn test_parsing_performance() {
    const TARGET_SYMBOLS_PER_SECOND: f64 = 5_000.0;
    const ITERATIONS: usize = 100;

    let large_nix_content = generate_large_nix_file(1000);

    let mut parser = NixParser::new().expect("Failed to create parser");
    let mut counter = SymbolCounter::new();
    let file_id = FileId(1);

    let _ = parser.parse(&large_nix_content, file_id, &mut counter);

    let start = Instant::now();
    let mut total_symbols = 0;

    for _ in 0..ITERATIONS {
        let mut counter = SymbolCounter::new();
        let symbols = parser.parse(&large_nix_content, file_id, &mut counter);
        total_symbols += symbols.len();
    }

    let duration = start.elapsed();
    let symbols_per_second = (total_symbols as f64) / duration.as_secs_f64();

    println!(
        "Performance: {:.2} symbols/second ({} symbols, {} iterations, {:.3}s)",
        symbols_per_second,
        total_symbols,
        ITERATIONS,
        duration.as_secs_f64()
    );

    assert!(
        symbols_per_second >= TARGET_SYMBOLS_PER_SECOND,
        "Performance target not met: {:.2} < {:.2} symbols/second",
        symbols_per_second,
        TARGET_SYMBOLS_PER_SECOND
    );
}

#[test]
fn test_error_handling() {
    let mut parser = NixParser::new().expect("Failed to create parser");
    let mut counter = SymbolCounter::new();
    let file_id = FileId(1);

    let malformed_cases = vec![
        "{ unclosed = \"string;",
        "let x = 1 in",
        "{ name = ; }",
        "rec { a = b; }",
    ];

    for (i, malformed_code) in malformed_cases.iter().enumerate() {
        println!("Testing malformed case {}: {}", i + 1, malformed_code);

        let symbols = parser.parse(malformed_code, file_id, &mut counter);

        println!(
            "Malformed case {} returned {} symbols",
            i + 1,
            symbols.len()
        );
    }
}

#[test]
fn test_language_definition_integration() {
    let language = NixLanguage;
    let settings = Settings::default();

    let parser_result = language.create_parser(&settings);
    assert!(
        parser_result.is_ok(),
        "Failed to create parser through language definition"
    );

    let behavior = language.create_behavior();
    let ts_language = behavior.get_language();
    assert!(
        ts_language.node_kind_count() > 0,
        "Language should have node kinds"
    );

    assert!(
        language.is_enabled(&settings),
        "Language should be enabled by default"
    );
}
