use codanna::{
    FileId, LanguageBehavior, LanguageId, NixBehavior, Range, RelationKind, ScopeContext, Symbol,
    SymbolId, SymbolKind, Visibility,
};

fn create_test_symbol(name: &str, kind: SymbolKind) -> Symbol {
    Symbol {
        id: SymbolId::new(1).unwrap(),
        name: name.into(),
        kind,
        signature: None,
        qualified_path: None,
        file_id: FileId::new(1).unwrap(),
        range: Range {
            start_line: 1,
            start_column: 1,
            end_line: 1,
            end_column: 10,
        },
        doc_comment: None,
        visibility: Visibility::Private,
        scope_context: None,
        language_id: Some(LanguageId::new("nix")),
    }
}

#[test]
fn test_module_separator() {
    let behavior = NixBehavior::new();
    assert_eq!(behavior.module_separator(), ".");
}

#[test]
fn test_format_module_path() {
    let behavior = NixBehavior::new();
    assert_eq!(
        behavior.format_module_path("lib.utils", "helper"),
        "lib.utils.helper"
    );
    assert_eq!(behavior.format_module_path("", "main"), "main");
    assert_eq!(
        behavior.format_module_path("pkgs.development.tools", "build"),
        "pkgs.development.tools.build"
    );
}

#[test]
fn test_parse_visibility() {
    let behavior = NixBehavior::new();
    assert_eq!(behavior.parse_visibility("let x = 42;"), Visibility::Public);
    assert_eq!(
        behavior.parse_visibility("func = x: x + 1"),
        Visibility::Public
    );
    assert_eq!(
        behavior.parse_visibility("{ name = \"test\"; }"),
        Visibility::Public
    );
}

#[test]
fn test_module_path_from_file() {
    let behavior = NixBehavior::new();
    let project_root = "/home/user/project";

    let file_path = "/home/user/project/lib/utils.nix";
    assert_eq!(
        behavior.module_path_from_file(file_path, project_root),
        Some("lib.utils".to_string())
    );

    let file_path = "/home/user/project/default.nix";
    assert_eq!(
        behavior.module_path_from_file(file_path, project_root),
        Some("default".to_string())
    );

    let file_path = "/home/user/project/pkgs/development/tools/build.nix";
    assert_eq!(
        behavior.module_path_from_file(file_path, project_root),
        Some("pkgs.development.tools.build".to_string())
    );

    let file_path = "/home/user/project/flake";
    assert_eq!(
        behavior.module_path_from_file(file_path, project_root),
        Some("flake".to_string())
    );
}

#[test]
fn test_supports_traits() {
    let behavior = NixBehavior::new();
    assert!(!behavior.supports_traits());
}

#[test]
fn test_supports_inherent_methods() {
    let behavior = NixBehavior::new();
    assert!(!behavior.supports_inherent_methods());
}

#[test]
fn test_is_resolvable_symbol() {
    let behavior = NixBehavior::new();

    let mut function_symbol = create_test_symbol("testFunc", SymbolKind::Function);
    function_symbol.scope_context = Some(ScopeContext::Module);
    assert!(behavior.is_resolvable_symbol(&function_symbol));

    let mut variable_symbol = create_test_symbol("testVar", SymbolKind::Variable);
    variable_symbol.scope_context = Some(ScopeContext::Module);
    assert!(behavior.is_resolvable_symbol(&variable_symbol));

    let mut local_symbol = create_test_symbol("localVar", SymbolKind::Variable);
    local_symbol.scope_context = Some(ScopeContext::Local {
        hoisted: false,
        parent_name: None,
        parent_kind: None,
    });
    assert!(behavior.is_resolvable_symbol(&local_symbol));

    let mut param_symbol = create_test_symbol("param", SymbolKind::Parameter);
    param_symbol.scope_context = Some(ScopeContext::Parameter);
    assert!(!behavior.is_resolvable_symbol(&param_symbol));

    let function_symbol_no_scope = create_test_symbol("func", SymbolKind::Function);
    assert!(behavior.is_resolvable_symbol(&function_symbol_no_scope));

    let variable_symbol_no_scope = create_test_symbol("var", SymbolKind::Variable);
    assert!(behavior.is_resolvable_symbol(&variable_symbol_no_scope));

    let method_symbol = create_test_symbol("method", SymbolKind::Method);
    assert!(!behavior.is_resolvable_symbol(&method_symbol));
}

#[test]
fn test_configure_symbol() {
    let behavior = NixBehavior::new();

    let mut symbol = create_test_symbol("testSymbol", SymbolKind::Function);
    symbol.signature = Some("testFunc = x: x + 1".into());
    symbol.visibility = Visibility::Private;

    behavior.configure_symbol(&mut symbol, Some("lib.utils"));

    assert_eq!(symbol.qualified_path.as_deref(), Some("lib.utils.testSymbol"));
    assert_eq!(symbol.visibility, Visibility::Public);

    let mut symbol_no_path = create_test_symbol("standalone", SymbolKind::Variable);
    behavior.configure_symbol(&mut symbol_no_path, None);

    assert_eq!(symbol_no_path.qualified_path.as_deref(), Some("standalone"));
    assert_eq!(symbol_no_path.visibility, Visibility::Public);
}

#[test]
fn test_format_method_call() {
    let behavior = NixBehavior::new();
    assert_eq!(
        behavior.format_method_call("config", "packages"),
        "config.packages"
    );
    assert_eq!(behavior.format_method_call("nixpkgs", "lib"), "nixpkgs.lib");
}

#[test]
fn test_inheritance_relation_name() {
    let behavior = NixBehavior::new();
    assert_eq!(behavior.inheritance_relation_name(), "references");
}

#[test]
fn test_map_relationship() {
    let behavior = NixBehavior::new();
    assert_eq!(
        behavior.map_relationship("references"),
        RelationKind::References
    );
    assert_eq!(behavior.map_relationship("calls"), RelationKind::Calls);
    assert_eq!(
        behavior.map_relationship("imports"),
        RelationKind::References
    );
    assert_eq!(behavior.map_relationship("with"), RelationKind::References);
    assert_eq!(
        behavior.map_relationship("unknown"),
        RelationKind::References
    );
}

#[test]
fn test_import_matches_symbol() {
    let behavior = NixBehavior::new();

    assert!(behavior.import_matches_symbol("lib.utils", "lib.utils", None));
    assert!(behavior.import_matches_symbol("nixpkgs", "nixpkgs", None));

    assert!(behavior.import_matches_symbol("./utils", "lib.utils", Some("lib")));
    assert!(behavior.import_matches_symbol("./helpers", "pkgs.helpers", Some("pkgs")));

    assert!(behavior.import_matches_symbol("../shared", "lib.shared", Some("lib.internal")));
    assert!(behavior.import_matches_symbol(
        "../common",
        "pkgs.common",
        Some("pkgs.development")
    ));

    assert!(behavior.import_matches_symbol("./sub/module", "base.sub.module", Some("base")));

    assert!(!behavior.import_matches_symbol("lib.utils", "lib.other", None));
    assert!(!behavior.import_matches_symbol("./utils", "lib.other", Some("lib")));
}

#[test]
fn test_get_language() {
    let behavior = NixBehavior::new();
    let language = behavior.get_language();
    assert!(language.node_kind_count() > 0);
}

#[test]
fn module_path_from_short_root() {
    let behavior = NixBehavior::new();
    assert_eq!(
        behavior.module_path_from_file("/p/pkgs/dev/tools/build.nix", "/p"),
        Some("pkgs.dev.tools.build".to_string())
    );
    assert_eq!(
        behavior.module_path_from_file("/p/default.nix", "/p"),
        Some("default".to_string())
    );
}

#[test]
fn module_path_outside_root_and_edge_cases() {
    let behavior = NixBehavior::new();
    // Not below the root: a leading ./ is dropped, separators become dots.
    assert_eq!(
        behavior.module_path_from_file("./lib/a.nix", "/elsewhere"),
        Some("lib.a".to_string())
    );
    // A root that is only a prefix of a component does not count.
    assert_eq!(
        behavior.module_path_from_file("/pkgsx/a.nix", "/pkgs"),
        Some(".pkgsx.a".to_string())
    );
    // Backslashes are separators too; repeated .nix suffixes all go.
    assert_eq!(
        behavior.module_path_from_file("/p/a\\b.nix.nix", "/p"),
        Some("a.b".to_string())
    );
    // Nothing left becomes "default".
    assert_eq!(
        behavior.module_path_from_file("/p/.nix", "/p"),
        Some("default".to_string())
    );
}

#[test]
fn import_matching_scenarios() {
    let behavior = NixBehavior::new();
    assert!(behavior.import_matches_symbol("./utils", "lib.utils", Some("lib")));
    assert!(behavior.import_matches_symbol("../shared", "lib.shared", Some("lib.internal")));
    assert!(!behavior.import_matches_symbol("./utils", "lib.other", Some("lib")));
}

#[test]
fn import_matching_relative_edge_cases() {
    let behavior = NixBehavior::new();
    // From the empty module a relative path names itself with dots.
    assert!(behavior.import_matches_symbol("./a/b", "a.b", Some("")));
    // Repeated ./ prefixes are all dropped.
    assert!(behavior.import_matches_symbol("././a", "m.a", Some("m")));
    // More ../ steps than module parts leave nothing of the module.
    assert!(behavior.import_matches_symbol("../../x", "x", Some("lib")));
    // Two steps up from a three-part module.
    assert!(behavior.import_matches_symbol("../../y/z", "a.y.z", Some("a.b.c")));
    // Empty parts of the rest are dropped.
    assert!(behavior.import_matches_symbol("../a//b", "m.a.b", Some("m.n")));
    // Only ../ steps: the parent module itself.
    assert!(behavior.import_matches_symbol("../", "lib", Some("lib.sub")));
    // A relative path without an importing module matches only itself.
    assert!(!behavior.import_matches_symbol("./utils", "utils", None));
}

#[test]
fn import_matches_itself_and_symmetry() {
    let behavior = NixBehavior::new();
    for p in ["lib.utils", "./utils", "../shared", "x"] {
        assert!(behavior.import_matches_symbol(p, p, None));
        assert!(behavior.import_matches_symbol(p, p, Some("lib")));
    }
    // Exact paths match both ways.
    assert!(behavior.import_matches_symbol("a.b", "a.b", None));
    assert!(!behavior.import_matches_symbol("a.b", "a.c", None));
    assert!(!behavior.import_matches_symbol("a.c", "a.b", None));
    // Relative ones do not.
    assert!(behavior.import_matches_symbol("./utils", "lib.utils", Some("lib")));
    assert!(!behavior.import_matches_symbol("lib.utils", "./utils", Some("lib")));
}

#[test]
fn configured_path_equals_formatted_path() {
    let behavior = NixBehavior::new();
    for (parent, name) in [("lib.utils", "helper"), ("", "main"), ("a", "b.c")] {
        let mut symbol = create_test_symbol(name, SymbolKind::Variable);
        behavior.configure_symbol(&mut symbol, Some(parent));
        assert_eq!(
            symbol.qualified_path,
            Some(behavior.format_module_path(parent, name))
        );
    }
}

#[test]
fn configure_symbol_keeps_existing_path() {
    let behavior = NixBehavior::new();
    let mut symbol = create_test_symbol("x", SymbolKind::Variable);
    symbol.qualified_path = Some("already.set".to_string());
    behavior.configure_symbol(&mut symbol, None);
    assert_eq!(symbol.qualified_path.as_deref(), Some("already.set"));
    assert_eq!(symbol.name, "x");
    assert_eq!(symbol.kind, SymbolKind::Variable);
}

#[test]
fn default_behavior_uses_dots() {
    let behavior = NixBehavior::default();
    assert_eq!(behavior.format_module_path("a", "b"), "a.b");
}
