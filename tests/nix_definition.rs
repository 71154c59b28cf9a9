use codanna::{LanguageBehavior, LanguageConfig, LanguageRegistry, NixLanguage, Settings};

#[test]
fn test_nix_language_id() {
    let lang = NixLanguage;
    assert_eq!(lang.id().as_str(), "nix");
}

#[test]
fn test_nix_language_name() {
    let lang = NixLanguage;
    assert_eq!(lang.name(), "Nix");
}

#[test]
fn test_nix_extensions() {
    let lang = NixLanguage;
    assert_eq!(lang.extensions(), &["nix"]);
}

#[test]
fn nix_enabled_follows_settings() {
    let lang = NixLanguage;
    let mut settings = Settings::default();
    assert!(lang.is_enabled(&settings));
    settings
        .languages
        .push(("Nix".to_string(), LanguageConfig { enabled: false }));
    assert!(!lang.is_enabled(&settings));
    let mut other = Settings::default();
    other
        .languages
        .push(("Python".to_string(), LanguageConfig { enabled: false }));
    assert!(lang.is_enabled(&other));
}

#[test]
fn registry_maps_extension_to_nix() {
    let mut registry = LanguageRegistry::new();
    assert!(!registry.is_registered("nix"));
    assert_eq!(registry.language_for_extension("nix"), None);
    codanna::nix_definition::register(&mut registry);
    assert!(registry.is_registered("nix"));
    assert_eq!(registry.language_for_extension("nix"), Some("nix".to_string()));
    assert_eq!(registry.language_for_extension("py"), None);
    // Registering again replaces the entry.
    codanna::nix_definition::register(&mut registry);
    assert!(registry.is_registered("nix"));
}

#[test]
fn create_parser_and_behavior() {
    let lang = NixLanguage;
    let settings = Settings::default();
    assert!(lang.create_parser(&settings).is_ok());
    let behavior = lang.create_behavior();
    assert_eq!(behavior.format_method_call("a", "b"), "a.b");
}
