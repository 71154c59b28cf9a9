use codanna::{
    FileId, InheritanceResolver, NixInheritanceResolver, NixResolutionContext, NixScopeType,
    PythonInheritanceResolver, PythonResolutionContext, ResolutionScope, ScopeLevel, ScopeType,
    SymbolId,
};

fn id(n: u32) -> SymbolId {
    SymbolId(n)
}

#[test]
fn nix_recursive_set_forward_reference() {
    // rec { a = b; b = 1; }: while reading the value of `a`, `b` resolves.
    let mut ctx = NixResolutionContext::new(FileId(1));
    ctx.enter_attrset_scope(true);
    ctx.add_recursive_symbol("a".to_string(), id(1));
    ctx.add_recursive_symbol("b".to_string(), id(2));
    assert!(ctx.in_recursive_scope());
    assert_eq!(ctx.resolve("b"), Some(id(2)));
    assert_eq!(ctx.resolve("a"), Some(id(1)));
    ctx.exit_attrset_scope();
    assert_eq!(ctx.resolve("b"), None);
}

#[test]
fn nix_recursive_set_resolves_earlier_attribute() {
    // rec { a = 1; b = a + 2; c = b * 3; }
    let mut ctx = NixResolutionContext::new(FileId(1));
    ctx.enter_attrset_scope(true);
    for (i, n) in ["a", "b", "c"].iter().enumerate() {
        ctx.add_recursive_symbol(n.to_string(), id(i as u32 + 1));
    }
    assert_eq!(ctx.resolve_nix_symbol("a"), Some(id(1)));
}

#[test]
fn nix_resolution_order() {
    let mut ctx = NixResolutionContext::new(FileId(1));
    ctx.add_symbol("x".to_string(), id(1), ScopeLevel::Global);
    ctx.enter_let_scope();
    ctx.add_symbol("x".to_string(), id(2), ScopeLevel::Local);
    assert_eq!(ctx.resolve("x"), Some(id(2)));
    ctx.enter_with_scope(vec![("x".to_string(), id(3)), ("w".to_string(), id(4))]);
    assert!(ctx.in_with_scope());
    // A with set never shadows a binding made by let.
    assert_eq!(ctx.resolve("x"), Some(id(2)));
    assert_eq!(ctx.resolve("w"), Some(id(4)));
    ctx.exit_with_scope();
    assert_eq!(ctx.resolve("w"), None);
    ctx.exit_let_scope();
    assert_eq!(ctx.resolve("x"), Some(id(1)));
    // Exiting the global frame does nothing.
    ctx.exit_scope();
    assert_eq!(ctx.current_scope_type(), Some(NixScopeType::Global));
}

#[test]
fn nix_function_scope_and_listing() {
    let mut ctx = NixResolutionContext::new(FileId(1));
    ctx.add_symbol("g".to_string(), id(1), ScopeLevel::Module);
    ctx.enter_function_scope(vec![("p".to_string(), id(5)), ("p".to_string(), id(6))]);
    assert_eq!(ctx.resolve("p"), Some(id(6)));
    let listed = ctx.symbols_in_scope();
    assert_eq!(
        listed,
        vec![
            ("g".to_string(), id(1), ScopeLevel::Global),
            ("p".to_string(), id(6), ScopeLevel::Local)
        ]
    );
    ctx.clear_local_scope();
    assert_eq!(ctx.resolve("p"), None);
    ctx.exit_function_scope();
    ctx.enter_scope(ScopeType::Block);
    assert_eq!(ctx.current_scope_type(), Some(NixScopeType::AttrSet));
    ctx.exit_scope();
    ctx.clear_import_cache();
    assert_eq!(ctx.current_scope_type(), Some(NixScopeType::Global));
}

#[test]
fn nix_merge_chain_stops_at_cycle() {
    let mut r = NixInheritanceResolver::new();
    r.add_merge_relationship(id(1), id(2));
    r.add_merge_relationship(id(1), id(9));
    r.add_merge_relationship(id(2), id(3));
    assert_eq!(r.get_merged_parents(id(1)), vec![id(2), id(9)]);
    assert_eq!(r.get_full_inheritance_chain(id(1)), vec![id(1), id(2), id(3)]);
    assert!(r.check_inheritance(id(1), id(9)));
    assert!(!r.check_inheritance(id(2), id(1)));
    // A cycle back to the start: the walk stops before re-entering it.
    r.add_merge_relationship(id(3), id(1));
    assert_eq!(r.get_full_inheritance_chain(id(1)), vec![id(1), id(2), id(3)]);
    let mut two = NixInheritanceResolver::new();
    two.add_merge_relationship(id(1), id(2));
    two.add_merge_relationship(id(2), id(1));
    assert_eq!(two.get_full_inheritance_chain(id(1)), vec![id(1), id(2)]);
    r.add_with_relationship(id(4), id(5));
    r.add_composition_relationship(id(6), id(7));
    assert_eq!(r.get_with_sources(id(4)), vec![id(5)]);
    assert_eq!(r.get_composition_components(id(6)), vec![id(7)]);
    assert!(r.get_with_sources(id(1)).is_empty());
}

#[test]
fn nix_chain_without_cycle_has_no_repeats() {
    let mut r = NixInheritanceResolver::new();
    for i in 1..10u32 {
        r.add_merge_relationship(id(i), id(i + 1));
    }
    let chain = r.get_full_inheritance_chain(id(1));
    assert_eq!(chain[0], id(1));
    assert_eq!(chain.len(), 10);
    let mut seen = std::collections::HashSet::new();
    assert!(chain.iter().all(|x| seen.insert(*x)));
}

#[test]
fn nix_name_based_interface() {
    let mut r = NixInheritanceResolver::new();
    r.add_inheritance("ab".to_string(), "xyz".to_string(), "merge");
    r.add_inheritance("ab".to_string(), "q".to_string(), "with");
    assert_eq!(r.get_inheritance_chain("cd"), vec!["symbol_2", "symbol_3"]);
    assert!(r.is_subtype("ab", "abc"));
    assert!(!r.is_subtype("ab", "a"));
    assert_eq!(r.get_with_sources(id(2)), vec![id(1)]);
    assert_eq!(r.resolve_method("ab", "m"), None);
    r.add_type_methods("ab".to_string(), vec!["m".to_string()]);
    assert!(r.get_all_methods("ab").is_empty());
}

#[test]
fn python_nested_functions() {
    let mut ctx = PythonResolutionContext::new(FileId(1));
    ctx.enter_scope(ScopeType::Module);
    ctx.add_symbol_python("top".to_string(), id(1), false);
    ctx.enter_scope(ScopeType::Function { hoisting: false });
    ctx.add_symbol_python("outer_var".to_string(), id(2), false);
    ctx.enter_scope(ScopeType::Function { hoisting: false });
    ctx.add_symbol_python("inner_var".to_string(), id(3), false);
    assert_eq!(ctx.resolve("outer_var"), Some(id(2)));
    assert_eq!(ctx.resolve("inner_var"), Some(id(3)));
    assert_eq!(ctx.resolve("top"), Some(id(1)));
    ctx.exit_scope();
    assert_eq!(ctx.resolve("inner_var"), None);
    assert_eq!(ctx.resolve("top"), Some(id(1)));
    // The outer function's locals are restored.
    assert_eq!(ctx.resolve("outer_var"), Some(id(2)));
    ctx.exit_scope();
    assert_eq!(ctx.resolve("outer_var"), None);
}

#[test]
fn nix_with_and_rec_come_before_outer_frames() {
    let mut ctx = NixResolutionContext::new(FileId(1));
    ctx.add_symbol("x".to_string(), id(1), ScopeLevel::Global);
    ctx.add_symbol("a".to_string(), id(7), ScopeLevel::Global);
    ctx.enter_with_scope(vec![("x".to_string(), id(2))]);
    // The global frame is an outer frame here; the with set comes first.
    assert_eq!(ctx.resolve("x"), Some(id(2)));
    ctx.enter_attrset_scope(true);
    ctx.add_recursive_symbol("a".to_string(), id(8));
    assert_eq!(ctx.resolve("a"), Some(id(8)));
    ctx.exit_attrset_scope();
    ctx.exit_with_scope();
    assert_eq!(ctx.resolve("x"), Some(id(1)));
    // A binding made while a let is innermost stays above a later with set.
    ctx.enter_let_scope();
    ctx.add_symbol("y".to_string(), id(3), ScopeLevel::Local);
    ctx.enter_with_scope(vec![("y".to_string(), id(4))]);
    assert_eq!(ctx.resolve("y"), Some(id(3)));
}

#[test]
fn python_qualified_names_and_levels() {
    let mut ctx = PythonResolutionContext::new(FileId(1));
    ctx.add_symbol("os".to_string(), id(1), ScopeLevel::Package);
    ctx.add_symbol("join".to_string(), id(2), ScopeLevel::Module);
    ctx.add_symbol("loc".to_string(), id(3), ScopeLevel::Local);
    assert_eq!(ctx.resolve("os.join"), Some(id(2)));
    assert_eq!(ctx.resolve("sys.join"), None);
    assert_eq!(ctx.resolve("os.path.join"), None);
    let listed = ctx.symbols_in_scope();
    assert_eq!(
        listed,
        vec![
            ("loc".to_string(), id(3), ScopeLevel::Local),
            ("os".to_string(), id(1), ScopeLevel::Package),
            ("join".to_string(), id(2), ScopeLevel::Global)
        ]
    );
    ctx.add_import("os".to_string(), "path".to_string(), None);
    ctx.add_import("os".to_string(), "sep".to_string(), Some("s".to_string()));
    ctx.clear_local_scope();
    assert_eq!(ctx.resolve("loc"), None);
    ctx.push_enclosing_scope();
    ctx.pop_enclosing_scope();
}

#[test]
fn python_mro_scenario() {
    let mut r = PythonInheritanceResolver::new();
    r.add_class("A".to_string(), vec![]);
    r.add_class("B".to_string(), vec![]);
    r.add_class("C".to_string(), vec!["A".to_string(), "B".to_string()]);
    r.add_class_methods("A".to_string(), vec!["foo".to_string()]);
    r.add_class_methods("B".to_string(), vec!["bar".to_string()]);
    assert_eq!(r.get_all_methods("C"), vec!["foo".to_string(), "bar".to_string()]);
    assert_eq!(r.resolve_method("C", "foo"), Some("A".to_string()));
    assert_eq!(r.resolve_method("C", "baz"), None);
    assert!(r.is_subtype("C", "A"));
    assert!(!r.is_subtype("A", "C"));
}

#[test]
fn python_diamond_mro() {
    let mut r = PythonInheritanceResolver::default();
    r.add_inheritance("A".to_string(), "X".to_string(), "extends");
    r.add_inheritance("B".to_string(), "X".to_string(), "inherits");
    r.add_inheritance("C".to_string(), "A".to_string(), "extends");
    r.add_inheritance("C".to_string(), "B".to_string(), "extends");
    r.add_inheritance("C".to_string(), "Z".to_string(), "implements");
    assert_eq!(r.get_inheritance_chain("C"), vec!["C", "A", "B", "X"]);
    assert_eq!(r.calculate_mro("X"), vec!["X"]);
}

#[test]
fn python_mro_scenario_with_declared_classes() {
    let mut r = PythonInheritanceResolver::new();
    r.add_class("X".to_string(), vec![]);
    r.add_class("A".to_string(), vec!["X".to_string()]);
    r.add_class("B".to_string(), vec!["X".to_string()]);
    r.add_class("C".to_string(), vec!["A".to_string(), "B".to_string()]);
    assert_eq!(r.get_inheritance_chain("C"), vec!["C", "A", "B", "X"]);
}

#[test]
fn python_cyclic_hierarchy_terminates() {
    let mut r = PythonInheritanceResolver::new();
    r.add_class("A".to_string(), vec!["B".to_string()]);
    r.add_class("B".to_string(), vec!["A".to_string()]);
    let chain = r.get_inheritance_chain("A");
    assert_eq!(chain, vec!["A", "B"]);
    r.add_type_methods("B".to_string(), vec!["m".to_string(), "m".to_string()]);
    assert_eq!(r.get_all_methods("A"), vec!["m".to_string()]);
}
