//! The capabilities through which the indexer uses a language: its
//! behaviour, its scoping rules and its inheritance rules.
use vstd::prelude::*;
use crate::types::{
    FileId, LanguageId, Range, RelationKind, ScopeLevel, ScopeType, Symbol, SymbolCounter, SymbolId,
    Visibility,
};

verus! {

/// Conventions of one language: module paths, visibility, which symbols
/// are resolvable and how imports name modules.
pub trait LanguageBehavior {
    /// `base` and `name` joined with the module separator; `name` alone
    /// when `base` is empty.
    fn format_module_path(&self, base_path: &str, symbol_name: &str) -> String;

    fn parse_visibility(&self, signature: &str) -> Visibility;

    fn module_separator(&self) -> &'static str;

    /// The tree-sitter grammar of the language.
    fn get_language(&self) -> tree_sitter::Language;

    fn module_path_from_file(&self, file_path: &str, project_root: &str) -> Option<String>;

    fn supports_traits(&self) -> bool;

    fn supports_inherent_methods(&self) -> bool;

    fn is_resolvable_symbol(&self, symbol: &Symbol) -> bool;

    /// Sets the qualified path and the visibility of a symbol.
    fn configure_symbol(&self, symbol: &mut Symbol, qualified_base: Option<&str>);

    fn format_method_call(&self, receiver: &str, method: &str) -> String;

    fn inheritance_relation_name(&self) -> &'static str;

    fn map_relationship(&self, language_specific: &str) -> RelationKind;

    fn import_matches_symbol(
        &self,
        import_path: &str,
        symbol_module_path: &str,
        importing_module: Option<&str>,
    ) -> bool;
}

/// The parser of one language, as the indexer uses it.
pub trait LanguageParser {
    /// The symbols of `code`, with ids from `symbol_counter`.
    fn parse(&mut self, code: &str, file_id: FileId, symbol_counter: &mut SymbolCounter) -> Vec<
        Symbol,
    >;

    /// Calls: caller, callee and where.
    fn find_calls(&mut self, code: &str) -> Vec<(String, String, Range)>;

    /// Method calls: receiver, method and where.
    fn find_method_calls(&mut self, code: &str) -> Vec<(String, String, Range)>;

    /// Implementations: type, implemented interface and where.
    fn find_implementations(&mut self, code: &str) -> Vec<(String, String, Range)>;

    /// Type uses: user, used type and where.
    fn find_uses(&mut self, code: &str) -> Vec<(String, String, Range)>;

    /// Definitions: container, defined member and where.
    fn find_defines(&mut self, code: &str) -> Vec<(String, String, Range)>;

    /// Imports: imported path, alias, importing file and where.
    fn find_imports(&mut self, code: &str, file_id: FileId) -> Vec<
        (String, Option<String>, FileId, Range),
    >;

    fn language(&self) -> LanguageId;
}

/// Name resolution of one file under the scoping rules of its language.
pub trait ResolutionScope {
    /// The state the operations keep.
    spec fn scope_wf(&self) -> bool;

    fn add_symbol(&mut self, name: String, symbol_id: SymbolId, scope_level: ScopeLevel)
        requires
            old(self).scope_wf(),
        ensures
            final(self).scope_wf(),
    ;

    fn resolve(&self, name: &str) -> Option<SymbolId>
        requires
            self.scope_wf(),
    ;

    fn clear_local_scope(&mut self)
        requires
            old(self).scope_wf(),
        ensures
            final(self).scope_wf(),
    ;

    fn enter_scope(&mut self, scope_type: ScopeType)
        requires
            old(self).scope_wf(),
        ensures
            final(self).scope_wf(),
    ;

    fn exit_scope(&mut self)
        requires
            old(self).scope_wf(),
        ensures
            final(self).scope_wf(),
    ;

    fn symbols_in_scope(&self) -> Vec<(String, SymbolId, ScopeLevel)>
        requires
            self.scope_wf(),
    ;
}

/// Inheritance among the types of one language.
pub trait InheritanceResolver {
    /// The state the operations keep.
    spec fn resolver_wf(&self) -> bool;

    fn add_inheritance(&mut self, child: String, parent: String, kind: &str)
        requires
            old(self).resolver_wf(),
        ensures
            final(self).resolver_wf(),
    ;

    fn resolve_method(&self, ty: &str, method: &str) -> Option<String>
        requires
            self.resolver_wf(),
    ;

    fn get_inheritance_chain(&self, ty: &str) -> Vec<String>
        requires
            self.resolver_wf(),
    ;

    fn is_subtype(&self, child: &str, parent: &str) -> bool
        requires
            self.resolver_wf(),
    ;

    fn add_type_methods(&mut self, ty: String, methods: Vec<String>)
        requires
            old(self).resolver_wf(),
        ensures
            final(self).resolver_wf(),
    ;

    fn get_all_methods(&self, ty: &str) -> Vec<String>
        requires
            self.resolver_wf(),
    ;
}

} // verus!
