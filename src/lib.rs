//! Language-parsing core of a code-intelligence indexer: symbols extracted
//! from syntax trees, per-language behaviours, scope resolution and
//! inheritance resolution, each stated by contracts and proved.
pub mod types;
pub mod capabilities;
pub mod text;
pub mod nix_behavior;
pub mod bindings;
pub mod nix_resolution;
pub mod names;
pub mod python_resolution;
pub mod audit;
pub mod syntax;
pub mod nix_parser;
pub mod nix_walk_laws;
pub mod registry;
pub mod nix_definition;

pub use audit::{AuditError, CParserAudit};
pub use capabilities::{InheritanceResolver, LanguageBehavior, LanguageParser, ResolutionScope};
pub use nix_behavior::NixBehavior;
pub use nix_definition::NixLanguage;
pub use nix_parser::{NixParser, ParseOutcome};
pub use nix_resolution::{NixInheritanceResolver, NixResolutionContext, NixScopeType};
pub use python_resolution::{PythonInheritanceResolver, PythonResolutionContext};
pub use registry::{LanguageConfig, LanguageRegistry, Settings};
pub use syntax::SyntaxNode;
pub use types::{
    FileId, LanguageId, Range, RelationKind, ScopeContext, ScopeLevel, ScopeType, Symbol,
    SymbolCounter, SymbolId, SymbolKind, Visibility,
};
