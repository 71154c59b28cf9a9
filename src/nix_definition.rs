//! The Nix language as the indexer sees it: its id, name, file extensions,
//! and how its parser and behaviour are made.
use vstd::prelude::*;
use crate::nix_behavior::NixBehavior;
use crate::nix_parser::NixParser;
use crate::registry::{LanguageEntry, LanguageRegistry, Settings, config_for, ids_of};
use crate::types::LanguageId;

verus! {

/// Definition of the Nix language.
#[derive(Clone, Copy, Debug)]
pub struct NixLanguage;

impl NixLanguage {
    pub fn id(&self) -> (r: LanguageId)
        ensures
            r.name@ == "nix"@,
    {
        LanguageId::new("nix")
    }

    pub fn name(&self) -> (r: &'static str)
        ensures
            r@ == "Nix"@,
    {
        "Nix"
    }

    pub fn extensions(&self) -> (r: Vec<&'static str>)
        ensures
            r@.len() == 1,
            r@[0]@ == "nix"@,
    {
        let mut v: Vec<&'static str> = Vec::new();
        v.push("nix");
        v
    }

    /// A Nix parser; making one always succeeds.
    pub fn create_parser(&self, settings: &Settings) -> (r: Result<NixParser, String>)
        ensures
            r is Ok,
    {
        NixParser::new()
    }

    pub fn create_behavior(&self) -> (r: NixBehavior)
        ensures
            r == NixBehavior,
    {
        NixBehavior::new()
    }

    /// Nix is indexed unless the settings say otherwise.
    pub fn default_enabled(&self) -> (r: bool)
        ensures
            r,
    {
        true
    }

    /// The `enabled` flag that the settings give for `Nix`, else the default.
    pub fn is_enabled(&self, settings: &Settings) -> (r: bool)
        ensures
            r == match config_for(settings.languages@, "Nix"@) {
                Some(c) => c.enabled,
                None => true,
            },
    {
        match settings.language("Nix") {
            Some(config) => config.enabled,
            None => self.default_enabled(),
        }
    }
}

/// Registers Nix with the registry.
pub fn register(registry: &mut LanguageRegistry)
    requires
        old(registry).wf(),
    ensures
        final(registry).wf(),
        ids_of(final(registry).entries()).contains("nix"@),
{
    let lang = NixLanguage;
    let mut extensions: Vec<String> = Vec::new();
    extensions.push("nix".to_owned());
    let entry = LanguageEntry {
        id: lang.id().name,
        name: lang.name().to_owned(),
        extensions,
        default_enabled: lang.default_enabled(),
    };
    registry.register(entry);
}

} // verus!
