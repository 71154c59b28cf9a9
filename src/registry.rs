//! Settings consulted by language definitions, and the registry that maps
//! language ids and file extensions to the languages known to the indexer.
use vstd::prelude::*;
use crate::names::views_of;
use crate::text::str_eq;

verus! {

/// Per-language configuration.
#[derive(Clone, Copy, Debug)]
pub struct LanguageConfig {
    pub enabled: bool,
}

/// Settings of the indexer: the configuration of each language by its
/// display name.
#[derive(Debug)]
pub struct Settings {
    pub languages: Vec<(String, LanguageConfig)>,
}

/// The configuration given for the first entry named `name`.
pub open spec fn config_for(langs: Seq<(String, LanguageConfig)>, name: Seq<char>) -> Option<
    LanguageConfig,
>
    decreases langs.len(),
{
    if langs.len() == 0 {
        None
    } else if langs[0].0@ == name {
        Some(langs[0].1)
    } else {
        config_for(langs.skip(1), name)
    }
}

impl Default for Settings {
    fn default() -> (r: Settings)
        ensures
            r.languages@.len() == 0,
    {
        Settings::new()
    }
}

impl Settings {
    pub fn new() -> (r: Settings)
        ensures
            r.languages@.len() == 0,
    {
        Settings { languages: Vec::new() }
    }

    /// The configuration of the language with display name `name`.
    pub fn language(&self, name: &str) -> (r: Option<LanguageConfig>)
        ensures
            r == config_for(self.languages@, name@),
    {
        let ghost all = self.languages@;
        let mut i: usize = 0;
        assert(all.skip(0) =~= all);
        while i < self.languages.len()
            invariant
                i <= all.len(),
                all == self.languages@,
                config_for(all, name@) == config_for(all.skip(i as int), name@),
            decreases self.languages.len() - i,
        {
            assert(all.skip(i as int).skip(1) =~= all.skip(i + 1));
            if str_eq(self.languages[i].0.as_str(), name) {
                return Some(self.languages[i].1);
            }
            i = i + 1;
        }
        None
    }
}

/// What the registry knows of a language.
#[derive(Debug)]
pub struct LanguageEntry {
    pub id: String,
    pub name: String,
    pub extensions: Vec<String>,
    pub default_enabled: bool,
}

/// The languages known to the indexer, each id at most once.
#[derive(Debug)]
pub struct LanguageRegistry {
    entries: Vec<LanguageEntry>,
}

pub open spec fn ids_of(v: Seq<LanguageEntry>) -> Seq<Seq<char>> {
    Seq::new(v.len(), |i: int| v[i].id@)
}

/// The id of the first language listing extension `ext`.
pub open spec fn language_for_extension(v: Seq<LanguageEntry>, ext: Seq<char>) -> Option<Seq<char>>
    decreases v.len(),
{
    if v.len() == 0 {
        None
    } else if views_of(v[0].extensions@).contains(ext) {
        Some(v[0].id@)
    } else {
        language_for_extension(v.skip(1), ext)
    }
}

impl LanguageRegistry {
    pub closed spec fn entries(&self) -> Seq<LanguageEntry> {
        self.entries@
    }

    pub open spec fn wf(&self) -> bool {
        ids_of(self.entries()).no_duplicates()
    }

    pub fn new() -> (r: LanguageRegistry)
        ensures
            r.wf(),
            r.entries().len() == 0,
    {
        let r = LanguageRegistry { entries: Vec::new() };
        assert(ids_of(r.entries()) =~= Seq::<Seq<char>>::empty());
        r
    }

    /// Adds a language; one registered under the same id before is
    /// replaced in place.
    pub fn register(&mut self, entry: LanguageEntry)
        requires
            old(self).wf(),
        ensures
            final(self).wf(),
            final(self).entries().contains(entry),
            ids_of(final(self).entries()).contains(entry.id@),
            ids_of(old(self).entries()).contains(entry.id@) ==> final(self).entries().len() == old(
                self,
            ).entries().len(),
            !ids_of(old(self).entries()).contains(entry.id@) ==> final(self).entries() == old(
                self,
            ).entries().push(entry),
            forall|i: int|
                0 <= i < final(self).entries().len() && final(self).entries()[i].id@ != entry.id@
                    ==> old(self).entries().contains(#[trigger] final(self).entries()[i]),
    {
        let ghost ev = entry;
        let ghost ids = ids_of(self.entries@);
        let mut i: usize = 0;
        while i < self.entries.len()
            invariant
                i <= self.entries@.len(),
                self.entries@ == old(self).entries@,
                ids == ids_of(self.entries@),
                ids.no_duplicates(),
                forall|k: int| 0 <= k < i ==> ids[k] != entry.id@,
                entry == ev,
            decreases self.entries.len() - i,
        {
            if str_eq(self.entries[i].id.as_str(), entry.id.as_str()) {
                self.entries.set(i, entry);
                assert(self.entries@[i as int] == ev);
                assert(ids_of(self.entries@) =~= ids);
                assert(ids_of(self.entries()).no_duplicates());
                assert(ids_of(self.entries@)[i as int] == ev.id@);
                assert forall|k: int|
                    0 <= k < self.entries@.len() && self.entries@[k].id@ != ev.id@ implies old(
                    self,
                ).entries@.contains(#[trigger] self.entries@[k]) by {
                    assert(old(self).entries@[k] == self.entries@[k]);
                }
                return ;
            }
            i = i + 1;
        }
        assert(!ids.contains(ev.id@));
        self.entries.push(entry);
        assert(self.entries@[ids.len() as int] == ev);
        assert(ids_of(self.entries@) =~= ids.push(ev.id@));
        assert(ids_of(self.entries@)[ids.len() as int] == ev.id@);
        assert forall|k: int|
            0 <= k < self.entries@.len() && self.entries@[k].id@ != ev.id@ implies old(
            self,
        ).entries@.contains(#[trigger] self.entries@[k]) by {
            assert(old(self).entries@[k] == self.entries@[k]);
        }
    }

    /// Whether a language with this id is registered.
    pub fn is_registered(&self, id: &str) -> (r: bool)
        ensures
            r == ids_of(self.entries()).contains(id@),
    {
        let mut i: usize = 0;
        while i < self.entries.len()
            invariant
                i <= self.entries@.len(),
                forall|k: int| 0 <= k < i ==> ids_of(self.entries@)[k] != id@,
            decreases self.entries.len() - i,
        {
            if str_eq(self.entries[i].id.as_str(), id) {
                assert(ids_of(self.entries@)[i as int] == id@);
                return true;
            }
            i = i + 1;
        }
        false
    }

    /// The id of the language for files with extension `ext` (no dot).
    pub fn language_for_extension(&self, ext: &str) -> (r: Option<String>)
        ensures
            match r {
                Some(s) => language_for_extension(self.entries(), ext@) == Some(s@),
                None => language_for_extension(self.entries(), ext@) is None,
            },
    {
        let ghost all = self.entries@;
        let mut i: usize = 0;
        assert(all.skip(0) =~= all);
        while i < self.entries.len()
            invariant
                i <= all.len(),
                all == self.entries@,
                language_for_extension(all, ext@) == language_for_extension(all.skip(i as int), ext@),
            decreases self.entries.len() - i,
        {
            assert(all.skip(i as int).skip(1) =~= all.skip(i + 1));
            assert(all.skip(i as int)[0] == self.entries@[i as int]);
            if crate::names::contains_string(&self.entries[i].extensions, ext) {
                return Some(self.entries[i].id.clone());
            }
            i = i + 1;
        }
        None
    }
}

} // verus!
