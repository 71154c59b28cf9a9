//! Value types shared by every language: identifiers, ranges, kinds,
//! visibility, scope tags and the symbol record itself.
use vstd::prelude::*;

verus! {

/// Identifier of a symbol, unique within one run of a [`SymbolCounter`].
#[derive(Clone, Copy, Debug, PartialEq, Eq, Hash, Structural)]
pub struct SymbolId(pub u32);

impl SymbolId {
    /// A symbol id; zero is not a valid id.
    pub fn new(id: u32) -> (r: Option<SymbolId>)
        ensures
            id == 0 ==> r.is_none(),
            id != 0 ==> r == Some(SymbolId(id)),
    {
        if id == 0 {
            None
        } else {
            Some(SymbolId(id))
        }
    }

    pub fn value(&self) -> (r: u32)
        ensures
            r == self.0,
    {
        self.0
    }
}

/// Identifier of a source file; zero is not a valid id.
#[derive(Clone, Copy, Debug, PartialEq, Eq, Hash, Structural)]
pub struct FileId(pub u32);

impl FileId {
    pub fn new(id: u32) -> (r: Option<FileId>)
        ensures
            id == 0 ==> r.is_none(),
            id != 0 ==> r == Some(FileId(id)),
    {
        if id == 0 {
            None
        } else {
            Some(FileId(id))
        }
    }

    pub fn value(&self) -> (r: u32)
        ensures
            r == self.0,
    {
        self.0
    }
}

/// Start and end of a declaration: lines from zero, columns in bytes.
#[derive(Clone, Copy, Debug, PartialEq, Eq, Hash, Structural)]
pub struct Range {
    pub start_line: u32,
    pub start_column: u16,
    pub end_line: u32,
    pub end_column: u16,
}

impl Range {
    pub fn new(start_line: u32, start_column: u16, end_line: u32, end_column: u16) -> (r: Range)
        ensures
            r == (Range { start_line, start_column, end_line, end_column }),
    {
        Range { start_line, start_column, end_line, end_column }
    }
}

#[derive(Clone, Copy, Debug, PartialEq, Eq, Hash, Structural)]
pub enum SymbolKind {
    Function,
    Method,
    Variable,
    Constant,
    Struct,
    Class,
    Interface,
    Trait,
    Enum,
    Parameter,
    Object,
    Array,
    TypeAlias,
    Module,
    Macro,
    Union,
    Field,
    Namespace,
    Other,
}

#[derive(Clone, Copy, Debug, PartialEq, Eq, Hash, Structural)]
pub enum Visibility {
    Public,
    Crate,
    Module,
    Private,
    Protected,
}

/// Where a symbol was declared.
#[derive(Clone, Debug, PartialEq, Eq)]
pub enum ScopeContext {
    Module,
    Global,
    Package,
    Parameter,
    ClassMember,
    Local { hoisted: bool, parent_name: Option<String>, parent_kind: Option<SymbolKind> },
}

/// Generic relationship kinds that per-language labels are mapped onto.
#[derive(Clone, Copy, Debug, PartialEq, Eq, Hash, Structural)]
pub enum RelationKind {
    Calls,
    References,
    Extends,
    Implements,
    Defines,
    Uses,
}

/// Scope levels, from innermost to outermost.
#[derive(Clone, Copy, Debug, PartialEq, Eq, Hash, Structural)]
pub enum ScopeLevel {
    Local,
    Module,
    Package,
    Global,
}

/// Kinds of scope that a resolution context can enter.
#[derive(Clone, Copy, Debug, PartialEq, Eq, Hash, Structural)]
pub enum ScopeType {
    Function { hoisting: bool },
    Block,
    Class,
    Module,
    Global,
    Package,
    Namespace,
}

/// Short lowercase token that names a language (`nix`, `py`).
#[derive(Clone, Debug, PartialEq, Eq, Hash)]
pub struct LanguageId {
    pub name: String,
}

impl LanguageId {
    pub fn new(name: &str) -> (r: LanguageId)
        ensures
            r.name@ == name@,
    {
        LanguageId { name: name.to_owned() }
    }

    pub fn as_str(&self) -> (r: &str)
        ensures
            r@ == self.name@,
    {
        self.name.as_str()
    }
}

/// A named declaration extracted from source.
#[derive(Clone, Debug)]
pub struct Symbol {
    pub id: SymbolId,
    pub name: String,
    pub kind: SymbolKind,
    pub file_id: FileId,
    pub range: Range,
    pub signature: Option<String>,
    pub doc_comment: Option<String>,
    pub qualified_path: Option<String>,
    pub visibility: Visibility,
    pub scope_context: Option<ScopeContext>,
    pub language_id: Option<LanguageId>,
}

/// The view of an optional string.
pub open spec fn opt_view(s: Option<String>) -> Option<Seq<char>> {
    match s {
        Some(v) => Some(v@),
        None => None,
    }
}

impl Symbol {
    /// A symbol with no signature, documentation or module path, private
    /// and with no scope tag.
    pub fn new(id: SymbolId, name: String, kind: SymbolKind, file_id: FileId, range: Range) -> (r:
        Symbol)
        ensures
            r.id == id,
            r.name@ == name@,
            r.kind == kind,
            r.file_id == file_id,
            r.range == range,
            r.signature.is_none(),
            r.doc_comment.is_none(),
            r.qualified_path.is_none(),
            r.visibility == Visibility::Private,
            r.scope_context.is_none(),
            r.language_id.is_none(),
    {
        Symbol {
            id,
            name,
            kind,
            file_id,
            range,
            signature: None,
            doc_comment: None,
            qualified_path: None,
            visibility: Visibility::Private,
            scope_context: None,
            language_id: None,
        }
    }
}

/// Mints symbol ids in increasing order, starting at one.
#[derive(Clone, Debug)]
pub struct SymbolCounter {
    next: u32,
}

impl SymbolCounter {
    /// The id that the next call of `next_id` hands out.
    pub closed spec fn next_value(&self) -> nat {
        self.next as nat
    }

    pub fn new() -> (r: SymbolCounter)
        ensures
            r.next_value() == 1,
    {
        SymbolCounter { next: 1 }
    }

    /// A counter whose first id is `start`; zero is raised to one.
    pub fn starting_at(start: u32) -> (r: SymbolCounter)
        ensures
            r.next_value() == if start == 0 { 1 } else { start as nat },
    {
        SymbolCounter { next: if start == 0 { 1 } else { start } }
    }

    /// Whether another id can be minted.
    pub fn has_next(&self) -> (r: bool)
        ensures
            r == (self.next_value() < u32::MAX),
    {
        self.next < u32::MAX
    }

    pub fn current_count(&self) -> (r: u32)
        ensures
            r as nat == self.next_value(),
    {
        self.next
    }

    pub fn next_id(&mut self) -> (r: SymbolId)
        requires
            old(self).next_value() < u32::MAX,
        ensures
            r.0 as nat == old(self).next_value(),
            final(self).next_value() == old(self).next_value() + 1,
    {
        let id = SymbolId(self.next);
        self.next = self.next + 1;
        id
    }
}

} // verus!
