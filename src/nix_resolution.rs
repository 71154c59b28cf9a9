//! Nix scoping: `let` frames, `with` attribute sets, recursive attribute
//! sets and function parameters, resolved innermost first.
use vstd::prelude::*;
use crate::capabilities::{InheritanceResolver, ResolutionScope};
use crate::bindings::{Bindings, Frame, bind, bind_all, lemma_bind, lookup, unique_names};
use crate::text::{append_str, decimal, push_decimal, str_eq};
use vstd::string::StringSliceAdditionalSpecFns;
use crate::types::{FileId, ScopeLevel, ScopeType, SymbolId};

verus! {

/// The kinds of scope that Nix code opens.
#[derive(Clone, Copy, Debug, PartialEq, Eq, Structural)]
pub enum NixScopeType {
    Global,
    LetIn,
    With,
    RecursiveAttrSet,
    Function,
    AttrSet,
}

/// `s` without its last element, or `s` itself when it is empty.
pub open spec fn pop_last<T>(s: Seq<T>) -> Seq<T> {
    if s.len() > 0 {
        s.drop_last()
    } else {
        s
    }
}

/// The id of `name` in the innermost frame that binds it.
pub open spec fn innermost(frames: Seq<Frame>, name: Seq<char>) -> Option<SymbolId>
    decreases frames.len(),
{
    if frames.len() == 0 {
        None
    } else {
        match lookup(frames.last(), name) {
            Some(id) => Some(id),
            None => innermost(frames.drop_last(), name),
        }
    }
}

/// The bindings of a frame, each tagged with `level`.
pub open spec fn tagged(f: Frame, level: ScopeLevel) -> Seq<(Seq<char>, SymbolId, ScopeLevel)> {
    Seq::new(f.len(), |k: int| (f[k].0, f[k].1, level))
}

/// The bindings of all frames, in order, each tagged with `level`.
pub open spec fn tagged_all(frames: Seq<Frame>, level: ScopeLevel) -> Seq<
    (Seq<char>, SymbolId, ScopeLevel),
>
    decreases frames.len(),
{
    if frames.len() == 0 {
        Seq::empty()
    } else {
        tagged_all(frames.drop_last(), level) + tagged(frames.last(), level)
    }
}

/// The level reported for the `i`-th of `n` scope frames: the first is
/// global, the last local, the others module.
pub open spec fn frame_level(i: int, n: int) -> ScopeLevel {
    if i == 0 {
        ScopeLevel::Global
    } else if i == n - 1 {
        ScopeLevel::Local
    } else {
        ScopeLevel::Module
    }
}

/// The bindings of the first `upto` scope frames, tagged by position.
pub open spec fn scope_listing(scopes: Seq<Frame>, upto: int) -> Seq<
    (Seq<char>, SymbolId, ScopeLevel),
>
    decreases upto,
{
    if upto <= 0 {
        Seq::empty()
    } else {
        scope_listing(scopes, upto - 1) + tagged(
            scopes[upto - 1],
            frame_level(upto - 1, scopes.len() as int),
        )
    }
}

/// The state of a Nix resolution context.
pub struct NixScopes {
    /// Binding frames, outermost first.
    pub scopes: Seq<Frame>,
    /// The kind of each scope frame.
    pub types: Seq<NixScopeType>,
    /// One frame per open `let`.
    pub lets: Seq<Frame>,
    /// One attribute set per open `with`.
    pub withs: Seq<Frame>,
    /// One frame per open recursive attribute set.
    pub recs: Seq<Frame>,
}

impl NixScopes {
    pub open spec fn initial() -> NixScopes {
        NixScopes {
            scopes: seq![Seq::empty()],
            types: seq![NixScopeType::Global],
            lets: Seq::empty(),
            withs: Seq::empty(),
            recs: Seq::empty(),
        }
    }

    pub open spec fn top_type(self) -> Option<NixScopeType> {
        if self.types.len() > 0 {
            Some(self.types.last())
        } else {
            None
        }
    }

    /// Pushes a scope frame of kind `t`.
    pub open spec fn open(self, t: NixScopeType, f: Frame) -> NixScopes {
        NixScopes { scopes: self.scopes.push(f), types: self.types.push(t), ..self }
    }

    /// Pops the innermost scope frame and its kind.
    pub open spec fn close(self) -> NixScopes {
        NixScopes { scopes: pop_last(self.scopes), types: pop_last(self.types), ..self }
    }

    pub open spec fn enter_let(self) -> NixScopes {
        NixScopes { lets: self.lets.push(Seq::empty()), ..self.open(NixScopeType::LetIn, Seq::empty()) }
    }

    pub open spec fn exit_let(self) -> NixScopes {
        if self.top_type() == Some(NixScopeType::LetIn) {
            NixScopes { lets: pop_last(self.lets), ..self.close() }
        } else {
            self
        }
    }

    pub open spec fn enter_with(self, attrs: Frame) -> NixScopes {
        NixScopes { withs: self.withs.push(attrs), ..self.open(NixScopeType::With, Seq::empty()) }
    }

    pub open spec fn exit_with(self) -> NixScopes {
        if self.top_type() == Some(NixScopeType::With) {
            NixScopes { withs: pop_last(self.withs), ..self.close() }
        } else {
            self
        }
    }

    pub open spec fn enter_attrset(self, is_recursive: bool) -> NixScopes {
        if is_recursive {
            NixScopes {
                recs: self.recs.push(Seq::empty()),
                ..self.open(NixScopeType::RecursiveAttrSet, Seq::empty())
            }
        } else {
            self.open(NixScopeType::AttrSet, Seq::empty())
        }
    }

    pub open spec fn exit_attrset(self) -> NixScopes {
        if self.top_type() == Some(NixScopeType::RecursiveAttrSet) {
            NixScopes { recs: pop_last(self.recs), ..self.close() }
        } else if self.top_type() == Some(NixScopeType::AttrSet) {
            self.close()
        } else {
            self
        }
    }

    pub open spec fn enter_function(self, params: Frame) -> NixScopes {
        self.open(NixScopeType::Function, params)
    }

    pub open spec fn exit_function(self) -> NixScopes {
        if self.top_type() == Some(NixScopeType::Function) {
            self.close()
        } else {
            self
        }
    }

    /// Binds `name` in the innermost recursive attribute set, if any.
    pub open spec fn add_recursive(self, name: Seq<char>, id: SymbolId) -> NixScopes {
        if self.recs.len() > 0 {
            NixScopes {
                recs: self.recs.update(
                    self.recs.len() - 1,
                    bind(self.recs.last(), name, id),
                ),
                ..self
            }
        } else {
            self
        }
    }

    /// Binds `name` in the innermost frame for a local symbol, and in the
    /// innermost `let` frame too while a `let` is the innermost scope; else
    /// in the outermost frame.
    pub open spec fn add_symbol(self, name: Seq<char>, id: SymbolId, level: ScopeLevel) -> NixScopes {
        if self.scopes.len() == 0 {
            self
        } else if level == ScopeLevel::Local {
            let lets = if self.top_type() == Some(NixScopeType::LetIn) && self.lets.len() > 0 {
                self.lets.update(self.lets.len() - 1, bind(self.lets.last(), name, id))
            } else {
                self.lets
            };
            NixScopes {
                scopes: self.scopes.update(
                    self.scopes.len() - 1,
                    bind(self.scopes.last(), name, id),
                ),
                lets,
                ..self
            }
        } else {
            NixScopes { scopes: self.scopes.update(0, bind(self.scopes[0], name, id)), ..self }
        }
    }

    pub open spec fn clear_local(self) -> NixScopes {
        if self.scopes.len() > 0 {
            NixScopes { scopes: self.scopes.update(self.scopes.len() - 1, Seq::empty()), ..self }
        } else {
            self
        }
    }

    pub open spec fn enter_scope(self, st: ScopeType) -> NixScopes {
        match st {
            ScopeType::Function { .. } => self.enter_function(Seq::empty()),
            ScopeType::Block => self.open(NixScopeType::AttrSet, Seq::empty()),
            ScopeType::Class | ScopeType::Namespace => self.enter_attrset(false),
            ScopeType::Module | ScopeType::Global | ScopeType::Package => self.open(
                NixScopeType::Global,
                Seq::empty(),
            ),
        }
    }

    pub open spec fn exit_scope(self) -> NixScopes {
        match self.top_type() {
            Some(NixScopeType::LetIn) => self.exit_let(),
            Some(NixScopeType::With) => self.exit_with(),
            Some(NixScopeType::RecursiveAttrSet) | Some(NixScopeType::AttrSet) => self.exit_attrset(),
            Some(NixScopeType::Function) => self.exit_function(),
            Some(NixScopeType::Global) => if self.scopes.len() > 1 {
                self.close()
            } else {
                self
            },
            None => self,
        }
    }

    /// Resolution order: the innermost frame, then `let` frames, `with`
    /// sets and recursive sets (each innermost first), then the outer frames.
    pub open spec fn resolve(self, name: Seq<char>) -> Option<SymbolId> {
        let current = if self.scopes.len() > 0 {
            lookup(self.scopes.last(), name)
        } else {
            None
        };
        if current is Some {
            current
        } else if innermost(self.lets, name) is Some {
            innermost(self.lets, name)
        } else if innermost(self.withs, name) is Some {
            innermost(self.withs, name)
        } else if innermost(self.recs, name) is Some {
            innermost(self.recs, name)
        } else {
            innermost(pop_last(self.scopes), name)
        }
    }

    /// Every binding with its level: scope frames outermost first, then
    /// `let` frames (local), `with` sets (module) and recursive sets (local).
    pub open spec fn listing(self) -> Seq<(Seq<char>, SymbolId, ScopeLevel)> {
        scope_listing(self.scopes, self.scopes.len() as int) + tagged_all(
            self.lets,
            ScopeLevel::Local,
        ) + tagged_all(self.withs, ScopeLevel::Module) + tagged_all(self.recs, ScopeLevel::Local)
    }
}

/// A name bound by a `let` resolves to that binding inside a `with` opened
/// within the `let`, whatever the `with` set binds.
pub proof fn lemma_let_above_with(s: NixScopes, name: Seq<char>, id: SymbolId, attrs: Frame)
    requires
        s.scopes.len() >= 1,
    ensures
        s.enter_let().add_symbol(name, id, ScopeLevel::Local).enter_with(attrs).resolve(name)
            == Some(id),
{
    let e = Seq::<(Seq<char>, SymbolId)>::empty();
    let s1 = s.enter_let();
    let s2 = s1.add_symbol(name, id, ScopeLevel::Local);
    let s3 = s2.enter_with(attrs);
    assert(unique_names(e));
    lemma_bind(e, name, id);
    assert(s2.lets.last() == bind(e, name, id));
    assert(s3.lets == s2.lets);
    assert(lookup(s3.scopes.last(), name) is None);
}

/// Inside `rec { a = ...; b = ...; }`, once both names are bound, `b`
/// resolves to the id bound for it, unless a `let` frame or a `with` set
/// that is open there binds `b` too.
pub proof fn lemma_recursive_forward_reference(
    s: NixScopes,
    a: Seq<char>,
    a_id: SymbolId,
    b: Seq<char>,
    b_id: SymbolId,
)
    requires
        forall|i: int| 0 <= i < s.recs.len() ==> unique_names(#[trigger] s.recs[i]),
        innermost(s.lets, b) is None,
        innermost(s.withs, b) is None,
    ensures
        s.enter_attrset(true).add_recursive(a, a_id).add_recursive(b, b_id).resolve(b) == Some(
            b_id,
        ),
{
    let s1 = s.enter_attrset(true);
    let s2 = s1.add_recursive(a, a_id);
    let s3 = s2.add_recursive(b, b_id);
    assert(lookup(Seq::<(Seq<char>, SymbolId)>::empty(), b) is None);
    assert(s3.scopes.last() == Seq::<(Seq<char>, SymbolId)>::empty());
    assert(unique_names(Seq::<(Seq<char>, SymbolId)>::empty()));
    lemma_bind(Seq::<(Seq<char>, SymbolId)>::empty(), a, a_id);
    lemma_bind(s2.recs.last(), b, b_id);
    assert(s3.recs.last() == bind(s2.recs.last(), b, b_id));
    assert(s3.lets == s.lets);
    assert(s3.withs == s.withs);
}

/// The views of a vector of frames.
pub open spec fn frame_views(v: Seq<Bindings>) -> Seq<Frame> {
    Seq::new(v.len(), |i: int| v[i]@)
}

pub open spec fn all_wf(v: Seq<Bindings>) -> bool {
    forall|i: int| 0 <= i < v.len() ==> (#[trigger] v[i]).wf()
}

/// Resolution context for one Nix file.
#[derive(Debug)]
pub struct NixResolutionContext {
    file_id: FileId,
    scopes: Vec<Bindings>,
    scope_types: Vec<NixScopeType>,
    let_contexts: Vec<Bindings>,
    with_contexts: Vec<Bindings>,
    rec_contexts: Vec<Bindings>,
    import_cache: Vec<(String, Option<SymbolId>)>,
}

impl View for NixResolutionContext {
    type V = NixScopes;

    closed spec fn view(&self) -> NixScopes {
        NixScopes {
            scopes: frame_views(self.scopes@),
            types: self.scope_types@,
            lets: frame_views(self.let_contexts@),
            withs: frame_views(self.with_contexts@),
            recs: frame_views(self.rec_contexts@),
        }
    }
}

impl NixResolutionContext {
    /// The global frame stays at the bottom; every frame binds each name
    /// at most once.
    pub closed spec fn wf(&self) -> bool {
        &&& self.scopes@.len() == self.scope_types@.len()
        &&& self.scopes@.len() >= 1
        &&& self.scope_types@[0] == NixScopeType::Global
        &&& all_wf(self.scopes@)
        &&& all_wf(self.let_contexts@)
        &&& all_wf(self.with_contexts@)
        &&& all_wf(self.rec_contexts@)
    }

    pub closed spec fn file(&self) -> FileId {
        self.file_id
    }

    /// A context holding only the empty global frame.
    pub fn new(file_id: FileId) -> (r: NixResolutionContext)
        ensures
            r.wf(),
            r@ == NixScopes::initial(),
            r.file() == file_id,
    {
        let mut scopes: Vec<Bindings> = Vec::new();
        scopes.push(Bindings::new());
        let mut scope_types: Vec<NixScopeType> = Vec::new();
        scope_types.push(NixScopeType::Global);
        let r = NixResolutionContext {
            file_id,
            scopes,
            scope_types,
            let_contexts: Vec::new(),
            with_contexts: Vec::new(),
            rec_contexts: Vec::new(),
            import_cache: Vec::new(),
        };
        assert(r@.scopes =~= seq![Seq::<(Seq<char>, SymbolId)>::empty()]);
        assert(r@.lets =~= Seq::<Frame>::empty());
        assert(r@.withs =~= Seq::<Frame>::empty());
        assert(r@.recs =~= Seq::<Frame>::empty());
        r
    }

    fn open_frame(&mut self, t: NixScopeType, f: Bindings)
        requires
            old(self).wf(),
            f.wf(),
        ensures
            final(self).wf(),
            final(self)@ == old(self)@.open(t, f@),
    {
        self.scopes.push(f);
        self.scope_types.push(t);
        assert(frame_views(self.scopes@) =~= frame_views(old(self).scopes@).push(f@));
        assert(self@.lets =~= old(self)@.lets);
    }

    fn close_frame(&mut self)
        requires
            old(self).wf(),
            old(self).scopes@.len() > 1,
        ensures
            final(self).wf(),
            final(self)@ == old(self)@.close(),
    {
        self.scopes.pop();
        self.scope_types.pop();
        assert(frame_views(self.scopes@) =~= frame_views(old(self).scopes@).drop_last());
    }

    fn pop_frame(v: &mut Vec<Bindings>)
        requires
            all_wf(old(v)@),
        ensures
            all_wf(final(v)@),
            frame_views(final(v)@) == pop_last(frame_views(old(v)@)),
    {
        if v.len() > 0 {
            v.pop();
            assert(frame_views(v@) =~= frame_views(old(v)@).drop_last());
        }
    }

    pub fn enter_let_scope(&mut self)
        requires
            old(self).wf(),
        ensures
            final(self).wf(),
            final(self)@ == old(self)@.enter_let(),
    {
        self.let_contexts.push(Bindings::new());
        assert(frame_views(self.let_contexts@) =~= frame_views(old(self).let_contexts@).push(
            Seq::empty(),
        ));
        self.open_frame(NixScopeType::LetIn, Bindings::new());
    }

    pub fn exit_let_scope(&mut self)
        requires
            old(self).wf(),
        ensures
            final(self).wf(),
            final(self)@ == old(self)@.exit_let(),
    {
        if self.scope_types.len() > 0 && self.scope_types[self.scope_types.len() - 1]
            == NixScopeType::LetIn {
            self.close_frame();
            Self::pop_frame(&mut self.let_contexts);
        }
    }

    /// Opens a `with` scope whose attribute set binds the given pairs,
    /// later pairs winning.
    pub fn enter_with_scope(&mut self, attr_symbols: Vec<(String, SymbolId)>)
        requires
            old(self).wf(),
        ensures
            final(self).wf(),
            final(self)@ == old(self)@.enter_with(
                bind_all(Seq::new(attr_symbols@.len(), |i: int| (attr_symbols@[i].0@, attr_symbols@[i].1))),
            ),
    {
        let attrs = Bindings::from_pairs(attr_symbols);
        let ghost av = attrs@;
        self.with_contexts.push(attrs);
        assert(frame_views(self.with_contexts@) =~= frame_views(old(self).with_contexts@).push(av));
        self.open_frame(NixScopeType::With, Bindings::new());
    }

    pub fn exit_with_scope(&mut self)
        requires
            old(self).wf(),
        ensures
            final(self).wf(),
            final(self)@ == old(self)@.exit_with(),
    {
        if self.scope_types.len() > 0 && self.scope_types[self.scope_types.len() - 1]
            == NixScopeType::With {
            self.close_frame();
            Self::pop_frame(&mut self.with_contexts);
        }
    }

    pub fn enter_attrset_scope(&mut self, is_recursive: bool)
        requires
            old(self).wf(),
        ensures
            final(self).wf(),
            final(self)@ == old(self)@.enter_attrset(is_recursive),
    {
        if is_recursive {
            self.rec_contexts.push(Bindings::new());
            assert(frame_views(self.rec_contexts@) =~= frame_views(old(self).rec_contexts@).push(
                Seq::empty(),
            ));
            self.open_frame(NixScopeType::RecursiveAttrSet, Bindings::new());
        } else {
            self.open_frame(NixScopeType::AttrSet, Bindings::new());
        }
    }

    pub fn exit_attrset_scope(&mut self)
        requires
            old(self).wf(),
        ensures
            final(self).wf(),
            final(self)@ == old(self)@.exit_attrset(),
    {
        if self.scope_types.len() > 0 {
            let top = self.scope_types[self.scope_types.len() - 1];
            if top == NixScopeType::RecursiveAttrSet {
                self.close_frame();
                Self::pop_frame(&mut self.rec_contexts);
            } else if top == NixScopeType::AttrSet {
                self.close_frame();
            }
        }
    }

    /// Opens a function scope binding the parameters, later ones winning.
    pub fn enter_function_scope(&mut self, params: Vec<(String, SymbolId)>)
        requires
            old(self).wf(),
        ensures
            final(self).wf(),
            final(self)@ == old(self)@.enter_function(
                bind_all(Seq::new(params@.len(), |i: int| (params@[i].0@, params@[i].1))),
            ),
    {
        let frame = Bindings::from_pairs(params);
        self.open_frame(NixScopeType::Function, frame);
    }

    pub fn exit_function_scope(&mut self)
        requires
            old(self).wf(),
        ensures
            final(self).wf(),
            final(self)@ == old(self)@.exit_function(),
    {
        if self.scope_types.len() > 0 && self.scope_types[self.scope_types.len() - 1]
            == NixScopeType::Function {
            self.close_frame();
        }
    }

    /// Binds `name` in the innermost recursive attribute set, so that
    /// attributes defined later in the set resolve from earlier ones.
    pub fn add_recursive_symbol(&mut self, name: String, symbol_id: SymbolId)
        requires
            old(self).wf(),
        ensures
            final(self).wf(),
            final(self)@ == old(self)@.add_recursive(name@, symbol_id),
    {
        if self.rec_contexts.len() > 0 {
            let ghost before = frame_views(self.rec_contexts@);
            let mut top = self.rec_contexts.pop().unwrap();
            top.insert(name, symbol_id);
            self.rec_contexts.push(top);
            assert(frame_views(self.rec_contexts@) =~= before.update(
                before.len() - 1,
                bind(before.last(), name@, symbol_id),
            ));
        }
    }

    /// The id that `name` resolves to here.
    pub fn resolve_nix_symbol(&self, name: &str) -> (r: Option<SymbolId>)
        requires
            self.wf(),
        ensures
            r == self@.resolve(name@),
    {
        let n = self.scopes.len();
        let current = self.scopes[n - 1].get(name);
        if current.is_some() {
            return current;
        }
        assert(frame_views(self.let_contexts@).subrange(0, self.let_contexts@.len() as int) =~= frame_views(
            self.let_contexts@,
        ));
        let found = innermost_of(&self.let_contexts, self.let_contexts.len(), name);
        if found.is_some() {
            return found;
        }
        assert(frame_views(self.with_contexts@).subrange(0, self.with_contexts@.len() as int) =~= frame_views(
            self.with_contexts@,
        ));
        let found = innermost_of(&self.with_contexts, self.with_contexts.len(), name);
        if found.is_some() {
            return found;
        }
        assert(frame_views(self.rec_contexts@).subrange(0, self.rec_contexts@.len() as int) =~= frame_views(
            self.rec_contexts@,
        ));
        let found = innermost_of(&self.rec_contexts, self.rec_contexts.len(), name);
        if found.is_some() {
            return found;
        }
        assert(frame_views(self.scopes@).subrange(0, n - 1) =~= pop_last(frame_views(self.scopes@)));
        innermost_of(&self.scopes, n - 1, name)
    }

    pub fn current_scope_type(&self) -> (r: Option<NixScopeType>)
        ensures
            r == self@.top_type(),
    {
        if self.scope_types.len() > 0 {
            Some(self.scope_types[self.scope_types.len() - 1])
        } else {
            None
        }
    }

    pub fn in_recursive_scope(&self) -> (r: bool)
        ensures
            r == (self@.top_type() == Some(NixScopeType::RecursiveAttrSet)),
    {
        self.current_scope_type() == Some(NixScopeType::RecursiveAttrSet)
    }

    pub fn in_with_scope(&self) -> (r: bool)
        ensures
            r == (self@.top_type() == Some(NixScopeType::With)),
    {
        self.current_scope_type() == Some(NixScopeType::With)
    }

    /// Forgets cached import lookups; scopes are untouched.
    pub fn clear_import_cache(&mut self)
        requires
            old(self).wf(),
        ensures
            final(self).wf(),
            final(self)@ == old(self)@,
    {
        self.import_cache.clear();
    }
}

impl ResolutionScope for NixResolutionContext {
    open spec fn scope_wf(&self) -> bool {
        self.wf()
    }

    /// Binds `name`: in the innermost frame at the local level, else in
    /// the global frame.
    fn add_symbol(&mut self, name: String, symbol_id: SymbolId, scope_level: ScopeLevel)
        ensures
            final(self).wf(),
            final(self)@ == old(self)@.add_symbol(name@, symbol_id, scope_level),
    {
        let ghost before = frame_views(self.scopes@);
        if scope_level == ScopeLevel::Local {
            let in_let = self.current_scope_type() == Some(NixScopeType::LetIn);
            if in_let && self.let_contexts.len() > 0 {
                let ghost lets_before = frame_views(self.let_contexts@);
                let mut frame = self.let_contexts.pop().unwrap();
                frame.insert(name.clone(), symbol_id);
                self.let_contexts.push(frame);
                assert(frame_views(self.let_contexts@) =~= lets_before.update(
                    lets_before.len() - 1,
                    bind(lets_before.last(), name@, symbol_id),
                ));
            }
            let mut top = self.scopes.pop().unwrap();
            top.insert(name, symbol_id);
            self.scopes.push(top);
            assert(frame_views(self.scopes@) =~= before.update(
                before.len() - 1,
                bind(before.last(), name@, symbol_id),
            ));
        } else {
            let mut first = self.scopes.remove(0);
            first.insert(name, symbol_id);
            self.scopes.insert(0, first);
            assert(frame_views(self.scopes@) =~= before.update(0, bind(before[0], name@, symbol_id)));
        }
    }

    fn resolve(&self, name: &str) -> (r: Option<SymbolId>)
        ensures
            r == self@.resolve(name@),
    {
        self.resolve_nix_symbol(name)
    }

    /// Empties the innermost frame.
    fn clear_local_scope(&mut self)
        ensures
            final(self).wf(),
            final(self)@ == old(self)@.clear_local(),
    {
        let ghost before = frame_views(self.scopes@);
        let mut top = self.scopes.pop().unwrap();
        top.clear();
        self.scopes.push(top);
        assert(frame_views(self.scopes@) =~= before.update(before.len() - 1, Seq::empty()));
    }

    fn enter_scope(&mut self, scope_type: ScopeType)
        ensures
            final(self).wf(),
            final(self)@ == old(self)@.enter_scope(scope_type),
    {
        match scope_type {
            ScopeType::Function { .. } => {
                self.enter_function_scope(Vec::new());
                assert(Seq::new(0, |i: int| (Seq::<char>::empty(), SymbolId(0))) =~= Seq::<
                    (Seq<char>, SymbolId),
                >::empty());
            },
            ScopeType::Block => self.open_frame(NixScopeType::AttrSet, Bindings::new()),
            ScopeType::Class | ScopeType::Namespace => self.enter_attrset_scope(false),
            ScopeType::Module | ScopeType::Global | ScopeType::Package => self.open_frame(
                NixScopeType::Global,
                Bindings::new(),
            ),
        }
    }

    fn exit_scope(&mut self)
        ensures
            final(self).wf(),
            final(self)@ == old(self)@.exit_scope(),
    {
        match self.current_scope_type() {
            Some(NixScopeType::LetIn) => self.exit_let_scope(),
            Some(NixScopeType::With) => self.exit_with_scope(),
            Some(NixScopeType::RecursiveAttrSet) | Some(NixScopeType::AttrSet) => {
                self.exit_attrset_scope()
            },
            Some(NixScopeType::Function) => self.exit_function_scope(),
            Some(NixScopeType::Global) => {
                if self.scopes.len() > 1 {
                    self.close_frame();
                }
            },
            None => {},
        }
    }

    /// Every binding in scope with its level, as in [`NixScopes::listing`].
    fn symbols_in_scope(&self) -> (r: Vec<(String, SymbolId, ScopeLevel)>)
        ensures
            Seq::new(r@.len(), |i: int| (r@[i].0@, r@[i].1, r@[i].2)) == self@.listing(),
    {
        let mut out: Vec<(String, SymbolId, ScopeLevel)> = Vec::new();
        let n = self.scopes.len();
        let mut i: usize = 0;
        while i < n
            invariant
                n == self.scopes@.len(),
                i <= n,
                Seq::new(out@.len(), |k: int| (out@[k].0@, out@[k].1, out@[k].2)) == scope_listing(
                    frame_views(self.scopes@),
                    i as int,
                ),
            decreases n - i,
        {
            let level = if i == 0 {
                ScopeLevel::Global
            } else if i == n - 1 {
                ScopeLevel::Local
            } else {
                ScopeLevel::Module
            };
            append_tagged(&mut out, &self.scopes[i], level);
            i = i + 1;
        }
        append_all_tagged(&mut out, &self.let_contexts, ScopeLevel::Local);
        append_all_tagged(&mut out, &self.with_contexts, ScopeLevel::Module);
        append_all_tagged(&mut out, &self.rec_contexts, ScopeLevel::Local);
        out
    }
}

/// The plain view of a listing vector.
pub open spec fn listing_view(v: Seq<(String, SymbolId, ScopeLevel)>) -> Seq<
    (Seq<char>, SymbolId, ScopeLevel),
> {
    Seq::new(v.len(), |i: int| (v[i].0@, v[i].1, v[i].2))
}

pub(crate) fn append_tagged(out: &mut Vec<(String, SymbolId, ScopeLevel)>, f: &Bindings, level: ScopeLevel)
    ensures
        listing_view(final(out)@) == listing_view(old(out)@) + tagged(f@, level),
{
    let mut k: usize = 0;
    while k < f.len()
        invariant
            k <= f@.len(),
            listing_view(out@) == listing_view(old(out)@) + tagged(f@, level).subrange(0, k as int),
        decreases f@.len() - k,
    {
        let (name, id) = f.entry(k);
        let ghost prev = listing_view(out@);
        let ghost nv = name@;
        out.push((name, id, level));
        assert(listing_view(out@) =~= prev.push((nv, id, level)));
        k = k + 1;
        assert(listing_view(out@) =~= listing_view(old(out)@) + tagged(f@, level).subrange(
            0,
            k as int,
        ));
    }
    assert(tagged(f@, level).subrange(0, f@.len() as int) =~= tagged(f@, level));
}

fn append_all_tagged(
    out: &mut Vec<(String, SymbolId, ScopeLevel)>,
    frames: &Vec<Bindings>,
    level: ScopeLevel,
)
    ensures
        listing_view(final(out)@) == listing_view(old(out)@) + tagged_all(
            frame_views(frames@),
            level,
        ),
{
    let mut i: usize = 0;
    while i < frames.len()
        invariant
            i <= frames@.len(),
            listing_view(out@) == listing_view(old(out)@) + tagged_all(
                frame_views(frames@).subrange(0, i as int),
                level,
            ),
        decreases frames.len() - i,
    {
        assert(frame_views(frames@).subrange(0, i + 1).drop_last() =~= frame_views(frames@).subrange(
            0,
            i as int,
        ));
        append_tagged(out, &frames[i], level);
        i = i + 1;
    }
    assert(frame_views(frames@).subrange(0, frames@.len() as int) =~= frame_views(frames@));
}

/// The id of `name` in the innermost of the first `upto` frames that binds it.
fn innermost_of(frames: &Vec<Bindings>, upto: usize, name: &str) -> (r: Option<SymbolId>)
    requires
        upto <= frames@.len(),
        all_wf(frames@),
    ensures
        r == innermost(frame_views(frames@).subrange(0, upto as int), name@),
{
    let mut i = upto;
    while i > 0
        invariant
            i <= upto <= frames@.len(),
            all_wf(frames@),
            innermost(frame_views(frames@).subrange(0, upto as int), name@) == innermost(
                frame_views(frames@).subrange(0, i as int),
                name@,
            ),
        decreases i,
    {
        assert(frame_views(frames@).subrange(0, i as int).drop_last() =~= frame_views(
            frames@,
        ).subrange(0, i - 1));
        let found = frames[i - 1].get(name);
        if found.is_some() {
            return found;
        }
        i = i - 1;
    }
    found_none()
}

fn found_none() -> (r: Option<SymbolId>)
    ensures
        r.is_none(),
{
    None
}

} // verus!

verus! {

/// Relations from a symbol to the symbols it draws on, in the order added.
pub type Relation = Seq<(SymbolId, Seq<SymbolId>)>;

pub open spec fn unique_keys(r: Relation) -> bool {
    forall|i: int, j: int| 0 <= i < j < r.len() ==> r[i].0 != r[j].0
}

/// The symbols that `key` is related to, empty when it has none.
pub open spec fn related(r: Relation, key: SymbolId) -> Seq<SymbolId>
    decreases r.len(),
{
    if r.len() == 0 {
        Seq::empty()
    } else if r.last().0 == key {
        r.last().1
    } else {
        related(r.drop_last(), key)
    }
}

/// The relation with `target` appended to the targets of `key`.
pub open spec fn relate(r: Relation, key: SymbolId, target: SymbolId) -> Relation {
    if exists|i: int| 0 <= i < r.len() && r[i].0 == key {
        let i = choose|i: int| 0 <= i < r.len() && r[i].0 == key;
        r.update(i, (key, r[i].1.push(target)))
    } else {
        r.push((key, seq![target]))
    }
}

proof fn lemma_related_at(r: Relation, k: int)
    requires
        unique_keys(r),
        0 <= k < r.len(),
    ensures
        related(r, r[k].0) == r[k].1,
    decreases r.len(),
{
    if k < r.len() - 1 {
        lemma_related_at(r.drop_last(), k);
    }
}

proof fn lemma_related_absent(r: Relation, key: SymbolId)
    requires
        forall|i: int| 0 <= i < r.len() ==> r[i].0 != key,
    ensures
        related(r, key).len() == 0,
    decreases r.len(),
{
    if r.len() > 0 {
        lemma_related_absent(r.drop_last(), key);
    }
}

proof fn lemma_relate(r: Relation, key: SymbolId, target: SymbolId)
    requires
        unique_keys(r),
    ensures
        unique_keys(relate(r, key, target)),
        related(relate(r, key, target), key) == related(r, key).push(target),
        forall|k: SymbolId| k != key ==> related(relate(r, key, target), k) == related(r, k),
{
    let g = relate(r, key, target);
    if exists|i: int| 0 <= i < r.len() && r[i].0 == key {
        let i = choose|i: int| 0 <= i < r.len() && r[i].0 == key;
        lemma_related_at(r, i);
        lemma_related_at(g, i);
        assert forall|k: SymbolId| k != key implies related(g, k) == related(r, k) by {
            if exists|j: int| 0 <= j < r.len() && r[j].0 == k {
                let j = choose|j: int| 0 <= j < r.len() && r[j].0 == k;
                lemma_related_at(r, j);
                lemma_related_at(g, j);
            } else {
                lemma_related_absent(r, k);
                lemma_related_absent(g, k);
            }
        }
    } else {
        lemma_related_absent(r, key);
        lemma_related_at(g, r.len() as int);
        assert forall|k: SymbolId| k != key implies related(g, k) == related(r, k) by {
            assert(g.drop_last() == r);
        }
    }
}

/// The chain of first parents after `current`, stopping at a symbol with
/// no parent or at one already visited, and after `fuel` steps.
pub open spec fn first_parent_chain(
    r: Relation,
    current: SymbolId,
    visited: Seq<SymbolId>,
    fuel: nat,
) -> Seq<SymbolId>
    decreases fuel,
{
    if fuel == 0 || related(r, current).len() == 0 {
        Seq::empty()
    } else {
        let p = related(r, current)[0];
        if visited.contains(p) {
            Seq::empty()
        } else {
            seq![p] + first_parent_chain(r, p, visited.push(p), (fuel - 1) as nat)
        }
    }
}

/// `symbol` followed by its chain of first merge parents, stopping before a
/// symbol already in the chain; the walk takes at most one step per
/// relation entry.
pub open spec fn merge_chain(r: Relation, symbol: SymbolId) -> Seq<SymbolId> {
    seq![symbol] + first_parent_chain(r, symbol, seq![symbol], r.len())
}

proof fn lemma_chain_fresh(r: Relation, current: SymbolId, visited: Seq<SymbolId>, fuel: nat)
    ensures
        forall|i: int|
            0 <= i < first_parent_chain(r, current, visited, fuel).len() ==> !visited.contains(
                #[trigger] first_parent_chain(r, current, visited, fuel)[i],
            ),
        first_parent_chain(r, current, visited, fuel).no_duplicates(),
    decreases fuel,
{
    let c = first_parent_chain(r, current, visited, fuel);
    if fuel > 0 && related(r, current).len() > 0 {
        let p = related(r, current)[0];
        if !visited.contains(p) {
            let rest = first_parent_chain(r, p, visited.push(p), (fuel - 1) as nat);
            lemma_chain_fresh(r, p, visited.push(p), (fuel - 1) as nat);
            assert forall|i: int| 0 <= i < c.len() implies !visited.contains(#[trigger] c[i]) by {
                if i > 0 {
                    assert(c[i] == rest[i - 1]);
                    assert(!visited.push(p).contains(rest[i - 1]));
                    if visited.contains(c[i]) {
                        let k = choose|k: int| 0 <= k < visited.len() && visited[k] == c[i];
                        assert(visited.push(p)[k] == c[i]);
                    }
                }
            }
            assert forall|i: int, j: int| 0 <= i < c.len() && 0 <= j < c.len() && i != j implies c[i]
                != c[j] by {
                if i > 0 && j > 0 {
                    assert(c[i] == rest[i - 1] && c[j] == rest[j - 1]);
                } else if i == 0 {
                    assert(c[j] == rest[j - 1]);
                    assert(visited.push(p)[visited.len() as int] == p);
                    assert(!visited.push(p).contains(rest[j - 1]));
                } else {
                    assert(c[i] == rest[i - 1]);
                    assert(visited.push(p)[visited.len() as int] == p);
                    assert(!visited.push(p).contains(rest[i - 1]));
                }
            }
        }
    }
}

proof fn lemma_chain_steps(r: Relation, current: SymbolId, visited: Seq<SymbolId>, fuel: nat, i: int)
    requires
        0 <= i < first_parent_chain(r, current, visited, fuel).len(),
    ensures
        i == 0 ==> related(r, current).len() > 0 && first_parent_chain(r, current, visited, fuel)[0]
            == related(r, current)[0],
        i > 0 ==> related(r, first_parent_chain(r, current, visited, fuel)[i - 1]).len() > 0
            && first_parent_chain(r, current, visited, fuel)[i] == related(
            r,
            first_parent_chain(r, current, visited, fuel)[i - 1],
        )[0],
    decreases fuel,
{
    let p = related(r, current)[0];
    let rest = first_parent_chain(r, p, visited.push(p), (fuel - 1) as nat);
    if i > 1 {
        lemma_chain_steps(r, p, visited.push(p), (fuel - 1) as nat, i - 1);
    } else if i == 1 {
        lemma_chain_steps(r, p, visited.push(p), (fuel - 1) as nat, 0);
    }
}

/// The chain of a symbol starts with the symbol, names no symbol twice,
/// and each of its symbols after the first is the first merge parent of the
/// one before it.
pub proof fn lemma_merge_chain_shape(r: Relation, symbol: SymbolId)
    ensures
        merge_chain(r, symbol)[0] == symbol,
        merge_chain(r, symbol).no_duplicates(),
        forall|k: int|
            0 <= k < merge_chain(r, symbol).len() - 1 ==> related(
                r,
                #[trigger] merge_chain(r, symbol)[k],
            ).len() > 0 && merge_chain(r, symbol)[k + 1] == related(r, merge_chain(r, symbol)[k])[0],
{
    let tail = first_parent_chain(r, symbol, seq![symbol], r.len());
    let c = merge_chain(r, symbol);
    lemma_chain_fresh(r, symbol, seq![symbol], r.len());
    assert forall|j: int| 0 <= j < tail.len() implies tail[j] != symbol by {
        assert(seq![symbol][0] == symbol);
    }
    assert forall|i: int, j: int| 0 <= i < c.len() && 0 <= j < c.len() && i != j implies c[i]
        != c[j] by {
        if i > 0 && j > 0 {
            assert(c[i] == tail[i - 1] && c[j] == tail[j - 1]);
        } else if i == 0 {
            assert(c[j] == tail[j - 1]);
        } else {
            assert(c[i] == tail[i - 1]);
        }
    }
    assert forall|k: int| 0 <= k < c.len() - 1 implies related(r, #[trigger] c[k]).len() > 0
        && c[k + 1] == related(r, c[k])[0] by {
        lemma_chain_steps(r, symbol, seq![symbol], r.len(), k);
        assert(c[k + 1] == tail[k]);
        if k > 0 {
            assert(c[k] == tail[k - 1]);
        }
    }
}

proof fn lemma_chain_end(r: Relation, current: SymbolId, visited: Seq<SymbolId>, fuel: nat)
    ensures
        ({
            let x = first_parent_chain(r, current, visited, fuel);
            let last = if x.len() == 0 {
                current
            } else {
                x.last()
            };
            related(r, last).len() == 0 || (visited + x).contains(related(r, last)[0]) || x.len()
                == fuel
        }),
    decreases fuel,
{
    let x = first_parent_chain(r, current, visited, fuel);
    if fuel > 0 && related(r, current).len() > 0 {
        let p = related(r, current)[0];
        if visited.contains(p) {
            assert(visited + x =~= visited);
        } else {
            let y = first_parent_chain(r, p, visited.push(p), (fuel - 1) as nat);
            lemma_chain_end(r, p, visited.push(p), (fuel - 1) as nat);
            assert(visited.push(p) + y =~= visited + x);
            if y.len() > 0 {
                assert(x.last() == y.last());
            }
        }
    }
}

proof fn lemma_related_has_key(r: Relation, key: SymbolId)
    requires
        related(r, key).len() > 0,
    ensures
        exists|i: int| 0 <= i < r.len() && r[i].0 == key,
    decreases r.len(),
{
    if r.last().0 != key {
        lemma_related_has_key(r.drop_last(), key);
        let i = choose|i: int| 0 <= i < r.len() - 1 && r.drop_last()[i].0 == key;
        assert(r[i].0 == key);
    } else {
        assert(r[r.len() - 1].0 == key);
    }
}

/// The chain stops on re-entry: its last symbol has no merge parent, or
/// that parent is already in the chain. The bound on steps never cuts the
/// walk short.
pub proof fn lemma_merge_chain_stops(r: Relation, symbol: SymbolId)
    ensures
        related(r, merge_chain(r, symbol).last()).len() == 0 || merge_chain(r, symbol).contains(
            related(r, merge_chain(r, symbol).last())[0],
        ),
{
    let x = first_parent_chain(r, symbol, seq![symbol], r.len());
    let c = merge_chain(r, symbol);
    lemma_chain_end(r, symbol, seq![symbol], r.len());
    lemma_merge_chain_shape(r, symbol);
    assert(c =~= seq![symbol] + x);
    if x.len() > 0 {
        assert(c.last() == x.last());
    }
    if related(r, c.last()).len() > 0 && !c.contains(related(r, c.last())[0]) {
        assert(x.len() == r.len());
        let keys = Seq::new(r.len(), |i: int| r[i].0);
        assert forall|y: SymbolId| c.to_set().contains(y) implies keys.to_set().contains(y) by {
            let k = choose|k: int| 0 <= k < c.len() && c[k] == y;
            if k < c.len() - 1 {
                assert(related(r, c[k]).len() > 0);
            }
            lemma_related_has_key(r, y);
            let i = choose|i: int| 0 <= i < r.len() && r[i].0 == y;
            assert(keys[i] == y);
        }
        c.unique_seq_to_set();
        keys.lemma_cardinality_of_set();
        vstd::set_lib::lemma_len_subset(c.to_set(), keys.to_set());
        assert(c.len() == r.len() + 1);
    }
}

/// The symbol reached from `s` after `k` steps to the first merge parent.
pub open spec fn first_parent_iter(r: Relation, s: SymbolId, k: nat) -> Option<SymbolId>
    decreases k,
{
    if k == 0 {
        Some(s)
    } else {
        match first_parent_iter(r, s, (k - 1) as nat) {
            Some(x) => if related(r, x).len() > 0 {
                Some(related(r, x)[0])
            } else {
                None
            },
            None => None,
        }
    }
}

/// Following first merge parents from `s` never reaches a symbol twice.
pub open spec fn acyclic_from(r: Relation, s: SymbolId) -> bool {
    forall|i: nat, j: nat|
        i < j && (#[trigger] first_parent_iter(r, s, i)) is Some ==> first_parent_iter(r, s, i)
            != #[trigger] first_parent_iter(r, s, j)
}

proof fn lemma_chain_is_iter(r: Relation, symbol: SymbolId, k: int)
    requires
        0 <= k < merge_chain(r, symbol).len(),
    ensures
        first_parent_iter(r, symbol, k as nat) == Some(merge_chain(r, symbol)[k]),
    decreases k,
{
    lemma_merge_chain_shape(r, symbol);
    if k > 0 {
        lemma_chain_is_iter(r, symbol, k - 1);
        let c = merge_chain(r, symbol);
        assert(related(r, c[k - 1]).len() > 0 && c[k] == related(r, c[k - 1])[0]);
    }
}

/// When following first merge parents never reaches a symbol twice, the
/// chain ends at a symbol without merge parents.
pub proof fn lemma_merge_chain_acyclic_end(r: Relation, symbol: SymbolId)
    requires
        acyclic_from(r, symbol),
    ensures
        related(r, merge_chain(r, symbol).last()).len() == 0,
{
    let c = merge_chain(r, symbol);
    lemma_merge_chain_stops(r, symbol);
    lemma_chain_is_iter(r, symbol, c.len() - 1);
    if related(r, c.last()).len() > 0 {
        let p = related(r, c.last())[0];
        let m = choose|m: int| 0 <= m < c.len() && c[m] == p;
        lemma_chain_is_iter(r, symbol, m);
        let l = (c.len() - 1) as nat;
        assert(first_parent_iter(r, symbol, l + 1) == Some(p));
        assert(first_parent_iter(r, symbol, m as nat) is Some);
        assert(first_parent_iter(r, symbol, m as nat) != first_parent_iter(r, symbol, l + 1));
    }
}

/// One kind of relation between symbols, keyed by the related symbol.
#[derive(Debug)]
pub struct Relations {
    entries: Vec<(SymbolId, Vec<SymbolId>)>,
}

impl View for Relations {
    type V = Relation;

    closed spec fn view(&self) -> Relation {
        Seq::new(self.entries@.len(), |i: int| (self.entries@[i].0, self.entries@[i].1@))
    }
}

impl Relations {
    pub closed spec fn wf(&self) -> bool {
        unique_keys(self@)
    }

    pub fn new() -> (r: Relations)
        ensures
            r.wf(),
            r@ == Seq::<(SymbolId, Seq<SymbolId>)>::empty(),
    {
        let r = Relations { entries: Vec::new() };
        assert(r@ =~= Seq::<(SymbolId, Seq<SymbolId>)>::empty());
        r
    }

    fn find(&self, key: SymbolId) -> (r: Option<usize>)
        ensures
            match r {
                Some(i) => i < self@.len() && self@[i as int].0 == key,
                None => forall|i: int| 0 <= i < self@.len() ==> self@[i].0 != key,
            },
    {
        let mut i: usize = 0;
        while i < self.entries.len()
            invariant
                i <= self@.len() == self.entries@.len(),
                forall|k: int| 0 <= k < i ==> self@[k].0 != key,
            decreases self.entries.len() - i,
        {
            if self.entries[i].0 == key {
                return Some(i);
            }
            i = i + 1;
        }
        None
    }

    pub fn add(&mut self, key: SymbolId, target: SymbolId)
        requires
            old(self).wf(),
        ensures
            final(self).wf(),
            final(self)@ == relate(old(self)@, key, target),
    {
        proof {
            lemma_relate(self@, key, target);
        }
        match self.find(key) {
            Some(i) => {
                let (k, mut targets) = self.entries.remove(i);
                targets.push(target);
                self.entries.insert(i, (k, targets));
                assert(self@ =~= relate(old(self)@, key, target));
            },
            None => {
                let mut targets: Vec<SymbolId> = Vec::new();
                targets.push(target);
                self.entries.push((key, targets));
                assert(self@ =~= relate(old(self)@, key, target));
            },
        }
    }

    /// The symbols that `key` is related to, in the order added.
    pub fn get(&self, key: SymbolId) -> (r: Vec<SymbolId>)
        requires
            self.wf(),
        ensures
            r@ == related(self@, key),
    {
        match self.find(key) {
            Some(i) => {
                proof {
                    lemma_related_at(self@, i as int);
                }
                self.entries[i].1.clone()
            },
            None => {
                proof {
                    lemma_related_absent(self@, key);
                }
                Vec::new()
            },
        }
    }

    pub fn entry_count(&self) -> (r: usize)
        ensures
            r == self@.len(),
    {
        self.entries.len()
    }
}

/// Inheritance-like relations of Nix: attribute-set merges (`//`), `with`
/// sources and function composition.
#[derive(Debug)]
pub struct NixInheritanceResolver {
    merge_relationships: Relations,
    with_relationships: Relations,
    composition_relationships: Relations,
}

impl NixInheritanceResolver {
    pub closed spec fn wf(&self) -> bool {
        &&& self.merge_relationships.wf()
        &&& self.with_relationships.wf()
        &&& self.composition_relationships.wf()
    }

    pub closed spec fn merges(&self) -> Relation {
        self.merge_relationships@
    }

    pub closed spec fn withs(&self) -> Relation {
        self.with_relationships@
    }

    pub closed spec fn compositions(&self) -> Relation {
        self.composition_relationships@
    }

    pub fn new() -> (r: NixInheritanceResolver)
        ensures
            r.wf(),
            r.merges().len() == 0,
            r.withs().len() == 0,
            r.compositions().len() == 0,
    {
        NixInheritanceResolver {
            merge_relationships: Relations::new(),
            with_relationships: Relations::new(),
            composition_relationships: Relations::new(),
        }
    }

    /// Records that `child` merges `parent` (`child // parent`).
    pub fn add_merge_relationship(&mut self, child: SymbolId, parent: SymbolId)
        requires
            old(self).wf(),
        ensures
            final(self).wf(),
            final(self).merges() == relate(old(self).merges(), child, parent),
            final(self).withs() == old(self).withs(),
            final(self).compositions() == old(self).compositions(),
    {
        self.merge_relationships.add(child, parent);
    }

    /// Records that `scope` brings `attr_set` into scope with `with`.
    pub fn add_with_relationship(&mut self, scope: SymbolId, attr_set: SymbolId)
        requires
            old(self).wf(),
        ensures
            final(self).wf(),
            final(self).withs() == relate(old(self).withs(), scope, attr_set),
            final(self).merges() == old(self).merges(),
            final(self).compositions() == old(self).compositions(),
    {
        self.with_relationships.add(scope, attr_set);
    }

    /// Records that `composed` is built from `component`.
    pub fn add_composition_relationship(&mut self, composed: SymbolId, component: SymbolId)
        requires
            old(self).wf(),
        ensures
            final(self).wf(),
            final(self).compositions() == relate(old(self).compositions(), composed, component),
            final(self).merges() == old(self).merges(),
            final(self).withs() == old(self).withs(),
    {
        self.composition_relationships.add(composed, component);
    }

    pub fn get_merged_parents(&self, symbol: SymbolId) -> (r: Vec<SymbolId>)
        requires
            self.wf(),
        ensures
            r@ == related(self.merges(), symbol),
    {
        self.merge_relationships.get(symbol)
    }

    pub fn get_with_sources(&self, scope: SymbolId) -> (r: Vec<SymbolId>)
        requires
            self.wf(),
        ensures
            r@ == related(self.withs(), scope),
    {
        self.with_relationships.get(scope)
    }

    pub fn get_composition_components(&self, composed: SymbolId) -> (r: Vec<SymbolId>)
        requires
            self.wf(),
        ensures
            r@ == related(self.compositions(), composed),
    {
        self.composition_relationships.get(composed)
    }

    /// `symbol` followed by its first merge parent, that one's first merge
    /// parent, and so on, stopping before a symbol already in the chain.
    pub fn get_full_inheritance_chain(&self, symbol: SymbolId) -> (r: Vec<SymbolId>)
        requires
            self.wf(),
        ensures
            r@ == merge_chain(self.merges(), symbol),
    {
        let mut chain: Vec<SymbolId> = Vec::new();
        chain.push(symbol);
        let mut current = symbol;
        let mut visited: Vec<SymbolId> = Vec::new();
        visited.push(symbol);
        let mut fuel = self.merge_relationships.entry_count();
        let ghost r = self.merges();
        assert(chain@ == seq![symbol]);
        while fuel > 0
            invariant
                r == self.merges(),
                self.wf(),
                seq![symbol] + first_parent_chain(r, symbol, seq![symbol], r.len()) == chain@
                    + first_parent_chain(r, current, visited@, fuel as nat),
            decreases fuel,
        {
            let parents = self.merge_relationships.get(current);
            if parents.len() == 0 || contains_id(&visited, parents[0]) {
                assert(first_parent_chain(r, current, visited@, fuel as nat) =~= Seq::<
                    SymbolId,
                >::empty());
                assert(chain@ + first_parent_chain(r, current, visited@, 0) =~= chain@
                    + first_parent_chain(r, current, visited@, fuel as nat));
                fuel = 0;
            } else {
                let parent = parents[0];
                let ghost old_chain = chain@;
                let ghost old_rest = first_parent_chain(r, current, visited@, fuel as nat);
                visited.push(parent);
                chain.push(parent);
                assert(old_rest == seq![parent] + first_parent_chain(
                    r,
                    parent,
                    visited@,
                    (fuel - 1) as nat,
                ));
                assert(old_chain + old_rest =~= chain@ + first_parent_chain(
                    r,
                    parent,
                    visited@,
                    (fuel - 1) as nat,
                ));
                current = parent;
                fuel = fuel - 1;
            }
        }
        assert(chain@ + first_parent_chain(r, current, visited@, 0) =~= chain@);
        chain
    }

    /// Whether `parent` is among the merge parents of `child`.
    pub fn check_inheritance(&self, child: SymbolId, parent: SymbolId) -> (r: bool)
        requires
            self.wf(),
        ensures
            r == related(self.merges(), child).contains(parent),
    {
        let parents = self.merge_relationships.get(child);
        contains_id(&parents, parent)
    }
}

/// The id that the name-based interface gives a type name: its length in
/// UTF-8 bytes, taken modulo 2^32.
pub open spec fn name_key(s: Seq<char>) -> SymbolId {
    SymbolId(((vstd::utf8::encode_utf8(s).len() as usize) as int % 4294967296) as u32)
}

/// `symbol_` followed by the decimal id.
pub open spec fn symbol_label(id: SymbolId) -> Seq<char> {
    seq!['s', 'y', 'm', 'b', 'o', 'l', '_'] + decimal(id.0 as nat)
}

fn key_of(s: &str) -> (r: SymbolId)
    ensures
        r == name_key(s@),
{
    let n = s.len();
    assert(s.spec_bytes() == vstd::utf8::encode_utf8(s@));
    let k = n as u64 % 4294967296;
    SymbolId(k as u32)
}

/// The relation kind that a label selects: `with`, `composition`, or merge
/// for every other label.
pub open spec fn is_with_label(kind: Seq<char>) -> bool {
    kind == seq!['w', 'i', 't', 'h']
}

pub open spec fn is_composition_label(kind: Seq<char>) -> bool {
    kind == seq!['c', 'o', 'm', 'p', 'o', 's', 'i', 't', 'i', 'o', 'n']
}

impl NixInheritanceResolver {
    /// Merges, `with` sources and compositions.
    pub open spec fn relations(&self) -> (Relation, Relation, Relation) {
        (self.merges(), self.withs(), self.compositions())
    }

    /// The relations once `child` is related to `parent` under `kind`.
    pub open spec fn relations_after(&self, kind: Seq<char>, child: SymbolId, parent: SymbolId) -> (
        Relation,
        Relation,
        Relation,
    ) {
        if is_with_label(kind) {
            (self.merges(), relate(self.withs(), child, parent), self.compositions())
        } else if is_composition_label(kind) {
            (self.merges(), self.withs(), relate(self.compositions(), child, parent))
        } else {
            (relate(self.merges(), child, parent), self.withs(), self.compositions())
        }
    }
}

impl InheritanceResolver for NixInheritanceResolver {
    open spec fn resolver_wf(&self) -> bool {
        self.wf()
    }

    /// Records a relation between two names, each named by the length of
    /// its text: `with` and `composition` go to their own relations, every
    /// other kind to the merges.
    fn add_inheritance(&mut self, child: String, parent: String, kind: &str)
        ensures
            final(self).wf(),
            final(self).relations() == old(self).relations_after(
                kind@,
                name_key(child@),
                name_key(parent@),
            ),
    {
        let child_id = key_of(child.as_str());
        let parent_id = key_of(parent.as_str());
        let with_kind = "with";
        let composition_kind = "composition";
        proof {
            reveal_strlit("with");
            reveal_strlit("composition");
        }
        assert(with_kind@ =~= seq!['w', 'i', 't', 'h']);
        assert(composition_kind@ =~= seq!['c', 'o', 'm', 'p', 'o', 's', 'i', 't', 'i', 'o', 'n']);
        if str_eq(kind, with_kind) {
            self.add_with_relationship(child_id, parent_id);
        } else if str_eq(kind, composition_kind) {
            self.add_composition_relationship(child_id, parent_id);
        } else {
            self.add_merge_relationship(child_id, parent_id);
        }
    }

    /// Nix has no methods.
    fn resolve_method(&self, ty: &str, method: &str) -> (r: Option<String>)
        ensures
            r.is_none(),
    {
        None
    }

    /// The merge chain of the type name's key, each written `symbol_<id>`.
    fn get_inheritance_chain(&self, ty: &str) -> (r: Vec<String>)
        ensures
            r@.len() == merge_chain(self.merges(), name_key(ty@)).len(),
            forall|i: int|
                0 <= i < r@.len() ==> (#[trigger] r@[i])@ == symbol_label(
                    merge_chain(self.merges(), name_key(ty@))[i],
                ),
    {
        let chain = self.get_full_inheritance_chain(key_of(ty));
        let mut out: Vec<String> = Vec::new();
        let mut i: usize = 0;
        while i < chain.len()
            invariant
                i <= chain@.len(),
                out@.len() == i,
                forall|k: int| 0 <= k < i ==> (#[trigger] out@[k])@ == symbol_label(chain@[k]),
            decreases chain.len() - i,
        {
            let mut label = String::new();
            append_str(&mut label, "symbol_");
            proof {
                reveal_strlit("symbol_");
            }
            push_decimal(&mut label, chain[i].0 as u64);
            assert(label@ =~= symbol_label(chain@[i as int]));
            out.push(label);
            i = i + 1;
        }
        out
    }

    /// Whether the key of `parent` is a merge parent of the key of `child`.
    fn is_subtype(&self, child: &str, parent: &str) -> (r: bool)
        ensures
            r == related(self.merges(), name_key(child@)).contains(name_key(parent@)),
    {
        self.check_inheritance(key_of(child), key_of(parent))
    }

    /// Nix types carry no methods: nothing is recorded.
    fn add_type_methods(&mut self, ty: String, methods: Vec<String>)
        ensures
            *final(self) == *old(self),
    {
    }

    /// Nix types carry no methods.
    fn get_all_methods(&self, ty: &str) -> (r: Vec<String>)
        ensures
            r@.len() == 0,
    {
        Vec::new()
    }
}

fn contains_id(v: &Vec<SymbolId>, x: SymbolId) -> (r: bool)
    ensures
        r == v@.contains(x),
{
    let mut i: usize = 0;
    while i < v.len()
        invariant
            i <= v@.len(),
            forall|k: int| 0 <= k < i ==> v@[k] != x,
        decreases v.len() - i,
    {
        if v[i] == x {
            return true;
        }
        i = i + 1;
    }
    false
}

} // verus!
