//! Python scoping (local, enclosing, global, imported, built-in) and
//! method resolution order over class bases.
use vstd::prelude::*;
use crate::capabilities::{InheritanceResolver, ResolutionScope};
use crate::bindings::{Bindings, Frame, bind, lemma_bind, lookup, unique_names};
use crate::names::{NameTable, Table, contains_string, table_get, table_with, views_of};
use crate::text::{chars_of, split_chars, split_on, str_eq, string_from_chars};
use crate::types::{FileId, ScopeLevel, ScopeType, SymbolId, opt_view};

verus! {

/// The state of a Python resolution context.
pub struct PyScopes {
    pub local: Frame,
    pub enclosing: Frame,
    pub global: Frame,
    pub imported: Frame,
    pub builtin: Frame,
    pub stack: Seq<ScopeType>,
    /// The local and enclosing frames of each open function, as they were
    /// when it was entered.
    pub saved: Seq<(Frame, Frame)>,
    /// Per module, the imported names with their aliases.
    pub imports: Seq<(Seq<char>, Seq<(Seq<char>, Option<Seq<char>>)>)>,
}

/// The frame after binding every pair of `g`, in order.
pub open spec fn bind_frame(f: Frame, g: Frame) -> Frame
    decreases g.len(),
{
    if g.len() == 0 {
        f
    } else {
        bind(bind_frame(f, g.drop_last()), g.last().0, g.last().1)
    }
}

/// The imports once `(name, alias)` is recorded under `module`.
pub open spec fn record_import(
    imports: Seq<(Seq<char>, Seq<(Seq<char>, Option<Seq<char>>)>)>,
    module: Seq<char>,
    name: Seq<char>,
    alias: Option<Seq<char>>,
) -> Seq<(Seq<char>, Seq<(Seq<char>, Option<Seq<char>>)>)> {
    if exists|i: int| 0 <= i < imports.len() && imports[i].0 == module {
        let i = choose|i: int|
            0 <= i < imports.len() && imports[i].0 == module && forall|j: int|
                0 <= j < i ==> imports[j].0 != module;
        imports.update(i, (module, imports[i].1.push((name, alias))))
    } else {
        imports.push((module, seq![(name, alias)]))
    }
}

impl PyScopes {
    pub open spec fn initial() -> PyScopes {
        PyScopes {
            local: Seq::empty(),
            enclosing: Seq::empty(),
            global: Seq::empty(),
            imported: Seq::empty(),
            builtin: Seq::empty(),
            stack: Seq::empty(),
            saved: Seq::empty(),
            imports: Seq::empty(),
        }
    }

    /// Binds at module level when asked to, or when no function is open;
    /// else locally.
    pub open spec fn add_python(self, name: Seq<char>, id: SymbolId, is_global: bool) -> PyScopes {
        if is_global || self.stack.len() <= 1 {
            PyScopes { global: bind(self.global, name, id), ..self }
        } else {
            PyScopes { local: bind(self.local, name, id), ..self }
        }
    }

    pub open spec fn add_symbol(self, name: Seq<char>, id: SymbolId, level: ScopeLevel) -> PyScopes {
        match level {
            ScopeLevel::Local => PyScopes { local: bind(self.local, name, id), ..self },
            ScopeLevel::Package => PyScopes { imported: bind(self.imported, name, id), ..self },
            _ => PyScopes { global: bind(self.global, name, id), ..self },
        }
    }

    /// Locals become enclosing bindings of the next function.
    pub open spec fn push_enclosing(self) -> PyScopes {
        PyScopes { enclosing: bind_frame(self.enclosing, self.local), local: Seq::empty(), ..self }
    }

    pub open spec fn pop_enclosing(self) -> PyScopes {
        PyScopes { enclosing: Seq::empty(), ..self }
    }

    pub open spec fn add_import(
        self,
        module: Seq<char>,
        name: Seq<char>,
        alias: Option<Seq<char>>,
    ) -> PyScopes {
        PyScopes { imports: record_import(self.imports, module, name, alias), ..self }
    }

    /// The state with no local or enclosing bindings.
    pub open spec fn without_functions(self) -> PyScopes {
        PyScopes { local: Seq::empty(), enclosing: Seq::empty(), ..self }
    }

    pub open spec fn clear_local(self) -> PyScopes {
        PyScopes { local: Seq::empty(), ..self }
    }

    /// Entering a function saves the local and enclosing frames; inside
    /// another scope its locals become enclosing bindings of the function.
    pub open spec fn enter_scope(self, st: ScopeType) -> PyScopes {
        let s0 = if st is Function {
            PyScopes { saved: self.saved.push((self.local, self.enclosing)), ..self }
        } else {
            self
        };
        let s = if st is Function && self.stack.len() > 0 {
            s0.push_enclosing()
        } else {
            s0
        };
        PyScopes { stack: s.stack.push(st), ..s }
    }

    /// The local and enclosing frames saved last, restored.
    pub open spec fn restore(self) -> PyScopes {
        PyScopes {
            local: self.saved.last().0,
            enclosing: self.saved.last().1,
            saved: self.saved.drop_last(),
            ..self
        }
    }

    /// Leaving a function restores the frames saved when it was entered.
    pub open spec fn exit_scope(self) -> PyScopes {
        if self.stack.len() == 0 {
            self
        } else {
            let s = PyScopes { stack: self.stack.drop_last(), ..self };
            if self.stack.last() is Function {
                if s.saved.len() > 0 {
                    s.restore()
                } else {
                    s.clear_local().pop_enclosing()
                }
            } else {
                s
            }
        }
    }

    /// Local, enclosing, global, imported, then built-in bindings.
    pub open spec fn resolve_plain(self, name: Seq<char>) -> Option<SymbolId> {
        if lookup(self.local, name) is Some {
            lookup(self.local, name)
        } else if lookup(self.enclosing, name) is Some {
            lookup(self.enclosing, name)
        } else if lookup(self.global, name) is Some {
            lookup(self.global, name)
        } else if lookup(self.imported, name) is Some {
            lookup(self.imported, name)
        } else {
            lookup(self.builtin, name)
        }
    }

    /// A name bound in some scope, else `a.b` resolves `b` when `a` is
    /// known here (names of outside libraries resolve to nothing).
    pub open spec fn resolve(self, name: Seq<char>) -> Option<SymbolId> {
        if self.resolve_plain(name) is Some {
            self.resolve_plain(name)
        } else if split_on(name, '.').len() == 2 && self.resolve_plain(split_on(name, '.')[0]) is Some {
            self.resolve_plain(split_on(name, '.')[1])
        } else {
            None
        }
    }

    /// Local bindings, then imported ones, then module-level ones.
    pub open spec fn listing(self) -> Seq<(Seq<char>, SymbolId, ScopeLevel)> {
        crate::nix_resolution::tagged(self.local, ScopeLevel::Local) + crate::nix_resolution::tagged(
            self.imported,
            ScopeLevel::Package,
        ) + crate::nix_resolution::tagged(self.global, ScopeLevel::Global)
    }

    pub open spec fn frames_unique(self) -> bool {
        &&& unique_names(self.local)
        &&& unique_names(self.enclosing)
        &&& unique_names(self.global)
        &&& unique_names(self.imported)
        &&& unique_names(self.builtin)
    }
}

proof fn lemma_bind_frame_unique(f: Frame, g: Frame)
    requires
        unique_names(f),
    ensures
        unique_names(bind_frame(f, g)),
    decreases g.len(),
{
    if g.len() > 0 {
        lemma_bind_frame_unique(f, g.drop_last());
        lemma_bind(bind_frame(f, g.drop_last()), g.last().0, g.last().1);
    }
}

proof fn lemma_bind_frame_finds(f: Frame, g: Frame, k: int)
    requires
        unique_names(f),
        unique_names(g),
        0 <= k < g.len(),
    ensures
        lookup(bind_frame(f, g), g[k].0) == Some(g[k].1),
    decreases g.len(),
{
    lemma_bind_frame_unique(f, g.drop_last());
    lemma_bind(bind_frame(f, g.drop_last()), g.last().0, g.last().1);
    if k < g.len() - 1 {
        lemma_bind_frame_finds(f, g.drop_last(), k);
        assert(g[k].0 != g.last().0);
    }
}

/// In nested functions a name bound in the outer function resolves from the
/// inner one; once the inner function is left, its locals are gone and every
/// name resolves as it did in the outer function before.
pub proof fn lemma_nested_function_scopes(
    s: PyScopes,
    outer_name: Seq<char>,
    outer_id: SymbolId,
    inner_name: Seq<char>,
    inner_id: SymbolId,
)
    requires
        s.frames_unique(),
        s.stack.len() >= 1,
    ensures
        ({
            let in_outer = s.enter_scope(ScopeType::Function { hoisting: false }).add_python(
                outer_name,
                outer_id,
                false,
            );
            let in_inner = in_outer.enter_scope(ScopeType::Function { hoisting: false });
            let left = in_inner.add_python(inner_name, inner_id, false).exit_scope();
            &&& in_inner.resolve(outer_name) == Some(outer_id)
            &&& left.local == in_outer.local
            &&& left.enclosing == in_outer.enclosing
            &&& forall|n: Seq<char>| #[trigger] left.resolve(n) == in_outer.resolve(n)
        }),
{
    let f = ScopeType::Function { hoisting: false };
    let s1 = s.enter_scope(f);
    lemma_bind_frame_unique(s.enclosing, s.local);
    let in_outer = s1.add_python(outer_name, outer_id, false);
    assert(in_outer.stack.len() == s.stack.len() + 1);
    assert(in_outer.local == bind(Seq::<(Seq<char>, SymbolId)>::empty(), outer_name, outer_id));
    lemma_bind(Seq::<(Seq<char>, SymbolId)>::empty(), outer_name, outer_id);
    let in_inner = in_outer.enter_scope(f);
    assert(in_inner.local.len() == 0);
    assert(lookup(in_outer.local, outer_name) == Some(outer_id));
    assert(in_outer.local.len() == 1) by {
        assert(!(exists|i: int| 0 <= i < 0 && Seq::<(Seq<char>, SymbolId)>::empty()[i].0 == outer_name));
    }
    assert(in_outer.local[0] == (outer_name, outer_id));
    lemma_bind_frame_finds(in_outer.enclosing, in_outer.local, 0);
    let added = in_inner.add_python(inner_name, inner_id, false);
    let left = added.exit_scope();
    assert(added.saved.last() == (in_outer.local, in_outer.enclosing));
    assert(left.global == in_outer.global);
    assert(left.imported == in_outer.imported);
    assert(left.builtin == in_outer.builtin);
}

/// Resolution context for one Python file.
pub struct PythonResolutionContext {
    file_id: FileId,
    local_scope: Bindings,
    enclosing_scope: Bindings,
    global_scope: Bindings,
    imported_symbols: Bindings,
    builtin_scope: Bindings,
    scope_stack: Vec<ScopeType>,
    saved: Vec<(Bindings, Bindings)>,
    imports: Vec<(String, Vec<(String, Option<String>)>)>,
    current_class: Option<String>,
}

pub open spec fn pairs_view(v: Seq<(String, Option<String>)>) -> Seq<(Seq<char>, Option<Seq<char>>)> {
    Seq::new(v.len(), |j: int| (v[j].0@, opt_view(v[j].1)))
}

pub open spec fn import_view(v: Seq<(String, Vec<(String, Option<String>)>)>) -> Seq<
    (Seq<char>, Seq<(Seq<char>, Option<Seq<char>>)>),
> {
    Seq::new(v.len(), |i: int| (v[i].0@, pairs_view(v[i].1@)))
}

impl View for PythonResolutionContext {
    type V = PyScopes;

    closed spec fn view(&self) -> PyScopes {
        PyScopes {
            local: self.local_scope@,
            enclosing: self.enclosing_scope@,
            global: self.global_scope@,
            imported: self.imported_symbols@,
            builtin: self.builtin_scope@,
            stack: self.scope_stack@,
            saved: Seq::new(self.saved@.len(), |i: int| (self.saved@[i].0@, self.saved@[i].1@)),
            imports: import_view(self.imports@),
        }
    }
}

impl PythonResolutionContext {
    pub closed spec fn wf(&self) -> bool {
        &&& self.local_scope.wf()
        &&& self.enclosing_scope.wf()
        &&& self.global_scope.wf()
        &&& self.imported_symbols.wf()
        &&& self.builtin_scope.wf()
        &&& forall|i: int|
            0 <= i < self.saved@.len() ==> (#[trigger] self.saved@[i]).0.wf() && self.saved@[i].1.wf()
    }

    pub closed spec fn file(&self) -> FileId {
        self.file_id
    }

    pub fn new(file_id: FileId) -> (r: PythonResolutionContext)
        ensures
            r.wf(),
            r@ == PyScopes::initial(),
            r.file() == file_id,
    {
        let r = PythonResolutionContext {
            file_id,
            local_scope: Bindings::new(),
            enclosing_scope: Bindings::new(),
            global_scope: Bindings::new(),
            imported_symbols: Bindings::new(),
            builtin_scope: Bindings::new(),
            scope_stack: Vec::new(),
            saved: Vec::new(),
            imports: Vec::new(),
            current_class: None,
        };
        assert(r@.imports =~= Seq::<(Seq<char>, Seq<(Seq<char>, Option<Seq<char>>)>)>::empty());
        assert(r@.stack =~= Seq::<ScopeType>::empty());
        assert(r@.saved =~= Seq::<(Frame, Frame)>::empty());
        r
    }

    /// Records `from module import name as alias`.
    pub fn add_import(&mut self, module: String, name: String, alias: Option<String>)
        requires
            old(self).wf(),
        ensures
            final(self).wf(),
            final(self)@ == old(self)@.add_import(module@, name@, opt_view(alias)),
    {
        let ghost iv = import_view(self.imports@);
        let ghost mv = module@;
        let ghost entry = (name@, opt_view(alias));
        let mut i: usize = 0;
        while i < self.imports.len()
            invariant
                i <= self.imports@.len(),
                iv == import_view(self.imports@),
                forall|j: int| 0 <= j < i ==> iv[j].0 != mv,
                self.wf(),
                self@ == old(self)@,
                *self == *old(self),
                module@ == mv,
                name@ == entry.0,
                opt_view(alias) == entry.1,
            decreases self.imports.len() - i,
        {
            assert(iv[i as int].0 == self.imports@[i as int].0@);
            if str_eq(self.imports[i].0.as_str(), module.as_str()) {
                let (m, mut list) = self.imports.remove(i);
                let ghost lv = pairs_view(list@);
                let pair = (name, alias);
                assert(pair.0@ == entry.0 && opt_view(pair.1) == entry.1);
                list.push(pair);
                assert(list@.last() == pair);
                assert(pairs_view(list@) =~= lv.push(entry));
                assert(m@ == mv);
                self.imports.insert(i, (m, list));
                assert(import_view(self.imports@) =~= iv.update(i as int, (mv, iv[i as int].1.push(entry))));
                assert(record_import(iv, mv, entry.0, entry.1) == iv.update(
                    i as int,
                    (mv, iv[i as int].1.push(entry)),
                ));
                return ;
            }
            i = i + 1;
        }
        let mut list: Vec<(String, Option<String>)> = Vec::new();
        let pair = (name, alias);
        assert(pair.0@ == entry.0 && opt_view(pair.1) == entry.1);
        list.push(pair);
        assert(pairs_view(list@) =~= seq![entry]);
        self.imports.push((module, list));
        assert(import_view(self.imports@) =~= iv.push((mv, seq![entry])));
    }

    /// Binds at module level when `is_global` or when no function is open,
    /// else in the local frame.
    pub fn add_symbol_python(&mut self, name: String, symbol_id: SymbolId, is_global: bool)
        requires
            old(self).wf(),
        ensures
            final(self).wf(),
            final(self)@ == old(self)@.add_python(name@, symbol_id, is_global),
    {
        if is_global || self.scope_stack.len() <= 1 {
            self.global_scope.insert(name, symbol_id);
        } else {
            self.local_scope.insert(name, symbol_id);
        }
    }

    /// Moves the local bindings into the enclosing frame.
    pub fn push_enclosing_scope(&mut self)
        requires
            old(self).wf(),
        ensures
            final(self).wf(),
            final(self)@ == old(self)@.push_enclosing(),
    {
        let ghost lv = self.local_scope@;
        let ghost ev = self.enclosing_scope@;
        let mut i: usize = 0;
        while i < self.local_scope.len()
            invariant
                i <= lv.len(),
                self.local_scope@ == lv,
                self.local_scope == old(self).local_scope,
                self.global_scope == old(self).global_scope,
                self.imported_symbols == old(self).imported_symbols,
                self.builtin_scope == old(self).builtin_scope,
                self.scope_stack == old(self).scope_stack,
                self.saved == old(self).saved,
                self.imports == old(self).imports,
                old(self).wf(),
                self.enclosing_scope.wf(),
                self.enclosing_scope@ == bind_frame(ev, lv.subrange(0, i as int)),
            decreases lv.len() - i,
        {
            assert(lv.subrange(0, i + 1).drop_last() =~= lv.subrange(0, i as int));
            let (name, id) = self.local_scope.entry(i);
            self.enclosing_scope.insert(name, id);
            i = i + 1;
        }
        assert(lv.subrange(0, lv.len() as int) =~= lv);
        self.local_scope.clear();
    }

    /// Forgets the enclosing bindings.
    pub fn pop_enclosing_scope(&mut self)
        requires
            old(self).wf(),
        ensures
            final(self).wf(),
            final(self)@ == old(self)@.pop_enclosing(),
    {
        self.enclosing_scope.clear();
    }

    fn resolve_plain(&self, name: &str) -> (r: Option<SymbolId>)
        requires
            self.wf(),
        ensures
            r == self@.resolve_plain(name@),
    {
        let found = self.local_scope.get(name);
        if found.is_some() {
            return found;
        }
        let found = self.enclosing_scope.get(name);
        if found.is_some() {
            return found;
        }
        let found = self.global_scope.get(name);
        if found.is_some() {
            return found;
        }
        let found = self.imported_symbols.get(name);
        if found.is_some() {
            return found;
        }
        self.builtin_scope.get(name)
    }
}

impl ResolutionScope for PythonResolutionContext {
    open spec fn scope_wf(&self) -> bool {
        self.wf()
    }

    fn add_symbol(&mut self, name: String, symbol_id: SymbolId, scope_level: ScopeLevel)
        ensures
            final(self).wf(),
            final(self)@ == old(self)@.add_symbol(name@, symbol_id, scope_level),
    {
        match scope_level {
            ScopeLevel::Local => self.local_scope.insert(name, symbol_id),
            ScopeLevel::Package => self.imported_symbols.insert(name, symbol_id),
            ScopeLevel::Module | ScopeLevel::Global => self.global_scope.insert(name, symbol_id),
        }
    }

    /// The id that `name` resolves to, by the LEGB order and then as a
    /// qualified `a.b` name.
    fn resolve(&self, name: &str) -> (r: Option<SymbolId>)
        ensures
            r == self@.resolve(name@),
    {
        let found = self.resolve_plain(name);
        if found.is_some() {
            return found;
        }
        let cs = chars_of(name);
        let parts = split_chars(&cs, '.');
        if parts.len() == 2 {
            let first = string_from_chars(&parts[0]);
            if self.resolve_plain(first.as_str()).is_some() {
                let second = string_from_chars(&parts[1]);
                return self.resolve_plain(second.as_str());
            }
        }
        None
    }

    fn clear_local_scope(&mut self)
        ensures
            final(self).wf(),
            final(self)@ == old(self)@.clear_local(),
    {
        self.local_scope.clear();
    }

    /// Opens a scope; a function opened inside another scope first moves
    /// the locals into the enclosing frame.
    fn enter_scope(&mut self, scope_type: ScopeType)
        ensures
            final(self).wf(),
            final(self)@ == old(self)@.enter_scope(scope_type),
    {
        let is_function = match scope_type {
            ScopeType::Function { .. } => true,
            _ => false,
        };
        if is_function {
            let l = self.local_scope.copy();
            let e = self.enclosing_scope.copy();
            let ghost before = self@.saved;
            self.saved.push((l, e));
            assert(self@.saved =~= before.push((old(self)@.local, old(self)@.enclosing)));
            if self.scope_stack.len() > 0 {
                self.push_enclosing_scope();
            }
        }
        self.scope_stack.push(scope_type);
    }

    /// Closes the innermost scope; leaving a function restores the local and
    /// enclosing frames saved when it was entered.
    fn exit_scope(&mut self)
        ensures
            final(self).wf(),
            final(self)@ == old(self)@.exit_scope(),
    {
        match self.scope_stack.pop() {
            Some(ScopeType::Function { .. }) => {
                let ghost before = self@.saved;
                match self.saved.pop() {
                    Some((l, e)) => {
                        self.local_scope = l;
                        self.enclosing_scope = e;
                        assert(self@.saved =~= before.drop_last());
                    },
                    None => {
                        self.clear_local_scope();
                        self.pop_enclosing_scope();
                    },
                }
            },
            Some(ScopeType::Class) => {
                self.current_class = None;
            },
            _ => {},
        }
    }

    /// Local, imported and module-level bindings with their levels.
    fn symbols_in_scope(&self) -> (r: Vec<(String, SymbolId, ScopeLevel)>)
        ensures
            crate::nix_resolution::listing_view(r@) == self@.listing(),
    {
        let mut out: Vec<(String, SymbolId, ScopeLevel)> = Vec::new();
        assert(crate::nix_resolution::listing_view(out@) =~= Seq::<(Seq<char>, SymbolId, ScopeLevel)>::empty());
        crate::nix_resolution::append_tagged(&mut out, &self.local_scope, ScopeLevel::Local);
        crate::nix_resolution::append_tagged(&mut out, &self.imported_symbols, ScopeLevel::Package);
        crate::nix_resolution::append_tagged(&mut out, &self.global_scope, ScopeLevel::Global);
        out
    }
}

} // verus!

verus! {

/// `acc` followed by the items of `items` that are not yet in it, in order.
pub open spec fn merge_in(acc: Seq<Seq<char>>, items: Seq<Seq<char>>) -> Seq<Seq<char>>
    decreases items.len(),
{
    if items.len() == 0 {
        acc
    } else {
        let a = merge_in(acc, items.drop_last());
        if a.contains(items.last()) {
            a
        } else {
            a.push(items.last())
        }
    }
}

/// `s` without the occurrences of `c`.
pub open spec fn without(s: Seq<Seq<char>>, c: Seq<char>) -> Seq<Seq<char>>
    decreases s.len(),
{
    if s.len() == 0 {
        s
    } else if s.last() == c {
        without(s.drop_last(), c)
    } else {
        without(s.drop_last(), c).push(s.last())
    }
}

/// `s` with each class kept only at its last place.
pub open spec fn keep_last(s: Seq<Seq<char>>) -> Seq<Seq<char>>
    decreases s.len(),
{
    if s.len() == 0 {
        s
    } else if s.skip(1).contains(s[0]) {
        keep_last(s.skip(1))
    } else {
        seq![s[0]] + keep_last(s.skip(1))
    }
}

/// Method resolution order: the class, then the orders of its bases from
/// left to right, each class kept at its last place, so that a class comes
/// after the classes that derive from it. A class is expanded at most
/// `depth` levels down, which in a hierarchy without cycles is no limit
/// once `depth` reaches the number of classes with bases.
pub open spec fn mro(bases: Table, class: Seq<char>, depth: nat) -> Seq<Seq<char>>
    decreases depth, 0nat,
{
    if depth == 0 {
        seq![class]
    } else {
        seq![class] + keep_last(
            without(orders_of(bases, table_get(bases, class), (depth - 1) as nat), class),
        )
    }
}

/// The orders of the classes of `list`, one after another, at depth `depth`.
pub open spec fn orders_of(bases: Table, list: Seq<Seq<char>>, depth: nat) -> Seq<Seq<char>>
    decreases depth, list.len() + 1,
{
    if list.len() == 0 {
        Seq::empty()
    } else {
        orders_of(bases, list.drop_last(), depth) + mro(bases, list.last(), depth)
    }
}

/// The first class of `order` whose methods include `method`.
pub open spec fn method_owner(methods: Table, order: Seq<Seq<char>>, method: Seq<char>) -> Option<
    Seq<char>,
>
    decreases order.len(),
{
    if order.len() == 0 {
        None
    } else if table_get(methods, order[0]).contains(method) {
        Some(order[0])
    } else {
        method_owner(methods, order.skip(1), method)
    }
}

/// The methods of the classes of `order`, each kept at its first place.
pub open spec fn methods_along(methods: Table, order: Seq<Seq<char>>) -> Seq<Seq<char>>
    decreases order.len(),
{
    if order.len() == 0 {
        Seq::empty()
    } else {
        merge_in(methods_along(methods, order.drop_last()), table_get(methods, order.last()))
    }
}

proof fn lemma_without(s: Seq<Seq<char>>, c: Seq<char>)
    ensures
        !without(s, c).contains(c),
    decreases s.len(),
{
    if s.len() > 0 {
        lemma_without(s.drop_last(), c);
    }
}

proof fn lemma_keep_last(s: Seq<Seq<char>>)
    ensures
        keep_last(s).no_duplicates(),
        forall|x: Seq<char>| keep_last(s).contains(x) ==> s.contains(x),
    decreases s.len(),
{
    if s.len() > 0 {
        let t = s.skip(1);
        lemma_keep_last(t);
        assert forall|x: Seq<char>| t.contains(x) implies s.contains(x) by {
            let k = choose|k: int| 0 <= k < t.len() && t[k] == x;
            assert(s[k + 1] == x);
        }
        if !t.contains(s[0]) {
            let r = seq![s[0]] + keep_last(t);
            assert forall|i: int, j: int| 0 <= i < r.len() && 0 <= j < r.len() && i != j implies r[i]
                != r[j] by {
                if i == 0 && j > 0 {
                    assert(r[j] == keep_last(t)[j - 1]);
                    assert(keep_last(t).contains(r[j]));
                } else if j == 0 && i > 0 {
                    assert(r[i] == keep_last(t)[i - 1]);
                    assert(keep_last(t).contains(r[i]));
                } else if i > 0 && j > 0 {
                    assert(r[i] == keep_last(t)[i - 1] && r[j] == keep_last(t)[j - 1]);
                }
            }
            assert forall|x: Seq<char>| r.contains(x) implies s.contains(x) by {
                let k = choose|k: int| 0 <= k < r.len() && r[k] == x;
                if k > 0 {
                    assert(keep_last(t)[k - 1] == x);
                    assert(keep_last(t).contains(x));
                }
            }
        }
    }
}

proof fn lemma_keep_last_complete(s: Seq<Seq<char>>, x: Seq<char>)
    requires
        s.contains(x),
    ensures
        keep_last(s).contains(x),
    decreases s.len(),
{
    let t = s.skip(1);
    if s[0] == x {
        if t.contains(x) {
            lemma_keep_last_complete(t, x);
        } else {
            assert((seq![s[0]] + keep_last(t))[0] == x);
        }
    } else {
        let k = choose|k: int| 0 <= k < s.len() && s[k] == x;
        assert(t[k - 1] == x);
        lemma_keep_last_complete(t, x);
        if !t.contains(s[0]) {
            let j = choose|j: int| 0 <= j < keep_last(t).len() && keep_last(t)[j] == x;
            assert((seq![s[0]] + keep_last(t))[j + 1] == x);
        }
    }
}

proof fn lemma_without_contains(s: Seq<Seq<char>>, c: Seq<char>, x: Seq<char>)
    ensures
        without(s, c).contains(x) <==> (s.contains(x) && x != c),
    decreases s.len(),
{
    lemma_without(s, c);
    if s.len() > 0 {
        lemma_without_contains(s.drop_last(), c, x);
        let w = without(s.drop_last(), c);
        let r = without(s, c);
        if s.contains(x) && x != c {
            let k = choose|k: int| 0 <= k < s.len() && s[k] == x;
            if k < s.len() - 1 {
                assert(s.drop_last()[k] == x);
                assert(w.contains(x));
                let j = choose|j: int| 0 <= j < w.len() && w[j] == x;
                if s.last() != c {
                    assert(r[j] == x);
                }
            } else {
                assert(r[w.len() as int] == x);
            }
        }
        if r.contains(x) {
            let k = choose|k: int| 0 <= k < r.len() && r[k] == x;
            if s.last() != c && k == w.len() {
                assert(s[s.len() - 1] == x);
            } else {
                assert(w[k] == x);
                assert(w.contains(x));
                let j = choose|j: int| 0 <= j < s.drop_last().len() && s.drop_last()[j] == x;
                assert(s[j] == x);
            }
        }
    }
}

proof fn lemma_orders_contains(bases: Table, list: Seq<Seq<char>>, depth: nat, x: Seq<char>)
    ensures
        orders_of(bases, list, depth).contains(x) <==> exists|i: int|
            0 <= i < list.len() && #[trigger] mro(bases, list[i], depth).contains(x),
    decreases list.len(),
{
    if list.len() > 0 {
        lemma_orders_contains(bases, list.drop_last(), depth, x);
        let a = orders_of(bases, list.drop_last(), depth);
        let b = mro(bases, list.last(), depth);
        if (a + b).contains(x) {
            let k = choose|k: int| 0 <= k < (a + b).len() && (a + b)[k] == x;
            if k < a.len() {
                assert(a[k] == x);
                let i = choose|i: int|
                    0 <= i < list.drop_last().len() && #[trigger] mro(bases, list.drop_last()[i], depth).contains(x);
                assert(list[i] == list.drop_last()[i]);
            } else {
                assert(b[k - a.len()] == x);
                assert(mro(bases, list[list.len() - 1], depth).contains(x));
            }
        }
        if exists|i: int| 0 <= i < list.len() && #[trigger] mro(bases, list[i], depth).contains(x) {
            let i = choose|i: int| 0 <= i < list.len() && #[trigger] mro(bases, list[i], depth).contains(x);
            if i < list.len() - 1 {
                assert(list.drop_last()[i] == list[i]);
                assert(mro(bases, list.drop_last()[i], depth).contains(x));
                let k = choose|k: int| 0 <= k < a.len() && a[k] == x;
                assert((a + b)[k] == x);
            } else {
                let k = choose|k: int| 0 <= k < b.len() && b[k] == x;
                assert((a + b)[a.len() + k] == x);
            }
        }
    }
}

/// The classes of a resolution order are the class itself and the classes
/// of the orders of its bases, one level less deep: so, level by level,
/// the class and its transitive bases.
pub proof fn lemma_mro_members(bases: Table, class: Seq<char>, depth: nat, x: Seq<char>)
    requires
        depth > 0,
    ensures
        mro(bases, class, depth).contains(x) <==> (x == class || exists|i: int|
            0 <= i < table_get(bases, class).len() && #[trigger] mro(
                bases,
                table_get(bases, class)[i],
                (depth - 1) as nat,
            ).contains(x)),
{
    let o = orders_of(bases, table_get(bases, class), (depth - 1) as nat);
    let w = without(o, class);
    let r = mro(bases, class, depth);
    lemma_orders_contains(bases, table_get(bases, class), (depth - 1) as nat, x);
    lemma_without_contains(o, class, x);
    lemma_keep_last(w);
    assert(r[0] == class);
    if r.contains(x) && x != class {
        let k = choose|k: int| 0 <= k < r.len() && r[k] == x;
        assert(keep_last(w)[k - 1] == x);
        assert(keep_last(w).contains(x));
    }
    if x != class && o.contains(x) {
        lemma_keep_last_complete(w, x);
        let j = choose|j: int| 0 <= j < keep_last(w).len() && keep_last(w)[j] == x;
        assert(r[j + 1] == x);
    }
}

/// A class's resolution order starts with the class and names no class
/// twice.
pub proof fn lemma_mro_shape(bases: Table, class: Seq<char>, depth: nat)
    ensures
        mro(bases, class, depth).len() >= 1,
        mro(bases, class, depth)[0] == class,
        mro(bases, class, depth).no_duplicates(),
{
    if depth > 0 {
        let w = without(orders_of(bases, table_get(bases, class), (depth - 1) as nat), class);
        lemma_without(orders_of(bases, table_get(bases, class), (depth - 1) as nat), class);
        lemma_keep_last(w);
        let k = keep_last(w);
        let r = seq![class] + k;
        assert forall|i: int, j: int| 0 <= i < r.len() && 0 <= j < r.len() && i != j implies r[i]
            != r[j] by {
            if i == 0 && j > 0 {
                assert(r[j] == k[j - 1] && k.contains(r[j]));
            } else if j == 0 && i > 0 {
                assert(r[i] == k[i - 1] && k.contains(r[i]));
            } else if i > 0 && j > 0 {
                assert(r[i] == k[i - 1] && r[j] == k[j - 1]);
            }
        }
    }
}

/// Class hierarchy of Python code: bases in declaration order and the
/// methods of each class.
#[derive(Debug)]
pub struct PythonInheritanceResolver {
    class_bases: NameTable,
    class_methods: NameTable,
}

impl Default for PythonInheritanceResolver {
    fn default() -> (r: PythonInheritanceResolver)
        ensures
            r.wf(),
            r.bases().len() == 0,
            r.methods().len() == 0,
    {
        PythonInheritanceResolver::new()
    }
}

impl PythonInheritanceResolver {
    pub closed spec fn wf(&self) -> bool {
        self.class_bases.wf() && self.class_methods.wf()
    }

    pub closed spec fn bases(&self) -> Table {
        self.class_bases@
    }

    pub closed spec fn methods(&self) -> Table {
        self.class_methods@
    }

    /// How deep resolution orders are expanded: one level per class with
    /// bases.
    pub open spec fn depth(&self) -> nat {
        self.bases().len()
    }

    /// The resolution order of `class` in this hierarchy.
    pub open spec fn order(&self, class: Seq<char>) -> Seq<Seq<char>> {
        mro(self.bases(), class, self.depth())
    }

    pub fn new() -> (r: PythonInheritanceResolver)
        ensures
            r.wf(),
            r.bases().len() == 0,
            r.methods().len() == 0,
    {
        PythonInheritanceResolver { class_bases: NameTable::new(), class_methods: NameTable::new() }
    }

    fn calculate_mro_at(&self, class: &str, depth: usize) -> (r: Vec<String>)
        requires
            self.wf(),
        ensures
            views_of(r@) == mro(self.bases(), class@, depth as nat),
        decreases depth,
    {
        let mut order: Vec<String> = Vec::new();
        order.push(class.to_owned());
        assert(views_of(order@) =~= seq![class@]);
        if depth == 0 {
            return order;
        }
        let bases = self.class_bases.get(class);
        let ghost list = views_of(bases@);
        let mut all: Vec<String> = Vec::new();
        let mut i: usize = 0;
        assert(views_of(all@) =~= without(orders_of(self.bases(), list.subrange(0, 0), (depth - 1) as nat), class@));
        while i < bases.len()
            invariant
                self.wf(),
                depth > 0,
                i <= bases@.len(),
                list == views_of(bases@),
                list == table_get(self.bases(), class@),
                views_of(all@) == without(
                    orders_of(self.bases(), list.subrange(0, i as int), (depth - 1) as nat),
                    class@,
                ),
            decreases bases.len() - i,
        {
            assert(list.subrange(0, i + 1).drop_last() =~= list.subrange(0, i as int));
            assert(list.subrange(0, i + 1).last() == bases@[i as int]@);
            let base_order = self.calculate_mro_at(bases[i].as_str(), depth - 1);
            let ghost pre = orders_of(self.bases(), list.subrange(0, i as int), (depth - 1) as nat);
            let ghost bo = views_of(base_order@);
            let mut j: usize = 0;
            assert(pre + bo.subrange(0, 0) =~= pre);
            while j < base_order.len()
                invariant
                    j <= base_order@.len(),
                    bo == views_of(base_order@),
                    views_of(all@) == without(pre + bo.subrange(0, j as int), class@),
                decreases base_order.len() - j,
            {
                assert((pre + bo.subrange(0, j + 1)).drop_last() =~= pre + bo.subrange(0, j as int));
                assert((pre + bo.subrange(0, j + 1)).last() == base_order@[j as int]@);
                if !str_eq(base_order[j].as_str(), class) {
                    let ghost before = views_of(all@);
                    all.push(base_order[j].clone());
                    assert(views_of(all@) =~= before.push(bo[j as int]));
                }
                j = j + 1;
            }
            assert(pre + bo.subrange(0, bo.len() as int) =~= pre + bo);
            i = i + 1;
        }
        assert(list.subrange(0, list.len() as int) =~= list);
        let ghost w = views_of(all@);
        let mut rev: Vec<String> = Vec::new();
        let mut k = all.len();
        assert(w.skip(k as int) =~= Seq::<Seq<char>>::empty());
        assert(reverse_of(views_of(rev@)) =~= Seq::<Seq<char>>::empty());
        while k > 0
            invariant
                k <= all@.len(),
                w == views_of(all@),
                reverse_of(views_of(rev@)) == keep_last(w.skip(k as int)),
            decreases k,
        {
            k = k - 1;
            let ghost t = w.skip(k as int);
            assert(t.skip(1) =~= w.skip(k + 1));
            assert(t[0] == all@[k as int]@);
            if !contains_after(&all, k + 1, all[k].as_str()) {
                let ghost before = views_of(rev@);
                rev.push(all[k].clone());
                assert(views_of(rev@) =~= before.push(t[0]));
                assert(reverse_of(views_of(rev@)) =~= seq![t[0]] + reverse_of(before));
            }
        }
        let ghost kl = reverse_of(views_of(rev@));
        let mut m = rev.len();
        while m > 0
            invariant
                m <= rev@.len(),
                kl == reverse_of(views_of(rev@)),
                views_of(order@) == seq![class@] + kl.subrange(0, (rev@.len() - m) as int),
            decreases m,
        {
            let ghost before = views_of(order@);
            order.push(rev[m - 1].clone());
            assert(views_of(order@) =~= before.push(rev@[m - 1]@));
            assert(kl[(rev@.len() - m) as int] == rev@[m - 1]@);
            assert(kl.subrange(0, (rev@.len() - m + 1) as int) =~= kl.subrange(
                0,
                (rev@.len() - m) as int,
            ).push(kl[(rev@.len() - m) as int]));
            m = m - 1;
            assert(views_of(order@) =~= seq![class@] + kl.subrange(0, (rev@.len() - m) as int));
        }
        assert(kl.subrange(0, kl.len() as int) =~= kl);
        assert(w.skip(0) =~= w);
        order
    }

    /// The resolution order of `class`.
    pub fn calculate_mro(&self, class: &str) -> (r: Vec<String>)
        requires
            self.wf(),
        ensures
            views_of(r@) == self.order(class@),
    {
        self.calculate_mro_at(class, self.class_bases.len())
    }

    /// Declares `class_name` with its bases, replacing earlier bases.
    pub fn add_class(&mut self, class_name: String, bases: Vec<String>)
        requires
            old(self).wf(),
        ensures
            final(self).wf(),
            final(self).bases() == table_with(old(self).bases(), class_name@, views_of(bases@)),
            final(self).methods() == old(self).methods(),
    {
        self.class_bases.set(class_name, bases);
    }

    /// Declares the methods of `class_name`, replacing earlier ones.
    pub fn add_class_methods(&mut self, class_name: String, methods: Vec<String>)
        requires
            old(self).wf(),
        ensures
            final(self).wf(),
            final(self).methods() == table_with(old(self).methods(), class_name@, views_of(methods@)),
            final(self).bases() == old(self).bases(),
    {
        self.class_methods.set(class_name, methods);
    }
}

impl InheritanceResolver for PythonInheritanceResolver {
    open spec fn resolver_wf(&self) -> bool {
        self.wf()
    }

    /// Appends `parent` to the bases of `child` for the kinds `extends` and
    /// `inherits`; other kinds are ignored.
    fn add_inheritance(&mut self, child: String, parent: String, kind: &str)
        ensures
            final(self).wf(),
            final(self).methods() == old(self).methods(),
            final(self).bases() == if kind@ == seq!['e', 'x', 't', 'e', 'n', 'd', 's'] || kind@
                == seq!['i', 'n', 'h', 'e', 'r', 'i', 't', 's'] {
                table_with(old(self).bases(), child@, table_get(old(self).bases(), child@).push(parent@))
            } else {
                old(self).bases()
            },
    {
        let extends = "extends";
        let inherits = "inherits";
        proof {
            reveal_strlit("extends");
            reveal_strlit("inherits");
        }
        assert(extends@ =~= seq!['e', 'x', 't', 'e', 'n', 'd', 's']);
        assert(inherits@ =~= seq!['i', 'n', 'h', 'e', 'r', 'i', 't', 's']);
        if str_eq(kind, extends) || str_eq(kind, inherits) {
            self.class_bases.append(child, parent);
        }
    }

    /// The first class in the resolution order of the type that defines
    /// `method_name`.
    fn resolve_method(&self, ty: &str, method_name: &str) -> (r: Option<String>)
        ensures
            opt_view(r) == method_owner(self.methods(), self.order(ty@), method_name@),
    {
        let order = self.calculate_mro(ty);
        let ghost ov = views_of(order@);
        let mut i: usize = 0;
        assert(ov.skip(0) =~= ov);
        while i < order.len()
            invariant
                self.wf(),
                i <= order@.len(),
                ov == views_of(order@),
                ov == self.order(ty@),
                method_owner(self.methods(), ov, method_name@) == method_owner(
                    self.methods(),
                    ov.skip(i as int),
                    method_name@,
                ),
            decreases order.len() - i,
        {
            let methods = self.class_methods.get(order[i].as_str());
            assert(ov.skip(i as int)[0] == order@[i as int]@);
            assert(ov.skip(i as int).skip(1) =~= ov.skip(i + 1));
            if contains_string(&methods, method_name) {
                return Some(order[i].clone());
            }
            i = i + 1;
        }
        None
    }

    fn get_inheritance_chain(&self, ty: &str) -> (r: Vec<String>)
        ensures
            views_of(r@) == self.order(ty@),
    {
        self.calculate_mro(ty)
    }

    /// Whether `parent` is in the resolution order of `child`.
    fn is_subtype(&self, child: &str, parent: &str) -> (r: bool)
        ensures
            r == self.order(child@).contains(parent@),
    {
        let order = self.calculate_mro(child);
        contains_string(&order, parent)
    }

    fn add_type_methods(&mut self, ty: String, methods: Vec<String>)
        ensures
            final(self).wf(),
            final(self).methods() == table_with(old(self).methods(), ty@, views_of(methods@)),
            final(self).bases() == old(self).bases(),
    {
        self.add_class_methods(ty, methods);
    }

    /// The methods of every class in the resolution order, each once, at
    /// its first place.
    fn get_all_methods(&self, ty: &str) -> (r: Vec<String>)
        ensures
            views_of(r@) == methods_along(self.methods(), self.order(ty@)),
    {
        let order = self.calculate_mro(ty);
        let ghost ov = views_of(order@);
        let mut all: Vec<String> = Vec::new();
        let mut i: usize = 0;
        assert(views_of(all@) =~= Seq::<Seq<char>>::empty());
        while i < order.len()
            invariant
                self.wf(),
                i <= order@.len(),
                ov == views_of(order@),
                views_of(all@) == methods_along(self.methods(), ov.subrange(0, i as int)),
            decreases order.len() - i,
        {
            assert(ov.subrange(0, i + 1).drop_last() =~= ov.subrange(0, i as int));
            assert(ov.subrange(0, i + 1).last() == order@[i as int]@);
            let methods = self.class_methods.get(order[i].as_str());
            merge_into(&mut all, &methods);
            i = i + 1;
        }
        assert(ov.subrange(0, ov.len() as int) =~= ov);
        all
    }
}

/// The strings of `v` in reverse order.
pub open spec fn reverse_of(v: Seq<Seq<char>>) -> Seq<Seq<char>> {
    Seq::new(v.len(), |i: int| v[v.len() - 1 - i])
}

/// Whether some string of `v` after position `from` equals `s`.
fn contains_after(v: &Vec<String>, from: usize, s: &str) -> (r: bool)
    requires
        from <= v@.len(),
    ensures
        r == views_of(v@).skip(from as int).contains(s@),
{
    let mut i = from;
    while i < v.len()
        invariant
            from <= i <= v@.len(),
            forall|k: int| from <= k < i ==> v@[k]@ != s@,
        decreases v.len() - i,
    {
        if str_eq(v[i].as_str(), s) {
            assert(views_of(v@).skip(from as int)[i - from] == s@);
            return true;
        }
        i = i + 1;
    }
    assert(!views_of(v@).skip(from as int).contains(s@)) by {
        if views_of(v@).skip(from as int).contains(s@) {
            let k = choose|k: int|
                0 <= k < views_of(v@).skip(from as int).len() && views_of(v@).skip(from as int)[k]
                    == s@;
            assert(v@[k + from]@ == s@);
        }
    }
    false
}

/// Appends to `acc` the strings of `items` that it does not hold yet.
fn merge_into(acc: &mut Vec<String>, items: &Vec<String>)
    ensures
        views_of(final(acc)@) == merge_in(views_of(old(acc)@), views_of(items@)),
{
    let ghost iv = views_of(items@);
    let mut i: usize = 0;
    while i < items.len()
        invariant
            i <= items@.len(),
            iv == views_of(items@),
            views_of(acc@) == merge_in(views_of(old(acc)@), iv.subrange(0, i as int)),
        decreases items.len() - i,
    {
        assert(iv.subrange(0, i + 1).drop_last() =~= iv.subrange(0, i as int));
        assert(iv.subrange(0, i + 1).last() == items@[i as int]@);
        if !contains_string(acc, items[i].as_str()) {
            let ghost before = views_of(acc@);
            let item = items[i].clone();
            acc.push(item);
            assert(views_of(acc@) =~= before.push(iv[i as int]));
        }
        i = i + 1;
    }
    assert(iv.subrange(0, iv.len() as int) =~= iv);
}

} // verus!
