//! Nix conventions: `.`-separated module paths, every binding public,
//! module paths derived from file paths and relative imports resolved
//! against the importing module.
use vstd::prelude::*;
use crate::text::{
    append_str, chars_eq, chars_of, has_prefix, join_chars, join_on, non_empty_parts,
    replace_char, replace_from, split_chars, split_on, str_eq, string_from_chars, views,
};
use crate::capabilities::LanguageBehavior;
use crate::syntax::nix_language;
use crate::types::{RelationKind, ScopeContext, Symbol, SymbolKind, Visibility, opt_view};

verus! {

broadcast use vstd::string::group_string_axioms;

/// `base.name`, or `name` alone when `base` is empty.
pub open spec fn join_path(base: Seq<char>, name: Seq<char>) -> Seq<char> {
    if base.len() == 0 {
        name
    } else {
        base.push('.') + name
    }
}

/// Whether `s` begins with `./`.
pub open spec fn starts_here(s: Seq<char>) -> bool {
    s.len() >= 2 && s[0] == '.' && s[1] == '/'
}

/// Whether `s` begins with `../`.
pub open spec fn starts_parent(s: Seq<char>) -> bool {
    s.len() >= 3 && s[0] == '.' && s[1] == '.' && s[2] == '/'
}

/// `s` without its leading `./` prefixes.
pub open spec fn trim_here(s: Seq<char>) -> Seq<char>
    decreases s.len(),
{
    if starts_here(s) {
        trim_here(s.skip(2))
    } else {
        s
    }
}

/// How many `../` steps `s` begins with.
pub open spec fn parent_steps(s: Seq<char>) -> nat
    decreases s.len(),
{
    if starts_parent(s) {
        1 + parent_steps(s.skip(3))
    } else {
        0
    }
}

/// What follows the leading `../` steps of `s`.
pub open spec fn after_parent_steps(s: Seq<char>) -> Seq<char>
    decreases s.len(),
{
    if starts_parent(s) {
        after_parent_steps(s.skip(3))
    } else {
        s
    }
}

/// The module that a relative import names, seen from module `importing`:
/// `./a/b` appends `a.b` to it, each leading `../` drops one of its parts
/// first. Paths that are not relative name no module here.
pub open spec fn relative_import_target(import: Seq<char>, importing: Seq<char>) -> Option<
    Seq<char>,
> {
    if starts_here(import) {
        let rel = replace_char(trim_here(import), '/', '.');
        Some(if importing.len() == 0 { rel } else { importing.push('.') + rel })
    } else if starts_parent(import) {
        let parts = split_on(importing, '.');
        let k = parent_steps(import);
        let kept = parts.subrange(0, if k <= parts.len() { parts.len() - k } else { 0 });
        let rest = after_parent_steps(import);
        let all = if rest.len() == 0 {
            kept
        } else {
            kept + non_empty_parts(split_on(replace_char(rest, '/', '.'), '.'))
        };
        Some(join_on(all, '.'))
    } else {
        None
    }
}

/// Whether an import of `import` refers to the module `target`.
pub open spec fn import_matches(
    import: Seq<char>,
    target: Seq<char>,
    importing: Option<Seq<char>>,
) -> bool {
    import == target || (importing is Some && relative_import_target(import, importing->0)
        == Some(target))
}

/// Every path matches itself, whatever module imports it.
pub proof fn lemma_import_matches_itself(p: Seq<char>, importing: Option<Seq<char>>)
    ensures
        import_matches(p, p, importing),
{
}

/// Without an importing module only exact paths match, so matching is
/// symmetric there.
pub proof fn lemma_exact_import_symmetric(p: Seq<char>, q: Seq<char>)
    ensures
        import_matches(p, q, None) == import_matches(q, p, None),
        import_matches(p, q, None) == (p == q),
{
}

/// The view of an optional string slice.
pub open spec fn opt_str(o: Option<&str>) -> Option<Seq<char>> {
    match o {
        Some(s) => Some(s@),
        None => None,
    }
}

/// The qualified path that configuring gives a symbol named `name` whose
/// path was `old`, under module `base`.
pub open spec fn configured_path(old: Option<Seq<char>>, name: Seq<char>, base: Option<Seq<char>>) -> Seq<char> {
    match base {
        Some(m) => join_path(m, name),
        None => match old {
            Some(q) => q,
            None => name,
        },
    }
}

/// A configured path is the formatted path of the symbol under its module,
/// the empty module when none was given and none was set before.
pub proof fn lemma_configured_path_is_formatted(
    old: Option<Seq<char>>,
    name: Seq<char>,
    base: Option<Seq<char>>,
)
    requires
        base is Some || old is None,
    ensures
        configured_path(old, name, base) == join_path(
            match base {
                Some(m) => m,
                None => Seq::empty(),
            },
            name,
        ),
{
}

/// Which symbols enter the resolution scope.
pub open spec fn resolvable(kind: SymbolKind, scope: Option<ScopeContext>) -> bool {
    match scope {
        Some(ScopeContext::Module) | Some(ScopeContext::Global) | Some(ScopeContext::Package) => true,
        Some(ScopeContext::Local { .. }) => kind == SymbolKind::Function || kind
            == SymbolKind::Variable,
        Some(ScopeContext::Parameter) | Some(ScopeContext::ClassMember) => false,
        None => kind == SymbolKind::Function || kind == SymbolKind::Variable || kind
            == SymbolKind::Struct,
    }
}

/// `s` without the leading `/` characters.
pub open spec fn trim_slashes(s: Seq<char>) -> Seq<char>
    decreases s.len(),
{
    if s.len() > 0 && s[0] == '/' {
        trim_slashes(s.skip(1))
    } else {
        s
    }
}

/// The part of `file` below `root`, when `root` is a leading run of whole
/// path components of `file`.
pub open spec fn below_root(file: Seq<char>, root: Seq<char>) -> Option<Seq<char>> {
    if root.len() == 0 {
        Some(file)
    } else if has_prefix(file, root) && (file.len() == root.len() || file[root.len() as int] == '/'
        || root.last() == '/') {
        Some(trim_slashes(file.skip(root.len() as int)))
    } else {
        None
    }
}

/// Whether `s` ends with `.nix`.
pub open spec fn ends_nix(s: Seq<char>) -> bool {
    s.len() >= 4 && s[s.len() - 4] == '.' && s[s.len() - 3] == 'n' && s[s.len() - 2] == 'i'
        && s[s.len() - 1] == 'x'
}

/// `s` without its trailing `.nix` suffixes.
pub open spec fn trim_nix(s: Seq<char>) -> Seq<char>
    decreases s.len(),
{
    if ends_nix(s) {
        trim_nix(s.subrange(0, s.len() - 4))
    } else {
        s
    }
}

/// The module path of a file: its path below the project root without
/// `./` prefixes and `.nix` suffixes, each `/` or `\` written as `.`, and
/// `default` where nothing is left.
pub open spec fn module_path_of_file(file: Seq<char>, root: Seq<char>) -> Seq<char> {
    let rel = match below_root(file, root) {
        Some(r) => r,
        None => if starts_here(file) {
            file.skip(2)
        } else {
            file
        },
    };
    let m = replace_char(replace_char(trim_nix(trim_here(rel)), '/', '.'), '\\', '.');
    if m.len() == 0 {
        seq!['d', 'e', 'f', 'a', 'u', 'l', 't']
    } else {
        m
    }
}

/// Language behaviour of Nix.
#[derive(Clone, Copy, Debug)]
pub struct NixBehavior;

impl Default for NixBehavior {
    fn default() -> (r: NixBehavior)
        ensures
            r == NixBehavior,
    {
        NixBehavior
    }
}

impl NixBehavior {
    pub fn new() -> (r: NixBehavior)
        ensures
            r == NixBehavior,
    {
        NixBehavior
    }
}

impl LanguageBehavior for NixBehavior {
    /// The tree-sitter grammar of Nix.
    fn get_language(&self) -> tree_sitter::Language {
        nix_language()
    }

    /// `base.name`, or `name` when `base` is empty.
    fn format_module_path(&self, base_path: &str, symbol_name: &str) -> (r: String)
        ensures
            r@ == join_path(base_path@, symbol_name@),
    {
        if base_path.is_empty() {
            symbol_name.to_owned()
        } else {
            let mut out = base_path.to_owned();
            out.push('.');
            append_str(&mut out, symbol_name);
            out
        }
    }

    /// Nix has no visibility modifiers: every binding is public.
    fn parse_visibility(&self, signature: &str) -> (r: Visibility)
        ensures
            r == Visibility::Public,
    {
        Visibility::Public
    }

    fn module_separator(&self) -> (r: &'static str)
        ensures
            r@ == seq!['.'],
    {
        proof {
            reveal_strlit(".");
        }
        "."
    }

    /// The module path of `file_path` inside `project_root`; paths are
    /// `/`-separated text.
    fn module_path_from_file(&self, file_path: &str, project_root: &str) -> (r: Option<String>)
        ensures
            r matches Some(m) && m@ == module_path_of_file(file_path@, project_root@),
    {
        let file = chars_of(file_path);
        let root = chars_of(project_root);
        let start = relative_start(&file, &root);
        let here = skip_here(&file, start);
        let end = nix_end(&file, here);
        let mut m: Vec<char> = Vec::new();
        let mut i = here;
        while i < end
            invariant
                here <= i <= end <= file@.len(),
                m@ == replace_char(
                    replace_char(file@.subrange(here as int, i as int), '/', '.'),
                    '\\',
                    '.',
                ),
            decreases end - i,
        {
            let ch = file[i];
            if ch == '/' || ch == '\\' {
                m.push('.');
            } else {
                m.push(ch);
            }
            i = i + 1;
            assert(m@ =~= replace_char(
                replace_char(file@.subrange(here as int, i as int), '/', '.'),
                '\\',
                '.',
            ));
        }
        if m.len() == 0 {
            proof {
                reveal_strlit("default");
            }
            Some("default".to_owned())
        } else {
            Some(string_from_chars(&m))
        }
    }

    fn supports_traits(&self) -> (r: bool)
        ensures
            !r,
    {
        false
    }

    fn supports_inherent_methods(&self) -> (r: bool)
        ensures
            !r,
    {
        false
    }

    /// Module, global and package symbols are resolvable; local ones when
    /// they are functions or variables; parameters and class members never.
    /// Without a scope tag, functions, variables and structs are.
    fn is_resolvable_symbol(&self, symbol: &Symbol) -> (r: bool)
        ensures
            r == resolvable(symbol.kind, symbol.scope_context),
    {
        match &symbol.scope_context {
            Some(ScopeContext::Module) | Some(ScopeContext::Global) | Some(
                ScopeContext::Package,
            ) => true,
            Some(ScopeContext::Local { .. }) => {
                symbol.kind == SymbolKind::Function || symbol.kind == SymbolKind::Variable
            },
            Some(ScopeContext::Parameter) | Some(ScopeContext::ClassMember) => false,
            None => {
                symbol.kind == SymbolKind::Function || symbol.kind == SymbolKind::Variable
                    || symbol.kind == SymbolKind::Struct
            },
        }
    }

    /// Sets the qualified path to `qualified_base.name` when a module path is
    /// given, else to the name where none was set, and makes the symbol
    /// public.
    fn configure_symbol(&self, symbol: &mut Symbol, qualified_base: Option<&str>)
        ensures
            final(symbol).id == old(symbol).id,
            final(symbol).name == old(symbol).name,
            final(symbol).kind == old(symbol).kind,
            final(symbol).file_id == old(symbol).file_id,
            final(symbol).range == old(symbol).range,
            final(symbol).signature == old(symbol).signature,
            final(symbol).doc_comment == old(symbol).doc_comment,
            final(symbol).scope_context == old(symbol).scope_context,
            final(symbol).language_id == old(symbol).language_id,
            final(symbol).visibility == Visibility::Public,
            final(symbol).qualified_path matches Some(p) && p@ == configured_path(
                opt_view(old(symbol).qualified_path),
                old(symbol).name@,
                opt_str(qualified_base),
            ),
    {
        if let Some(path) = qualified_base {
            let full = self.format_module_path(path, symbol.name.as_str());
            symbol.qualified_path = Some(full);
        }
        symbol.visibility = Visibility::Public;
        if symbol.qualified_path.is_none() {
            symbol.qualified_path = Some(symbol.name.clone());
        }
    }

    /// `receiver.method`.
    fn format_method_call(&self, receiver: &str, method: &str) -> (r: String)
        ensures
            r@ == receiver@.push('.') + method@,
    {
        let mut out = receiver.to_owned();
        out.push('.');
        append_str(&mut out, method);
        out
    }

    fn inheritance_relation_name(&self) -> (r: &'static str)
        ensures
            r@ == seq!['r', 'e', 'f', 'e', 'r', 'e', 'n', 'c', 'e', 's'],
    {
        proof {
            reveal_strlit("references");
        }
        "references"
    }

    /// `calls` maps to calls; every other label to references.
    fn map_relationship(&self, language_specific: &str) -> (r: RelationKind)
        ensures
            r == if language_specific@ == seq!['c', 'a', 'l', 'l', 's'] {
                RelationKind::Calls
            } else {
                RelationKind::References
            },
    {
        let calls = "calls";
        proof {
            reveal_strlit("calls");
        }
        assert(calls@ =~= seq!['c', 'a', 'l', 'l', 's']);
        if str_eq(language_specific, calls) {
            RelationKind::Calls
        } else {
            RelationKind::References
        }
    }

    /// Whether `import_path`, written in module `importing_module`, refers
    /// to the module `symbol_module_path`.
    fn import_matches_symbol(
        &self,
        import_path: &str,
        symbol_module_path: &str,
        importing_module: Option<&str>,
    ) -> (r: bool)
        ensures
            r == import_matches(
                import_path@,
                symbol_module_path@,
                match importing_module {
                    Some(m) => Some(m@),
                    None => None,
                },
            ),
    {
        if str_eq(import_path, symbol_module_path) {
            return true;
        }
        match importing_module {
            None => false,
            Some(importing) => {
                let imp = chars_of(import_path);
                let module = chars_of(importing);
                let target = chars_of(symbol_module_path);
                match resolve_relative(&imp, &module) {
                    Some(resolved) => chars_eq(&resolved, &target),
                    None => false,
                }
            },
        }
    }
}

/// Where the relative path of `file` starts: below `root` where it lies
/// there, else after a leading `./`.
fn relative_start(file: &Vec<char>, root: &Vec<char>) -> (r: usize)
    ensures
        r <= file@.len(),
        file@.skip(r as int) == match below_root(file@, root@) {
            Some(x) => x,
            None => if starts_here(file@) {
                file@.skip(2)
            } else {
                file@
            },
        },
{
    let n = root.len();
    let mut prefix = n <= file.len();
    let mut i: usize = 0;
    while prefix && i < n
        invariant
            i <= n == root@.len(),
            prefix ==> n <= file@.len(),
            prefix ==> forall|k: int| 0 <= k < i ==> file@[k] == root@[k],
            !prefix ==> !has_prefix(file@, root@),
        decreases n - i,
    {
        if file[i] != root[i] {
            prefix = false;
        }
        i = i + 1;
    }
    if prefix {
        assert(file@.subrange(0, n as int) =~= root@);
    }
    if n == 0 {
        assert(file@.skip(0) =~= file@);
        return 0;
    }
    if prefix && (file.len() == n || file[n] == '/' || root[n - 1] == '/') {
        let mut j = n;
        while j < file.len() && file[j] == '/'
            invariant
                n <= j <= file@.len(),
                trim_slashes(file@.skip(n as int)) == trim_slashes(file@.skip(j as int)),
            decreases file.len() - j,
        {
            assert(file@.skip(j as int).skip(1) =~= file@.skip(j + 1));
            j = j + 1;
        }
        return j;
    }
    if file.len() >= 2 && file[0] == '.' && file[1] == '/' {
        2
    } else {
        assert(file@.skip(0) =~= file@);
        0
    }
}

/// The index after the leading `./` prefixes of `cs[from..]`.
fn skip_here(cs: &Vec<char>, from: usize) -> (r: usize)
    requires
        from <= cs@.len(),
    ensures
        from <= r <= cs@.len(),
        cs@.skip(r as int) == trim_here(cs@.skip(from as int)),
{
    let mut i = from;
    while cs.len() - i >= 2 && cs[i] == '.' && cs[i + 1] == '/'
        invariant
            from <= i <= cs@.len(),
            trim_here(cs@.skip(from as int)) == trim_here(cs@.skip(i as int)),
        decreases cs.len() - i,
    {
        assert(cs@.skip(i as int).skip(2) =~= cs@.skip(i + 2));
        i = i + 2;
    }
    i
}

/// The end of `cs[from..]` once its trailing `.nix` suffixes are removed.
fn nix_end(cs: &Vec<char>, from: usize) -> (r: usize)
    requires
        from <= cs@.len(),
    ensures
        from <= r <= cs@.len(),
        cs@.subrange(from as int, r as int) == trim_nix(cs@.skip(from as int)),
{
    let mut e = cs.len();
    assert(cs@.subrange(from as int, e as int) =~= cs@.skip(from as int));
    while e - from >= 4 && cs[e - 4] == '.' && cs[e - 3] == 'n' && cs[e - 2] == 'i' && cs[e - 1]
        == 'x'
        invariant
            from <= e <= cs@.len(),
            trim_nix(cs@.skip(from as int)) == trim_nix(cs@.subrange(from as int, e as int)),
        decreases e,
    {
        let ghost s = cs@.subrange(from as int, e as int);
        assert(s.subrange(0, s.len() - 4) =~= cs@.subrange(from as int, e - 4));
        e = e - 4;
    }
    e
}

/// The module named by a relative import, as in [`relative_import_target`].
fn resolve_relative(imp: &Vec<char>, module: &Vec<char>) -> (r: Option<Vec<char>>)
    ensures
        match r {
            Some(v) => relative_import_target(imp@, module@) == Some(v@),
            None => relative_import_target(imp@, module@).is_none(),
        },
{
    if imp.len() >= 2 && imp[0] == '.' && imp[1] == '/' {
        let start = skip_here(imp, 0);
        assert(imp@.skip(0) =~= imp@);
        let rel = replace_from(imp, start, '/', '.');
        assert(imp@.subrange(start as int, imp@.len() as int) =~= imp@.skip(start as int));
        if module.len() == 0 {
            Some(rel)
        } else {
            let mut out = module.clone();
            out.push('.');
            let mut i: usize = 0;
            let ghost base = out@;
            while i < rel.len()
                invariant
                    i <= rel@.len(),
                    out@ == base + rel@.subrange(0, i as int),
                decreases rel.len() - i,
            {
                out.push(rel[i]);
                i = i + 1;
                assert(rel@.subrange(0, i as int) =~= rel@.subrange(0, i - 1).push(rel@[i - 1]));
            }
            assert(rel@.subrange(0, rel@.len() as int) =~= rel@);
            Some(out)
        }
    } else if imp.len() >= 3 && imp[0] == '.' && imp[1] == '.' && imp[2] == '/' {
        let mut parts = split_chars(module, '.');
        let ghost all_parts = views(parts@);
        let mut k: usize = 0;
        let ghost mut steps: nat = 0;
        assert(imp@.skip(0) =~= imp@);
        while imp.len() - k >= 3 && imp[k] == '.' && imp[k + 1] == '.' && imp[k + 2] == '/'
            invariant
                k <= imp@.len(),
                parent_steps(imp@) == steps + parent_steps(imp@.skip(k as int)),
                after_parent_steps(imp@) == after_parent_steps(imp@.skip(k as int)),
                views(parts@) == all_parts.subrange(
                    0,
                    if steps <= all_parts.len() {
                        all_parts.len() - steps
                    } else {
                        0
                    },
                ),
            decreases imp.len() - k,
        {
            assert(imp@.skip(k as int).skip(3) =~= imp@.skip(k + 3));
            if parts.len() > 0 {
                let ghost before = views(parts@);
                parts.pop();
                assert(views(parts@) =~= before.drop_last());
            }
            proof {
                steps = steps + 1;
            }
            k = k + 3;
            assert(views(parts@) =~= all_parts.subrange(
                0,
                if steps <= all_parts.len() {
                    all_parts.len() - steps
                } else {
                    0
                },
            ));
        }
        assert(parent_steps(imp@.skip(k as int)) == 0);
        assert(after_parent_steps(imp@.skip(k as int)) == imp@.skip(k as int));
        if k < imp.len() {
            let rest = replace_from(imp, k, '/', '.');
            assert(imp@.subrange(k as int, imp@.len() as int) =~= imp@.skip(k as int));
            let extra = split_chars(&rest, '.');
            let mut i: usize = 0;
            let ghost kept = views(parts@);
            while i < extra.len()
                invariant
                    i <= extra@.len(),
                    views(parts@) == kept + non_empty_parts(views(extra@).subrange(0, i as int)),
                decreases extra.len() - i,
            {
                let ghost pre = views(extra@).subrange(0, i as int);
                assert(views(extra@).subrange(0, i + 1).drop_last() =~= pre);
                assert(views(extra@).subrange(0, i + 1).last() == extra@[i as int]@);
                if extra[i].len() > 0 {
                    let ghost before = views(parts@);
                    parts.push(extra[i].clone());
                    assert(views(parts@) =~= before.push(extra@[i as int]@));
                    assert(views(parts@) =~= kept + non_empty_parts(pre).push(extra@[i as int]@));
                }
                i = i + 1;
            }
            assert(views(extra@).subrange(0, extra@.len() as int) =~= views(extra@));
        } else {
            assert(imp@.skip(k as int).len() == 0);
        }
        Some(join_chars(&parts, '.'))
    } else {
        None
    }
}

} // verus!
