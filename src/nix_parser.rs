//! Symbol extraction from Nix source: bindings in `let` expressions and
//! attribute sets, functions, recursive attribute sets and path literals.
use vstd::prelude::*;
use vstd::string::StringSliceAdditionalSpecFns;
use vstd::utf8::{decode_utf8, is_char_boundary};
use crate::capabilities::LanguageParser;
use crate::syntax::{
    MAX_TREE_DEPTH, SyntaxNode, copy_parsed, new_parser, parse_nix_text, within_depth,
};
use crate::text::{
    append_str, chars_of, decimal, join_on, lines_chars, lines_of, push_decimal, skip_char,
    str_eq, trim, trim_bounds, trim_start_char, views,
};
use crate::types::{
    FileId, Range, ScopeContext, Symbol, SymbolCounter, SymbolId, SymbolKind, Visibility, opt_view,
};

verus! {

broadcast use vstd::string::group_string_axioms, vstd::utf8::encode_utf8_decode_utf8;

/// What the parser reads besides the tree: the source bytes and lines.
pub struct Source {
    pub bytes: Seq<u8>,
    pub lines: Seq<Seq<char>>,
}

/// The fields of an emitted symbol that depend on the source.
pub struct SymbolFacts {
    pub id: SymbolId,
    pub name: Seq<char>,
    pub kind: SymbolKind,
    pub range: Range,
    pub signature: Option<Seq<char>>,
    pub doc: Option<Seq<char>>,
}

/// Symbols emitted so far and the next id of the counter.
pub struct Emitted {
    pub syms: Seq<SymbolFacts>,
    pub next: nat,
}

pub open spec fn facts_of(s: Symbol) -> SymbolFacts {
    SymbolFacts {
        id: s.id,
        name: s.name@,
        kind: s.kind,
        range: s.range,
        signature: opt_view(s.signature),
        doc: opt_view(s.doc_comment),
    }
}

pub open spec fn all_facts(v: Seq<Symbol>) -> Seq<SymbolFacts> {
    Seq::new(v.len(), |i: int| facts_of(v[i]))
}

/// The fields that every Nix symbol shares: its file, public visibility,
/// the module scope tag, and no qualified path or language tag yet.
pub open spec fn plain_symbol(s: Symbol, file: FileId) -> bool {
    &&& s.file_id == file
    &&& s.visibility == Visibility::Public
    &&& s.scope_context == Some(ScopeContext::Module)
    &&& s.qualified_path.is_none()
    &&& s.language_id.is_none()
}

pub open spec fn all_plain(v: Seq<Symbol>, file: FileId) -> bool {
    forall|i: int| 0 <= i < v.len() ==> plain_symbol(#[trigger] v[i], file)
}

/// The index of the first child from the `i`-th on held under field `f`.
pub open spec fn field_index_from(n: SyntaxNode, f: Seq<char>, i: int) -> Option<int>
    decreases n.children@.len() - i,
{
    if i < 0 || i >= n.children@.len() {
        None
    } else if n.children@[i].field matches Some(x) && x@ == f {
        Some(i)
    } else {
        field_index_from(n, f, i + 1)
    }
}

/// The index of the first child held under field `f`.
pub open spec fn field_index(n: SyntaxNode, f: Seq<char>) -> Option<int> {
    field_index_from(n, f, 0)
}

/// The source text of a node, when its byte range falls on character
/// boundaries.
pub open spec fn text_of(src: Source, n: SyntaxNode) -> Option<Seq<char>> {
    if n.start_byte <= n.end_byte && is_char_boundary(src.bytes, n.end_byte as int)
        && is_char_boundary(src.bytes.subrange(0, n.end_byte as int), n.start_byte as int) {
        Some(decode_utf8(src.bytes.subrange(n.start_byte as int, n.end_byte as int)))
    } else {
        None
    }
}

/// The point span of a node, rows as `u32` and columns as `u16`.
pub open spec fn span_range(n: SyntaxNode) -> Range {
    Range {
        start_line: n.start_row as u32,
        start_column: n.start_column as u16,
        end_line: n.end_row as u32,
        end_column: n.end_column as u16,
    }
}

pub open spec fn is_function_kind(k: Seq<char>) -> bool {
    k == "function_expression"@ || k == "function"@
}

/// A binding is a function when its value is a function expression.
pub open spec fn value_kind(n: SyntaxNode) -> SymbolKind {
    match field_index(n, "expression"@) {
        Some(j) => if 0 <= j < n.children@.len() && is_function_kind(n.children@[j].kind@) {
            SymbolKind::Function
        } else {
            SymbolKind::Variable
        },
        None => SymbolKind::Variable,
    }
}

/// `name = <function>` or `name = <value>`.
pub open spec fn binding_signature(name: Seq<char>, kind: SymbolKind) -> Seq<char> {
    name + if kind == SymbolKind::Function {
        " = <function>"@
    } else {
        " = <value>"@
    }
}

/// The node naming a binding: the first part of its attribute path, or
/// else its `name` field.
pub open spec fn binding_ident(n: SyntaxNode) -> Option<SyntaxNode> {
    match field_index(n, "attrpath"@) {
        Some(j) => if 0 <= j < n.children@.len() && n.children@[j].children@.len() > 0 {
            Some(n.children@[j].children@[0])
        } else {
            None
        },
        None => match field_index(n, "name"@) {
            Some(j) => if 0 <= j < n.children@.len() {
                Some(n.children@[j])
            } else {
                None
            },
            None => None,
        },
    }
}

/// The comment texts joined with spaces, if there are any.
pub open spec fn joined_doc(acc: Seq<Seq<char>>) -> Option<Seq<char>> {
    if acc.len() == 0 {
        None
    } else {
        Some(join_on(acc, ' '))
    }
}

/// The comment lines right above line `i`, scanning upwards: blank lines
/// are passed over, the first other line that is not a `#` comment ends
/// the block. `acc` holds the comment texts found so far, topmost first.
pub open spec fn doc_scan(lines: Seq<Seq<char>>, i: int, acc: Seq<Seq<char>>) -> Option<Seq<char>>
    decreases i,
{
    if i <= 0 {
        joined_doc(acc)
    } else if i - 1 >= lines.len() {
        None
    } else {
        let line = trim(lines[i - 1]);
        if line.len() > 0 && line[0] == '#' {
            doc_scan(lines, i - 1, seq![trim(trim_start_char(line, '#'))] + acc)
        } else if line.len() == 0 {
            doc_scan(lines, i - 1, acc)
        } else {
            joined_doc(acc)
        }
    }
}

/// The documentation of a declaration starting on line `row`: the `#`
/// comments above it, joined with spaces.
pub open spec fn doc_comment(lines: Seq<Seq<char>>, row: nat) -> Option<Seq<char>> {
    if row == 0 {
        None
    } else {
        doc_scan(lines, row as int, Seq::empty())
    }
}

/// Emits a symbol with the next id, when the counter has one left.
pub open spec fn emit(
    st: Emitted,
    name: Seq<char>,
    kind: SymbolKind,
    range: Range,
    signature: Seq<char>,
    doc: Option<Seq<char>>,
) -> Emitted {
    if st.next < u32::MAX {
        Emitted {
            syms: st.syms.push(
                SymbolFacts {
                    id: SymbolId(st.next as u32),
                    name,
                    kind,
                    range,
                    signature: Some(signature),
                    doc,
                },
            ),
            next: st.next + 1,
        }
    } else {
        st
    }
}

/// Takes one id from the counter, when it has one left.
pub open spec fn mint(st: Emitted) -> Emitted {
    if st.next < u32::MAX {
        Emitted { next: st.next + 1, ..st }
    } else {
        st
    }
}

/// The symbols of a node and everything under it.
pub open spec fn walk(src: Source, n: SyntaxNode, st: Emitted) -> Emitted
    decreases n, 3nat, 0int,
{
    let k = n.kind@;
    if k == "let_expression"@ {
        walk_let_rest(src, n, 0, walk_let_bindings(src, n, 0, st))
    } else if is_rec_kind(k) {
        match binding_set_index(n, 0) {
            Some(j) => if 0 <= j < n.children@.len() {
                walk_rec(src, n.children@[j], st)
            } else {
                st
            },
            None => walk_rec(src, n, st),
        }
    } else if is_function_kind(k) {
        walk_lambda_body(src, n, 0, mint_params(n, 0, st))
    } else if k == "binding"@ {
        walk_binding(src, n, st)
    } else if k == "indented_string_expression"@ || k == "string_expression"@ {
        walk_interpolations(src, n, 0, st)
    } else if k == "path_expression"@ {
        path_literal(src, n, st)
    } else {
        walk_children(src, n, 0, st)
    }
}

/// A binding emits its name, then the symbols of its value.
pub open spec fn walk_binding(src: Source, n: SyntaxNode, st: Emitted) -> Emitted
    decreases n, 2nat, 0int,
{
    let named = match binding_ident(n) {
        Some(id_node) => match text_of(src, id_node) {
            Some(name) => emit(
                st,
                name,
                value_kind(n),
                span_range(id_node),
                binding_signature(name, value_kind(n)),
                doc_comment(src.lines, n.start_row as nat),
            ),
            None => st,
        },
        None => st,
    };
    match field_index(n, "expression"@) {
        Some(j) => if 0 <= j < n.children@.len() {
            walk(src, n.children@[j], named)
        } else {
            named
        },
        None => named,
    }
}

pub open spec fn walk_children(src: Source, n: SyntaxNode, i: int, st: Emitted) -> Emitted
    decreases n, 1nat, n.children@.len() - i,
{
    if 0 <= i < n.children@.len() {
        walk_children(src, n, i + 1, walk(src, n.children@[i], st))
    } else {
        st
    }
}

/// The bindings of a `let` come first.
pub open spec fn walk_let_bindings(src: Source, n: SyntaxNode, i: int, st: Emitted) -> Emitted
    decreases n, 1nat, n.children@.len() - i,
{
    if 0 <= i < n.children@.len() {
        let c = n.children@[i];
        let next = if c.kind@ == "binding"@ {
            walk_binding(src, c, st)
        } else {
            st
        };
        walk_let_bindings(src, n, i + 1, next)
    } else {
        st
    }
}

/// Then every other part of the `let` but its keyword.
pub open spec fn walk_let_rest(src: Source, n: SyntaxNode, i: int, st: Emitted) -> Emitted
    decreases n, 1nat, n.children@.len() - i,
{
    if 0 <= i < n.children@.len() {
        let c = n.children@[i];
        let next = if c.kind@ != "binding"@ && c.kind@ != "let"@ {
            walk(src, c, st)
        } else {
            st
        };
        walk_let_rest(src, n, i + 1, next)
    } else {
        st
    }
}

pub open spec fn walk_interpolations(src: Source, n: SyntaxNode, i: int, st: Emitted) -> Emitted
    decreases n, 1nat, n.children@.len() - i,
{
    if 0 <= i < n.children@.len() {
        let c = n.children@[i];
        let next = if c.kind@ == "interpolation"@ {
            walk(src, c, st)
        } else {
            st
        };
        walk_interpolations(src, n, i + 1, next)
    } else {
        st
    }
}

/// The body of a function: every child but its parameters.
pub open spec fn walk_lambda_body(src: Source, n: SyntaxNode, i: int, st: Emitted) -> Emitted
    decreases n, 1nat, n.children@.len() - i,
{
    if 0 <= i < n.children@.len() {
        let c = n.children@[i];
        let next = if c.kind@ != "identifier"@ && c.kind@ != "formals"@ {
            walk(src, c, st)
        } else {
            st
        };
        walk_lambda_body(src, n, i + 1, next)
    } else {
        st
    }
}

/// Each parameter of a function takes an id: a plain parameter, and each
/// named formal of a pattern.
pub open spec fn mint_params(n: SyntaxNode, i: int, st: Emitted) -> Emitted
    decreases n.children@.len() - i,
{
    if 0 <= i < n.children@.len() {
        let c = n.children@[i];
        let next = if c.kind@ == "identifier"@ {
            mint(st)
        } else if c.kind@ == "formals"@ {
            mint_formals(c, 0, st)
        } else {
            st
        };
        mint_params(n, i + 1, next)
    } else {
        st
    }
}

pub open spec fn mint_formals(f: SyntaxNode, i: int, st: Emitted) -> Emitted
    decreases f.children@.len() - i,
{
    if 0 <= i < f.children@.len() {
        let c = f.children@[i];
        let next = if c.kind@ == "formal"@ && field_index(c, "name"@) is Some {
            mint(st)
        } else {
            st
        };
        mint_formals(f, i + 1, next)
    } else {
        st
    }
}

/// The node kinds of recursive attribute sets.
pub open spec fn is_rec_kind(k: Seq<char>) -> bool {
    k == "rec_attrset"@ || k == "rec_attrset_expression"@
}

/// The index of the first child from the `i`-th on that holds the bindings
/// of a set.
pub open spec fn binding_set_index(n: SyntaxNode, i: int) -> Option<int>
    decreases n.children@.len() - i,
{
    if i < 0 || i >= n.children@.len() {
        None
    } else if n.children@[i].kind@ == "binding_set"@ {
        Some(i)
    } else {
        binding_set_index(n, i + 1)
    }
}

/// A recursive set whose bindings are the children of `m`: first every
/// named binding takes its id, then each emits its symbol and the symbols
/// of its value.
pub open spec fn walk_rec(src: Source, m: SyntaxNode, st: Emitted) -> Emitted
    decreases m, 2nat, 0int,
{
    walk_rec_values(src, m, 0, rec_collect(src, m, 0, st))
}

/// The node naming a binding of a recursive set: the first part of its
/// attribute path.
pub open spec fn rec_ident(b: SyntaxNode) -> Option<SyntaxNode> {
    if b.kind@ == "binding"@ {
        match field_index(b, "attrpath"@) {
            Some(j) => if 0 <= j < b.children@.len() && b.children@[j].children@.len() > 0 {
                Some(b.children@[j].children@[0])
            } else {
                None
            },
            None => None,
        }
    } else {
        None
    }
}

/// The name of a binding of a recursive set: the text of the first part
/// of its attribute path.
pub open spec fn rec_name(src: Source, b: SyntaxNode) -> Option<Seq<char>> {
    match rec_ident(b) {
        Some(x) => text_of(src, x),
        None => None,
    }
}

/// The range of a binding of a recursive set: the span of its name.
pub open spec fn rec_range(b: SyntaxNode) -> Range {
    match rec_ident(b) {
        Some(x) => span_range(x),
        None => span_range(b),
    }
}

/// First pass over a recursive set: every named binding takes its id
/// before any value is read, so that values may refer forward.
pub open spec fn rec_collect(src: Source, n: SyntaxNode, i: int, st: Emitted) -> (Seq<(int, Seq<char>, SymbolId)>, Emitted)
    decreases n.children@.len() - i,
{
    if 0 <= i < n.children@.len() {
        let (rest, fin) = rec_collect(
            src,
            n,
            i + 1,
            if rec_name(src, n.children@[i]) is Some && st.next < u32::MAX {
                mint(st)
            } else {
                st
            },
        );
        if rec_name(src, n.children@[i]) is Some && st.next < u32::MAX {
            (seq![(i, rec_name(src, n.children@[i])->0, SymbolId(st.next as u32))] + rest, fin)
        } else {
            (rest, fin)
        }
    } else {
        (Seq::empty(), st)
    }
}

/// Second pass over a recursive set: each collected binding emits its
/// symbol over the span of its name, then the symbols of its value.
pub open spec fn walk_rec_values(
    src: Source,
    n: SyntaxNode,
    k: int,
    collected: (Seq<(int, Seq<char>, SymbolId)>, Emitted),
) -> Emitted
    decreases n, 1nat, collected.0.len() - k,
{
    let (items, st) = collected;
    if 0 <= k < items.len() {
        let (i, name, id) = items[k];
        if 0 <= i < n.children@.len() {
            let b = n.children@[i];
            let kind = value_kind(b);
            let with_symbol = Emitted {
                syms: st.syms.push(
                    SymbolFacts {
                        id,
                        name,
                        kind,
                        range: rec_range(b),
                        signature: Some(binding_signature(name, kind)),
                        doc: None,
                    },
                ),
                next: st.next,
            };
            walk_rec_values(src, n, k + 1, (items, walk_rec_value(src, b, with_symbol)))
        } else {
            st
        }
    } else {
        st
    }
}

pub open spec fn walk_rec_value(src: Source, b: SyntaxNode, st: Emitted) -> Emitted
    decreases b, 2nat, 0int,
{
    match field_index(b, "expression"@) {
        Some(j) => if 0 <= j < b.children@.len() {
            walk(src, b.children@[j], st)
        } else {
            st
        },
        None => st,
    }
}

/// A path literal emits a constant named `path_<k>`, `k` being the number
/// of symbols emitted before it.
pub open spec fn path_literal(src: Source, n: SyntaxNode, st: Emitted) -> Emitted {
    match text_of(src, n) {
        Some(t) => emit(
            st,
            "path_"@ + decimal(st.syms.len()),
            SymbolKind::Constant,
            span_range(n),
            "path = "@ + t,
            None,
        ),
        None => st,
    }
}

} // verus!

verus! {

/// The parts of `v` in reverse order.
pub open spec fn reversed(v: Seq<Seq<char>>) -> Seq<Seq<char>> {
    Seq::new(v.len(), |k: int| v[v.len() - 1 - k])
}

/// The documentation above line `row`, as in [`doc_comment`].
pub fn doc_comment_at(lines: &Vec<Vec<char>>, row: usize) -> (r: Option<String>)
    ensures
        opt_view(r) == doc_comment(views(lines@), row as nat),
{
    if row == 0 {
        return None;
    }
    let ghost lv = views(lines@);
    let mut rev: Vec<Vec<char>> = Vec::new();
    let mut i = row;
    let mut done = false;
    assert(reversed(views(rev@)) =~= Seq::<Seq<char>>::empty());
    while i > 0 && !done
        invariant
            lv == views(lines@),
            i <= row,
            !done ==> doc_comment(lv, row as nat) == doc_scan(lv, i as int, reversed(views(rev@))),
            done ==> doc_comment(lv, row as nat) == joined_doc(reversed(views(rev@))),
        decreases i, if done { 0int } else { 1int },
    {
        if i - 1 >= lines.len() {
            return None;
        }
        let line = &lines[i - 1];
        assert(line@.subrange(0, line@.len() as int) =~= line@);
        assert(lv[i - 1] == line@);
        let (a, b) = trim_bounds(line, 0, line.len());
        if b > a && line[a] == '#' {
            let h = skip_char(line, a, b, '#');
            let (c, d) = trim_bounds(line, h, b);
            let mut text: Vec<char> = Vec::new();
            let mut j = c;
            while j < d
                invariant
                    c <= j <= d <= line@.len(),
                    text@ == line@.subrange(c as int, j as int),
                decreases d - j,
            {
                text.push(line[j]);
                j = j + 1;
            }
            let ghost before = views(rev@);
            rev.push(text);
            assert(views(rev@) =~= before.push(line@.subrange(c as int, d as int)));
            assert(reversed(views(rev@)) =~= seq![line@.subrange(c as int, d as int)] + reversed(
                before,
            ));
            i = i - 1;
        } else if b == a {
            i = i - 1;
        } else {
            done = true;
        }
    }
    let ghost acc = reversed(views(rev@));
    if rev.len() == 0 {
        return None;
    }
    let mut ordered: Vec<Vec<char>> = Vec::new();
    let mut k = rev.len();
    while k > 0
        invariant
            k <= rev@.len(),
            acc == reversed(views(rev@)),
            views(ordered@) == acc.subrange(0, (rev@.len() - k) as int),
        decreases k,
    {
        let ghost before = views(ordered@);
        ordered.push(rev[k - 1].clone());
        assert(views(ordered@) =~= before.push(acc[(rev@.len() - k) as int]));
        k = k - 1;
        assert(views(ordered@) =~= acc.subrange(0, (rev@.len() - k) as int));
    }
    assert(acc.subrange(0, acc.len() as int) =~= acc);
    let joined = crate::text::join_chars(&ordered, ' ');
    Some(crate::text::string_from_chars(&joined))
}

} // verus!

verus! {

/// What the walk reads: the source text, its lines and the file.
pub struct Reader<'a> {
    code: &'a str,
    lines: Vec<Vec<char>>,
    file_id: FileId,
}

impl<'a> Reader<'a> {
    pub closed spec fn source(&self) -> Source {
        Source { bytes: self.code.spec_bytes(), lines: views(self.lines@) }
    }

    pub closed spec fn file(&self) -> FileId {
        self.file_id
    }

    /// A reader of `code`.
    pub fn new(code: &'a str, file_id: FileId) -> (r: Reader<'a>)
        ensures
            r.source() == source_of(code),
            r.file() == file_id,
    {
        let cs = chars_of(code);
        Reader { code, lines: lines_chars(&cs), file_id }
    }
}

/// What the walk reads of `code`.
pub open spec fn source_of(code: &str) -> Source {
    Source { bytes: code.spec_bytes(), lines: lines_of(code@) }
}

pub open spec fn emitted_of(v: Seq<Symbol>, c: SymbolCounter) -> Emitted {
    Emitted { syms: all_facts(v), next: c.next_value() }
}

/// The index of the first child held under field `f`.
fn field_child(n: &SyntaxNode, f: &str) -> (r: Option<usize>)
    ensures
        match r {
            Some(j) => field_index(*n, f@) == Some(j as int) && j < n.children@.len(),
            None => field_index(*n, f@) is None,
        },
{
    let mut i: usize = 0;
    while i < n.children.len()
        invariant
            i <= n.children@.len(),
            field_index(*n, f@) == field_index_from(*n, f@, i as int),
        decreases n.children.len() - i,
    {
        let c = &n.children[i];
        match &c.field {
            Some(x) => {
                if str_eq(x.as_str(), f) {
                    return Some(i);
                }
            },
            None => {},
        }
        i = i + 1;
    }
    None
}

/// The source text of `n`, as in [`text_of`].
fn node_text(rd: &Reader, n: &SyntaxNode) -> (r: Option<String>)
    ensures
        opt_view(r) == text_of(rd.source(), *n),
{
    let s = n.start_byte;
    let e = n.end_byte;
    if s <= e && rd.code.is_char_boundary(e) {
        proof {
            vstd::utf8::encode_utf8_valid_utf8(rd.code@);
        }
        assert(e <= rd.code.spec_bytes().len());
        let (head, _) = rd.code.split_at(e);
        if head.is_char_boundary(s) {
            let (_, mid) = head.split_at(s);
            assert(head.spec_bytes().len() == e);
            assert(mid.spec_bytes() =~= rd.code.spec_bytes().subrange(s as int, e as int));
            return Some(mid.to_owned());
        }
    }
    None
}

#[verifier::truncate]
fn row_u32(x: usize) -> (r: u32)
    ensures
        r == x as u32,
{
    x as u32
}

#[verifier::truncate]
fn col_u16(x: usize) -> (r: u16)
    ensures
        r == x as u16,
{
    x as u16
}

fn span(n: &SyntaxNode) -> (r: Range)
    ensures
        r == span_range(*n),
{
    Range::new(row_u32(n.start_row), col_u16(n.start_column), row_u32(n.end_row), col_u16(n.end_column))
}

fn is_function_node(k: &str) -> (r: bool)
    ensures
        r == is_function_kind(k@),
{
    str_eq(k, "function_expression") || str_eq(k, "function")
}

fn kind_of_value(n: &SyntaxNode) -> (r: SymbolKind)
    ensures
        r == value_kind(*n),
{
    match field_child(n, "expression") {
        Some(j) => if is_function_node(n.children[j].kind.as_str()) {
            SymbolKind::Function
        } else {
            SymbolKind::Variable
        },
        None => SymbolKind::Variable,
    }
}

fn signature_for(name: &String, kind: SymbolKind) -> (r: String)
    ensures
        r@ == binding_signature(name@, kind),
{
    let mut sig = name.clone();
    if kind == SymbolKind::Function {
        append_str(&mut sig, " = <function>");
    } else {
        append_str(&mut sig, " = <value>");
    }
    sig
}

fn ident_of(n: &SyntaxNode) -> (r: Option<&SyntaxNode>)
    ensures
        match r {
            Some(x) => binding_ident(*n) == Some(*x),
            None => binding_ident(*n) is None,
        },
{
    match field_child(n, "attrpath") {
        Some(j) => {
            if n.children[j].children.len() > 0 {
                Some(&n.children[j].children[0])
            } else {
                None
            }
        },
        None => match field_child(n, "name") {
            Some(j) => Some(&n.children[j]),
            None => None,
        },
    }
}

/// Pushes a symbol with the next id, when the counter has one left.
fn push_symbol(
    out: &mut Vec<Symbol>,
    counter: &mut SymbolCounter,
    file_id: FileId,
    name: String,
    kind: SymbolKind,
    range: Range,
    signature: String,
    doc: Option<String>,
)
    requires
        all_plain(old(out)@, file_id),
    ensures
        all_plain(final(out)@, file_id),
        emitted_of(final(out)@, *final(counter)) == emit(
            emitted_of(old(out)@, *old(counter)),
            name@,
            kind,
            range,
            signature@,
            opt_view(doc),
        ),
{
    if counter.has_next() {
        let id = counter.next_id();
        let ghost nv = name@;
        let ghost sv = signature@;
        let ghost dv = opt_view(doc);
        let mut sym = Symbol::new(id, name, kind, file_id, range);
        sym.signature = Some(signature);
        sym.doc_comment = doc;
        sym.visibility = Visibility::Public;
        sym.scope_context = Some(ScopeContext::Module);
        let ghost before = all_facts(out@);
        out.push(sym);
        assert(all_facts(out@) =~= before.push(
            SymbolFacts { id, name: nv, kind, range, signature: Some(sv), doc: dv },
        ));
    }
}

/// Takes one id from the counter, when it has one left.
fn take_id(counter: &mut SymbolCounter)
    ensures
        final(counter).next_value() == mint(Emitted { syms: Seq::empty(), next: old(counter).next_value() }).next,
{
    if counter.has_next() {
        counter.next_id();
    }
}

/// Emits the symbols of `n` and everything under it.
fn walk_node(rd: &Reader, n: &SyntaxNode, counter: &mut SymbolCounter, out: &mut Vec<Symbol>)
    requires
        all_plain(old(out)@, rd.file()),
    ensures
        all_plain(final(out)@, rd.file()),
        emitted_of(final(out)@, *final(counter)) == walk(
            rd.source(),
            *n,
            emitted_of(old(out)@, *old(counter)),
        ),
    decreases n, 3nat,
{
    let k = n.kind.as_str();
    if str_eq(k, "let_expression") {
        walk_let(rd, n, counter, out);
    } else if str_eq(k, "rec_attrset") || str_eq(k, "rec_attrset_expression") {
        match binding_set_child(n) {
            Some(j) => walk_rec_node(rd, &n.children[j], counter, out),
            None => walk_rec_node(rd, n, counter, out),
        }
    } else if is_function_node(k) {
        walk_lambda(rd, n, counter, out);
    } else if str_eq(k, "binding") {
        walk_binding_node(rd, n, counter, out);
    } else if str_eq(k, "indented_string_expression") || str_eq(k, "string_expression") {
        walk_matching_children(rd, n, "interpolation", counter, out);
    } else if str_eq(k, "path_expression") {
        walk_path(rd, n, counter, out);
    } else {
        walk_all_children(rd, n, counter, out);
    }
}

fn walk_binding_node(rd: &Reader, n: &SyntaxNode, counter: &mut SymbolCounter, out: &mut Vec<Symbol>)
    requires
        all_plain(old(out)@, rd.file()),
    ensures
        all_plain(final(out)@, rd.file()),
        emitted_of(final(out)@, *final(counter)) == walk_binding(
            rd.source(),
            *n,
            emitted_of(old(out)@, *old(counter)),
        ),
    decreases n, 2nat,
{
    match ident_of(n) {
        Some(id_node) => match node_text(rd, id_node) {
            Some(name) => {
                let kind = kind_of_value(n);
                let sig = signature_for(&name, kind);
                let doc = doc_comment_at(&rd.lines, n.start_row);
                push_symbol(out, counter, rd.file_id, name, kind, span(id_node), sig, doc);
            },
            None => {},
        },
        None => {},
    }
    match field_child(n, "expression") {
        Some(j) => walk_node(rd, &n.children[j], counter, out),
        None => {},
    }
}

fn walk_all_children(rd: &Reader, n: &SyntaxNode, counter: &mut SymbolCounter, out: &mut Vec<Symbol>)
    requires
        all_plain(old(out)@, rd.file()),
    ensures
        all_plain(final(out)@, rd.file()),
        emitted_of(final(out)@, *final(counter)) == walk_children(
            rd.source(),
            *n,
            0,
            emitted_of(old(out)@, *old(counter)),
        ),
    decreases n, 1nat,
{
    let ghost start = emitted_of(out@, *counter);
    let mut i: usize = 0;
    while i < n.children.len()
        invariant
            i <= n.children@.len(),
            all_plain(out@, rd.file()),
            walk_children(rd.source(), *n, 0, start) == walk_children(
                rd.source(),
                *n,
                i as int,
                emitted_of(out@, *counter),
            ),
        decreases n.children.len() - i,
    {
        walk_node(rd, &n.children[i], counter, out);
        i = i + 1;
    }
}

/// Walks the children of the given kind.
fn walk_matching_children(
    rd: &Reader,
    n: &SyntaxNode,
    kind: &str,
    counter: &mut SymbolCounter,
    out: &mut Vec<Symbol>,
)
    requires
        all_plain(old(out)@, rd.file()),
        kind@ == "interpolation"@,
    ensures
        all_plain(final(out)@, rd.file()),
        emitted_of(final(out)@, *final(counter)) == walk_interpolations(
            rd.source(),
            *n,
            0,
            emitted_of(old(out)@, *old(counter)),
        ),
    decreases n, 1nat,
{
    let ghost start = emitted_of(out@, *counter);
    let mut i: usize = 0;
    while i < n.children.len()
        invariant
            i <= n.children@.len(),
            kind@ == "interpolation"@,
            all_plain(out@, rd.file()),
            walk_interpolations(rd.source(), *n, 0, start) == walk_interpolations(
                rd.source(),
                *n,
                i as int,
                emitted_of(out@, *counter),
            ),
        decreases n.children.len() - i,
    {
        if str_eq(n.children[i].kind.as_str(), kind) {
            walk_node(rd, &n.children[i], counter, out);
        }
        i = i + 1;
    }
}

fn walk_let(rd: &Reader, n: &SyntaxNode, counter: &mut SymbolCounter, out: &mut Vec<Symbol>)
    requires
        all_plain(old(out)@, rd.file()),
    ensures
        all_plain(final(out)@, rd.file()),
        emitted_of(final(out)@, *final(counter)) == walk_let_rest(
            rd.source(),
            *n,
            0,
            walk_let_bindings(rd.source(), *n, 0, emitted_of(old(out)@, *old(counter))),
        ),
    decreases n, 2nat,
{
    let ghost start = emitted_of(out@, *counter);
    let mut i: usize = 0;
    while i < n.children.len()
        invariant
            i <= n.children@.len(),
            all_plain(out@, rd.file()),
            walk_let_bindings(rd.source(), *n, 0, start) == walk_let_bindings(
                rd.source(),
                *n,
                i as int,
                emitted_of(out@, *counter),
            ),
        decreases n.children.len() - i,
    {
        if str_eq(n.children[i].kind.as_str(), "binding") {
            walk_binding_node(rd, &n.children[i], counter, out);
        }
        i = i + 1;
    }
    let ghost middle = emitted_of(out@, *counter);
    let mut i: usize = 0;
    while i < n.children.len()
        invariant
            i <= n.children@.len(),
            all_plain(out@, rd.file()),
            walk_let_rest(rd.source(), *n, 0, middle) == walk_let_rest(
                rd.source(),
                *n,
                i as int,
                emitted_of(out@, *counter),
            ),
        decreases n.children.len() - i,
    {
        let ck = n.children[i].kind.as_str();
        if !str_eq(ck, "binding") && !str_eq(ck, "let") {
            walk_node(rd, &n.children[i], counter, out);
        }
        i = i + 1;
    }
}

fn walk_lambda(rd: &Reader, n: &SyntaxNode, counter: &mut SymbolCounter, out: &mut Vec<Symbol>)
    requires
        all_plain(old(out)@, rd.file()),
    ensures
        all_plain(final(out)@, rd.file()),
        emitted_of(final(out)@, *final(counter)) == walk_lambda_body(
            rd.source(),
            *n,
            0,
            mint_params(*n, 0, emitted_of(old(out)@, *old(counter))),
        ),
    decreases n, 2nat,
{
    let ghost start = emitted_of(out@, *counter);
    let mut i: usize = 0;
    while i < n.children.len()
        invariant
            i <= n.children@.len(),
            start.syms == all_facts(out@),
            mint_params(*n, 0, start) == mint_params(*n, i as int, emitted_of(out@, *counter)),
        decreases n.children.len() - i,
    {
        let c = &n.children[i];
        if str_eq(c.kind.as_str(), "identifier") {
            take_id(counter);
        } else if str_eq(c.kind.as_str(), "formals") {
            let mut j: usize = 0;
            let ghost at_formals = emitted_of(out@, *counter);
            while j < c.children.len()
                invariant
                    j <= c.children@.len(),
                    at_formals.syms == all_facts(out@),
                    mint_formals(*c, 0, at_formals) == mint_formals(
                        *c,
                        j as int,
                        emitted_of(out@, *counter),
                    ),
                decreases c.children.len() - j,
            {
                let f = &c.children[j];
                if str_eq(f.kind.as_str(), "formal") && field_child(f, "name").is_some() {
                    take_id(counter);
                }
                j = j + 1;
            }
        }
        i = i + 1;
    }
    let ghost middle = emitted_of(out@, *counter);
    let mut i: usize = 0;
    while i < n.children.len()
        invariant
            i <= n.children@.len(),
            all_plain(out@, rd.file()),
            walk_lambda_body(rd.source(), *n, 0, middle) == walk_lambda_body(
                rd.source(),
                *n,
                i as int,
                emitted_of(out@, *counter),
            ),
        decreases n.children.len() - i,
    {
        let ck = n.children[i].kind.as_str();
        if !str_eq(ck, "identifier") && !str_eq(ck, "formals") {
            walk_node(rd, &n.children[i], counter, out);
        }
        i = i + 1;
    }
}

fn walk_path(rd: &Reader, n: &SyntaxNode, counter: &mut SymbolCounter, out: &mut Vec<Symbol>)
    requires
        all_plain(old(out)@, rd.file()),
    ensures
        all_plain(final(out)@, rd.file()),
        emitted_of(final(out)@, *final(counter)) == path_literal(
            rd.source(),
            *n,
            emitted_of(old(out)@, *old(counter)),
        ),
{
    match node_text(rd, n) {
        Some(t) => {
            let mut name = String::new();
            append_str(&mut name, "path_");
            push_decimal(&mut name, out.len() as u64);
            let mut sig = String::new();
            append_str(&mut sig, "path = ");
            append_str(&mut sig, t.as_str());
            push_symbol(out, counter, rd.file_id, name, SymbolKind::Constant, span(n), sig, None);
        },
        None => {},
    }
}

fn walk_rec_value_node(rd: &Reader, b: &SyntaxNode, counter: &mut SymbolCounter, out: &mut Vec<Symbol>)
    requires
        all_plain(old(out)@, rd.file()),
    ensures
        all_plain(final(out)@, rd.file()),
        emitted_of(final(out)@, *final(counter)) == walk_rec_value(
            rd.source(),
            *b,
            emitted_of(old(out)@, *old(counter)),
        ),
    decreases b, 2nat,
{
    match field_child(b, "expression") {
        Some(j) => walk_node(rd, &b.children[j], counter, out),
        None => {},
    }
}

fn binding_set_child(n: &SyntaxNode) -> (r: Option<usize>)
    ensures
        match r {
            Some(j) => binding_set_index(*n, 0) == Some(j as int) && j < n.children@.len(),
            None => binding_set_index(*n, 0) is None,
        },
{
    let mut i: usize = 0;
    while i < n.children.len()
        invariant
            i <= n.children@.len(),
            binding_set_index(*n, 0) == binding_set_index(*n, i as int),
        decreases n.children.len() - i,
    {
        if str_eq(n.children[i].kind.as_str(), "binding_set") {
            return Some(i);
        }
        i = i + 1;
    }
    None
}

fn rec_ident_of(b: &SyntaxNode) -> (r: Option<&SyntaxNode>)
    ensures
        match r {
            Some(x) => rec_ident(*b) == Some(*x),
            None => rec_ident(*b) is None,
        },
{
    if !str_eq(b.kind.as_str(), "binding") {
        return None;
    }
    match field_child(b, "attrpath") {
        Some(j) => if b.children[j].children.len() > 0 {
            Some(&b.children[j].children[0])
        } else {
            None
        },
        None => None,
    }
}

fn rec_name_of(rd: &Reader, b: &SyntaxNode) -> (r: Option<String>)
    ensures
        opt_view(r) == rec_name(rd.source(), *b),
{
    match rec_ident_of(b) {
        Some(x) => node_text(rd, x),
        None => None,
    }
}

fn rec_span(b: &SyntaxNode) -> (r: Range)
    ensures
        r == rec_range(*b),
{
    match rec_ident_of(b) {
        Some(x) => span(x),
        None => span(b),
    }
}

pub open spec fn collected_view(v: Seq<(usize, String, SymbolId)>) -> Seq<(int, Seq<char>, SymbolId)> {
    Seq::new(v.len(), |k: int| (v[k].0 as int, v[k].1@, v[k].2))
}

fn walk_rec_node(rd: &Reader, n: &SyntaxNode, counter: &mut SymbolCounter, out: &mut Vec<Symbol>)
    requires
        all_plain(old(out)@, rd.file()),
    ensures
        all_plain(final(out)@, rd.file()),
        emitted_of(final(out)@, *final(counter)) == walk_rec_values(
            rd.source(),
            *n,
            0,
            rec_collect(rd.source(), *n, 0, emitted_of(old(out)@, *old(counter))),
        ),
    decreases n, 2nat,
{
    let ghost start = emitted_of(out@, *counter);
    let mut items: Vec<(usize, String, SymbolId)> = Vec::new();
    let mut i: usize = 0;
    while i < n.children.len()
        invariant
            i <= n.children@.len(),
            start.syms == all_facts(out@),
            forall|m: int| 0 <= m < items@.len() ==> (#[trigger] items@[m]).0 < n.children@.len(),
            rec_collect(rd.source(), *n, 0, start) == (
                collected_view(items@) + rec_collect(rd.source(), *n, i as int, emitted_of(out@, *counter)).0,
                rec_collect(rd.source(), *n, i as int, emitted_of(out@, *counter)).1,
            ),
        decreases n.children.len() - i,
    {
        match rec_name_of(rd, &n.children[i]) {
            Some(name) => {
                if counter.has_next() {
                    let id = counter.next_id();
                    let ghost before = collected_view(items@);
                    let ghost nv = name@;
                    items.push((i, name, id));
                    assert(collected_view(items@) =~= before.push((i as int, nv, id)));
                    assert(collected_view(items@) + rec_collect(
                        rd.source(),
                        *n,
                        i + 1,
                        emitted_of(out@, *counter),
                    ).0 =~= before + (seq![(i as int, nv, id)] + rec_collect(
                        rd.source(),
                        *n,
                        i + 1,
                        emitted_of(out@, *counter),
                    ).0));
                }
            },
            None => {},
        }
        i = i + 1;
    }
    assert(collected_view(items@) + Seq::<(int, Seq<char>, SymbolId)>::empty() =~= collected_view(
        items@,
    ));
    let ghost iv = collected_view(items@);
    let ghost middle = emitted_of(out@, *counter);
    let mut k: usize = 0;
    while k < items.len()
        invariant
            k <= items@.len(),
            iv == collected_view(items@),
            all_plain(out@, rd.file()),
            forall|m: int| 0 <= m < items@.len() ==> (#[trigger] items@[m]).0 < n.children@.len(),
            walk_rec_values(rd.source(), *n, 0, (iv, middle)) == walk_rec_values(
                rd.source(),
                *n,
                k as int,
                (iv, emitted_of(out@, *counter)),
            ),
        decreases items.len() - k,
    {
        let i = items[k].0;
        let b = &n.children[i];
        let name = items[k].1.clone();
        let id = items[k].2;
        let kind = kind_of_value(b);
        let sig = signature_for(&name, kind);
        let ghost nv = name@;
        let ghost sv = sig@;
        let mut sym = Symbol::new(id, name, kind, rd.file_id, rec_span(b));
        sym.signature = Some(sig);
        sym.visibility = Visibility::Public;
        sym.scope_context = Some(ScopeContext::Module);
        let ghost before = all_facts(out@);
        assert(iv[k as int] == (i as int, nv, id));
        out.push(sym);
        assert(all_facts(out@) =~= before.push(
            SymbolFacts { id, name: nv, kind, range: rec_range(*b), signature: Some(sv), doc: None },
        ));
        walk_rec_value_node(rd, b, counter, out);
        k = k + 1;
    }
}

} // verus!

verus! {

/// The symbols of a tree, with ids from a counter starting at `next`.
pub open spec fn symbols_of_tree(src: Source, tree: SyntaxNode, next: nat) -> Emitted {
    walk(src, tree, Emitted { syms: Seq::empty(), next })
}

/// How a parse went.
#[derive(Clone, Copy, Debug, PartialEq, Eq, Structural)]
pub enum ParseOutcome {
    /// The tree holds no syntax error and was read whole.
    Complete,
    /// The tree holds syntax errors; what lies outside them was read.
    WithErrors,
    /// The tree is deeper than [`MAX_TREE_DEPTH`] levels; nodes below that
    /// depth were not read.
    Truncated,
}

/// Parser of Nix source code.
pub struct NixParser {
    parser: tree_sitter::Parser,
}

impl NixParser {
    /// A Nix parser. The Nix grammar is attached at each parse; its version
    /// is one that the tree-sitter library accepts, so this always succeeds.
    pub fn new() -> (r: Result<NixParser, String>)
        ensures
            r is Ok,
    {
        Ok(NixParser { parser: new_parser() })
    }

    /// The symbols of a syntax tree of `code`, in traversal order, with ids
    /// taken from `symbol_counter`.
    pub fn parse_tree(
        tree: &SyntaxNode,
        code: &str,
        file_id: FileId,
        symbol_counter: &mut SymbolCounter,
    ) -> (r: Vec<Symbol>)
        ensures
            all_plain(r@, file_id),
            emitted_of(r@, *final(symbol_counter)) == symbols_of_tree(
                source_of(code),
                *tree,
                old(symbol_counter).next_value(),
            ),
            forall|k: int|
                0 <= k < r@.len() ==> old(symbol_counter).next_value() <= (#[trigger] r@[k]).id.0
                    < final(symbol_counter).next_value(),
            forall|i: int, j: int|
                0 <= i < j < r@.len() ==> (#[trigger] r@[i]).id != (#[trigger] r@[j]).id,
    {
        let rd = Reader::new(code, file_id);
        let mut out: Vec<Symbol> = Vec::new();
        assert(all_facts(out@) =~= Seq::<SymbolFacts>::empty());
        walk_node(&rd, tree, symbol_counter, &mut out);
        proof {
            crate::nix_walk_laws::lemma_parse_ids_fresh(
                source_of(code),
                *tree,
                old(symbol_counter).next_value(),
            );
            assert forall|k: int| 0 <= k < out@.len() implies old(symbol_counter).next_value()
                <= (#[trigger] out@[k]).id.0 < symbol_counter.next_value() by {
                assert(all_facts(out@)[k].id == out@[k].id);
            }
            assert forall|i: int, j: int| 0 <= i < j < out@.len() implies (#[trigger] out@[i]).id
                != (#[trigger] out@[j]).id by {
                assert(all_facts(out@)[i].id == out@[i].id);
                assert(all_facts(out@)[j].id == out@[j].id);
            }
        }
        out
    }

    /// As `parse`, saying also whether the tree holds syntax errors or was
    /// cut at the depth limit.
    pub fn parse_with_outcome(
        &mut self,
        code: &str,
        file_id: FileId,
        symbol_counter: &mut SymbolCounter,
    ) -> (r: (Vec<Symbol>, ParseOutcome))
        ensures
            all_plain(r.0@, file_id),
            exists|tree: SyntaxNode|
                within_depth(tree, MAX_TREE_DEPTH as nat) && emitted_of(r.0@, *final(symbol_counter))
                    == #[trigger] symbols_of_tree(
                    source_of(code),
                    tree,
                    old(symbol_counter).next_value(),
                ),
            forall|k: int|
                0 <= k < r.0@.len() ==> old(symbol_counter).next_value() <= (#[trigger] r.0@[k]).id.0
                    < final(symbol_counter).next_value(),
            forall|i: int, j: int|
                0 <= i < j < r.0@.len() ==> (#[trigger] r.0@[i]).id != (#[trigger] r.0@[j]).id,
    {
        let parsed = parse_nix_text(&mut self.parser, code);
        let tree = parsed.unwrap();
        let (root, has_error, cut) = copy_parsed(&tree);
        let symbols = Self::parse_tree(&root, code, file_id, symbol_counter);
        let outcome = if cut {
            ParseOutcome::Truncated
        } else if has_error {
            ParseOutcome::WithErrors
        } else {
            ParseOutcome::Complete
        };
        (symbols, outcome)
    }

    /// The `#` comments right above a declaration, joined with spaces.
    pub fn extract_doc_comment(node: &SyntaxNode, code: &str) -> (r: Option<String>)
        ensures
            opt_view(r) == doc_comment(lines_of(code@), node.start_row as nat),
    {
        let cs = chars_of(code);
        let lines = lines_chars(&cs);
        doc_comment_at(&lines, node.start_row)
    }
}

impl LanguageParser for NixParser {
    /// The symbols of `code`: those of the tree that the Nix grammar gives
    /// it. Trees with syntax errors are read as far as they go.
    fn parse(&mut self, code: &str, file_id: FileId, symbol_counter: &mut SymbolCounter) -> (r:
        Vec<Symbol>)
        ensures
            all_plain(r@, file_id),
            exists|tree: SyntaxNode|
                within_depth(tree, MAX_TREE_DEPTH as nat) && emitted_of(r@, *final(symbol_counter))
                    == #[trigger] symbols_of_tree(
                    source_of(code),
                    tree,
                    old(symbol_counter).next_value(),
                ),
            forall|k: int|
                0 <= k < r@.len() ==> old(symbol_counter).next_value() <= (#[trigger] r@[k]).id.0
                    < final(symbol_counter).next_value(),
            forall|i: int, j: int|
                0 <= i < j < r@.len() ==> (#[trigger] r@[i]).id != (#[trigger] r@[j]).id,
    {
        let (symbols, _outcome) = self.parse_with_outcome(code, file_id, symbol_counter);
        symbols
    }

    /// Calls between Nix functions are not tracked.
    fn find_calls(&mut self, code: &str) -> (r: Vec<(String, String, Range)>)
        ensures
            r@.len() == 0,
    {
        Vec::new()
    }

    /// Nix has no method calls.
    fn find_method_calls(&mut self, code: &str) -> (r: Vec<(String, String, Range)>)
        ensures
            r@.len() == 0,
    {
        Vec::new()
    }

    /// Nix has no traits or interfaces to implement.
    fn find_implementations(&mut self, code: &str) -> (r: Vec<(String, String, Range)>)
        ensures
            r@.len() == 0,
    {
        Vec::new()
    }

    /// Nix has no type annotations to use.
    fn find_uses(&mut self, code: &str) -> (r: Vec<(String, String, Range)>)
        ensures
            r@.len() == 0,
    {
        Vec::new()
    }

    /// Nix has no method definitions.
    fn find_defines(&mut self, code: &str) -> (r: Vec<(String, String, Range)>)
        ensures
            r@.len() == 0,
    {
        Vec::new()
    }

    /// Imports are not tracked for Nix.
    fn find_imports(&mut self, code: &str, file_id: FileId) -> (r: Vec<(String, Option<String>, FileId, Range)>)
        ensures
            r@.len() == 0,
    {
        Vec::new()
    }

    /// The language this parser reads.
    fn language(&self) -> (r: crate::types::LanguageId)
        ensures
            r.name@ == "nix"@,
    {
        crate::types::LanguageId::new("nix")
    }
}

} // verus!
