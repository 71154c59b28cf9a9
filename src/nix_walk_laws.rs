//! Laws of the Nix symbol walk: parsing a tree again gives the same
//! symbols up to a shift of ids, and every symbol but a path constant is
//! named by the text of the tree it came from.
use vstd::prelude::*;
use crate::nix_parser::{
    Emitted, Source, SymbolFacts, binding_ident, binding_signature, doc_comment, emit,
    binding_set_index, field_index, is_function_kind, is_rec_kind, mint, mint_formals, mint_params,
    rec_collect, rec_ident, rec_name, rec_range, span_range, symbols_of_tree, text_of, value_kind,
    walk, walk_binding, walk_children, walk_interpolations, walk_lambda_body, walk_let_bindings,
    walk_let_rest, walk_rec, walk_rec_value, walk_rec_values,
};
use crate::syntax::SyntaxNode;
use crate::text::decimal;
use crate::types::{Range, SymbolId, SymbolKind};

verus! {

proof fn lemma_walk_mono(src: Source, n: SyntaxNode, st: Emitted)
    ensures
        walk(src, n, st).next >= st.next,
    decreases n, 3nat, 0int,
{
    let k = n.kind@;
    if k == "let_expression"@ {
        lemma_let_bindings_mono(src, n, 0, st);
        lemma_let_rest_mono(src, n, 0, walk_let_bindings(src, n, 0, st));
    } else if is_rec_kind(k) {
        match binding_set_index(n, 0) {
            Some(j) => if 0 <= j < n.children@.len() {
                lemma_walk_rec_mono(src, n.children@[j], st);
            },
            None => lemma_walk_rec_mono(src, n, st),
        }
    } else if is_function_kind(k) {
        lemma_mint_params_mono(n, 0, st);
        lemma_lambda_body_mono(src, n, 0, mint_params(n, 0, st));
    } else if k == "binding"@ {
        lemma_binding_mono(src, n, st);
    } else if k == "indented_string_expression"@ || k == "string_expression"@ {
        lemma_interpolations_mono(src, n, 0, st);
    } else if k == "path_expression"@ {
    } else {
        lemma_children_mono(src, n, 0, st);
    }
}

proof fn lemma_walk_rec_mono(src: Source, m: SyntaxNode, st: Emitted)
    ensures
        walk_rec(src, m, st).next >= st.next,
    decreases m, 2nat, 0int,
{
    lemma_rec_collect_mono(src, m, 0, st);
    lemma_rec_values_mono(src, m, 0, rec_collect(src, m, 0, st));
}

proof fn lemma_binding_mono(src: Source, n: SyntaxNode, st: Emitted)
    ensures
        walk_binding(src, n, st).next >= st.next,
    decreases n, 2nat, 0int,
{
    let named = match binding_ident(n) {
        Some(id_node) => match text_of(src, id_node) {
            Some(name) => emit(
                st,
                name,
                value_kind(n),
                span_range(id_node),
                binding_signature(name, value_kind(n)),
                doc_comment(src.lines, n.start_row as nat),
            ),
            None => st,
        },
        None => st,
    };
    match field_index(n, "expression"@) {
        Some(j) => if 0 <= j < n.children@.len() {
            lemma_walk_mono(src, n.children@[j], named);
        },
        None => {},
    }
}

proof fn lemma_children_mono(src: Source, n: SyntaxNode, i: int, st: Emitted)
    ensures
        walk_children(src, n, i, st).next >= st.next,
    decreases n, 1nat, n.children@.len() - i,
{
    if 0 <= i < n.children@.len() {
        lemma_walk_mono(src, n.children@[i], st);
        lemma_children_mono(src, n, i + 1, walk(src, n.children@[i], st));
    }
}

proof fn lemma_let_bindings_mono(src: Source, n: SyntaxNode, i: int, st: Emitted)
    ensures
        walk_let_bindings(src, n, i, st).next >= st.next,
    decreases n, 1nat, n.children@.len() - i,
{
    if 0 <= i < n.children@.len() {
        let c = n.children@[i];
        let next = if c.kind@ == "binding"@ {
            lemma_binding_mono(src, c, st);
            walk_binding(src, c, st)
        } else {
            st
        };
        lemma_let_bindings_mono(src, n, i + 1, next);
    }
}

proof fn lemma_let_rest_mono(src: Source, n: SyntaxNode, i: int, st: Emitted)
    ensures
        walk_let_rest(src, n, i, st).next >= st.next,
    decreases n, 1nat, n.children@.len() - i,
{
    if 0 <= i < n.children@.len() {
        let c = n.children@[i];
        let next = if c.kind@ != "binding"@ && c.kind@ != "let"@ {
            lemma_walk_mono(src, c, st);
            walk(src, c, st)
        } else {
            st
        };
        lemma_let_rest_mono(src, n, i + 1, next);
    }
}

proof fn lemma_interpolations_mono(src: Source, n: SyntaxNode, i: int, st: Emitted)
    ensures
        walk_interpolations(src, n, i, st).next >= st.next,
    decreases n, 1nat, n.children@.len() - i,
{
    if 0 <= i < n.children@.len() {
        let c = n.children@[i];
        let next = if c.kind@ == "interpolation"@ {
            lemma_walk_mono(src, c, st);
            walk(src, c, st)
        } else {
            st
        };
        lemma_interpolations_mono(src, n, i + 1, next);
    }
}

proof fn lemma_lambda_body_mono(src: Source, n: SyntaxNode, i: int, st: Emitted)
    ensures
        walk_lambda_body(src, n, i, st).next >= st.next,
    decreases n, 1nat, n.children@.len() - i,
{
    if 0 <= i < n.children@.len() {
        let c = n.children@[i];
        let next = if c.kind@ != "identifier"@ && c.kind@ != "formals"@ {
            lemma_walk_mono(src, c, st);
            walk(src, c, st)
        } else {
            st
        };
        lemma_lambda_body_mono(src, n, i + 1, next);
    }
}

proof fn lemma_mint_params_mono(n: SyntaxNode, i: int, st: Emitted)
    ensures
        mint_params(n, i, st).next >= st.next,
        mint_params(n, i, st).syms == st.syms,
    decreases n.children@.len() - i,
{
    if 0 <= i < n.children@.len() {
        let c = n.children@[i];
        let next = if c.kind@ == "identifier"@ {
            mint(st)
        } else if c.kind@ == "formals"@ {
            lemma_mint_formals_mono(c, 0, st);
            mint_formals(c, 0, st)
        } else {
            st
        };
        lemma_mint_params_mono(n, i + 1, next);
    }
}

proof fn lemma_mint_formals_mono(f: SyntaxNode, i: int, st: Emitted)
    ensures
        mint_formals(f, i, st).next >= st.next,
        mint_formals(f, i, st).syms == st.syms,
    decreases f.children@.len() - i,
{
    if 0 <= i < f.children@.len() {
        let c = f.children@[i];
        let next = if c.kind@ == "formal"@ && field_index(c, "name"@) is Some {
            mint(st)
        } else {
            st
        };
        lemma_mint_formals_mono(f, i + 1, next);
    }
}

proof fn lemma_rec_collect_mono(src: Source, n: SyntaxNode, i: int, st: Emitted)
    ensures
        rec_collect(src, n, i, st).1.next >= st.next,
        rec_collect(src, n, i, st).1.syms == st.syms,
        forall|k: int|
            0 <= k < rec_collect(src, n, i, st).0.len() ==> 0 <= (#[trigger] rec_collect(
                src,
                n,
                i,
                st,
            ).0[k]).0 < n.children@.len(),
    decreases n.children@.len() - i,
{
    if 0 <= i < n.children@.len() {
        let next = if rec_name(src, n.children@[i]) is Some && st.next < u32::MAX {
            mint(st)
        } else {
            st
        };
        lemma_rec_collect_mono(src, n, i + 1, next);
    }
}

proof fn lemma_rec_values_mono(
    src: Source,
    n: SyntaxNode,
    k: int,
    collected: (Seq<(int, Seq<char>, SymbolId)>, Emitted),
)
    ensures
        walk_rec_values(src, n, k, collected).next >= collected.1.next,
    decreases n, 1nat, collected.0.len() - k,
{
    let (items, st) = collected;
    if 0 <= k < items.len() {
        let (i, name, id) = items[k];
        if 0 <= i < n.children@.len() {
            let b = n.children@[i];
            let kind = value_kind(b);
            let with_symbol = Emitted {
                syms: st.syms.push(
                    SymbolFacts {
                        id,
                        name,
                        kind,
                        range: rec_range(b),
                        signature: Some(binding_signature(name, kind)),
                        doc: None,
                    },
                ),
                next: st.next,
            };
            lemma_rec_value_mono(src, b, with_symbol);
            lemma_rec_values_mono(src, n, k + 1, (items, walk_rec_value(src, b, with_symbol)));
        }
    }
}

proof fn lemma_rec_value_mono(src: Source, b: SyntaxNode, st: Emitted)
    ensures
        walk_rec_value(src, b, st).next >= st.next,
    decreases b, 2nat, 0int,
{
    match field_index(b, "expression"@) {
        Some(j) => if 0 <= j < b.children@.len() {
            lemma_walk_mono(src, b.children@[j], st);
        },
        None => {},
    }
}

} // verus!

verus! {

/// An id moved `d` places on.
pub open spec fn shift_id(id: SymbolId, d: nat) -> SymbolId {
    SymbolId((id.0 + d) as u32)
}

/// The facts with every id moved `d` places on.
pub open spec fn shift_facts(s: Seq<SymbolFacts>, d: nat) -> Seq<SymbolFacts> {
    Seq::new(s.len(), |i: int| SymbolFacts { id: shift_id(s[i].id, d), ..s[i] })
}

pub open spec fn shift_items(s: Seq<(int, Seq<char>, SymbolId)>, d: nat) -> Seq<(int, Seq<char>, SymbolId)> {
    Seq::new(s.len(), |i: int| (s[i].0, s[i].1, shift_id(s[i].2, d)))
}

/// Two walk states that differ only in ids, by `d`.
pub open spec fn shifted(a: Emitted, b: Emitted, d: nat) -> bool {
    b.next == a.next + d && b.syms == shift_facts(a.syms, d)
}

proof fn lemma_emit_shift(
    a: Emitted,
    b: Emitted,
    d: nat,
    name: Seq<char>,
    kind: SymbolKind,
    range: Range,
    sig: Seq<char>,
    doc: Option<Seq<char>>,
)
    requires
        shifted(a, b, d),
        b.next < u32::MAX,
    ensures
        shifted(emit(a, name, kind, range, sig, doc), emit(b, name, kind, range, sig, doc), d),
{
    let ea = emit(a, name, kind, range, sig, doc);
    let eb = emit(b, name, kind, range, sig, doc);
    assert(a.next < u32::MAX);
    assert((a.next as u32) as nat == a.next);
    assert(eb.syms =~= shift_facts(ea.syms, d));
}

proof fn lemma_mint_shift(a: Emitted, b: Emitted, d: nat)
    requires
        shifted(a, b, d),
        b.next < u32::MAX,
    ensures
        shifted(mint(a), mint(b), d),
{
}

proof fn lemma_walk_shift(src: Source, n: SyntaxNode, a: Emitted, b: Emitted, d: nat)
    requires
        shifted(a, b, d),
        walk(src, n, b).next < u32::MAX,
    ensures
        shifted(walk(src, n, a), walk(src, n, b), d),
    decreases n, 3nat, 0int,
{
    let k = n.kind@;
    if k == "let_expression"@ {
        lemma_let_rest_mono(src, n, 0, walk_let_bindings(src, n, 0, b));
        lemma_let_bindings_shift(src, n, 0, a, b, d);
        lemma_let_rest_shift(
            src,
            n,
            0,
            walk_let_bindings(src, n, 0, a),
            walk_let_bindings(src, n, 0, b),
            d,
        );
    } else if is_rec_kind(k) {
        match binding_set_index(n, 0) {
            Some(j) => if 0 <= j < n.children@.len() {
                lemma_walk_rec_shift(src, n.children@[j], a, b, d);
            },
            None => lemma_walk_rec_shift(src, n, a, b, d),
        }
    } else if is_function_kind(k) {
        lemma_lambda_body_mono(src, n, 0, mint_params(n, 0, b));
        lemma_mint_params_shift(n, 0, a, b, d);
        lemma_lambda_body_shift(src, n, 0, mint_params(n, 0, a), mint_params(n, 0, b), d);
    } else if k == "binding"@ {
        lemma_binding_shift(src, n, a, b, d);
    } else if k == "indented_string_expression"@ || k == "string_expression"@ {
        lemma_interpolations_shift(src, n, 0, a, b, d);
    } else if k == "path_expression"@ {
        match text_of(src, n) {
            Some(t) => {
                if b.next < u32::MAX {
                    assert(a.syms.len() == b.syms.len());
                    lemma_emit_shift(
                        a,
                        b,
                        d,
                        "path_"@ + decimal(a.syms.len()),
                        SymbolKind::Constant,
                        span_range(n),
                        "path = "@ + t,
                        None,
                    );
                }
            },
            None => {},
        }
    } else {
        lemma_children_shift(src, n, 0, a, b, d);
    }
}

proof fn lemma_walk_rec_shift(src: Source, m: SyntaxNode, a: Emitted, b: Emitted, d: nat)
    requires
        shifted(a, b, d),
        walk_rec(src, m, b).next < u32::MAX,
    ensures
        shifted(walk_rec(src, m, a), walk_rec(src, m, b), d),
    decreases m, 2nat, 0int,
{
    lemma_rec_values_mono(src, m, 0, rec_collect(src, m, 0, b));
    lemma_rec_collect_shift(src, m, 0, a, b, d);
    lemma_rec_values_shift(src, m, 0, rec_collect(src, m, 0, a), rec_collect(src, m, 0, b), d);
}

proof fn lemma_binding_shift(src: Source, n: SyntaxNode, a: Emitted, b: Emitted, d: nat)
    requires
        shifted(a, b, d),
        walk_binding(src, n, b).next < u32::MAX,
    ensures
        shifted(walk_binding(src, n, a), walk_binding(src, n, b), d),
    decreases n, 2nat, 0int,
{
    let named = |st: Emitted|
        match binding_ident(n) {
            Some(id_node) => match text_of(src, id_node) {
                Some(name) => emit(
                    st,
                    name,
                    value_kind(n),
                    span_range(id_node),
                    binding_signature(name, value_kind(n)),
                    doc_comment(src.lines, n.start_row as nat),
                ),
                None => st,
            },
            None => st,
        };
    let na = named(a);
    let nb = named(b);
    match field_index(n, "expression"@) {
        Some(j) => if 0 <= j < n.children@.len() {
            lemma_walk_mono(src, n.children@[j], nb);
        },
        None => {},
    }
    assert(nb.next <= walk_binding(src, n, b).next);
    match binding_ident(n) {
        Some(id_node) => match text_of(src, id_node) {
            Some(name) => {
                if b.next < u32::MAX {
                    lemma_emit_shift(
                        a,
                        b,
                        d,
                        name,
                        value_kind(n),
                        span_range(id_node),
                        binding_signature(name, value_kind(n)),
                        doc_comment(src.lines, n.start_row as nat),
                    );
                }
            },
            None => {},
        },
        None => {},
    }
    assert(shifted(na, nb, d));
    match field_index(n, "expression"@) {
        Some(j) => if 0 <= j < n.children@.len() {
            lemma_walk_shift(src, n.children@[j], na, nb, d);
        },
        None => {},
    }
}

proof fn lemma_children_shift(src: Source, n: SyntaxNode, i: int, a: Emitted, b: Emitted, d: nat)
    requires
        shifted(a, b, d),
        walk_children(src, n, i, b).next < u32::MAX,
    ensures
        shifted(walk_children(src, n, i, a), walk_children(src, n, i, b), d),
    decreases n, 1nat, n.children@.len() - i,
{
    if 0 <= i < n.children@.len() {
        let c = n.children@[i];
        lemma_children_mono(src, n, i + 1, walk(src, c, b));
        lemma_walk_shift(src, c, a, b, d);
        lemma_children_shift(src, n, i + 1, walk(src, c, a), walk(src, c, b), d);
    }
}

proof fn lemma_let_bindings_shift(src: Source, n: SyntaxNode, i: int, a: Emitted, b: Emitted, d: nat)
    requires
        shifted(a, b, d),
        walk_let_bindings(src, n, i, b).next < u32::MAX,
    ensures
        shifted(walk_let_bindings(src, n, i, a), walk_let_bindings(src, n, i, b), d),
    decreases n, 1nat, n.children@.len() - i,
{
    if 0 <= i < n.children@.len() {
        let c = n.children@[i];
        if c.kind@ == "binding"@ {
            lemma_let_bindings_mono(src, n, i + 1, walk_binding(src, c, b));
            lemma_binding_shift(src, c, a, b, d);
            lemma_let_bindings_shift(
                src,
                n,
                i + 1,
                walk_binding(src, c, a),
                walk_binding(src, c, b),
                d,
            );
        } else {
            lemma_let_bindings_shift(src, n, i + 1, a, b, d);
        }
    }
}

proof fn lemma_let_rest_shift(src: Source, n: SyntaxNode, i: int, a: Emitted, b: Emitted, d: nat)
    requires
        shifted(a, b, d),
        walk_let_rest(src, n, i, b).next < u32::MAX,
    ensures
        shifted(walk_let_rest(src, n, i, a), walk_let_rest(src, n, i, b), d),
    decreases n, 1nat, n.children@.len() - i,
{
    if 0 <= i < n.children@.len() {
        let c = n.children@[i];
        if c.kind@ != "binding"@ && c.kind@ != "let"@ {
            lemma_let_rest_mono(src, n, i + 1, walk(src, c, b));
            lemma_walk_shift(src, c, a, b, d);
            lemma_let_rest_shift(src, n, i + 1, walk(src, c, a), walk(src, c, b), d);
        } else {
            lemma_let_rest_shift(src, n, i + 1, a, b, d);
        }
    }
}

proof fn lemma_interpolations_shift(
    src: Source,
    n: SyntaxNode,
    i: int,
    a: Emitted,
    b: Emitted,
    d: nat,
)
    requires
        shifted(a, b, d),
        walk_interpolations(src, n, i, b).next < u32::MAX,
    ensures
        shifted(walk_interpolations(src, n, i, a), walk_interpolations(src, n, i, b), d),
    decreases n, 1nat, n.children@.len() - i,
{
    if 0 <= i < n.children@.len() {
        let c = n.children@[i];
        if c.kind@ == "interpolation"@ {
            lemma_interpolations_mono(src, n, i + 1, walk(src, c, b));
            lemma_walk_shift(src, c, a, b, d);
            lemma_interpolations_shift(src, n, i + 1, walk(src, c, a), walk(src, c, b), d);
        } else {
            lemma_interpolations_shift(src, n, i + 1, a, b, d);
        }
    }
}

proof fn lemma_lambda_body_shift(src: Source, n: SyntaxNode, i: int, a: Emitted, b: Emitted, d: nat)
    requires
        shifted(a, b, d),
        walk_lambda_body(src, n, i, b).next < u32::MAX,
    ensures
        shifted(walk_lambda_body(src, n, i, a), walk_lambda_body(src, n, i, b), d),
    decreases n, 1nat, n.children@.len() - i,
{
    if 0 <= i < n.children@.len() {
        let c = n.children@[i];
        if c.kind@ != "identifier"@ && c.kind@ != "formals"@ {
            lemma_lambda_body_mono(src, n, i + 1, walk(src, c, b));
            lemma_walk_shift(src, c, a, b, d);
            lemma_lambda_body_shift(src, n, i + 1, walk(src, c, a), walk(src, c, b), d);
        } else {
            lemma_lambda_body_shift(src, n, i + 1, a, b, d);
        }
    }
}

proof fn lemma_mint_params_shift(n: SyntaxNode, i: int, a: Emitted, b: Emitted, d: nat)
    requires
        shifted(a, b, d),
        mint_params(n, i, b).next < u32::MAX,
    ensures
        shifted(mint_params(n, i, a), mint_params(n, i, b), d),
    decreases n.children@.len() - i,
{
    if 0 <= i < n.children@.len() {
        let c = n.children@[i];
        if c.kind@ == "identifier"@ {
            lemma_mint_params_mono(n, i + 1, mint(b));
            lemma_mint_shift(a, b, d);
            lemma_mint_params_shift(n, i + 1, mint(a), mint(b), d);
        } else if c.kind@ == "formals"@ {
            lemma_mint_params_mono(n, i + 1, mint_formals(c, 0, b));
            lemma_mint_formals_shift(c, 0, a, b, d);
            lemma_mint_params_shift(n, i + 1, mint_formals(c, 0, a), mint_formals(c, 0, b), d);
        } else {
            lemma_mint_params_shift(n, i + 1, a, b, d);
        }
    }
}

proof fn lemma_mint_formals_shift(f: SyntaxNode, i: int, a: Emitted, b: Emitted, d: nat)
    requires
        shifted(a, b, d),
        mint_formals(f, i, b).next < u32::MAX,
    ensures
        shifted(mint_formals(f, i, a), mint_formals(f, i, b), d),
    decreases f.children@.len() - i,
{
    if 0 <= i < f.children@.len() {
        let c = f.children@[i];
        if c.kind@ == "formal"@ && field_index(c, "name"@) is Some {
            lemma_mint_formals_mono(f, i + 1, mint(b));
            lemma_mint_shift(a, b, d);
            lemma_mint_formals_shift(f, i + 1, mint(a), mint(b), d);
        } else {
            lemma_mint_formals_shift(f, i + 1, a, b, d);
        }
    }
}

proof fn lemma_rec_collect_shift(src: Source, n: SyntaxNode, i: int, a: Emitted, b: Emitted, d: nat)
    requires
        shifted(a, b, d),
        rec_collect(src, n, i, b).1.next < u32::MAX,
    ensures
        rec_collect(src, n, i, b).0 == shift_items(rec_collect(src, n, i, a).0, d),
        shifted(rec_collect(src, n, i, a).1, rec_collect(src, n, i, b).1, d),
    decreases n.children@.len() - i,
{
    if 0 <= i < n.children@.len() {
        let named = rec_name(src, n.children@[i]) is Some;
        if named && b.next < u32::MAX {
            lemma_rec_collect_mono(src, n, i + 1, mint(b));
            lemma_mint_shift(a, b, d);
            lemma_rec_collect_shift(src, n, i + 1, mint(a), mint(b), d);
            let ra = rec_collect(src, n, i + 1, mint(a)).0;
            let rb = rec_collect(src, n, i + 1, mint(b)).0;
            let name = rec_name(src, n.children@[i])->0;
            assert((a.next as u32) as nat == a.next);
            assert(seq![(i, name, SymbolId(b.next as u32))] + rb =~= shift_items(
                seq![(i, name, SymbolId(a.next as u32))] + ra,
                d,
            ));
        } else {
            lemma_rec_collect_mono(src, n, i + 1, b);
            lemma_rec_collect_shift(src, n, i + 1, a, b, d);
        }
    } else {
        assert(shift_items(Seq::<(int, Seq<char>, SymbolId)>::empty(), d) =~= Seq::<
            (int, Seq<char>, SymbolId),
        >::empty());
    }
}

proof fn lemma_rec_values_shift(
    src: Source,
    n: SyntaxNode,
    k: int,
    ca: (Seq<(int, Seq<char>, SymbolId)>, Emitted),
    cb: (Seq<(int, Seq<char>, SymbolId)>, Emitted),
    d: nat,
)
    requires
        cb.0 == shift_items(ca.0, d),
        shifted(ca.1, cb.1, d),
        walk_rec_values(src, n, k, cb).next < u32::MAX,
    ensures
        shifted(walk_rec_values(src, n, k, ca), walk_rec_values(src, n, k, cb), d),
    decreases n, 1nat, ca.0.len() - k,
{
    let (items, a) = ca;
    let (items_b, b) = cb;
    if 0 <= k < items.len() {
        let (i, name, id) = items[k];
        if 0 <= i < n.children@.len() {
            let c = n.children@[i];
            let kind = value_kind(c);
            let fact = |x: SymbolId|
                SymbolFacts {
                    id: x,
                    name,
                    kind,
                    range: rec_range(c),
                    signature: Some(binding_signature(name, kind)),
                    doc: None,
                };
            let wa = Emitted { syms: a.syms.push(fact(id)), next: a.next };
            let wb = Emitted { syms: b.syms.push(fact(shift_id(id, d))), next: b.next };
            assert(items_b[k] == (i, name, shift_id(id, d)));
            assert(wb.syms =~= shift_facts(wa.syms, d));
            lemma_rec_values_mono(src, n, k + 1, (items_b, walk_rec_value(src, c, wb)));
            lemma_rec_value_shift(src, c, wa, wb, d);
            lemma_rec_values_shift(
                src,
                n,
                k + 1,
                (items, walk_rec_value(src, c, wa)),
                (items_b, walk_rec_value(src, c, wb)),
                d,
            );
        }
    }
}

proof fn lemma_rec_value_shift(src: Source, c: SyntaxNode, a: Emitted, b: Emitted, d: nat)
    requires
        shifted(a, b, d),
        walk_rec_value(src, c, b).next < u32::MAX,
    ensures
        shifted(walk_rec_value(src, c, a), walk_rec_value(src, c, b), d),
    decreases c, 2nat, 0int,
{
    match field_index(c, "expression"@) {
        Some(j) => if 0 <= j < c.children@.len() {
            lemma_walk_shift(src, c.children@[j], a, b, d);
        },
        None => {},
    }
}

/// Parsing a tree again gives the same symbols: from a counter that starts
/// `d` later, every id is `d` larger and nothing else changes, as long as
/// the counter does not run out.
pub proof fn lemma_parse_deterministic(src: Source, tree: SyntaxNode, start: nat, later: nat)
    requires
        start <= later,
        symbols_of_tree(src, tree, later).next < u32::MAX,
    ensures
        symbols_of_tree(src, tree, later).syms == shift_facts(
            symbols_of_tree(src, tree, start).syms,
            (later - start) as nat,
        ),
        symbols_of_tree(src, tree, later).next == symbols_of_tree(src, tree, start).next + (later
            - start),
{
    let d = (later - start) as nat;
    let a = Emitted { syms: Seq::empty(), next: start };
    let b = Emitted { syms: Seq::empty(), next: later };
    assert(b.syms =~= shift_facts(a.syms, d));
    lemma_walk_shift(src, tree, a, b, d);
}

} // verus!

verus! {

/// Whether `m` is `root` or lies below it.
pub open spec fn in_subtree(root: SyntaxNode, m: SyntaxNode) -> bool
    decreases root, 1nat, 0int,
{
    root == m || in_children(root, m, 0)
}

/// Whether `m` lies in the subtree of a child of `root`, from the `i`-th on.
pub open spec fn in_children(root: SyntaxNode, m: SyntaxNode, i: int) -> bool
    decreases root, 0nat, root.children@.len() - i,
{
    if 0 <= i < root.children@.len() {
        in_subtree(root.children@[i], m) || in_children(root, m, i + 1)
    } else {
        false
    }
}

/// A symbol is named by the tree below `root`: its name is the source text
/// of a node there whose span is the symbol's range. Path literals, which
/// emit constants named by position, are left aside.
pub open spec fn named_in(src: Source, root: SyntaxNode, f: SymbolFacts) -> bool {
    ||| f.kind == SymbolKind::Constant
    ||| exists|m: SyntaxNode|
        #[trigger] in_subtree(root, m) && text_of(src, m) == Some(f.name) && span_range(m)
            == f.range
}

/// `after` is `before` followed by symbols named by the tree below `root`.
pub open spec fn extends_named(
    src: Source,
    root: SyntaxNode,
    before: Seq<SymbolFacts>,
    after: Seq<SymbolFacts>,
) -> bool {
    &&& before.len() <= after.len()
    &&& after.subrange(0, before.len() as int) == before
    &&& forall|k: int| before.len() <= k < after.len() ==> named_in(src, root, #[trigger] after[k])
}

proof fn lemma_in_children_intro(n: SyntaxNode, m: SyntaxNode, i: int, j: int)
    requires
        0 <= i <= j < n.children@.len(),
        in_subtree(n.children@[j], m),
    ensures
        in_children(n, m, i),
    decreases j - i,
{
    if i < j {
        lemma_in_children_intro(n, m, i + 1, j);
    }
}

proof fn lemma_child_in_subtree(n: SyntaxNode, j: int)
    requires
        0 <= j < n.children@.len(),
    ensures
        in_subtree(n, n.children@[j]),
{
    lemma_in_children_intro(n, n.children@[j], 0, j);
}

proof fn lemma_subtree_trans(n: SyntaxNode, c: SyntaxNode, m: SyntaxNode)
    requires
        in_subtree(n, c),
        in_subtree(c, m),
    ensures
        in_subtree(n, m),
    decreases n, 1nat, 0int,
{
    if n != c {
        lemma_children_trans(n, c, m, 0);
    }
}

proof fn lemma_children_trans(n: SyntaxNode, c: SyntaxNode, m: SyntaxNode, i: int)
    requires
        in_children(n, c, i),
        in_subtree(c, m),
    ensures
        in_children(n, m, i),
    decreases n, 0nat, n.children@.len() - i,
{
    if 0 <= i < n.children@.len() {
        if in_subtree(n.children@[i], c) {
            lemma_subtree_trans(n.children@[i], c, m);
        } else {
            lemma_children_trans(n, c, m, i + 1);
        }
    }
}

proof fn lemma_named_lift(src: Source, n: SyntaxNode, c: SyntaxNode, f: SymbolFacts)
    requires
        in_subtree(n, c),
        named_in(src, c, f),
    ensures
        named_in(src, n, f),
{
    if f.kind != SymbolKind::Constant {
        if exists|m: SyntaxNode|
            #[trigger] in_subtree(c, m) && text_of(src, m) == Some(f.name) && span_range(m)
                == f.range {
            let m = choose|m: SyntaxNode|
                #[trigger] in_subtree(c, m) && text_of(src, m) == Some(f.name) && span_range(m)
                    == f.range;
            lemma_subtree_trans(n, c, m);
        }
    }
}

/// Extending by symbols named below a child extends by symbols named below
/// the parent; and two extensions make one.
proof fn lemma_extends_lift(
    src: Source,
    n: SyntaxNode,
    c: SyntaxNode,
    before: Seq<SymbolFacts>,
    after: Seq<SymbolFacts>,
)
    requires
        in_subtree(n, c),
        extends_named(src, c, before, after),
    ensures
        extends_named(src, n, before, after),
{
    assert forall|k: int| before.len() <= k < after.len() implies named_in(
        src,
        n,
        #[trigger] after[k],
    ) by {
        lemma_named_lift(src, n, c, after[k]);
    }
}

proof fn lemma_extends_trans(
    src: Source,
    n: SyntaxNode,
    s1: Seq<SymbolFacts>,
    s2: Seq<SymbolFacts>,
    s3: Seq<SymbolFacts>,
)
    requires
        extends_named(src, n, s1, s2),
        extends_named(src, n, s2, s3),
    ensures
        extends_named(src, n, s1, s3),
{
    assert(s3.subrange(0, s1.len() as int) =~= s3.subrange(0, s2.len() as int).subrange(
        0,
        s1.len() as int,
    ));
    assert forall|k: int| s1.len() <= k < s3.len() implies named_in(src, n, #[trigger] s3[k]) by {
        if k < s2.len() {
            assert(s3[k] == s3.subrange(0, s2.len() as int)[k]);
        }
    }
}

proof fn lemma_extends_refl(src: Source, n: SyntaxNode, s: Seq<SymbolFacts>)
    ensures
        extends_named(src, n, s, s),
{
    assert(s.subrange(0, s.len() as int) =~= s);
}

proof fn lemma_walk_named(src: Source, n: SyntaxNode, st: Emitted)
    ensures
        extends_named(src, n, st.syms, walk(src, n, st).syms),
    decreases n, 3nat, 0int,
{
    let k = n.kind@;
    if k == "let_expression"@ {
        lemma_let_bindings_named(src, n, 0, st);
        lemma_let_rest_named(src, n, 0, walk_let_bindings(src, n, 0, st));
        lemma_extends_trans(
            src,
            n,
            st.syms,
            walk_let_bindings(src, n, 0, st).syms,
            walk(src, n, st).syms,
        );
    } else if is_rec_kind(k) {
        match binding_set_index(n, 0) {
            Some(j) => if 0 <= j < n.children@.len() {
                let c = n.children@[j];
                lemma_walk_rec_named(src, c, st);
                lemma_child_in_subtree(n, j);
                lemma_extends_lift(src, n, c, st.syms, walk_rec(src, c, st).syms);
            } else {
                lemma_extends_refl(src, n, st.syms);
            },
            None => lemma_walk_rec_named(src, n, st),
        }
    } else if is_function_kind(k) {
        lemma_mint_params_mono(n, 0, st);
        lemma_lambda_body_named(src, n, 0, mint_params(n, 0, st));
    } else if k == "binding"@ {
        lemma_binding_named(src, n, st);
    } else if k == "indented_string_expression"@ || k == "string_expression"@ {
        lemma_interpolations_named(src, n, 0, st);
    } else if k == "path_expression"@ {
        let r = walk(src, n, st);
        lemma_extends_refl(src, n, st.syms);
        assert(r.syms.subrange(0, st.syms.len() as int) =~= st.syms);
    } else {
        lemma_children_named(src, n, 0, st);
    }
}

proof fn lemma_walk_rec_named(src: Source, m: SyntaxNode, st: Emitted)
    ensures
        extends_named(src, m, st.syms, walk_rec(src, m, st).syms),
    decreases m, 2nat, 0int,
{
    lemma_rec_collect_mono(src, m, 0, st);
    lemma_rec_collect_names(src, m, 0, st);
    lemma_rec_values_named(src, m, 0, rec_collect(src, m, 0, st));
}

proof fn lemma_binding_named(src: Source, n: SyntaxNode, st: Emitted)
    ensures
        extends_named(src, n, st.syms, walk_binding(src, n, st).syms),
    decreases n, 2nat, 0int,
{
    let named = match binding_ident(n) {
        Some(id_node) => match text_of(src, id_node) {
            Some(name) => emit(
                st,
                name,
                value_kind(n),
                span_range(id_node),
                binding_signature(name, value_kind(n)),
                doc_comment(src.lines, n.start_row as nat),
            ),
            None => st,
        },
        None => st,
    };
    lemma_extends_refl(src, n, st.syms);
    match binding_ident(n) {
        Some(id_node) => {
            match field_index(n, "attrpath"@) {
                Some(j) => {
                    lemma_child_in_subtree(n, j);
                    lemma_child_in_subtree(n.children@[j], 0);
                    lemma_subtree_trans(n, n.children@[j], id_node);
                },
                None => {
                    let j = field_index(n, "name"@)->0;
                    lemma_child_in_subtree(n, j);
                },
            }
            assert(in_subtree(n, id_node));
            if text_of(src, id_node) is Some && st.next < u32::MAX {
                let f = named.syms.last();
                assert(in_subtree(n, id_node) && text_of(src, id_node) == Some(f.name) && span_range(
                    id_node,
                ) == f.range);
                assert(named_in(src, n, f));
                assert(named.syms.subrange(0, st.syms.len() as int) =~= st.syms);
            }
        },
        None => {},
    }
    assert(extends_named(src, n, st.syms, named.syms));
    match field_index(n, "expression"@) {
        Some(j) => if 0 <= j < n.children@.len() {
            let c = n.children@[j];
            lemma_walk_named(src, c, named);
            lemma_child_in_subtree(n, j);
            lemma_extends_lift(src, n, c, named.syms, walk(src, c, named).syms);
            lemma_extends_trans(src, n, st.syms, named.syms, walk(src, c, named).syms);
        },
        None => {},
    }
}

proof fn lemma_children_named(src: Source, n: SyntaxNode, i: int, st: Emitted)
    ensures
        extends_named(src, n, st.syms, walk_children(src, n, i, st).syms),
    decreases n, 1nat, n.children@.len() - i,
{
    if 0 <= i < n.children@.len() {
        let c = n.children@[i];
        let mid = walk(src, c, st);
        lemma_walk_named(src, c, st);
        lemma_child_in_subtree(n, i);
        lemma_extends_lift(src, n, c, st.syms, mid.syms);
        lemma_children_named(src, n, i + 1, mid);
        lemma_extends_trans(src, n, st.syms, mid.syms, walk_children(src, n, i + 1, mid).syms);
    } else {
        lemma_extends_refl(src, n, st.syms);
    }
}

proof fn lemma_let_bindings_named(src: Source, n: SyntaxNode, i: int, st: Emitted)
    ensures
        extends_named(src, n, st.syms, walk_let_bindings(src, n, i, st).syms),
    decreases n, 1nat, n.children@.len() - i,
{
    if 0 <= i < n.children@.len() {
        let c = n.children@[i];
        if c.kind@ == "binding"@ {
            let mid = walk_binding(src, c, st);
            lemma_binding_named(src, c, st);
            lemma_child_in_subtree(n, i);
            lemma_extends_lift(src, n, c, st.syms, mid.syms);
            lemma_let_bindings_named(src, n, i + 1, mid);
            lemma_extends_trans(src, n, st.syms, mid.syms, walk_let_bindings(src, n, i + 1, mid).syms);
        } else {
            lemma_let_bindings_named(src, n, i + 1, st);
        }
    } else {
        lemma_extends_refl(src, n, st.syms);
    }
}

proof fn lemma_let_rest_named(src: Source, n: SyntaxNode, i: int, st: Emitted)
    ensures
        extends_named(src, n, st.syms, walk_let_rest(src, n, i, st).syms),
    decreases n, 1nat, n.children@.len() - i,
{
    if 0 <= i < n.children@.len() {
        let c = n.children@[i];
        if c.kind@ != "binding"@ && c.kind@ != "let"@ {
            let mid = walk(src, c, st);
            lemma_walk_named(src, c, st);
            lemma_child_in_subtree(n, i);
            lemma_extends_lift(src, n, c, st.syms, mid.syms);
            lemma_let_rest_named(src, n, i + 1, mid);
            lemma_extends_trans(src, n, st.syms, mid.syms, walk_let_rest(src, n, i + 1, mid).syms);
        } else {
            lemma_let_rest_named(src, n, i + 1, st);
        }
    } else {
        lemma_extends_refl(src, n, st.syms);
    }
}

proof fn lemma_interpolations_named(src: Source, n: SyntaxNode, i: int, st: Emitted)
    ensures
        extends_named(src, n, st.syms, walk_interpolations(src, n, i, st).syms),
    decreases n, 1nat, n.children@.len() - i,
{
    if 0 <= i < n.children@.len() {
        let c = n.children@[i];
        if c.kind@ == "interpolation"@ {
            let mid = walk(src, c, st);
            lemma_walk_named(src, c, st);
            lemma_child_in_subtree(n, i);
            lemma_extends_lift(src, n, c, st.syms, mid.syms);
            lemma_interpolations_named(src, n, i + 1, mid);
            lemma_extends_trans(
                src,
                n,
                st.syms,
                mid.syms,
                walk_interpolations(src, n, i + 1, mid).syms,
            );
        } else {
            lemma_interpolations_named(src, n, i + 1, st);
        }
    } else {
        lemma_extends_refl(src, n, st.syms);
    }
}

proof fn lemma_lambda_body_named(src: Source, n: SyntaxNode, i: int, st: Emitted)
    ensures
        extends_named(src, n, st.syms, walk_lambda_body(src, n, i, st).syms),
    decreases n, 1nat, n.children@.len() - i,
{
    if 0 <= i < n.children@.len() {
        let c = n.children@[i];
        if c.kind@ != "identifier"@ && c.kind@ != "formals"@ {
            let mid = walk(src, c, st);
            lemma_walk_named(src, c, st);
            lemma_child_in_subtree(n, i);
            lemma_extends_lift(src, n, c, st.syms, mid.syms);
            lemma_lambda_body_named(src, n, i + 1, mid);
            lemma_extends_trans(src, n, st.syms, mid.syms, walk_lambda_body(src, n, i + 1, mid).syms);
        } else {
            lemma_lambda_body_named(src, n, i + 1, st);
        }
    } else {
        lemma_extends_refl(src, n, st.syms);
    }
}

proof fn lemma_rec_collect_names(src: Source, n: SyntaxNode, i: int, st: Emitted)
    ensures
        forall|k: int|
            0 <= k < rec_collect(src, n, i, st).0.len() ==> rec_name(
                src,
                n.children@[(#[trigger] rec_collect(src, n, i, st).0[k]).0],
            ) == Some(rec_collect(src, n, i, st).0[k].1),
    decreases n.children@.len() - i,
{
    if 0 <= i < n.children@.len() {
        let next = if rec_name(src, n.children@[i]) is Some && st.next < u32::MAX {
            mint(st)
        } else {
            st
        };
        lemma_rec_collect_names(src, n, i + 1, next);
        lemma_rec_collect_mono(src, n, i + 1, next);
        let items = rec_collect(src, n, i, st).0;
        let rest = rec_collect(src, n, i + 1, next).0;
        if rec_name(src, n.children@[i]) is Some && st.next < u32::MAX {
            assert forall|k: int| 0 <= k < items.len() implies rec_name(
                src,
                n.children@[(#[trigger] items[k]).0],
            ) == Some(items[k].1) by {
                if k > 0 {
                    assert(items[k] == rest[k - 1]);
                }
            }
        }
    }
}

proof fn lemma_rec_values_named(
    src: Source,
    n: SyntaxNode,
    k: int,
    collected: (Seq<(int, Seq<char>, SymbolId)>, Emitted),
)
    requires
        forall|m: int|
            0 <= m < collected.0.len() ==> 0 <= (#[trigger] collected.0[m]).0 < n.children@.len()
                && rec_name(src, n.children@[collected.0[m].0]) == Some(collected.0[m].1),
    ensures
        extends_named(src, n, collected.1.syms, walk_rec_values(src, n, k, collected).syms),
    decreases n, 1nat, collected.0.len() - k,
{
    let (items, st) = collected;
    if 0 <= k < items.len() {
        let (i, name, id) = items[k];
        let b = n.children@[i];
        let kind = value_kind(b);
        let with_symbol = Emitted {
            syms: st.syms.push(
                SymbolFacts {
                    id,
                    name,
                    kind,
                    range: rec_range(b),
                    signature: Some(binding_signature(name, kind)),
                    doc: None,
                },
            ),
            next: st.next,
        };
        lemma_child_in_subtree(n, i);
        let x = rec_ident(b)->0;
        let j = field_index(b, "attrpath"@)->0;
        lemma_child_in_subtree(b, j);
        lemma_child_in_subtree(b.children@[j], 0);
        lemma_subtree_trans(b, b.children@[j], x);
        lemma_subtree_trans(n, b, x);
        assert(in_subtree(n, x) && text_of(src, x) == Some(name) && span_range(x) == rec_range(b));
        assert(named_in(src, n, with_symbol.syms.last()));
        assert(with_symbol.syms.subrange(0, st.syms.len() as int) =~= st.syms);
        assert(extends_named(src, n, st.syms, with_symbol.syms));
        let after = walk_rec_value(src, b, with_symbol);
        lemma_rec_value_named(src, b, with_symbol);
        lemma_extends_lift(src, n, b, with_symbol.syms, after.syms);
        lemma_extends_trans(src, n, st.syms, with_symbol.syms, after.syms);
        lemma_rec_values_named(src, n, k + 1, (items, after));
        lemma_extends_trans(
            src,
            n,
            st.syms,
            after.syms,
            walk_rec_values(src, n, k + 1, (items, after)).syms,
        );
    } else {
        lemma_extends_refl(src, n, st.syms);
    }
}

proof fn lemma_rec_value_named(src: Source, b: SyntaxNode, st: Emitted)
    ensures
        extends_named(src, b, st.syms, walk_rec_value(src, b, st).syms),
    decreases b, 2nat, 0int,
{
    match field_index(b, "expression"@) {
        Some(j) => if 0 <= j < b.children@.len() {
            let c = b.children@[j];
            lemma_walk_named(src, c, st);
            lemma_child_in_subtree(b, j);
            lemma_extends_lift(src, b, c, st.syms, walk(src, c, st).syms);
        } else {
            lemma_extends_refl(src, b, st.syms);
        },
        None => lemma_extends_refl(src, b, st.syms),
    }
}

/// Every symbol of a tree other than a path constant is named by the
/// source: its name is the text of a node of the tree whose span is the
/// symbol's range.
pub proof fn lemma_symbols_named_by_source(src: Source, tree: SyntaxNode, start: nat, k: int)
    requires
        0 <= k < symbols_of_tree(src, tree, start).syms.len(),
    ensures
        named_in(src, tree, symbols_of_tree(src, tree, start).syms[k]),
{
    lemma_walk_named(src, tree, Emitted { syms: Seq::empty(), next: start });
}

} // verus!

verus! {

/// `after` is `before` followed by symbols whose ids are distinct and lie
/// in `[lo, hi)`.
pub open spec fn fresh_ids(before: Seq<SymbolFacts>, after: Seq<SymbolFacts>, lo: nat, hi: nat) -> bool {
    &&& before.len() <= after.len()
    &&& after.subrange(0, before.len() as int) == before
    &&& forall|k: int| before.len() <= k < after.len() ==> lo <= (#[trigger] after[k]).id.0 < hi
    &&& forall|i: int, j: int|
        before.len() <= i < j < after.len() ==> (#[trigger] after[i]).id != (#[trigger] after[j]).id
}

proof fn lemma_fresh_refl(s: Seq<SymbolFacts>, lo: nat, hi: nat)
    ensures
        fresh_ids(s, s, lo, hi),
{
    assert(s.subrange(0, s.len() as int) =~= s);
}

proof fn lemma_fresh_trans(
    s1: Seq<SymbolFacts>,
    s2: Seq<SymbolFacts>,
    s3: Seq<SymbolFacts>,
    a: nat,
    b: nat,
    c: nat,
)
    requires
        fresh_ids(s1, s2, a, b),
        fresh_ids(s2, s3, b, c),
        a <= b <= c,
    ensures
        fresh_ids(s1, s3, a, c),
{
    assert(s3.subrange(0, s1.len() as int) =~= s3.subrange(0, s2.len() as int).subrange(
        0,
        s1.len() as int,
    ));
    assert forall|k: int| s1.len() <= k < s2.len() implies s3[k] == s2[k] by {
        assert(s3.subrange(0, s2.len() as int)[k] == s3[k]);
    }
    assert forall|i: int, j: int| s1.len() <= i < j < s3.len() implies (#[trigger] s3[i]).id
        != (#[trigger] s3[j]).id by {
        if j < s2.len() {
            assert(s3[i] == s2[i] && s3[j] == s2[j]);
        } else if i < s2.len() {
            assert(s3[i] == s2[i]);
            assert(s2[i].id.0 < b <= s3[j].id.0);
        }
    }
    assert forall|k: int| s1.len() <= k < s3.len() implies a <= (#[trigger] s3[k]).id.0 < c by {
        if k < s2.len() {
            assert(s3[k] == s2[k]);
        }
    }
}

proof fn lemma_walk_fresh(src: Source, n: SyntaxNode, st: Emitted)
    ensures
        fresh_ids(st.syms, walk(src, n, st).syms, st.next, walk(src, n, st).next),
    decreases n, 3nat, 0int,
{
    lemma_walk_mono(src, n, st);
    let k = n.kind@;
    if k == "let_expression"@ {
        let mid = walk_let_bindings(src, n, 0, st);
        lemma_let_bindings_mono(src, n, 0, st);
        lemma_let_bindings_fresh(src, n, 0, st);
        lemma_let_rest_mono(src, n, 0, mid);
        lemma_let_rest_fresh(src, n, 0, mid);
        lemma_fresh_trans(st.syms, mid.syms, walk(src, n, st).syms, st.next, mid.next, walk(src, n, st).next);
    } else if is_rec_kind(k) {
        match binding_set_index(n, 0) {
            Some(j) => if 0 <= j < n.children@.len() {
                lemma_walk_rec_fresh(src, n.children@[j], st);
            } else {
                lemma_fresh_refl(st.syms, st.next, st.next);
            },
            None => lemma_walk_rec_fresh(src, n, st),
        }
    } else if is_function_kind(k) {
        let mid = mint_params(n, 0, st);
        lemma_mint_params_mono(n, 0, st);
        lemma_lambda_body_mono(src, n, 0, mid);
        lemma_lambda_body_fresh(src, n, 0, mid);
        lemma_fresh_refl(st.syms, st.next, mid.next);
        lemma_fresh_trans(st.syms, mid.syms, walk(src, n, st).syms, st.next, mid.next, walk(src, n, st).next);
    } else if k == "binding"@ {
        lemma_binding_fresh(src, n, st);
    } else if k == "indented_string_expression"@ || k == "string_expression"@ {
        lemma_interpolations_fresh(src, n, 0, st);
    } else if k == "path_expression"@ {
        match text_of(src, n) {
            Some(t) => lemma_emit_fresh(
                st,
                "path_"@ + decimal(st.syms.len()),
                SymbolKind::Constant,
                span_range(n),
                "path = "@ + t,
                None,
            ),
            None => lemma_fresh_refl(st.syms, st.next, st.next),
        }
    } else {
        lemma_children_fresh(src, n, 0, st);
    }
}

proof fn lemma_emit_fresh(
    st: Emitted,
    name: Seq<char>,
    kind: SymbolKind,
    range: Range,
    sig: Seq<char>,
    doc: Option<Seq<char>>,
)
    ensures
        fresh_ids(
            st.syms,
            emit(st, name, kind, range, sig, doc).syms,
            st.next,
            emit(st, name, kind, range, sig, doc).next,
        ),
{
    let e = emit(st, name, kind, range, sig, doc);
    if st.next < u32::MAX {
        assert(e.syms.subrange(0, st.syms.len() as int) =~= st.syms);
        assert((st.next as u32) as nat == st.next);
    } else {
        lemma_fresh_refl(st.syms, st.next, st.next);
    }
}

proof fn lemma_binding_fresh(src: Source, n: SyntaxNode, st: Emitted)
    ensures
        fresh_ids(st.syms, walk_binding(src, n, st).syms, st.next, walk_binding(src, n, st).next),
    decreases n, 2nat, 0int,
{
    let named = match binding_ident(n) {
        Some(id_node) => match text_of(src, id_node) {
            Some(name) => emit(
                st,
                name,
                value_kind(n),
                span_range(id_node),
                binding_signature(name, value_kind(n)),
                doc_comment(src.lines, n.start_row as nat),
            ),
            None => st,
        },
        None => st,
    };
    match binding_ident(n) {
        Some(id_node) => match text_of(src, id_node) {
            Some(name) => lemma_emit_fresh(
                st,
                name,
                value_kind(n),
                span_range(id_node),
                binding_signature(name, value_kind(n)),
                doc_comment(src.lines, n.start_row as nat),
            ),
            None => lemma_fresh_refl(st.syms, st.next, st.next),
        },
        None => lemma_fresh_refl(st.syms, st.next, st.next),
    }
    assert(named.next >= st.next);
    match field_index(n, "expression"@) {
        Some(j) => if 0 <= j < n.children@.len() {
            let c = n.children@[j];
            lemma_walk_mono(src, c, named);
            lemma_walk_fresh(src, c, named);
            lemma_fresh_trans(st.syms, named.syms, walk(src, c, named).syms, st.next, named.next, walk(src, c, named).next);
        },
        None => {},
    }
}

proof fn lemma_children_fresh(src: Source, n: SyntaxNode, i: int, st: Emitted)
    ensures
        fresh_ids(st.syms, walk_children(src, n, i, st).syms, st.next, walk_children(src, n, i, st).next),
    decreases n, 1nat, n.children@.len() - i,
{
    if 0 <= i < n.children@.len() {
        let c = n.children@[i];
        let mid = walk(src, c, st);
        lemma_walk_mono(src, c, st);
        lemma_walk_fresh(src, c, st);
        lemma_children_mono(src, n, i + 1, mid);
        lemma_children_fresh(src, n, i + 1, mid);
        lemma_fresh_trans(st.syms, mid.syms, walk_children(src, n, i + 1, mid).syms, st.next, mid.next, walk_children(src, n, i + 1, mid).next);
    } else {
        lemma_fresh_refl(st.syms, st.next, st.next);
    }
}

proof fn lemma_let_bindings_fresh(src: Source, n: SyntaxNode, i: int, st: Emitted)
    ensures
        fresh_ids(st.syms, walk_let_bindings(src, n, i, st).syms, st.next, walk_let_bindings(src, n, i, st).next),
    decreases n, 1nat, n.children@.len() - i,
{
    if 0 <= i < n.children@.len() {
        let c = n.children@[i];
        if c.kind@ == "binding"@ {
            let mid = walk_binding(src, c, st);
            lemma_binding_mono(src, c, st);
            lemma_binding_fresh(src, c, st);
            lemma_let_bindings_mono(src, n, i + 1, mid);
            lemma_let_bindings_fresh(src, n, i + 1, mid);
            lemma_fresh_trans(st.syms, mid.syms, walk_let_bindings(src, n, i + 1, mid).syms, st.next, mid.next, walk_let_bindings(src, n, i + 1, mid).next);
        } else {
            lemma_let_bindings_fresh(src, n, i + 1, st);
        }
    } else {
        lemma_fresh_refl(st.syms, st.next, st.next);
    }
}

proof fn lemma_let_rest_fresh(src: Source, n: SyntaxNode, i: int, st: Emitted)
    ensures
        fresh_ids(st.syms, walk_let_rest(src, n, i, st).syms, st.next, walk_let_rest(src, n, i, st).next),
    decreases n, 1nat, n.children@.len() - i,
{
    if 0 <= i < n.children@.len() {
        let c = n.children@[i];
        if c.kind@ != "binding"@ && c.kind@ != "let"@ {
            let mid = walk(src, c, st);
            lemma_walk_mono(src, c, st);
            lemma_walk_fresh(src, c, st);
            lemma_let_rest_mono(src, n, i + 1, mid);
            lemma_let_rest_fresh(src, n, i + 1, mid);
            lemma_fresh_trans(st.syms, mid.syms, walk_let_rest(src, n, i + 1, mid).syms, st.next, mid.next, walk_let_rest(src, n, i + 1, mid).next);
        } else {
            lemma_let_rest_fresh(src, n, i + 1, st);
        }
    } else {
        lemma_fresh_refl(st.syms, st.next, st.next);
    }
}

proof fn lemma_interpolations_fresh(src: Source, n: SyntaxNode, i: int, st: Emitted)
    ensures
        fresh_ids(st.syms, walk_interpolations(src, n, i, st).syms, st.next, walk_interpolations(src, n, i, st).next),
    decreases n, 1nat, n.children@.len() - i,
{
    if 0 <= i < n.children@.len() {
        let c = n.children@[i];
        if c.kind@ == "interpolation"@ {
            let mid = walk(src, c, st);
            lemma_walk_mono(src, c, st);
            lemma_walk_fresh(src, c, st);
            lemma_interpolations_mono(src, n, i + 1, mid);
            lemma_interpolations_fresh(src, n, i + 1, mid);
            lemma_fresh_trans(st.syms, mid.syms, walk_interpolations(src, n, i + 1, mid).syms, st.next, mid.next, walk_interpolations(src, n, i + 1, mid).next);
        } else {
            lemma_interpolations_fresh(src, n, i + 1, st);
        }
    } else {
        lemma_fresh_refl(st.syms, st.next, st.next);
    }
}

proof fn lemma_lambda_body_fresh(src: Source, n: SyntaxNode, i: int, st: Emitted)
    ensures
        fresh_ids(st.syms, walk_lambda_body(src, n, i, st).syms, st.next, walk_lambda_body(src, n, i, st).next),
    decreases n, 1nat, n.children@.len() - i,
{
    if 0 <= i < n.children@.len() {
        let c = n.children@[i];
        if c.kind@ != "identifier"@ && c.kind@ != "formals"@ {
            let mid = walk(src, c, st);
            lemma_walk_mono(src, c, st);
            lemma_walk_fresh(src, c, st);
            lemma_lambda_body_mono(src, n, i + 1, mid);
            lemma_lambda_body_fresh(src, n, i + 1, mid);
            lemma_fresh_trans(st.syms, mid.syms, walk_lambda_body(src, n, i + 1, mid).syms, st.next, mid.next, walk_lambda_body(src, n, i + 1, mid).next);
        } else {
            lemma_lambda_body_fresh(src, n, i + 1, st);
        }
    } else {
        lemma_fresh_refl(st.syms, st.next, st.next);
    }
}

proof fn lemma_rec_collect_ids(src: Source, n: SyntaxNode, i: int, st: Emitted)
    ensures
        forall|m: int|
            0 <= m < rec_collect(src, n, i, st).0.len() ==> st.next <= (#[trigger] rec_collect(
                src,
                n,
                i,
                st,
            ).0[m]).2.0 < rec_collect(src, n, i, st).1.next,
        forall|m1: int, m2: int|
            0 <= m1 < m2 < rec_collect(src, n, i, st).0.len() ==> (#[trigger] rec_collect(
                src,
                n,
                i,
                st,
            ).0[m1]).2 != (#[trigger] rec_collect(src, n, i, st).0[m2]).2,
    decreases n.children@.len() - i,
{
    if 0 <= i < n.children@.len() {
        let named = rec_name(src, n.children@[i]) is Some && st.next < u32::MAX;
        let next = if named {
            mint(st)
        } else {
            st
        };
        lemma_rec_collect_ids(src, n, i + 1, next);
        lemma_rec_collect_mono(src, n, i + 1, next);
        let items = rec_collect(src, n, i, st).0;
        let rest = rec_collect(src, n, i + 1, next).0;
        if named {
            assert((st.next as u32) as nat == st.next);
            assert forall|m: int| 0 <= m < items.len() implies st.next <= (#[trigger] items[m]).2.0
                < rec_collect(src, n, i, st).1.next by {
                if m > 0 {
                    assert(items[m] == rest[m - 1]);
                }
            }
            assert forall|m1: int, m2: int| 0 <= m1 < m2 < items.len() implies (#[trigger] items[m1]).2
                != (#[trigger] items[m2]).2 by {
                assert(items[m2] == rest[m2 - 1]);
                if m1 > 0 {
                    assert(items[m1] == rest[m1 - 1]);
                }
            }
        }
    }
}

proof fn lemma_rec_values_fresh(
    src: Source,
    n: SyntaxNode,
    k: int,
    collected: (Seq<(int, Seq<char>, SymbolId)>, Emitted),
    lo: nat,
)
    requires
        lo <= collected.1.next,
        forall|m: int|
            k <= m < collected.0.len() ==> lo <= (#[trigger] collected.0[m]).2.0 < collected.1.next,
        forall|m1: int, m2: int|
            k <= m1 < m2 < collected.0.len() ==> (#[trigger] collected.0[m1]).2 != (
            #[trigger] collected.0[m2]).2,
    ensures
        ({
            let res = walk_rec_values(src, n, k, collected);
            let st = collected.1;
            &&& res.next >= st.next
            &&& st.syms.len() <= res.syms.len()
            &&& res.syms.subrange(0, st.syms.len() as int) == st.syms
            &&& forall|q: int|
                st.syms.len() <= q < res.syms.len() ==> ((exists|m: int|
                    k <= m < collected.0.len() && (#[trigger] collected.0[m]).2 == res.syms[q].id)
                    || st.next <= (#[trigger] res.syms[q]).id.0 < res.next)
            &&& forall|q: int| st.syms.len() <= q < res.syms.len() ==> lo <= (#[trigger] res.syms[q]).id.0 < res.next
            &&& forall|i: int, j: int|
                st.syms.len() <= i < j < res.syms.len() ==> (#[trigger] res.syms[i]).id != (
                #[trigger] res.syms[j]).id
        }),
    decreases n, 1nat, collected.0.len() - k,
{
    let (items, st) = collected;
    let res = walk_rec_values(src, n, k, collected);
    lemma_rec_values_mono(src, n, k, collected);
    if 0 <= k < items.len() && 0 <= items[k].0 < n.children@.len() {
        let (i, name, id) = items[k];
        let b = n.children@[i];
        let kind = value_kind(b);
        let f = SymbolFacts {
            id,
            name,
            kind,
            range: rec_range(b),
            signature: Some(binding_signature(name, kind)),
            doc: None,
        };
        let w = Emitted { syms: st.syms.push(f), next: st.next };
        let after = walk_rec_value(src, b, w);
        lemma_rec_value_mono(src, b, w);
        lemma_rec_value_fresh(src, b, w);
        lemma_rec_values_fresh(src, n, k + 1, (items, after), lo);
        lemma_rec_values_mono(src, n, k + 1, (items, after));
        assert(res == walk_rec_values(src, n, k + 1, (items, after)));
        let s0 = st.syms.len();
        let s1 = after.syms.len();
        assert(w.syms.len() == s0 + 1);
        assert(after.syms.subrange(0, (s0 + 1) as int) == w.syms);
        assert forall|q: int| s0 <= q < s1 implies res.syms[q] == after.syms[q] by {
            assert(res.syms.subrange(0, s1 as int)[q] == res.syms[q]);
        }
        assert(res.syms[s0 as int] == after.syms[s0 as int]);
        assert(after.syms[s0 as int] == w.syms[s0 as int]);
        assert(res.syms.subrange(0, s0 as int) =~= res.syms.subrange(0, s1 as int).subrange(
            0,
            s0 as int,
        ));
        assert(after.syms.subrange(0, s0 as int) =~= w.syms.subrange(0, s0 as int));
        assert(w.syms.subrange(0, s0 as int) =~= st.syms);
        assert forall|q: int| s0 <= q < res.syms.len() implies ((exists|m: int|
            k <= m < items.len() && (#[trigger] items[m]).2 == res.syms[q].id) || st.next
            <= (#[trigger] res.syms[q]).id.0 < res.next) by {
            if q == s0 {
                assert(items[k].2 == res.syms[q].id);
            } else if q >= s1 {
                if exists|m: int| k + 1 <= m < items.len() && (#[trigger] items[m]).2 == res.syms[q].id {
                    let m = choose|m: int| k + 1 <= m < items.len() && (#[trigger] items[m]).2 == res.syms[q].id;
                    assert(k <= m);
                }
            }
        }
        assert forall|q: int| s0 <= q < res.syms.len() implies lo <= (#[trigger] res.syms[q]).id.0
            < res.next by {
            if q == s0 {
            } else if q < s1 {
            }
        }
        assert forall|a: int, c: int| s0 <= a < c < res.syms.len() implies (#[trigger] res.syms[a]).id
            != (#[trigger] res.syms[c]).id by {
            if a == s0 {
                if c < s1 {
                    assert(res.syms[c].id.0 >= st.next);
                } else {
                    if exists|m: int| k + 1 <= m < items.len() && (#[trigger] items[m]).2 == res.syms[c].id {
                        let m = choose|m: int| k + 1 <= m < items.len() && (#[trigger] items[m]).2 == res.syms[c].id;
                        assert(items[k].2 != items[m].2);
                    } else {
                        assert(res.syms[c].id.0 >= after.next);
                    }
                }
            } else if c < s1 {
            } else if a < s1 {
                assert(st.next <= res.syms[a].id.0 < after.next);
                if exists|m: int| k + 1 <= m < items.len() && (#[trigger] items[m]).2 == res.syms[c].id {
                    let m = choose|m: int| k + 1 <= m < items.len() && (#[trigger] items[m]).2 == res.syms[c].id;
                    assert(items[m].2.0 < st.next);
                } else {
                    assert(res.syms[c].id.0 >= after.next);
                }
            }
        }
    } else {
        assert(res.syms.subrange(0, st.syms.len() as int) =~= st.syms);
    }
}

proof fn lemma_rec_value_fresh(src: Source, b: SyntaxNode, st: Emitted)
    ensures
        fresh_ids(st.syms, walk_rec_value(src, b, st).syms, st.next, walk_rec_value(src, b, st).next),
    decreases b, 2nat, 0int,
{
    match field_index(b, "expression"@) {
        Some(j) => if 0 <= j < b.children@.len() {
            lemma_walk_fresh(src, b.children@[j], st);
        } else {
            lemma_fresh_refl(st.syms, st.next, st.next);
        },
        None => lemma_fresh_refl(st.syms, st.next, st.next),
    }
}

proof fn lemma_walk_rec_fresh(src: Source, m: SyntaxNode, st: Emitted)
    ensures
        fresh_ids(st.syms, walk_rec(src, m, st).syms, st.next, walk_rec(src, m, st).next),
    decreases m, 2nat, 0int,
{
    let c = rec_collect(src, m, 0, st);
    lemma_rec_collect_mono(src, m, 0, st);
    lemma_rec_collect_ids(src, m, 0, st);
    lemma_rec_values_fresh(src, m, 0, c, st.next);
    assert(c.1.syms == st.syms);
}

/// The symbols of a tree take distinct ids from the counter: each lies
/// between the counter's first value and its value after the walk.
pub proof fn lemma_parse_ids_fresh(src: Source, tree: SyntaxNode, start: nat)
    ensures
        symbols_of_tree(src, tree, start).next >= start,
        forall|k: int|
            0 <= k < symbols_of_tree(src, tree, start).syms.len() ==> start <= (
            #[trigger] symbols_of_tree(src, tree, start).syms[k]).id.0 < symbols_of_tree(
                src,
                tree,
                start,
            ).next,
        forall|i: int, j: int|
            0 <= i < j < symbols_of_tree(src, tree, start).syms.len() ==> (
            #[trigger] symbols_of_tree(src, tree, start).syms[i]).id != (
            #[trigger] symbols_of_tree(src, tree, start).syms[j]).id,
{
    lemma_walk_mono(src, tree, Emitted { syms: Seq::empty(), next: start });
    lemma_walk_fresh(src, tree, Emitted { syms: Seq::empty(), next: start });
}

} // verus!
