//! Coverage audit of the C grammar: which node kinds occur in a source
//! file, which of them the C parser dispatched on, and a Markdown report.
use vstd::prelude::*;
use crate::names::{contains_string, views_of};
use crate::syntax::{SyntaxNode, copy_parsed, new_parser, parse_c_text};
use crate::text::{append_str, decimal, push_decimal, str_eq};

verus! {

/// Why an audit could not be made.
#[derive(Debug)]
pub enum AuditError {
    /// The source file could not be read.
    FileRead(String),
    /// The grammar could not be attached to the parser.
    LanguageSetup(String),
    /// The parser produced no tree.
    ParseFailure,
    /// The language parser could not be created.
    ParserCreation(String),
}

/// The node kinds that matter for symbol extraction, in report order.
pub open spec fn key_node_names() -> Seq<Seq<char>> {
    seq![
        "translation_unit"@,
        "function_definition"@,
        "declaration"@,
        "struct_specifier"@,
        "union_specifier"@,
        "enum_specifier"@,
        "typedef_declaration"@,
        "init_declarator"@,
        "parameter_declaration"@,
        "field_declaration"@,
        "enumerator"@,
        "macro_definition"@,
        "preproc_include"@,
        "compound_statement"@,
        "if_statement"@,
        "while_statement"@,
        "for_statement"@,
        "do_statement"@,
        "switch_statement"@,
        "case_statement"@,
        "expression_statement"@,
    ]
}

fn key_nodes() -> (r: Vec<&'static str>)
    ensures
        r@.len() == key_node_names().len(),
        forall|i: int| 0 <= i < r@.len() ==> (#[trigger] r@[i])@ == key_node_names()[i],
{
    let mut v: Vec<&'static str> = Vec::new();
    v.push("translation_unit");
    v.push("function_definition");
    v.push("declaration");
    v.push("struct_specifier");
    v.push("union_specifier");
    v.push("enum_specifier");
    v.push("typedef_declaration");
    v.push("init_declarator");
    v.push("parameter_declaration");
    v.push("field_declaration");
    v.push("enumerator");
    v.push("macro_definition");
    v.push("preproc_include");
    v.push("compound_statement");
    v.push("if_statement");
    v.push("while_statement");
    v.push("for_statement");
    v.push("do_statement");
    v.push("switch_statement");
    v.push("case_statement");
    v.push("expression_statement");
    v
}

/// The grammar id recorded for a node kind.
pub open spec fn grammar_id(g: Seq<(Seq<char>, u16)>, kind: Seq<char>) -> Option<u16>
    decreases g.len(),
{
    if g.len() == 0 {
        None
    } else if g.last().0 == kind {
        Some(g.last().1)
    } else {
        grammar_id(g.drop_last(), kind)
    }
}

/// What an audit found.
pub struct AuditFacts {
    /// Node kinds present in the file with their grammar ids, each once.
    pub grammar: Seq<(Seq<char>, u16)>,
    /// Node kinds the parser dispatched on, each once.
    pub implemented: Seq<Seq<char>>,
    /// Symbol kinds the parser produced, each once.
    pub extracted: Seq<Seq<char>>,
}

/// The table row of one key node kind.
pub open spec fn status_row(a: AuditFacts, node: Seq<char>) -> Seq<char> {
    let status = match grammar_id(a.grammar, node) {
        Some(id) => decimal(id as nat) + if a.implemented.contains(node) {
            " | ✅ implemented"@
        } else {
            " | ⚠️ gap"@
        },
        None => "- | ❌ not found"@,
    };
    "| "@ + node + " | "@ + status + " |\n"@
}

/// The rows of the given key node kinds.
pub open spec fn status_rows(a: AuditFacts, nodes: Seq<Seq<char>>) -> Seq<char>
    decreases nodes.len(),
{
    if nodes.len() == 0 {
        Seq::empty()
    } else {
        status_rows(a, nodes.drop_last()) + status_row(a, nodes.last())
    }
}

/// Key node kinds present in the file that the parser did not handle.
pub open spec fn gaps_among(a: AuditFacts, nodes: Seq<Seq<char>>) -> Seq<Seq<char>>
    decreases nodes.len(),
{
    if nodes.len() == 0 {
        Seq::empty()
    } else if grammar_id(a.grammar, nodes.last()) is Some && !a.implemented.contains(nodes.last()) {
        gaps_among(a, nodes.drop_last()).push(nodes.last())
    } else {
        gaps_among(a, nodes.drop_last())
    }
}

/// Key node kinds absent from the file.
pub open spec fn missing_among(a: AuditFacts, nodes: Seq<Seq<char>>) -> Seq<Seq<char>>
    decreases nodes.len(),
{
    if nodes.len() == 0 {
        Seq::empty()
    } else if grammar_id(a.grammar, nodes.last()) is None {
        missing_among(a, nodes.drop_last()).push(nodes.last())
    } else {
        missing_among(a, nodes.drop_last())
    }
}

/// One line per node kind: a dash, a backtick and the kind, then `tail`.
pub open spec fn bullet_lines(items: Seq<Seq<char>>, tail: Seq<char>) -> Seq<char>
    decreases items.len(),
{
    if items.len() == 0 {
        Seq::empty()
    } else {
        bullet_lines(items.drop_last(), tail) + "- `"@ + items.last() + tail
    }
}

pub open spec fn report_summary(a: AuditFacts) -> Seq<char> {
    "# C Parser Coverage Report\n\n"@ + "## Summary\n"@ + "- Nodes in file: "@ + decimal(
        a.grammar.len(),
    ) + "\n"@ + "- Nodes handled by parser: "@ + decimal(a.implemented.len()) + "\n"@
        + "- Symbol kinds extracted: "@ + decimal(a.extracted.len()) + "\n"@
}

pub open spec fn report_table(a: AuditFacts) -> Seq<char> {
    "\n## Coverage Table\n\n"@ + "| Node Type | ID | Status |\n"@ + "|-----------|-----|--------|\n"@
        + status_rows(a, key_node_names())
}

pub open spec fn report_legend() -> Seq<char> {
    "\n## Legend\n\n"@ + "- ✅ **implemented**: Node type is recognized and handled by the parser\n"@
        + "- ⚠️ **gap**: Node type exists in the grammar but not handled by parser (needs implementation)\n"@
        + "- ❌ **not found**: Node type not present in the example file (may need better examples)\n"@
}

/// The recommended actions for the given gaps and absent kinds.
pub open spec fn actions_text(gaps: Seq<Seq<char>>, missing: Seq<Seq<char>>) -> Seq<char> {
    let gap_part = if gaps.len() > 0 {
        "### Priority 1: Implementation Gaps\n"@
            + "These nodes exist in your code but aren't being captured:\n\n"@ + bullet_lines(
            gaps,
            "`: Add parsing logic in parser.rs\n"@,
        ) + "\n"@
    } else {
        Seq::empty()
    };
    let missing_part = if missing.len() > 0 {
        "### Priority 2: Missing Examples\n"@
            + "These nodes aren't in the comprehensive example. Consider:\n\n"@ + bullet_lines(
            missing,
            "`: Add example to comprehensive.c or verify node name\n"@,
        ) + "\n"@
    } else {
        Seq::empty()
    };
    let praise = if gaps.len() == 0 && missing.len() == 0 {
        "✨ **Excellent coverage!** All key nodes are implemented.\n"@
    } else {
        Seq::empty()
    };
    "\n## Recommended Actions\n\n"@ + gap_part + missing_part + praise
}

pub open spec fn report_actions(a: AuditFacts) -> Seq<char> {
    actions_text(gaps_among(a, key_node_names()), missing_among(a, key_node_names()))
}

/// The Markdown coverage report.
pub open spec fn report_text(a: AuditFacts) -> Seq<char> {
    report_summary(a) + report_table(a) + report_legend() + report_actions(a)
}

/// Result of a coverage audit of the C parser.
pub struct CParserAudit {
    grammar_nodes: Vec<(String, u16)>,
    implemented_nodes: Vec<String>,
    extracted_symbol_kinds: Vec<String>,
}

pub open spec fn grammar_view(v: Seq<(String, u16)>) -> Seq<(Seq<char>, u16)> {
    Seq::new(v.len(), |i: int| (v[i].0@, v[i].1))
}

pub open spec fn unique_kinds(g: Seq<(Seq<char>, u16)>) -> bool {
    forall|i: int, j: int| 0 <= i < j < g.len() ==> g[i].0 != g[j].0
}

impl CParserAudit {
    pub closed spec fn facts(&self) -> AuditFacts {
        AuditFacts {
            grammar: grammar_view(self.grammar_nodes@),
            implemented: views_of(self.implemented_nodes@),
            extracted: views_of(self.extracted_symbol_kinds@),
        }
    }

    pub open spec fn wf(&self) -> bool {
        &&& unique_kinds(self.facts().grammar)
        &&& self.facts().implemented.no_duplicates()
        &&& self.facts().extracted.no_duplicates()
        &&& forall|x: Seq<char>|
            #[trigger] self.facts().implemented.contains(x) ==> kinds_of(
                self.facts().grammar,
            ).contains(x)
    }

    /// An audit that has recorded nothing.
    pub fn new() -> (r: CParserAudit)
        ensures
            r.wf(),
            r.facts().grammar.len() == 0,
            r.facts().implemented.len() == 0,
            r.facts().extracted.len() == 0,
    {
        let r = CParserAudit {
            grammar_nodes: Vec::new(),
            implemented_nodes: Vec::new(),
            extracted_symbol_kinds: Vec::new(),
        };
        assert(r.facts().implemented =~= Seq::<Seq<char>>::empty());
        assert(r.facts().extracted =~= Seq::<Seq<char>>::empty());
        r
    }

    /// The number of node kinds handled and present, for the coverage ratio.
    pub fn node_counts(&self) -> (r: (usize, usize))
        ensures
            r.0 == self.facts().implemented.len(),
            r.1 == self.facts().grammar.len(),
    {
        (self.implemented_nodes.len(), self.grammar_nodes.len())
    }

    /// The grammar id recorded for `kind`.
    pub fn grammar_node(&self, kind: &str) -> (r: Option<u16>)
        requires
            self.wf(),
        ensures
            r == grammar_id(self.facts().grammar, kind@),
    {
        let ghost g = self.facts().grammar;
        let mut i = self.grammar_nodes.len();
        assert(g.subrange(0, i as int) =~= g);
        while i > 0
            invariant
                i <= g.len(),
                g == grammar_view(self.grammar_nodes@),
                grammar_id(g, kind@) == grammar_id(g.subrange(0, i as int), kind@),
            decreases i,
        {
            assert(g.subrange(0, i as int).drop_last() =~= g.subrange(0, i - 1));
            if str_eq(self.grammar_nodes[i - 1].0.as_str(), kind) {
                return Some(self.grammar_nodes[i - 1].1);
            }
            i = i - 1;
        }
        None
    }

    fn is_implemented(&self, kind: &str) -> (r: bool)
        ensures
            r == self.facts().implemented.contains(kind@),
    {
        contains_string(&self.implemented_nodes, kind)
    }

    /// Appends a table row per key node kind; returns the kinds that are
    /// gaps and those absent from the file.
    fn push_rows(&self, report: &mut String) -> (r: (Vec<&'static str>, Vec<&'static str>))
        requires
            self.wf(),
        ensures
            final(report)@ == old(report)@ + status_rows(self.facts(), key_node_names()),
            Seq::new(r.0@.len(), |k: int| r.0@[k]@) == gaps_among(self.facts(), key_node_names()),
            Seq::new(r.1@.len(), |k: int| r.1@[k]@) == missing_among(self.facts(), key_node_names()),
    {
        let a = Ghost(self.facts());
        let ghost table_start = old(report)@;
        let nodes = key_nodes();
        let ghost names = key_node_names();
        let mut gaps: Vec<&str> = Vec::new();
        let mut missing: Vec<&str> = Vec::new();
        let mut i: usize = 0;
        while i < nodes.len()
            invariant
                self.wf(),
                a@ == self.facts(),
                names == key_node_names(),
                nodes@.len() == names.len(),
                forall|k: int| 0 <= k < nodes@.len() ==> (#[trigger] nodes@[k])@ == names[k],
                i <= nodes@.len(),
                report@ == table_start + status_rows(a@, names.subrange(0, i as int)),
                Seq::new(gaps@.len(), |k: int| gaps@[k]@) == gaps_among(a@, names.subrange(0, i as int)),
                Seq::new(missing@.len(), |k: int| missing@[k]@) == missing_among(
                    a@,
                    names.subrange(0, i as int),
                ),
            decreases nodes.len() - i,
        {
            let node = nodes[i];
            let ghost pre = names.subrange(0, i as int);
            assert(names.subrange(0, i + 1).drop_last() =~= pre);
            assert(names.subrange(0, i + 1).last() == node@);
            let ghost row_start = report@;
            append_str(report, "| ");
            append_str(report, node);
            append_str(report, " | ");
            let ghost gaps_before = Seq::new(gaps@.len(), |k: int| gaps@[k]@);
            let ghost missing_before = Seq::new(missing@.len(), |k: int| missing@[k]@);
            match self.grammar_node(node) {
                Some(id) => {
                    push_decimal(report, id as u64);
                    if self.is_implemented(node) {
                        append_str(report, " | ✅ implemented");
                    } else {
                        gaps.push(node);
                        append_str(report, " | ⚠️ gap");
                        assert(Seq::new(gaps@.len(), |k: int| gaps@[k]@) =~= gaps_before.push(node@));
                    }
                },
                None => {
                    missing.push(node);
                    append_str(report, "- | ❌ not found");
                    assert(Seq::new(missing@.len(), |k: int| missing@[k]@) =~= missing_before.push(
                        node@,
                    ));
                },
            }
            append_str(report, " |\n");
            assert(report@ =~= row_start + status_row(a@, node@));
            i = i + 1;
        }
        assert(names.subrange(0, names.len() as int) =~= names);
        (gaps, missing)
    }

    /// The Markdown coverage report: counts, a row per key node kind, a
    /// legend and the actions that gaps and absent kinds call for.
    pub fn generate_report(&self) -> (r: String)
        requires
            self.wf(),
        ensures
            r@ == report_text(self.facts()),
    {
        let mut report = self.summary();
        let ghost after_summary = report@;
        append_str(&mut report, "\n## Coverage Table\n\n");
        append_str(&mut report, "| Node Type | ID | Status |\n");
        append_str(&mut report, "|-----------|-----|--------|\n");
        let (gaps, missing) = self.push_rows(&mut report);
        assert(report@ =~= after_summary + report_table(self.facts()));
        let ghost after_table = report@;
        push_legend(&mut report);
        push_actions(&mut report, &gaps, &missing);
        assert(report@ =~= after_table + report_legend() + report_actions(self.facts()));
        report
    }

    fn summary(&self) -> (r: String)
        ensures
            r@ == report_summary(self.facts()),
    {
        let mut report = String::new();
        append_str(&mut report, "# C Parser Coverage Report\n\n");
        append_str(&mut report, "## Summary\n");
        append_str(&mut report, "- Nodes in file: ");
        push_decimal(&mut report, self.grammar_nodes.len() as u64);
        append_str(&mut report, "\n");
        append_str(&mut report, "- Nodes handled by parser: ");
        push_decimal(&mut report, self.implemented_nodes.len() as u64);
        append_str(&mut report, "\n");
        append_str(&mut report, "- Symbol kinds extracted: ");
        push_decimal(&mut report, self.extracted_symbol_kinds.len() as u64);
        append_str(&mut report, "\n");
        assert(report@ =~= report_summary(self.facts()));
        report
    }
}

fn push_legend(report: &mut String)
    ensures
        final(report)@ == old(report)@ + report_legend(),
{
    append_str(report, "\n## Legend\n\n");
    append_str(report, "- ✅ **implemented**: Node type is recognized and handled by the parser\n");
    append_str(
        report,
        "- ⚠️ **gap**: Node type exists in the grammar but not handled by parser (needs implementation)\n",
    );
    append_str(
        report,
        "- ❌ **not found**: Node type not present in the example file (may need better examples)\n",
    );
    assert(report@ =~= old(report)@ + report_legend());
}

/// Appends the recommended actions for the given gaps and absent kinds.
fn push_actions(report: &mut String, gaps: &Vec<&str>, missing: &Vec<&str>)
    ensures
        final(report)@ == old(report)@ + actions_text(
            Seq::new(gaps@.len(), |k: int| gaps@[k]@),
            Seq::new(missing@.len(), |k: int| missing@[k]@),
        ),
{
    append_str(report, "\n## Recommended Actions\n\n");
    if gaps.len() > 0 {
        append_str(report, "### Priority 1: Implementation Gaps\n");
        append_str(report, "These nodes exist in your code but aren't being captured:\n\n");
        push_bullets(report, gaps, "`: Add parsing logic in parser.rs\n");
        append_str(report, "\n");
    }
    if missing.len() > 0 {
        append_str(report, "### Priority 2: Missing Examples\n");
        append_str(report, "These nodes aren't in the comprehensive example. Consider:\n\n");
        push_bullets(report, missing, "`: Add example to comprehensive.c or verify node name\n");
        append_str(report, "\n");
    }
    if gaps.len() == 0 && missing.len() == 0 {
        append_str(report, "✨ **Excellent coverage!** All key nodes are implemented.\n");
    }
    assert(report@ =~= old(report)@ + actions_text(
        Seq::new(gaps@.len(), |k: int| gaps@[k]@),
        Seq::new(missing@.len(), |k: int| missing@[k]@),
    ));
}

/// Appends one line per item: a dash, a backtick and the item, then `tail`.
fn push_bullets(report: &mut String, items: &Vec<&str>, tail: &str)
    ensures
        final(report)@ == old(report)@ + bullet_lines(Seq::new(items@.len(), |k: int| items@[k]@), tail@),
{
    let ghost iv = Seq::new(items@.len(), |k: int| items@[k]@);
    let mut i: usize = 0;
    while i < items.len()
        invariant
            i <= items@.len(),
            iv == Seq::new(items@.len(), |k: int| items@[k]@),
            report@ == old(report)@ + bullet_lines(iv.subrange(0, i as int), tail@),
        decreases items.len() - i,
    {
        assert(iv.subrange(0, i + 1).drop_last() =~= iv.subrange(0, i as int));
        let ghost before = report@;
        append_str(report, "- `");
        append_str(report, items[i]);
        append_str(report, tail);
        assert(report@ =~= before + "- `"@ + iv[i as int] + tail@);
        i = i + 1;
    }
    assert(iv.subrange(0, iv.len() as int) =~= iv);
}

} // verus!

verus! {

/// The grammar record once `kind` is seen with id `id`: the id of a kind
/// already recorded is replaced, a new kind goes at the end.
pub open spec fn record_kind(g: Seq<(Seq<char>, u16)>, kind: Seq<char>, id: u16) -> Seq<(Seq<char>, u16)> {
    if exists|i: int| 0 <= i < g.len() && g[i].0 == kind {
        let i = choose|i: int| 0 <= i < g.len() && g[i].0 == kind;
        g.update(i, (kind, id))
    } else {
        g.push((kind, id))
    }
}

/// The list once `kind` is added, unless it is there already.
pub open spec fn add_once(v: Seq<Seq<char>>, kind: Seq<char>) -> Seq<Seq<char>> {
    if v.contains(kind) {
        v
    } else {
        v.push(kind)
    }
}

/// The list once each of `items` is added in order, each kind kept once.
pub open spec fn add_all(v: Seq<Seq<char>>, items: Seq<Seq<char>>) -> Seq<Seq<char>>
    decreases items.len(),
{
    if items.len() == 0 {
        v
    } else {
        add_once(add_all(v, items.drop_last()), items.last())
    }
}

/// The list once each of `items` that occurs in the grammar record `g` is
/// added in order, each kind kept once.
pub open spec fn add_present(v: Seq<Seq<char>>, items: Seq<Seq<char>>, g: Seq<(Seq<char>, u16)>) -> Seq<Seq<char>>
    decreases items.len(),
{
    if items.len() == 0 {
        v
    } else if grammar_id(g, items.last()) is Some {
        add_once(add_present(v, items.drop_last(), g), items.last())
    } else {
        add_present(v, items.drop_last(), g)
    }
}

proof fn lemma_grammar_id_kind(g: Seq<(Seq<char>, u16)>, kind: Seq<char>)
    requires
        grammar_id(g, kind) is Some,
    ensures
        kinds_of(g).contains(kind),
    decreases g.len(),
{
    if g.last().0 == kind {
        assert(kinds_of(g)[g.len() - 1] == kind);
    } else {
        lemma_grammar_id_kind(g.drop_last(), kind);
        let k = choose|k: int| 0 <= k < kinds_of(g.drop_last()).len() && kinds_of(g.drop_last())[k] == kind;
        assert(kinds_of(g)[k] == kind);
    }
}

/// The kinds and ids of a tree's nodes in pre-order.
pub open spec fn preorder(n: SyntaxNode) -> Seq<(Seq<char>, u16)>
    decreases n, 1nat, 0int,
{
    seq![(n.kind@, n.kind_id)] + preorder_from(n, 0)
}

pub open spec fn preorder_from(n: SyntaxNode, i: int) -> Seq<(Seq<char>, u16)>
    decreases n, 0nat, n.children@.len() - i,
{
    if 0 <= i < n.children@.len() {
        preorder(n.children@[i]) + preorder_from(n, i + 1)
    } else {
        Seq::empty()
    }
}

/// The grammar record after recording each pair in order.
pub open spec fn record_all(g: Seq<(Seq<char>, u16)>, pairs: Seq<(Seq<char>, u16)>) -> Seq<(Seq<char>, u16)>
    decreases pairs.len(),
{
    if pairs.len() == 0 {
        g
    } else {
        record_all(record_kind(g, pairs[0].0, pairs[0].1), pairs.skip(1))
    }
}

proof fn lemma_record_all_concat(g: Seq<(Seq<char>, u16)>, a: Seq<(Seq<char>, u16)>, b: Seq<(Seq<char>, u16)>)
    ensures
        record_all(g, a + b) == record_all(record_all(g, a), b),
    decreases a.len(),
{
    if a.len() > 0 {
        assert((a + b).skip(1) =~= a.skip(1) + b);
        assert((a + b)[0] == a[0]);
        lemma_record_all_concat(record_kind(g, a[0].0, a[0].1), a.skip(1), b);
    }
}

/// The kinds recorded in a grammar record.
pub open spec fn kinds_of(g: Seq<(Seq<char>, u16)>) -> Seq<Seq<char>> {
    Seq::new(g.len(), |i: int| g[i].0)
}

/// Coverage is a ratio of handled to present kinds: when every handled kind
/// occurs in the file, at most all present kinds are handled, so the
/// percentage lies between 0 and 100; when moreover every present kind was
/// handled, it is 100.
pub proof fn lemma_coverage_bounds(a: AuditFacts)
    requires
        unique_kinds(a.grammar),
        a.implemented.no_duplicates(),
        a.implemented.to_set().subset_of(kinds_of(a.grammar).to_set()),
    ensures
        a.implemented.len() <= a.grammar.len(),
        a.grammar.len() > 0 ==> 0 <= 100 * a.implemented.len() / a.grammar.len() <= 100,
        kinds_of(a.grammar).to_set().subset_of(a.implemented.to_set()) ==> a.implemented.len()
            == a.grammar.len() && (a.grammar.len() > 0 ==> 100 * a.implemented.len()
            / a.grammar.len() == 100),
{
    let ks = kinds_of(a.grammar);
    assert(ks.no_duplicates());
    ks.unique_seq_to_set();
    a.implemented.unique_seq_to_set();
    vstd::set_lib::lemma_len_subset(a.implemented.to_set(), ks.to_set());
    if ks.to_set().subset_of(a.implemented.to_set()) {
        vstd::set_lib::lemma_len_subset(ks.to_set(), a.implemented.to_set());
        if a.grammar.len() > 0 {
            let d = a.grammar.len();
            assert(100 * d / d == 100) by (nonlinear_arith)
                requires
                    d > 0,
            ;
        }
    }
    if a.grammar.len() > 0 {
        let n = a.implemented.len();
        let d = a.grammar.len();
        assert(100 * n / d <= 100) by (nonlinear_arith)
            requires
                n <= d,
                d > 0,
        ;
    }
}

/// Every well-formed audit meets the coverage bounds: at most all present
/// kinds are handled, the percentage lies in [0, 100], and it is 100 when
/// every present kind was handled.
pub proof fn lemma_audit_coverage(a: &CParserAudit)
    requires
        a.wf(),
    ensures
        a.facts().implemented.len() <= a.facts().grammar.len(),
        a.facts().grammar.len() > 0 ==> 0 <= 100 * a.facts().implemented.len()
            / a.facts().grammar.len() <= 100,
        kinds_of(a.facts().grammar).to_set().subset_of(a.facts().implemented.to_set()) ==> (a.facts().grammar.len()
            > 0 ==> 100 * a.facts().implemented.len() / a.facts().grammar.len() == 100),
{
    let f = a.facts();
    assert forall|x: Seq<char>| f.implemented.to_set().contains(x) implies kinds_of(
        f.grammar,
    ).to_set().contains(x) by {
        assert(f.implemented.contains(x));
    }
    lemma_coverage_bounds(f);
}

impl CParserAudit {
    /// Records that the file holds a node of `kind` with grammar id `id`.
    pub fn record_grammar_node(&mut self, kind: String, id: u16)
        requires
            old(self).wf(),
        ensures
            final(self).wf(),
            final(self).facts().grammar == record_kind(old(self).facts().grammar, kind@, id),
            final(self).facts().implemented == old(self).facts().implemented,
            final(self).facts().extracted == old(self).facts().extracted,
    {
        let ghost g = self.facts().grammar;
        let ghost kv = kind@;
        let mut i: usize = 0;
        while i < self.grammar_nodes.len()
            invariant
                i <= g.len(),
                g == grammar_view(self.grammar_nodes@),
                kv == kind@,
                self.facts() == old(self).facts(),
                self.wf(),
                forall|k: int| 0 <= k < i ==> g[k].0 != kv,
            decreases self.grammar_nodes.len() - i,
        {
            if str_eq(self.grammar_nodes[i].0.as_str(), kind.as_str()) {
                assert(g[i as int].0 == kv);
                self.grammar_nodes.set(i, (kind, id));
                assert(grammar_view(self.grammar_nodes@) =~= g.update(i as int, (kv, id)));
                assert(unique_kinds(g));
                assert(g[i as int].0 == kv);
                assert forall|k: int| 0 <= k < g.len() && g[k].0 == kv implies k == i by {
                    if k < i {
                        assert(g[k].0 != g[i as int].0);
                    } else if k > i {
                        assert(g[i as int].0 != g[k].0);
                    }
                }
                let ghost j = choose|j: int| 0 <= j < g.len() && g[j].0 == kv;
                assert(j == i);
                assert(unique_kinds(g.update(i as int, (kv, id))));
                assert(kinds_of(g.update(i as int, (kv, id))) =~= kinds_of(g));
                return ;
            }
            i = i + 1;
        }
        self.grammar_nodes.push((kind, id));
        assert(grammar_view(self.grammar_nodes@) =~= g.push((kv, id)));
        assert forall|x: Seq<char>| kinds_of(g).contains(x) implies kinds_of(g.push((kv, id))).contains(
            x,
        ) by {
            let k = choose|k: int| 0 <= k < kinds_of(g).len() && kinds_of(g)[k] == x;
            assert(kinds_of(g.push((kv, id)))[k] == x);
        }
    }

    /// Records that the parser dispatched on node kind `kind`, when the
    /// file holds nodes of that kind; other kinds are not counted.
    pub fn record_implemented(&mut self, kind: String)
        requires
            old(self).wf(),
        ensures
            final(self).wf(),
            final(self).facts().implemented == if grammar_id(old(self).facts().grammar, kind@) is Some {
                add_once(old(self).facts().implemented, kind@)
            } else {
                old(self).facts().implemented
            },
            final(self).facts().grammar == old(self).facts().grammar,
            final(self).facts().extracted == old(self).facts().extracted,
    {
        if self.grammar_node(kind.as_str()).is_none() {
            return ;
        }
        proof {
            lemma_grammar_id_kind(self.facts().grammar, kind@);
        }
        if !contains_string(&self.implemented_nodes, kind.as_str()) {
            let ghost before = views_of(self.implemented_nodes@);
            let ghost kv = kind@;
            self.implemented_nodes.push(kind);
            assert(views_of(self.implemented_nodes@) =~= before.push(kv));
            assert forall|x: Seq<char>| #[trigger] self.facts().implemented.contains(x) implies kinds_of(
                self.facts().grammar,
            ).contains(x) by {
                if x != kv {
                    let k = choose|k: int|
                        0 <= k < self.facts().implemented.len() && self.facts().implemented[k] == x;
                    assert(before[k] == x);
                    assert(old(self).facts().implemented.contains(x));
                }
            }
        }
    }

    /// Records that the parser produced a symbol of kind `kind`.
    pub fn record_symbol_kind(&mut self, kind: String)
        requires
            old(self).wf(),
        ensures
            final(self).wf(),
            final(self).facts().extracted == add_once(old(self).facts().extracted, kind@),
            final(self).facts().grammar == old(self).facts().grammar,
            final(self).facts().implemented == old(self).facts().implemented,
    {
        if !contains_string(&self.extracted_symbol_kinds, kind.as_str()) {
            let ghost before = views_of(self.extracted_symbol_kinds@);
            let ghost kv = kind@;
            self.extracted_symbol_kinds.push(kind);
            assert(views_of(self.extracted_symbol_kinds@) =~= before.push(kv));
        }
    }

    /// An audit of C source `code`: the node kinds present come from the C
    /// grammar; of the kinds the C parser dispatched on, those present in
    /// the file are kept, and the symbol kinds it produced, each once. The C
    /// grammar always yields a tree, so the audit always succeeds.
    pub fn audit_code(code: &str, handled_nodes: &Vec<String>, symbol_kinds: &Vec<String>) -> (r:
        Result<CParserAudit, AuditError>)
        ensures
            match r {
                Ok(a) => {
                    &&& a.wf()
                    &&& exists|tree: SyntaxNode|
                        a.facts().grammar == #[trigger] record_all(Seq::empty(), preorder(tree))
                    &&& a.facts().implemented == add_present(
                        Seq::empty(),
                        views_of(handled_nodes@),
                        a.facts().grammar,
                    )
                    &&& a.facts().implemented.to_set().subset_of(
                        kinds_of(a.facts().grammar).to_set(),
                    )
                    &&& a.facts().implemented.len() <= a.facts().grammar.len()
                    &&& a.facts().extracted == add_all(Seq::empty(), views_of(symbol_kinds@))
                },
                Err(_) => false,
            },
    {
        let mut parser = new_parser();
        let parsed = parse_c_text(&mut parser, code);
        let (tree, _, _) = copy_parsed(&parsed.unwrap());
        let mut audit = CParserAudit::new();
        assert(audit.facts().grammar =~= Seq::<(Seq<char>, u16)>::empty());
        discover_nodes(&tree, &mut audit);
        let ghost hv = views_of(handled_nodes@);
        let ghost kv = views_of(symbol_kinds@);
        let ghost g = audit.facts().grammar;
        let mut i: usize = 0;
        assert(audit.facts().implemented =~= add_present(Seq::empty(), hv.subrange(0, 0), g));
        while i < handled_nodes.len()
            invariant
                i <= handled_nodes@.len(),
                hv == views_of(handled_nodes@),
                audit.wf(),
                g == audit.facts().grammar,
                audit.facts().grammar == record_all(Seq::empty(), preorder(tree)),
                audit.facts().implemented == add_present(Seq::empty(), hv.subrange(0, i as int), g),
                forall|x: Seq<char>| audit.facts().implemented.contains(x) ==> kinds_of(g).contains(x),
                audit.facts().extracted.len() == 0,
            decreases handled_nodes.len() - i,
        {
            assert(hv.subrange(0, i + 1).drop_last() =~= hv.subrange(0, i as int));
            assert(hv.subrange(0, i + 1).last() == handled_nodes@[i as int]@);
            if audit.grammar_node(handled_nodes[i].as_str()).is_some() {
                proof {
                    lemma_grammar_id_kind(g, handled_nodes@[i as int]@);
                }
                let ghost before = audit.facts().implemented;
                audit.record_implemented(handled_nodes[i].clone());
                assert forall|x: Seq<char>| audit.facts().implemented.contains(x) implies kinds_of(
                    g,
                ).contains(x) by {
                    if !before.contains(x) {
                        assert(x == handled_nodes@[i as int]@);
                    }
                }
            }
            i = i + 1;
        }
        assert(hv.subrange(0, hv.len() as int) =~= hv);
        let mut i: usize = 0;
        assert(audit.facts().extracted =~= add_all(Seq::empty(), kv.subrange(0, 0)));
        while i < symbol_kinds.len()
            invariant
                i <= symbol_kinds@.len(),
                kv == views_of(symbol_kinds@),
                hv == views_of(handled_nodes@),
                audit.wf(),
                audit.facts().grammar == record_all(Seq::empty(), preorder(tree)),
                g == audit.facts().grammar,
                audit.facts().implemented == add_present(Seq::empty(), hv, g),
                forall|x: Seq<char>| audit.facts().implemented.contains(x) ==> kinds_of(g).contains(x),
                audit.facts().extracted == add_all(Seq::empty(), kv.subrange(0, i as int)),
            decreases symbol_kinds.len() - i,
        {
            assert(kv.subrange(0, i + 1).drop_last() =~= kv.subrange(0, i as int));
            audit.record_symbol_kind(symbol_kinds[i].clone());
            i = i + 1;
        }
        assert(kv.subrange(0, kv.len() as int) =~= kv);
        assert(audit.facts().implemented.to_set().subset_of(kinds_of(g).to_set()));
        proof {
            lemma_coverage_bounds(audit.facts());
        }
        Ok(audit)
    }
}

/// Records the kind of every node of the tree, in pre-order.
pub fn discover_nodes(node: &SyntaxNode, audit: &mut CParserAudit)
    requires
        old(audit).wf(),
    ensures
        final(audit).wf(),
        final(audit).facts().grammar == record_all(old(audit).facts().grammar, preorder(*node)),
        final(audit).facts().implemented == old(audit).facts().implemented,
        final(audit).facts().extracted == old(audit).facts().extracted,
    decreases node, 1nat,
{
    let ghost g0 = audit.facts().grammar;
    audit.record_grammar_node(node.kind.clone(), node.kind_id);
    let ghost g1 = audit.facts().grammar;
    assert(preorder(*node)[0] == (node.kind@, node.kind_id));
    assert(preorder(*node).skip(1) =~= preorder_from(*node, 0));
    let mut i: usize = 0;
    while i < node.children.len()
        invariant
            i <= node.children@.len(),
            audit.wf(),
            audit.facts().implemented == old(audit).facts().implemented,
            audit.facts().extracted == old(audit).facts().extracted,
            record_all(g1, preorder_from(*node, 0)) == record_all(
                audit.facts().grammar,
                preorder_from(*node, i as int),
            ),
        decreases node.children.len() - i,
    {
        proof {
            lemma_record_all_concat(
                audit.facts().grammar,
                preorder(node.children@[i as int]),
                preorder_from(*node, i + 1),
            );
        }
        discover_nodes(&node.children[i], audit);
        i = i + 1;
    }
}

} // verus!
