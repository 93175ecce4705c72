//! The logical line count of function bodies.
//!
//! Each construct is charged the number of rows its relevant span covers (the
//! true span length, not a fixed 1); `break`, `continue` and `return` are
//! charged 1. The count of a function body is the sum of these charges, and
//! each charge is reported as a finding of its own.
//!
//! Details of the rules:
//! - an expression statement is charged the rows of its expression; an
//!   empty statement `;` has none and costs nothing;
//! - only a `return` with a value is charged; `return;` costs nothing;
//! - a `case` counts all its statements except a `break` that ends them
//!   (comments aside); a block among them counts by the block rule. A `case`
//!   that consists of a single block frees that block's own final `break`.
//!   Any other `break` is charged 1 like one outside a `case`;
//! - a declaration is charged once when any of its declarators has an
//!   initializer, with the rows of the first such declarator.
use vstd::prelude::*;
use crate::syntax::{Field, NodeKind, Span, SyntaxNode, field_index, same_text};
use crate::text::{decimal, decimal_string, line_at, line_or_empty};
use crate::lint::Lint;

verus! {

/// The construct that a single charge is for.
#[derive(Clone, Copy, Debug, PartialEq, Eq, Structural)]
pub enum Construct {
    Definition,
    IfCondition,
    WhileCondition,
    DoWhileCondition,
    ForCondition,
    SwitchExpression,
    Expression,
    BreakStatement,
    ContinueStatement,
    ReturnStatement,
}

/// One itemised charge: what it is for, where, and how many lines.
pub struct Contribution {
    pub construct: Construct,
    pub span: Span,
    pub value: nat,
}

/// Rows covered from `start_row` through `end_row`; a reversed pair covers one.
pub open spec fn rows_value(start_row: usize, end_row: usize) -> nat {
    if end_row >= start_row {
        (end_row - start_row + 1) as nat
    } else {
        1
    }
}

pub open spec fn span_rows(s: Span) -> nat {
    rows_value(s.start_row, s.end_row)
}

/// The span of the first child filling field `f`.
pub open spec fn field_span(cs: Seq<SyntaxNode>, f: Field) -> Option<Span> {
    match field_index(cs, f) {
        Some(i) => Some(cs[i].span),
        None => None,
    }
}

/// The charge for the span of field `f`, if the field is present.
pub open spec fn field_charge(cs: Seq<SyntaxNode>, f: Field, c: Construct) -> Seq<Contribution> {
    match field_span(cs, f) {
        Some(s) => seq![Contribution { construct: c, span: s, value: span_rows(s) }],
        None => seq![],
    }
}

pub open spec fn field_charge_value(cs: Seq<SyntaxNode>, f: Field) -> nat {
    match field_span(cs, f) {
        Some(s) => span_rows(s),
        None => 0,
    }
}

/// Index of the first of `cs[0..k]` that is a declarator with an
/// initializer, or -1.
pub open spec fn first_initialized(cs: Seq<SyntaxNode>, k: int) -> int
    decreases k,
{
    if k <= 0 || k > cs.len() {
        -1
    } else {
        let r = first_initialized(cs, k - 1);
        if r >= 0 {
            r
        } else if cs[k - 1].kind == NodeKind::InitDeclarator {
            k - 1
        } else {
            -1
        }
    }
}

/// The charge of a declaration that initializes a variable: the rows of its
/// first declarator with an initializer. A declaration charges once, however
/// many of its declarators are initialized.
pub open spec fn declaration_charge(cs: Seq<SyntaxNode>) -> Seq<Contribution> {
    let i = first_initialized(cs, cs.len() as int);
    if 0 <= i < cs.len() {
        seq![Contribution { construct: Construct::Definition, span: cs[i].span, value: span_rows(cs[i].span) }]
    } else {
        seq![]
    }
}

/// The charge of a `for` header: from the keyword through the closing parenthesis.
pub open spec fn for_charge(cs: Seq<SyntaxNode>) -> Seq<Contribution> {
    if cs.len() >= 2 {
        seq![Contribution {
            construct: Construct::ForCondition,
            span: cs[0].span,
            value: rows_value(cs[0].span.start_row, cs[cs.len() - 2].span.end_row),
        }]
    } else {
        seq![]
    }
}

/// The charge of an expression statement: the rows of its expression. An
/// empty statement `;` has no expression and is not charged.
pub open spec fn expression_charge(cs: Seq<SyntaxNode>) -> Seq<Contribution> {
    if cs.len() >= 2 {
        seq![Contribution { construct: Construct::Expression, span: cs[0].span, value: span_rows(cs[0].span) }]
    } else {
        seq![]
    }
}

/// The charge of a `return` with a value (`return`, the value, `;`), placed
/// at the value. A `return;` without a value is not charged.
pub open spec fn return_charge(n: SyntaxNode) -> Seq<Contribution> {
    if n.children@.len() >= 3 {
        seq![Contribution { construct: Construct::ReturnStatement, span: n.children@[1].span, value: 1 }]
    } else {
        seq![]
    }
}

/// Whether a conditional-compilation block is guarded by the `DEBUG` macro.
pub open spec fn is_debug_guard(n: SyntaxNode) -> bool {
    match field_index(n.children@, Field::Name) {
        Some(i) => n.children@[i].text@ == "DEBUG"@,
        None => false,
    }
}

/// The kinds that are statements the counter has a rule for.
pub open spec fn is_statement_kind(k: NodeKind) -> bool {
    k == NodeKind::Declaration || k == NodeKind::CompoundStatement || k == NodeKind::IfStatement
        || k == NodeKind::ElseClause || k == NodeKind::WhileStatement || k == NodeKind::DoStatement
        || k == NodeKind::ForStatement || k == NodeKind::SwitchStatement || k == NodeKind::CaseStatement
        || k == NodeKind::ExpressionStatement || k == NodeKind::BreakStatement
        || k == NodeKind::ContinueStatement || k == NodeKind::ReturnStatement || k == NodeKind::PreprocIfdef
}

/// Index of the last of `ns[0..k]` that is not a comment, or -1.
pub open spec fn last_statement(ns: Seq<SyntaxNode>, k: int) -> int
    decreases k,
{
    if k <= 0 || k > ns.len() {
        -1
    } else if ns[k - 1].kind == NodeKind::Comment {
        last_statement(ns, k - 1)
    } else {
        k - 1
    }
}

/// Index of the `break` that ends `ns[0..k]`, or -1 when `ns[0..k]` does not
/// end in a `break`.
pub open spec fn trailing_break(ns: Seq<SyntaxNode>, k: int) -> int {
    let t = last_statement(ns, k);
    if t >= 0 && ns[t].kind == NodeKind::BreakStatement {
        t
    } else {
        -1
    }
}

/// The index of the block a `case` consists of, or -1: its last statement
/// (comments aside) is a block, and no statement comes before it.
pub open spec fn sole_block(cs: Seq<SyntaxNode>) -> int {
    let t = last_statement(cs, cs.len() as int);
    if 0 <= t < cs.len() && cs[t].kind == NodeKind::CompoundStatement
        && (forall|j: int| 0 <= j < t ==> !is_statement_kind(#[trigger] cs[j].kind)) {
        t
    } else {
        -1
    }
}

/// All charges of a statement, in the order the walk reports them.
pub open spec fn contributions(n: SyntaxNode) -> Seq<Contribution>
    decreases n, 2nat,
{
    let cs = n.children@;
    match n.kind {
        NodeKind::Declaration => declaration_charge(cs),
        NodeKind::IfStatement => field_charge(cs, Field::Condition, Construct::IfCondition)
            + field_contributions(n, Field::Consequence)
            + field_contributions(n, Field::Alternative),
        NodeKind::PreprocIfdef => if is_debug_guard(n) {
            seq![]
        } else {
            list_contributions(cs, 2, cs.len() as int, -1)
        },
        NodeKind::WhileStatement => field_charge(cs, Field::Condition, Construct::WhileCondition)
            + field_contributions(n, Field::Body),
        NodeKind::DoStatement => field_contributions(n, Field::Body)
            + field_charge(cs, Field::Condition, Construct::DoWhileCondition),
        NodeKind::ForStatement => if cs.len() >= 2 {
            for_charge(cs) + contributions(cs[cs.len() - 1])
        } else {
            seq![]
        },
        NodeKind::SwitchStatement => field_charge(cs, Field::Condition, Construct::SwitchExpression)
            + field_contributions(n, Field::Body),
        NodeKind::ExpressionStatement => expression_charge(cs),
        NodeKind::CaseStatement => if 0 <= sole_block(cs) < cs.len() {
            let b = cs[sole_block(cs)].children@;
            list_contributions(b, 0, b.len() as int, trailing_break(b, b.len() - 1))
        } else {
            list_contributions(cs, 0, cs.len() as int, trailing_break(cs, cs.len() as int))
        },
        NodeKind::BreakStatement => seq![Contribution { construct: Construct::BreakStatement, span: n.span, value: 1 }],
        NodeKind::ContinueStatement => seq![Contribution { construct: Construct::ContinueStatement, span: n.span, value: 1 }],
        NodeKind::ElseClause => if cs.len() >= 2 {
            contributions(cs[1])
        } else {
            seq![]
        },
        NodeKind::ReturnStatement => return_charge(n),
        NodeKind::CompoundStatement => list_contributions(cs, 0, cs.len() as int, -1),
        _ => seq![],
    }
}

/// The charges of the first child filling field `f`.
pub open spec fn field_contributions(n: SyntaxNode, f: Field) -> Seq<Contribution>
    decreases n, 1nat,
{
    match field_index(n.children@, f) {
        Some(i) => if 0 <= i < n.children@.len() {
            contributions(n.children@[i])
        } else {
            seq![]
        },
        None => seq![],
    }
}

/// The charges of `ns[lo..k]` in order, leaving out the one at index `skip`.
pub open spec fn list_contributions(ns: Seq<SyntaxNode>, lo: int, k: int, skip: int) -> Seq<Contribution>
    decreases ns, k - lo,
{
    if k <= lo || k > ns.len() || lo < 0 {
        seq![]
    } else {
        let rest = list_contributions(ns, lo, k - 1, skip);
        if k - 1 == skip {
            rest
        } else {
            rest + contributions(ns[k - 1])
        }
    }
}

/// The logical line count of a statement, by the rule for its kind.
pub open spec fn score(n: SyntaxNode) -> nat
    decreases n, 2nat,
{
    let cs = n.children@;
    match n.kind {
        NodeKind::Declaration => {
            let i = first_initialized(cs, cs.len() as int);
            if 0 <= i < cs.len() { span_rows(cs[i].span) } else { 0 }
        },
        NodeKind::IfStatement => field_charge_value(cs, Field::Condition)
            + field_score(n, Field::Consequence)
            + field_score(n, Field::Alternative),
        NodeKind::PreprocIfdef => if is_debug_guard(n) {
            0
        } else {
            list_score(cs, 2, cs.len() as int, -1)
        },
        NodeKind::WhileStatement => field_charge_value(cs, Field::Condition) + field_score(n, Field::Body),
        NodeKind::DoStatement => field_score(n, Field::Body) + field_charge_value(cs, Field::Condition),
        NodeKind::ForStatement => if cs.len() >= 2 {
            rows_value(cs[0].span.start_row, cs[cs.len() - 2].span.end_row) + score(cs[cs.len() - 1])
        } else {
            0
        },
        NodeKind::SwitchStatement => field_charge_value(cs, Field::Condition) + field_score(n, Field::Body),
        NodeKind::ExpressionStatement => if cs.len() >= 2 { span_rows(cs[0].span) } else { 0 },
        NodeKind::CaseStatement => if 0 <= sole_block(cs) < cs.len() {
            let b = cs[sole_block(cs)].children@;
            list_score(b, 0, b.len() as int, trailing_break(b, b.len() - 1))
        } else {
            list_score(cs, 0, cs.len() as int, trailing_break(cs, cs.len() as int))
        },
        NodeKind::BreakStatement => 1,
        NodeKind::ContinueStatement => 1,
        NodeKind::ElseClause => if cs.len() >= 2 { score(cs[1]) } else { 0 },
        NodeKind::ReturnStatement => if cs.len() >= 3 { 1 } else { 0 },
        NodeKind::CompoundStatement => list_score(cs, 0, cs.len() as int, -1),
        _ => 0,
    }
}

/// The count of the first child filling field `f`.
pub open spec fn field_score(n: SyntaxNode, f: Field) -> nat
    decreases n, 1nat,
{
    match field_index(n.children@, f) {
        Some(i) => if 0 <= i < n.children@.len() {
            score(n.children@[i])
        } else {
            0
        },
        None => 0,
    }
}

/// The summed count of `ns[lo..k]`, leaving out the one at index `skip`.
pub open spec fn list_score(ns: Seq<SyntaxNode>, lo: int, k: int, skip: int) -> nat
    decreases ns, k - lo,
{
    if k <= lo || k > ns.len() || lo < 0 {
        0
    } else {
        let rest = list_score(ns, lo, k - 1, skip);
        if k - 1 == skip {
            rest
        } else {
            rest + score(ns[k - 1])
        }
    }
}

/// Sum of the values of a list of charges.
pub open spec fn total(cs: Seq<Contribution>) -> nat
    decreases cs.len(),
{
    if cs.len() == 0 {
        0
    } else {
        total(cs.drop_last()) + cs.last().value
    }
}

proof fn lemma_total_concat(a: Seq<Contribution>, b: Seq<Contribution>)
    ensures
        total(a + b) == total(a) + total(b),
    decreases b.len(),
{
    if b.len() == 0 {
        assert(a + b =~= a);
    } else {
        lemma_total_concat(a, b.drop_last());
        assert((a + b).drop_last() =~= a + b.drop_last());
    }
}

proof fn lemma_total_one(c: Contribution)
    ensures
        total(seq![c]) == c.value,
{
    assert(seq![c].drop_last() =~= Seq::<Contribution>::empty());
    assert(total(Seq::<Contribution>::empty()) == 0);
    assert(seq![c].last() == c);
}

proof fn lemma_field_charge(cs: Seq<SyntaxNode>, f: Field, c: Construct)
    ensures
        total(field_charge(cs, f, c)) == field_charge_value(cs, f),
{
    match field_span(cs, f) {
        Some(s) => lemma_total_one(Contribution { construct: c, span: s, value: span_rows(s) }),
        None => {},
    }
}

/// The itemised charges of a statement add up to its logical line count.
pub proof fn lemma_contributions_add_up(n: SyntaxNode)
    ensures
        total(contributions(n)) == score(n),
    decreases n, 2nat,
{
    let cs = n.children@;
    match n.kind {
        NodeKind::Declaration => {
            let i = first_initialized(cs, cs.len() as int);
            if 0 <= i < cs.len() {
                lemma_total_one(Contribution { construct: Construct::Definition, span: cs[i].span, value: span_rows(cs[i].span) });
            }
        },
        NodeKind::IfStatement => {
            let a = field_charge(cs, Field::Condition, Construct::IfCondition);
            let b = field_contributions(n, Field::Consequence);
            let c = field_contributions(n, Field::Alternative);
            lemma_field_charge(cs, Field::Condition, Construct::IfCondition);
            lemma_field_add_up(n, Field::Consequence);
            lemma_field_add_up(n, Field::Alternative);
            lemma_total_concat(a, b);
            lemma_total_concat(a + b, c);
        },
        NodeKind::PreprocIfdef => {
            if !is_debug_guard(n) {
                lemma_list_add_up(cs, 2, cs.len() as int, -1);
            }
        },
        NodeKind::WhileStatement => {
            lemma_field_charge(cs, Field::Condition, Construct::WhileCondition);
            lemma_field_add_up(n, Field::Body);
            lemma_total_concat(field_charge(cs, Field::Condition, Construct::WhileCondition), field_contributions(n, Field::Body));
        },
        NodeKind::DoStatement => {
            lemma_field_charge(cs, Field::Condition, Construct::DoWhileCondition);
            lemma_field_add_up(n, Field::Body);
            lemma_total_concat(field_contributions(n, Field::Body), field_charge(cs, Field::Condition, Construct::DoWhileCondition));
        },
        NodeKind::ForStatement => {
            if cs.len() >= 2 {
                lemma_total_one(for_charge(cs)[0]);
                assert(for_charge(cs) =~= seq![for_charge(cs)[0]]);
                lemma_contributions_add_up(cs[cs.len() - 1]);
                lemma_total_concat(for_charge(cs), contributions(cs[cs.len() - 1]));
            }
        },
        NodeKind::SwitchStatement => {
            lemma_field_charge(cs, Field::Condition, Construct::SwitchExpression);
            lemma_field_add_up(n, Field::Body);
            lemma_total_concat(field_charge(cs, Field::Condition, Construct::SwitchExpression), field_contributions(n, Field::Body));
        },
        NodeKind::ExpressionStatement => {
            if cs.len() >= 2 {
                lemma_total_one(Contribution { construct: Construct::Expression, span: cs[0].span, value: span_rows(cs[0].span) });
            }
        },
        NodeKind::CaseStatement => {
            if 0 <= sole_block(cs) < cs.len() {
                let b = cs[sole_block(cs)].children@;
                lemma_list_add_up(b, 0, b.len() as int, trailing_break(b, b.len() - 1));
            } else {
                lemma_list_add_up(cs, 0, cs.len() as int, trailing_break(cs, cs.len() as int));
            }
        },
        NodeKind::BreakStatement => {
            lemma_total_one(Contribution { construct: Construct::BreakStatement, span: n.span, value: 1 });
        },
        NodeKind::ContinueStatement => {
            lemma_total_one(Contribution { construct: Construct::ContinueStatement, span: n.span, value: 1 });
        },
        NodeKind::ElseClause => {
            if cs.len() >= 2 {
                lemma_contributions_add_up(cs[1]);
            }
        },
        NodeKind::ReturnStatement => {
            if cs.len() >= 3 {
                lemma_total_one(return_charge(n)[0]);
                assert(return_charge(n) =~= seq![return_charge(n)[0]]);
            }
        },
        NodeKind::CompoundStatement => {
            lemma_list_add_up(cs, 0, cs.len() as int, -1);
        },
        _ => {},
    }
}

proof fn lemma_field_add_up(n: SyntaxNode, f: Field)
    ensures
        total(field_contributions(n, f)) == field_score(n, f),
    decreases n, 1nat,
{
    match field_index(n.children@, f) {
        Some(i) => if 0 <= i < n.children@.len() {
            lemma_contributions_add_up(n.children@[i]);
        },
        None => {},
    }
}

proof fn lemma_list_add_up(ns: Seq<SyntaxNode>, lo: int, k: int, skip: int)
    ensures
        total(list_contributions(ns, lo, k, skip)) == list_score(ns, lo, k, skip),
    decreases ns, k - lo,
{
    if !(k <= lo || k > ns.len() || lo < 0) {
        lemma_list_add_up(ns, lo, k - 1, skip);
        if k - 1 != skip {
            lemma_contributions_add_up(ns[k - 1]);
            lemma_total_concat(list_contributions(ns, lo, k - 1, skip), contributions(ns[k - 1]));
        }
    }
}

/// Inserting `x` at index `k` and skipping that index leaves the list's
/// count and charges as they were.
proof fn lemma_skip_inserted(ns: Seq<SyntaxNode>, x: SyntaxNode, k: int, j: int)
    requires
        0 <= k <= ns.len(),
        0 <= j <= ns.len(),
    ensures
        j <= k ==> list_score(ns.insert(k, x), 0, j, k) == list_score(ns, 0, j, -1)
            && list_contributions(ns.insert(k, x), 0, j, k) == list_contributions(ns, 0, j, -1),
        j >= k ==> list_score(ns.insert(k, x), 0, j + 1, k) == list_score(ns, 0, j, -1)
            && list_contributions(ns.insert(k, x), 0, j + 1, k) == list_contributions(ns, 0, j, -1),
    decreases j,
{
    let ins = ns.insert(k, x);
    if j > 0 {
        lemma_skip_inserted(ns, x, k, j - 1);
    }
    if j > k {
        assert(ins[j] == ns[j - 1]);
    }
    if 0 < j <= k {
        assert(ins[j - 1] == ns[j - 1]);
        assert(list_score(ins, 0, j, k) == list_score(ins, 0, j - 1, k) + score(ins[j - 1]));
    }
    if j == k {
        assert(list_score(ins, 0, j + 1, k) == list_score(ins, 0, j, k));
        assert(list_contributions(ins, 0, j + 1, k) == list_contributions(ins, 0, j, k));
    }
}

/// The index of the free `break` of a `case` with statements `cs`, or -1.
pub open spec fn case_skip(cs: Seq<SyntaxNode>) -> int {
    if 0 <= sole_block(cs) < cs.len() {
        let b = cs[sole_block(cs)].children@;
        trailing_break(b, b.len() - 1)
    } else {
        trailing_break(cs, cs.len() as int)
    }
}

proof fn lemma_quiet(n: SyntaxNode)
    requires
        !is_statement_kind(n.kind),
    ensures
        contributions(n) == Seq::<Contribution>::empty(),
        score(n) == 0,
{
}

proof fn lemma_last_statement(ns: Seq<SyntaxNode>, k: int)
    requires
        0 <= k <= ns.len(),
    ensures
        -1 <= last_statement(ns, k) < k,
        forall|j: int| last_statement(ns, k) < j < k ==> #[trigger] ns[j].kind == NodeKind::Comment,
        last_statement(ns, k) >= 0 ==> ns[last_statement(ns, k)].kind != NodeKind::Comment,
    decreases k,
{
    if k > 0 {
        lemma_last_statement(ns, k - 1);
    }
}

proof fn lemma_same_kinds(a: Seq<SyntaxNode>, b: Seq<SyntaxNode>, k: int)
    requires
        a.len() == b.len(),
        0 <= k <= a.len(),
        forall|j: int| 0 <= j < a.len() ==> #[trigger] a[j].kind == b[j].kind,
    ensures
        last_statement(a, k) == last_statement(b, k),
    decreases k,
{
    if k > 0 {
        lemma_same_kinds(a, b, k - 1);
    }
}

/// A list in which only `ns[t]` is a statement counts and charges as `ns[t]` alone.
proof fn lemma_list_single(ns: Seq<SyntaxNode>, t: int, k: int)
    requires
        0 <= t < ns.len(),
        0 <= k <= ns.len(),
        forall|j: int| 0 <= j < ns.len() && j != t ==> !is_statement_kind(#[trigger] ns[j].kind),
    ensures
        list_score(ns, 0, k, -1) == (if k > t { score(ns[t]) } else { 0 }),
        list_contributions(ns, 0, k, -1) == (if k > t { contributions(ns[t]) } else { Seq::<Contribution>::empty() }),
    decreases k,
{
    if k > 0 {
        lemma_list_single(ns, t, k - 1);
        if k - 1 != t {
            lemma_quiet(ns[k - 1]);
            assert(list_contributions(ns, 0, k - 1, -1) + Seq::<Contribution>::empty()
                =~= list_contributions(ns, 0, k - 1, -1));
        } else {
            assert(Seq::<Contribution>::empty() + contributions(ns[t]) =~= contributions(ns[t]));
        }
    }
}

/// A `case` whose statements end in `break;` has the count and the itemised
/// charges of the same `case` without that `break;`. Left out: a `case` that
/// without it would still end in a free `break` (`case 1: break; break;`).
pub proof fn lemma_case_trailing_break(with_break: SyntaxNode, without: SyntaxNode, brk: SyntaxNode)
    requires
        with_break.kind == NodeKind::CaseStatement,
        without.kind == NodeKind::CaseStatement,
        brk.kind == NodeKind::BreakStatement,
        with_break.children@ == without.children@.push(brk),
        case_skip(without.children@) == -1,
    ensures
        score(with_break) == score(without),
        contributions(with_break) == contributions(without),
{
    let ns = without.children@;
    let w = with_break.children@;
    let len = ns.len() as int;
    assert(w[len] == brk);
    assert(last_statement(w, w.len() as int) == len);
    assert(sole_block(w) == -1);
    assert(trailing_break(w, w.len() as int) == len);
    assert(ns.insert(len, brk) =~= w);
    lemma_skip_inserted(ns, brk, len, len);
    let t = sole_block(ns);
    if 0 <= t < len {
        lemma_last_statement(ns, len);
        assert forall|j: int| 0 <= j < ns.len() && j != t implies !is_statement_kind(#[trigger] ns[j].kind) by {
            if j > t {
                assert(ns[j].kind == NodeKind::Comment);
            }
        }
        lemma_list_single(ns, t, len);
    }
}

/// A `case` that consists of a single block: a `break;` that ends the
/// block's statements adds neither count nor charges, provided the
/// statements before it do not themselves end in a `break`.
pub proof fn lemma_case_block_break(with_break: SyntaxNode, without: SyntaxNode, brk: SyntaxNode, blk: SyntaxNode)
    requires
        with_break.kind == NodeKind::CaseStatement,
        without.kind == NodeKind::CaseStatement,
        brk.kind == NodeKind::BreakStatement,
        blk.kind == NodeKind::CompoundStatement,
        0 <= sole_block(without.children@) < without.children@.len(),
        with_break.children@ == without.children@.update(sole_block(without.children@), blk),
        without.children@[sole_block(without.children@)].children@.len() >= 1,
        blk.children@ == without.children@[sole_block(without.children@)].children@.insert(
            without.children@[sole_block(without.children@)].children@.len() - 1, brk),
        case_skip(without.children@) == -1,
    ensures
        score(with_break) == score(without),
        contributions(with_break) == contributions(without),
{
    let ns = without.children@;
    let w = with_break.children@;
    let t = sole_block(ns);
    lemma_same_kinds(ns, w, ns.len() as int);
    assert forall|j: int| 0 <= j < t implies !is_statement_kind(#[trigger] w[j].kind) by {
        assert(w[j].kind == ns[j].kind);
        assert(!is_statement_kind(ns[j].kind));
    }
    assert(sole_block(w) == t);
    let wob = ns[t].children@;
    let b = blk.children@;
    let k = wob.len() - 1;
    assert(b[k] == brk);
    assert(last_statement(b, b.len() - 1) == k);
    assert(trailing_break(b, b.len() - 1) == k);
    lemma_skip_inserted(wob, brk, k, wob.len() as int);
}

/// A body `{ return e; }` counts 1, with the single charge placed at `e`.
pub proof fn lemma_single_return(body: SyntaxNode)
    requires
        body.kind == NodeKind::CompoundStatement,
        body.children@.len() == 3,
        body.children@[0].kind == NodeKind::Other,
        body.children@[1].kind == NodeKind::ReturnStatement,
        body.children@[1].children@.len() >= 3,
        body.children@[2].kind == NodeKind::Other,
    ensures
        score(body) == 1,
        contributions(body) == return_charge(body.children@[1]),
        contributions(body).len() == 1,
{
    let cs = body.children@;
    assert(list_score(cs, 0, 0, -1) == 0);
    assert(list_contributions(cs, 0, 0, -1) == Seq::<Contribution>::empty());
    assert(score(cs[0]) == 0 && score(cs[2]) == 0 && score(cs[1]) == 1);
    assert(contributions(cs[0]) == Seq::<Contribution>::empty());
    assert(contributions(cs[2]) == Seq::<Contribution>::empty());
    assert(list_score(cs, 0, 1, -1) == 0);
    assert(list_contributions(cs, 0, 1, -1) =~= Seq::<Contribution>::empty());
    assert(list_score(cs, 0, 2, -1) == 1);
    assert(contributions(cs[1]) == return_charge(cs[1]));
    assert(list_contributions(cs, 0, 2, -1) == list_contributions(cs, 0, 1, -1) + contributions(cs[1]));
    assert(list_contributions(cs, 0, 2, -1) =~= return_charge(cs[1]));
    assert(list_contributions(cs, 0, 3, -1) =~= return_charge(cs[1]));
    assert(list_score(cs, 0, 3, -1) == 1);
    assert(score(body) == list_score(cs, 0, 3, -1));
}

/// Every charge in `cs` is worth at least one line.
pub open spec fn all_positive(cs: Seq<Contribution>) -> bool {
    forall|i: int| 0 <= i < cs.len() ==> #[trigger] cs[i].value >= 1
}

proof fn lemma_positive_concat(a: Seq<Contribution>, b: Seq<Contribution>)
    requires
        all_positive(a),
        all_positive(b),
    ensures
        all_positive(a + b),
{
    assert forall|i: int| 0 <= i < (a + b).len() implies #[trigger] (a + b)[i].value >= 1 by {
        if i < a.len() {
            assert((a + b)[i] == a[i]);
        } else {
            assert((a + b)[i] == b[i - a.len()]);
        }
    }
}

/// Only non-zero costs are itemised: every charge of a statement is worth at
/// least one line.
pub proof fn lemma_charges_positive(n: SyntaxNode)
    ensures
        all_positive(contributions(n)),
    decreases n, 2nat,
{
    let cs = n.children@;
    match n.kind {
        NodeKind::IfStatement => {
            lemma_field_positive(n, Field::Consequence);
            lemma_field_positive(n, Field::Alternative);
            lemma_positive_concat(field_charge(cs, Field::Condition, Construct::IfCondition), field_contributions(n, Field::Consequence));
            lemma_positive_concat(field_charge(cs, Field::Condition, Construct::IfCondition)
                + field_contributions(n, Field::Consequence), field_contributions(n, Field::Alternative));
        },
        NodeKind::PreprocIfdef => {
            if !is_debug_guard(n) {
                lemma_list_positive(cs, 2, cs.len() as int, -1);
            }
        },
        NodeKind::WhileStatement => {
            lemma_field_positive(n, Field::Body);
            lemma_positive_concat(field_charge(cs, Field::Condition, Construct::WhileCondition), field_contributions(n, Field::Body));
        },
        NodeKind::DoStatement => {
            lemma_field_positive(n, Field::Body);
            lemma_positive_concat(field_contributions(n, Field::Body), field_charge(cs, Field::Condition, Construct::DoWhileCondition));
        },
        NodeKind::ForStatement => {
            if cs.len() >= 2 {
                lemma_charges_positive(cs[cs.len() - 1]);
                lemma_positive_concat(for_charge(cs), contributions(cs[cs.len() - 1]));
            }
        },
        NodeKind::SwitchStatement => {
            lemma_field_positive(n, Field::Body);
            lemma_positive_concat(field_charge(cs, Field::Condition, Construct::SwitchExpression), field_contributions(n, Field::Body));
        },
        NodeKind::CaseStatement => {
            if 0 <= sole_block(cs) < cs.len() {
                let b = cs[sole_block(cs)].children@;
                lemma_list_positive(b, 0, b.len() as int, trailing_break(b, b.len() - 1));
            } else {
                lemma_list_positive(cs, 0, cs.len() as int, trailing_break(cs, cs.len() as int));
            }
        },
        NodeKind::ElseClause => {
            if cs.len() >= 2 {
                lemma_charges_positive(cs[1]);
            }
        },
        NodeKind::CompoundStatement => {
            lemma_list_positive(cs, 0, cs.len() as int, -1);
        },
        _ => {},
    }
}

proof fn lemma_field_positive(n: SyntaxNode, f: Field)
    ensures
        all_positive(field_contributions(n, f)),
    decreases n, 1nat,
{
    match field_index(n.children@, f) {
        Some(i) => if 0 <= i < n.children@.len() {
            lemma_charges_positive(n.children@[i]);
        },
        None => {},
    }
}

proof fn lemma_list_positive(ns: Seq<SyntaxNode>, lo: int, k: int, skip: int)
    ensures
        all_positive(list_contributions(ns, lo, k, skip)),
    decreases ns, k - lo,
{
    if !(k <= lo || k > ns.len() || lo < 0) {
        lemma_list_positive(ns, lo, k - 1, skip);
        if k - 1 != skip {
            lemma_charges_positive(ns[k - 1]);
            lemma_positive_concat(list_contributions(ns, lo, k - 1, skip), contributions(ns[k - 1]));
        }
    }
}

/// The words naming a construct in a charge's message.
pub open spec fn construct_phrase(c: Construct) -> Seq<char> {
    match c {
        Construct::Definition => "definition"@,
        Construct::IfCondition => "if condition"@,
        Construct::WhileCondition => "while condition"@,
        Construct::DoWhileCondition => "do/while condition"@,
        Construct::ForCondition => "for condition"@,
        Construct::SwitchExpression => "switch expression"@,
        Construct::Expression => "expression"@,
        Construct::BreakStatement => "break statement"@,
        Construct::ContinueStatement => "continue statement"@,
        Construct::ReturnStatement => "return statement"@,
    }
}

/// `Counted <construct> for <n> line(s)`.
pub open spec fn contribution_message(c: Contribution) -> Seq<char> {
    "Counted "@ + construct_phrase(c.construct) + " for "@ + decimal(c.value) + " line"@
        + (if c.value != 1 { "s"@ } else { Seq::<char>::empty() })
}

/// The character views of a list of lines.
pub open spec fn line_views(lines: Seq<String>) -> Seq<Seq<char>> {
    lines.map_values(|l: String| l@)
}

/// `l` is the finding that reports charge `c` of a file whose lines are `lines`.
pub open spec fn reports(l: Lint, c: Contribution, lines: Seq<Seq<char>>, file: Seq<char>) -> bool {
    &&& l.message@ == contribution_message(c)
    &&& l.text@ == line_or_empty(lines, c.span.start_row as int)
    &&& l.span == c.span
    &&& l.file@ == file
    &&& l.sublints@.len() == 0
}

/// `after` is `before` followed by one finding reporting each of `cs`, in order.
pub open spec fn extends_with(
    after: Seq<Lint>,
    before: Seq<Lint>,
    cs: Seq<Contribution>,
    lines: Seq<Seq<char>>,
    file: Seq<char>,
) -> bool {
    &&& after.len() == before.len() + cs.len()
    &&& after.subrange(0, before.len() as int) == before
    &&& forall|j: int|
        before.len() <= j < after.len() ==> reports(#[trigger] after[j], cs[j - before.len()], lines, file)
}

/// `r` holds `v` when `v` fits in a `usize`, and is `None` otherwise.
pub open spec fn fits(r: Option<usize>, v: nat) -> bool {
    r == (if v <= usize::MAX { Some(v as usize) } else { None::<usize> })
}

proof fn lemma_extends_refl(a: Seq<Lint>, lines: Seq<Seq<char>>, file: Seq<char>)
    ensures
        extends_with(a, a, Seq::<Contribution>::empty(), lines, file),
{
    assert(a.subrange(0, a.len() as int) =~= a);
}

proof fn lemma_extends_trans(
    a: Seq<Lint>,
    b: Seq<Lint>,
    c: Seq<Lint>,
    x: Seq<Contribution>,
    y: Seq<Contribution>,
    lines: Seq<Seq<char>>,
    file: Seq<char>,
)
    requires
        extends_with(b, a, x, lines, file),
        extends_with(c, b, y, lines, file),
    ensures
        extends_with(c, a, x + y, lines, file),
{
    assert(c.subrange(0, a.len() as int) =~= b.subrange(0, a.len() as int)) by {
        assert forall|j: int| 0 <= j < a.len() implies c.subrange(0, a.len() as int)[j] == b.subrange(0, a.len() as int)[j] by {
            assert(c.subrange(0, b.len() as int)[j] == b[j]);
        }
    }
    assert forall|j: int| a.len() <= j < c.len() implies reports(#[trigger] c[j], (x + y)[j - a.len()], lines, file) by {
        if j < b.len() {
            assert(c.subrange(0, b.len() as int)[j] == c[j]);
            assert(reports(b[j], x[j - a.len()], lines, file));
        } else {
            assert(reports(c[j], y[j - b.len()], lines, file));
        }
    }
}

proof fn lemma_list_score_mono(ns: Seq<SyntaxNode>, lo: int, k: int, m: int, skip: int)
    requires
        k <= m <= ns.len(),
    ensures
        list_score(ns, lo, k, skip) <= list_score(ns, lo, m, skip),
    decreases m - k,
{
    if k < m {
        lemma_list_score_mono(ns, lo, k, m - 1, skip);
    }
}

fn construct_words(c: Construct) -> (r: &'static str)
    ensures
        r@ == construct_phrase(c),
{
    match c {
        Construct::Definition => "definition",
        Construct::IfCondition => "if condition",
        Construct::WhileCondition => "while condition",
        Construct::DoWhileCondition => "do/while condition",
        Construct::ForCondition => "for condition",
        Construct::SwitchExpression => "switch expression",
        Construct::Expression => "expression",
        Construct::BreakStatement => "break statement",
        Construct::ContinueStatement => "continue statement",
        Construct::ReturnStatement => "return statement",
    }
}

fn add_checked(a: usize, b: usize) -> (r: Option<usize>)
    ensures
        fits(r, (a + b) as nat),
{
    if a <= usize::MAX - b {
        Some(a + b)
    } else {
        None
    }
}

fn rows(start_row: usize, end_row: usize) -> (r: Option<usize>)
    ensures
        fits(r, rows_value(start_row, end_row)),
{
    if end_row >= start_row {
        let d = end_row - start_row;
        if d < usize::MAX {
            Some(d + 1)
        } else {
            None
        }
    } else {
        Some(1)
    }
}

/// Appends the finding that reports one charge.
fn charge(
    construct: Construct,
    span: Span,
    value: usize,
    lines: &Vec<String>,
    file: &String,
    out: &mut Vec<Lint>,
)
    ensures
        extends_with(
            final(out)@,
            old(out)@,
            seq![Contribution { construct, span, value: value as nat }],
            line_views(lines@),
            file@,
        ),
{
    let mut m = String::from_str("Counted ");
    m.append(construct_words(construct));
    m.append(" for ");
    let d = decimal_string(value);
    m.append(d.as_str());
    m.append(" line");
    if value != 1 {
        m.append("s");
    }
    let l = Lint { message: m, text: line_at(lines, span.start_row), span, file: file.clone(), sublints: Vec::new() };
    let ghost before = out@;
    out.push(l);
    proof {
        assert(out@.subrange(0, before.len() as int) =~= before);
        assert(line_views(lines@) =~= lines@.map_values(|l: String| l@));
    }
}

/// Appends the charge for the span of field `f` of `n`, if present.
fn charge_field(
    n: &SyntaxNode,
    f: Field,
    construct: Construct,
    lines: &Vec<String>,
    file: &String,
    out: &mut Vec<Lint>,
) -> (r: Option<usize>)
    ensures
        fits(r, field_charge_value(n.children@, f)),
        r is Some ==> extends_with(final(out)@, old(out)@, field_charge(n.children@, f, construct), line_views(lines@), file@),
{
    match n.field_position(f) {
        Some(i) => {
            let s = n.children[i].span;
            match rows(s.start_row, s.end_row) {
                Some(v) => {
                    charge(construct, s, v, lines, file, out);
                    Some(v)
                },
                None => None,
            }
        },
        None => {
            proof { lemma_extends_refl(out@, line_views(lines@), file@); }
            Some(0)
        },
    }
}

/// Counts the statement `n`, appending one finding per charge.
fn count_node(n: &SyntaxNode, lines: &Vec<String>, file: &String, out: &mut Vec<Lint>) -> (r: Option<usize>)
    ensures
        fits(r, score(*n)),
        r is Some ==> extends_with(final(out)@, old(out)@, contributions(*n), line_views(lines@), file@),
    decreases *n, 2nat,
{
    let ghost lv = line_views(lines@);
    let ghost out0 = out@;
    let ghost cs = n.children@;
    proof { lemma_extends_refl(out@, lv, file@); }
    match n.kind {
        NodeKind::Declaration => {
            match first_initialized_index(&n.children) {
                Some(i) => {
                    let s = n.children[i].span;
                    match rows(s.start_row, s.end_row) {
                        Some(v) => {
                            charge(Construct::Definition, s, v, lines, file, out);
                            Some(v)
                        },
                        None => None,
                    }
                },
                None => Some(0),
            }
        },
        NodeKind::IfStatement => {
            let a = charge_field(n, Field::Condition, Construct::IfCondition, lines, file, out);
            let ghost o1 = out@;
            if a.is_none() {
                return None;
            }
            let b = count_field(n, Field::Consequence, lines, file, out);
            let ghost o2 = out@;
            if b.is_none() {
                return None;
            }
            let ab = add_checked(a.unwrap(), b.unwrap());
            if ab.is_none() {
                return None;
            }
            let c = count_field(n, Field::Alternative, lines, file, out);
            if c.is_none() {
                return None;
            }
            proof {
                lemma_extends_trans(out0, o1, o2, field_charge(cs, Field::Condition, Construct::IfCondition),
                    field_contributions(*n, Field::Consequence), lv, file@);
                lemma_extends_trans(out0, o2, out@, field_charge(cs, Field::Condition, Construct::IfCondition)
                    + field_contributions(*n, Field::Consequence), field_contributions(*n, Field::Alternative), lv, file@);
            }
            add_checked(ab.unwrap(), c.unwrap())
        },
        NodeKind::PreprocIfdef => {
            let debug = match n.field_position(Field::Name) {
                Some(i) => same_text(n.children[i].text.as_str(), "DEBUG"),
                None => false,
            };
            if debug {
                Some(0)
            } else {
                count_list(&n.children, 2, None, lines, file, out)
            }
        },
        NodeKind::WhileStatement => {
            let a = charge_field(n, Field::Condition, Construct::WhileCondition, lines, file, out);
            let ghost o1 = out@;
            if a.is_none() {
                return None;
            }
            let b = count_field(n, Field::Body, lines, file, out);
            if b.is_none() {
                return None;
            }
            proof {
                lemma_extends_trans(out0, o1, out@, field_charge(cs, Field::Condition, Construct::WhileCondition),
                    field_contributions(*n, Field::Body), lv, file@);
            }
            add_checked(a.unwrap(), b.unwrap())
        },
        NodeKind::DoStatement => {
            let b = count_field(n, Field::Body, lines, file, out);
            let ghost o1 = out@;
            if b.is_none() {
                return None;
            }
            let a = charge_field(n, Field::Condition, Construct::DoWhileCondition, lines, file, out);
            if a.is_none() {
                return None;
            }
            proof {
                lemma_extends_trans(out0, o1, out@, field_contributions(*n, Field::Body),
                    field_charge(cs, Field::Condition, Construct::DoWhileCondition), lv, file@);
            }
            add_checked(b.unwrap(), a.unwrap())
        },
        NodeKind::ForStatement => {
            let len = n.children.len();
            if len >= 2 {
                let first = n.children[0].span;
                let v = rows(first.start_row, n.children[len - 2].span.end_row);
                if v.is_none() {
                    return None;
                }
                charge(Construct::ForCondition, first, v.unwrap(), lines, file, out);
                let ghost o1 = out@;
                proof {
                    assert(for_charge(cs) =~= seq![Contribution { construct: Construct::ForCondition, span: first, value: v.unwrap() as nat }]);
                }
                let b = count_node(&n.children[len - 1], lines, file, out);
                if b.is_none() {
                    return None;
                }
                proof {
                    lemma_extends_trans(out0, o1, out@, for_charge(cs), contributions(cs[len - 1]), lv, file@);
                }
                add_checked(v.unwrap(), b.unwrap())
            } else {
                Some(0)
            }
        },
        NodeKind::SwitchStatement => {
            let a = charge_field(n, Field::Condition, Construct::SwitchExpression, lines, file, out);
            let ghost o1 = out@;
            if a.is_none() {
                return None;
            }
            let b = count_field(n, Field::Body, lines, file, out);
            if b.is_none() {
                return None;
            }
            proof {
                lemma_extends_trans(out0, o1, out@, field_charge(cs, Field::Condition, Construct::SwitchExpression),
                    field_contributions(*n, Field::Body), lv, file@);
            }
            add_checked(a.unwrap(), b.unwrap())
        },
        NodeKind::ExpressionStatement => {
            if n.children.len() >= 2 {
                let s = n.children[0].span;
                match rows(s.start_row, s.end_row) {
                    Some(v) => {
                        charge(Construct::Expression, s, v, lines, file, out);
                        Some(v)
                    },
                    None => None,
                }
            } else {
                Some(0)
            }
        },
        NodeKind::CaseStatement => {
            let len = n.children.len();
            if let Some(t) = sole_block_index(&n.children) {
                let b = &n.children[t].children;
                let skip = if b.len() > 0 { trailing_break_index(b, b.len() - 1) } else { None };
                proof {
                    assert(decreases_to!(n.children => n.children@));
                    assert(decreases_to!(n.children@ => n.children@[t as int]));
                }
                count_list(b, 0, skip, lines, file, out)
            } else {
                let skip = trailing_break_index(&n.children, len);
                count_list(&n.children, 0, skip, lines, file, out)
            }
        },
        NodeKind::BreakStatement => {
            charge(Construct::BreakStatement, n.span, 1, lines, file, out);
            Some(1)
        },
        NodeKind::ContinueStatement => {
            charge(Construct::ContinueStatement, n.span, 1, lines, file, out);
            Some(1)
        },
        NodeKind::ElseClause => {
            if n.children.len() >= 2 {
                count_node(&n.children[1], lines, file, out)
            } else {
                Some(0)
            }
        },
        NodeKind::ReturnStatement => {
            if n.children.len() >= 3 {
                charge(Construct::ReturnStatement, n.children[1].span, 1, lines, file, out);
                proof {
                    assert(return_charge(*n) =~= seq![Contribution {
                        construct: Construct::ReturnStatement, span: n.children@[1].span, value: 1 }]);
                }
                Some(1)
            } else {
                Some(0)
            }
        },
        NodeKind::CompoundStatement => count_list(&n.children, 0, None, lines, file, out),
        _ => Some(0),
    }
}

/// Counts the first child of `n` filling field `f`, if any.
fn count_field(n: &SyntaxNode, f: Field, lines: &Vec<String>, file: &String, out: &mut Vec<Lint>) -> (r: Option<usize>)
    ensures
        fits(r, field_score(*n, f)),
        r is Some ==> extends_with(final(out)@, old(out)@, field_contributions(*n, f), line_views(lines@), file@),
    decreases *n, 1nat,
{
    match n.field_position(f) {
        Some(i) => {
            proof {
                assert(decreases_to!(n.children => n.children@));
                assert(decreases_to!(n.children@ => n.children@[i as int]));
            }
            count_node(&n.children[i], lines, file, out)
        },
        None => {
            proof { lemma_extends_refl(out@, line_views(lines@), file@); }
            Some(0)
        },
    }
}

/// Index of the `break` that ends `ns[0..k]`, if it ends in one.
fn trailing_break_index(ns: &Vec<SyntaxNode>, k: usize) -> (r: Option<usize>)
    requires
        k <= ns@.len(),
    ensures
        skip_index(r) == trailing_break(ns@, k as int),
{
    let mut j: usize = k;
    while j > 0 && ns[j - 1].kind == NodeKind::Comment
        invariant
            j <= k <= ns@.len(),
            last_statement(ns@, k as int) == last_statement(ns@, j as int),
        decreases j,
    {
        j = j - 1;
    }
    if j > 0 && ns[j - 1].kind == NodeKind::BreakStatement {
        Some(j - 1)
    } else {
        None
    }
}

fn is_statement(k: NodeKind) -> (r: bool)
    ensures
        r == is_statement_kind(k),
{
    match k {
        NodeKind::Declaration | NodeKind::CompoundStatement | NodeKind::IfStatement | NodeKind::ElseClause
        | NodeKind::WhileStatement | NodeKind::DoStatement | NodeKind::ForStatement
        | NodeKind::SwitchStatement | NodeKind::CaseStatement | NodeKind::ExpressionStatement
        | NodeKind::BreakStatement | NodeKind::ContinueStatement | NodeKind::ReturnStatement
        | NodeKind::PreprocIfdef => true,
        _ => false,
    }
}

/// The index of the block that the statements `cs` of a `case` consist of.
fn sole_block_index(cs: &Vec<SyntaxNode>) -> (r: Option<usize>)
    ensures
        skip_index(r) == sole_block(cs@),
        r matches Some(i) ==> i < cs@.len(),
{
    let mut t: usize = cs.len();
    while t > 0 && cs[t - 1].kind == NodeKind::Comment
        invariant
            t <= cs@.len(),
            last_statement(cs@, cs@.len() as int) == last_statement(cs@, t as int),
        decreases t,
    {
        t = t - 1;
    }
    proof {
        if t > 0 {
            assert(last_statement(cs@, t as int) == t - 1);
        } else {
            assert(last_statement(cs@, 0) == -1);
        }
    }
    if t == 0 || cs[t - 1].kind != NodeKind::CompoundStatement {
        return None;
    }
    let b = t - 1;
    let mut j: usize = 0;
    while j < b
        invariant
            j <= b < cs@.len(),
            last_statement(cs@, cs@.len() as int) == b as int,
            cs@[b as int].kind == NodeKind::CompoundStatement,
            forall|m: int| 0 <= m < j ==> !is_statement_kind(#[trigger] cs@[m].kind),
        decreases b - j,
    {
        if is_statement(cs[j].kind) {
            assert(is_statement_kind(cs@[j as int].kind));
            return None;
        }
        j = j + 1;
    }
    Some(b)
}

/// Index of the first declarator with an initializer among `cs`.
fn first_initialized_index(cs: &Vec<SyntaxNode>) -> (r: Option<usize>)
    ensures
        skip_index(r) == first_initialized(cs@, cs@.len() as int),
        r matches Some(i) ==> i < cs@.len(),
{
    let mut i: usize = 0;
    while i < cs.len()
        invariant
            i <= cs@.len(),
            first_initialized(cs@, i as int) == -1,
        decreases cs@.len() - i,
    {
        if cs[i].kind == NodeKind::InitDeclarator {
            proof { lemma_first_initialized_stays(cs@, i + 1, cs@.len() as int); }
            return Some(i);
        }
        i = i + 1;
    }
    None
}

proof fn lemma_first_initialized_stays(cs: Seq<SyntaxNode>, k: int, m: int)
    requires
        0 < k <= m <= cs.len(),
        first_initialized(cs, k) >= 0,
    ensures
        first_initialized(cs, m) == first_initialized(cs, k),
    decreases m - k,
{
    if k < m {
        lemma_first_initialized_stays(cs, k, m - 1);
    }
}

/// The index a `skip` argument stands for; `None` skips nothing.
pub open spec fn skip_index(skip: Option<usize>) -> int {
    match skip {
        Some(i) => i as int,
        None => -1,
    }
}

/// Counts `ns[lo..]` in order, leaving out the one at index `skip`.
fn count_list(
    ns: &Vec<SyntaxNode>,
    lo: usize,
    skip: Option<usize>,
    lines: &Vec<String>,
    file: &String,
    out: &mut Vec<Lint>,
) -> (r: Option<usize>)
    ensures
        fits(r, list_score(ns@, lo as int, ns@.len() as int, skip_index(skip))),
        r is Some ==> extends_with(
            final(out)@,
            old(out)@,
            list_contributions(ns@, lo as int, ns@.len() as int, skip_index(skip)),
            line_views(lines@),
            file@,
        ),
    decreases ns@, 0nat,
{
    let ghost lv = line_views(lines@);
    let ghost out0 = out@;
    proof { lemma_extends_refl(out@, lv, file@); }
    if lo >= ns.len() {
        return Some(0);
    }
    let mut acc: usize = 0;
    let mut i: usize = lo;
    while i < ns.len()
        invariant
            lo <= i <= ns@.len(),
            acc as nat == list_score(ns@, lo as int, i as int, skip_index(skip)),
            extends_with(out@, out0, list_contributions(ns@, lo as int, i as int, skip_index(skip)), lv, file@),
            lv == line_views(lines@),
        decreases ns@.len() - i,
    {
        let skipped = match skip {
            Some(j) => j == i,
            None => false,
        };
        if !skipped {
            let ghost o1 = out@;
            let v = count_node(&ns[i], lines, file, out);
            if v.is_none() {
                proof { lemma_list_score_mono(ns@, lo as int, i + 1, ns@.len() as int, skip_index(skip)); }
                return None;
            }
            let s = add_checked(acc, v.unwrap());
            if s.is_none() {
                proof { lemma_list_score_mono(ns@, lo as int, i + 1, ns@.len() as int, skip_index(skip)); }
                return None;
            }
            proof {
                lemma_extends_trans(out0, o1, out@, list_contributions(ns@, lo as int, i as int, skip_index(skip)),
                    contributions(ns@[i as int]), lv, file@);
            }
            acc = s.unwrap();
        }
        i = i + 1;
    }
    Some(acc)
}

/// The logical line count of a function body and its itemised charges, one
/// finding each, in walk order; `None` when the count does not fit in a `usize`.
pub fn count_function_body(body: &SyntaxNode, lines: &Vec<String>, file: &String) -> (r: Option<(usize, Vec<Lint>)>)
    ensures
        r is Some <==> score(*body) <= usize::MAX,
        r matches Some((s, items)) ==> s == score(*body)
            && extends_with(items@, Seq::<Lint>::empty(), contributions(*body), line_views(lines@), file@),
{
    let mut items: Vec<Lint> = Vec::new();
    match count_node(body, lines, file, &mut items) {
        Some(s) => Some((s, items)),
        None => None,
    }
}

} // verus!
