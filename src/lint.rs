//! Findings and the per-file checks that produce them.
use vstd::prelude::*;
use crate::syntax::{Field, NodeKind, Span, SyntaxNode, field_index};
use crate::text::{decimal, decimal_string, line_at, line_or_empty};
use crate::complexity::{
    all_positive, contributions, count_function_body, extends_with, lemma_charges_positive,
    lemma_contributions_add_up, line_views, score, total,
};

verus! {

/// A finding: its message, the source line it points at, where, in which
/// file, and the itemised findings it sums up (empty for most).
#[derive(Debug)]
pub struct Lint {
    pub message: String,
    pub text: String,
    pub span: Span,
    pub file: String,
    pub sublints: Vec<Lint>,
}

/// Functions whose logical line count exceeds this are reported.
pub const MAX_FUNCTION_LINES: usize = 10;

pub open spec fn global_message() -> Seq<char> {
    "Global variable"@
}

pub open spec fn comment_message() -> Seq<char> {
    "Missing comment directly above function"@
}

/// A top-level declaration that declares a variable (its first declarator
/// is a plain name or carries an initializer).
pub open spec fn is_global(n: SyntaxNode) -> bool {
    n.kind == NodeKind::Declaration && match field_index(n.children@, Field::Declarator) {
        Some(i) => n.children@[i].kind == NodeKind::InitDeclarator || n.children@[i].kind == NodeKind::Identifier,
        None => false,
    }
}

/// The function definition `cs[i]` is not directly preceded by a comment
/// that ends on the line above it.
pub open spec fn lacks_comment(cs: Seq<SyntaxNode>, i: int) -> bool {
    &&& cs[i].kind == NodeKind::FunctionDefinition
    &&& !(i > 0 && cs[i - 1].kind == NodeKind::Comment && cs[i - 1].span.end_row + 1 == cs[i].span.start_row)
}

/// Where a function is reported: its declarator, or the whole definition
/// if it has none.
pub open spec fn declarator_span(n: SyntaxNode) -> Span {
    match field_index(n.children@, Field::Declarator) {
        Some(i) => n.children@[i].span,
        None => n.span,
    }
}

/// The declaration findings among top-level items `cs[0..k]`, as message and span.
pub open spec fn declaration_findings(cs: Seq<SyntaxNode>, k: int) -> Seq<(Seq<char>, Span)>
    decreases k,
{
    if k <= 0 || k > cs.len() {
        seq![]
    } else {
        let rest = declaration_findings(cs, k - 1);
        if is_global(cs[k - 1]) {
            rest.push((global_message(), cs[k - 1].span))
        } else if lacks_comment(cs, k - 1) {
            rest.push((comment_message(), declarator_span(cs[k - 1])))
        } else {
            rest
        }
    }
}

/// `l` is a plain finding with message and span `f`.
pub open spec fn shows(l: Lint, f: (Seq<char>, Span), lines: Seq<Seq<char>>, file: Seq<char>) -> bool {
    &&& l.message@ == f.0
    &&& l.text@ == line_or_empty(lines, f.1.start_row as int)
    &&& l.span == f.1
    &&& l.file@ == file
    &&& l.sublints@.len() == 0
}

fn declarator_span_of(n: &SyntaxNode) -> (r: Span)
    ensures
        r == declarator_span(*n),
{
    match n.field_position(Field::Declarator) {
        Some(i) => n.children[i].span,
        None => n.span,
    }
}

/// The declaration checks of a file's top level: a finding for each global
/// variable, and for each function definition without a comment on the line
/// directly above it, in source order.
pub fn lint_declarations(root: &SyntaxNode, lines: &Vec<String>, file: &String) -> (r: Vec<Lint>)
    ensures
        r@.len() == declaration_findings(root.children@, root.children@.len() as int).len(),
        forall|j: int| 0 <= j < r@.len() ==> shows(#[trigger] r@[j],
            declaration_findings(root.children@, root.children@.len() as int)[j], line_views(lines@), file@),
{
    let ghost cs = root.children@;
    let ghost lv = line_views(lines@);
    let mut out: Vec<Lint> = Vec::new();
    let mut i: usize = 0;
    while i < root.children.len()
        invariant
            i <= cs.len(),
            cs == root.children@,
            lv == line_views(lines@),
            out@.len() == declaration_findings(cs, i as int).len(),
            forall|j: int| 0 <= j < out@.len() ==> shows(#[trigger] out@[j], declaration_findings(cs, i as int)[j], lv, file@),
        decreases cs.len() - i,
    {
        let n = &root.children[i];
        let mut global = false;
        if n.kind == NodeKind::Declaration {
            match n.field_position(Field::Declarator) {
                Some(d) => {
                    global = n.children[d].kind == NodeKind::InitDeclarator || n.children[d].kind == NodeKind::Identifier;
                },
                None => {},
            }
        }
        let ghost before = out@;
        if global {
            out.push(Lint {
                message: String::from_str("Global variable"),
                text: line_at(lines, n.span.start_row),
                span: n.span,
                file: file.clone(),
                sublints: Vec::new(),
            });
        } else if n.kind == NodeKind::FunctionDefinition {
            let commented = i > 0 && root.children[i - 1].kind == NodeKind::Comment
                && root.children[i - 1].span.end_row < usize::MAX
                && root.children[i - 1].span.end_row + 1 == n.span.start_row;
            if !commented {
                let s = declarator_span_of(n);
                out.push(Lint {
                    message: String::from_str("Missing comment directly above function"),
                    text: line_at(lines, s.start_row),
                    span: s,
                    file: file.clone(),
                    sublints: Vec::new(),
                });
            }
        }
        proof {
            assert(lv =~= lines@.map_values(|l: String| l@));
            assert forall|j: int| 0 <= j < out@.len() implies shows(#[trigger] out@[j], declaration_findings(cs, i + 1)[j], lv, file@) by {
                if j < before.len() {
                    assert(out@[j] == before[j]);
                }
            }
        }
        i = i + 1;
    }
    out
}

/// `"Function has more than 10 lines (<count>)"`; a count too large for a
/// `usize` is shown as `usize::MAX`.
pub open spec fn length_message(count: nat) -> Seq<char> {
    "Function has more than 10 lines ("@ + decimal(if count <= usize::MAX { count } else { usize::MAX as nat }) + ")"@
}

/// The function definitions among `cs[0..k]` whose body counts more than
/// the limit.
pub open spec fn long_functions(cs: Seq<SyntaxNode>, k: int) -> Seq<SyntaxNode>
    decreases k,
{
    if k <= 0 || k > cs.len() {
        seq![]
    } else {
        let rest = long_functions(cs, k - 1);
        let n = cs[k - 1];
        if n.kind == NodeKind::FunctionDefinition && match field_index(n.children@, Field::Body) {
            Some(b) => score(n.children@[b]) > MAX_FUNCTION_LINES,
            None => false,
        } {
            rest.push(n)
        } else {
            rest
        }
    }
}

pub open spec fn body_of(n: SyntaxNode) -> SyntaxNode {
    n.children@[field_index(n.children@, Field::Body)->0]
}

/// `l` reports over-long function `n`: the count, at the declarator, with
/// one sub-finding per charge of the body (when the count fits in a `usize`).
pub open spec fn reports_length(l: Lint, n: SyntaxNode, lines: Seq<Seq<char>>, file: Seq<char>) -> bool {
    let b = body_of(n);
    &&& l.message@ == length_message(score(b))
    &&& l.text@ == line_or_empty(lines, declarator_span(n).start_row as int)
    &&& l.span == declarator_span(n)
    &&& l.file@ == file
    &&& score(b) <= usize::MAX ==> extends_with(l.sublints@, Seq::<Lint>::empty(), contributions(b), lines, file)
    &&& score(b) > usize::MAX ==> l.sublints@.len() == 0
}

/// The length check of a file's top level: for each function definition
/// whose body counts more than `MAX_FUNCTION_LINES` logical lines, one
/// finding holding the count and the itemised charges.
pub fn lint_function_lengths(root: &SyntaxNode, lines: &Vec<String>, file: &String) -> (r: Vec<Lint>)
    ensures
        r@.len() == long_functions(root.children@, root.children@.len() as int).len(),
        forall|j: int| 0 <= j < r@.len() ==> reports_length(#[trigger] r@[j],
            long_functions(root.children@, root.children@.len() as int)[j], line_views(lines@), file@),
{
    let ghost cs = root.children@;
    let ghost lv = line_views(lines@);
    let mut out: Vec<Lint> = Vec::new();
    let mut i: usize = 0;
    while i < root.children.len()
        invariant
            i <= cs.len(),
            cs == root.children@,
            lv == line_views(lines@),
            out@.len() == long_functions(cs, i as int).len(),
            forall|j: int| 0 <= j < out@.len() ==> reports_length(#[trigger] out@[j], long_functions(cs, i as int)[j], lv, file@),
        decreases cs.len() - i,
    {
        let n = &root.children[i];
        let ghost before = out@;
        if n.kind == NodeKind::FunctionDefinition {
            match n.field_position(Field::Body) {
                Some(b) => {
                    let counted = count_function_body(&n.children[b], lines, file);
                    let (count, items) = match counted {
                        Some((s, items)) => (s, items),
                        None => (usize::MAX, Vec::new()),
                    };
                    if count > MAX_FUNCTION_LINES {
                        let mut message = String::from_str("Function has more than 10 lines (");
                        let digits = decimal_string(count);
                        message.append(digits.as_str());
                        message.append(")");
                        let s = declarator_span_of(n);
                        out.push(Lint { message, text: line_at(lines, s.start_row), span: s, file: file.clone(), sublints: items });
                    }
                },
                None => {},
            }
        }
        proof {
            assert(lv =~= lines@.map_values(|l: String| l@));
            assert forall|j: int| 0 <= j < out@.len() implies reports_length(#[trigger] out@[j], long_functions(cs, i + 1)[j], lv, file@) by {
                if j < before.len() {
                    assert(out@[j] == before[j]);
                }
            }
        }
        i = i + 1;
    }
    out
}

/// The sub-findings of an over-long function finding are the body's charges,
/// each worth at least one line, and they add up to the count in its message.
/// (A count beyond `usize::MAX` is shown as `usize::MAX`, with no sub-findings.)
pub proof fn lemma_length_finding_adds_up(l: Lint, n: SyntaxNode, lines: Seq<Seq<char>>, file: Seq<char>)
    requires
        reports_length(l, n, lines, file),
        score(body_of(n)) <= usize::MAX,
    ensures
        extends_with(l.sublints@, Seq::<Lint>::empty(), contributions(body_of(n)), lines, file),
        total(contributions(body_of(n))) == score(body_of(n)),
        all_positive(contributions(body_of(n))),
        l.message@ == length_message(total(contributions(body_of(n)))),
{
    lemma_contributions_add_up(body_of(n));
    lemma_charges_positive(body_of(n));
}

} // verus!
