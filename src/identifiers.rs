//! Naming checks: macro names must be SCREAMING_SNAKE_CASE, and a project
//! should not mix lower_snake_case and camelCase identifiers.
use vstd::prelude::*;
use crate::syntax::{Field, NodeKind, Span, SyntaxNode, field_index};
use crate::lint::Lint;
use crate::text::{line_at, line_or_empty};
use crate::complexity::line_views;

verus! {

pub open spec fn is_upper(c: char) -> bool {
    'A' <= c && c <= 'Z'
}

pub open spec fn is_lower(c: char) -> bool {
    'a' <= c && c <= 'z'
}

pub open spec fn is_digit_char(c: char) -> bool {
    '0' <= c && c <= '9'
}

/// One or more of `A-Z`, `0-9`, `_`.
pub open spec fn is_screaming_snake(s: Seq<char>) -> bool {
    s.len() > 0 && forall|i: int| 0 <= i < s.len() ==> is_upper(#[trigger] s[i]) || is_digit_char(s[i]) || s[i] == '_'
}

/// Only `a-z`, `0-9`, `_`, with an `_` that is neither first nor last.
pub open spec fn is_lower_snake(s: Seq<char>) -> bool {
    &&& forall|i: int| 0 <= i < s.len() ==> is_lower(#[trigger] s[i]) || is_digit_char(s[i]) || s[i] == '_'
    &&& exists|i: int| 1 <= i < s.len() - 1 && #[trigger] s[i] == '_'
}

/// A run of `a-z`, then one or more humps: an `A-Z` followed by `a-z` or `0-9`.
pub open spec fn is_camel(s: Seq<char>) -> bool {
    exists|k: int|
        1 <= k < s.len() && is_upper(#[trigger] s[k])
            && (forall|i: int| 0 <= i < k ==> is_lower(#[trigger] s[i]))
            && (forall|i: int| k < i < s.len() ==> is_upper(#[trigger] s[i]) || is_lower(s[i]) || is_digit_char(s[i]))
}

pub open spec fn screaming_snake_pattern() -> Seq<char> {
    "^[A-Z0-9_]+$"@
}

pub open spec fn lower_snake_pattern() -> Seq<char> {
    "^[a-z0-9_]+_[a-z0-9_]+$"@
}

pub open spec fn camel_pattern() -> Seq<char> {
    "^[a-z]+(?:[A-Z][a-z0-9]*)+$"@
}

/// Relies on regex::Regex::new and regex::Regex::is_match: each of the three
/// anchored patterns compiles, and matches exactly the texts described above.
#[verifier::external_body]
fn pattern_matches(pattern: &str, text: &str) -> (r: bool)
    requires
        pattern@ == screaming_snake_pattern() || pattern@ == lower_snake_pattern() || pattern@ == camel_pattern(),
    ensures
        pattern@ == screaming_snake_pattern() ==> r == is_screaming_snake(text@),
        pattern@ == lower_snake_pattern() ==> r == is_lower_snake(text@),
        pattern@ == camel_pattern() ==> r == is_camel(text@),
{
    regex::Regex::new(pattern).unwrap().is_match(text)
}

/// The naming style of an identifier.
#[derive(Clone, Copy, Debug, PartialEq, Eq, Structural)]
pub enum IdentifierCase {
    LowerSnake,
    Camel,
}

/// The style of a name, if it has one; lower_snake_case is tried first.
pub open spec fn case_of(s: Seq<char>) -> Option<IdentifierCase> {
    if is_lower_snake(s) {
        Some(IdentifierCase::LowerSnake)
    } else if is_camel(s) {
        Some(IdentifierCase::Camel)
    } else {
        None
    }
}

/// Whether a name is SCREAMING_SNAKE_CASE.
pub fn is_screaming_snake_case(name: &str) -> (r: bool)
    ensures
        r == is_screaming_snake(name@),
{
    pattern_matches("^[A-Z0-9_]+$", name)
}

/// The style of a name, if it is lower_snake_case or camelCase.
pub fn classify_name(name: &str) -> (r: Option<IdentifierCase>)
    ensures
        r == case_of(name@),
{
    if pattern_matches("^[a-z0-9_]+_[a-z0-9_]+$", name) {
        Some(IdentifierCase::LowerSnake)
    } else if pattern_matches("^[a-z]+(?:[A-Z][a-z0-9]*)+$", name) {
        Some(IdentifierCase::Camel)
    } else {
        None
    }
}

/// A classified identifier: where it is, its style and its text.
#[derive(Debug)]
pub struct Identifier {
    pub file: String,
    pub span: Span,
    pub case: IdentifierCase,
    pub text: String,
}

/// The identifiers among `cs[0..k]` that have a style, with that style.
pub open spec fn styled_identifiers(cs: Seq<SyntaxNode>, k: int) -> Seq<(SyntaxNode, IdentifierCase)>
    decreases k,
{
    if k <= 0 || k > cs.len() {
        seq![]
    } else {
        let rest = styled_identifiers(cs, k - 1);
        let c = cs[k - 1];
        if c.kind == NodeKind::Identifier && case_of(c.text@) is Some {
            rest.push((c, case_of(c.text@)->0))
        } else {
            rest
        }
    }
}

/// For each of `cs[0..k]` of kind `parent`, its styled identifier children.
pub open spec fn nested_identifiers(cs: Seq<SyntaxNode>, k: int, parent: NodeKind) -> Seq<(SyntaxNode, IdentifierCase)>
    decreases k,
{
    if k <= 0 || k > cs.len() {
        seq![]
    } else {
        let rest = nested_identifiers(cs, k - 1, parent);
        let c = cs[k - 1];
        if c.kind == parent {
            rest + styled_identifiers(c.children@, c.children@.len() as int)
        } else {
            rest
        }
    }
}

/// The styled names a declaration's children `cs[0..k]` declare, in source
/// order: a plain declarator's name, and every identifier of an initialized
/// declarator.
pub open spec fn declared_identifiers(cs: Seq<SyntaxNode>, k: int) -> Seq<(SyntaxNode, IdentifierCase)>
    decreases k,
{
    if k <= 0 || k > cs.len() {
        seq![]
    } else {
        let rest = declared_identifiers(cs, k - 1);
        let c = cs[k - 1];
        if c.kind == NodeKind::Identifier && case_of(c.text@) is Some {
            rest.push((c, case_of(c.text@)->0))
        } else if c.kind == NodeKind::InitDeclarator {
            rest + styled_identifiers(c.children@, c.children@.len() as int)
        } else {
            rest
        }
    }
}

/// What node `n` itself contributes: the names a declaration declares, and
/// parameter names.
pub open spec fn own_identifiers(n: SyntaxNode) -> Seq<(SyntaxNode, IdentifierCase)> {
    let cs = n.children@;
    if n.kind == NodeKind::Declaration {
        declared_identifiers(cs, cs.len() as int)
    } else if n.kind == NodeKind::ParameterList {
        nested_identifiers(cs, cs.len() as int, NodeKind::ParameterDeclaration)
    } else {
        seq![]
    }
}

/// All styled identifiers of a tree, in pre-order.
pub open spec fn tree_identifiers(n: SyntaxNode) -> Seq<(SyntaxNode, IdentifierCase)>
    decreases n, 1nat,
{
    own_identifiers(n) + list_identifiers(n.children@, n.children@.len() as int)
}

pub open spec fn list_identifiers(ns: Seq<SyntaxNode>, k: int) -> Seq<(SyntaxNode, IdentifierCase)>
    decreases ns, k,
{
    if k <= 0 || k > ns.len() {
        seq![]
    } else {
        list_identifiers(ns, k - 1) + tree_identifiers(ns[k - 1])
    }
}

/// The name node of a macro definition whose name is not SCREAMING_SNAKE_CASE.
pub open spec fn own_bad_macro(n: SyntaxNode) -> Seq<SyntaxNode> {
    if n.kind == NodeKind::PreprocDef || n.kind == NodeKind::PreprocFunctionDef {
        match field_index(n.children@, Field::Name) {
            Some(i) => if !is_screaming_snake(n.children@[i].text@) {
                seq![n.children@[i]]
            } else {
                seq![]
            },
            None => seq![],
        }
    } else {
        seq![]
    }
}

/// The badly named macros of a tree, in pre-order.
pub open spec fn tree_bad_macros(n: SyntaxNode) -> Seq<SyntaxNode>
    decreases n, 1nat,
{
    own_bad_macro(n) + list_bad_macros(n.children@, n.children@.len() as int)
}

pub open spec fn list_bad_macros(ns: Seq<SyntaxNode>, k: int) -> Seq<SyntaxNode>
    decreases ns, k,
{
    if k <= 0 || k > ns.len() {
        seq![]
    } else {
        list_bad_macros(ns, k - 1) + tree_bad_macros(ns[k - 1])
    }
}

/// `id` records styled identifier `p` of `file`.
pub open spec fn records(id: Identifier, p: (SyntaxNode, IdentifierCase), file: Seq<char>) -> bool {
    &&& id.file@ == file
    &&& id.span == p.0.span
    &&& id.case == p.1
    &&& id.text@ == p.0.text@
}

pub open spec fn records_all(after: Seq<Identifier>, before: Seq<Identifier>, ps: Seq<(SyntaxNode, IdentifierCase)>, file: Seq<char>) -> bool {
    &&& after.len() == before.len() + ps.len()
    &&& after.subrange(0, before.len() as int) == before
    &&& forall|j: int| before.len() <= j < after.len() ==> records(#[trigger] after[j], ps[j - before.len()], file)
}

pub open spec fn macro_message() -> Seq<char> {
    "Macro is not SCREAMING_SNAKE_CASE"@
}

/// `l` flags macro name `m` of a file with lines `lines`.
pub open spec fn flags_macro(l: Lint, m: SyntaxNode, lines: Seq<Seq<char>>, file: Seq<char>) -> bool {
    &&& l.message@ == macro_message()
    &&& l.text@ == line_or_empty(lines, m.span.start_row as int)
    &&& l.span == m.span
    &&& l.file@ == file
    &&& l.sublints@.len() == 0
}

pub open spec fn flags_all(after: Seq<Lint>, before: Seq<Lint>, ms: Seq<SyntaxNode>, lines: Seq<Seq<char>>, file: Seq<char>) -> bool {
    &&& after.len() == before.len() + ms.len()
    &&& after.subrange(0, before.len() as int) == before
    &&& forall|j: int| before.len() <= j < after.len() ==> flags_macro(#[trigger] after[j], ms[j - before.len()], lines, file)
}

proof fn lemma_records_trans(
    a: Seq<Identifier>, b: Seq<Identifier>, c: Seq<Identifier>,
    x: Seq<(SyntaxNode, IdentifierCase)>, y: Seq<(SyntaxNode, IdentifierCase)>, file: Seq<char>,
)
    requires
        records_all(b, a, x, file),
        records_all(c, b, y, file),
    ensures
        records_all(c, a, x + y, file),
{
    assert(c.subrange(0, a.len() as int) =~= a) by {
        assert forall|j: int| 0 <= j < a.len() implies c.subrange(0, a.len() as int)[j] == a[j] by {
            assert(c.subrange(0, b.len() as int)[j] == b[j]);
            assert(b.subrange(0, a.len() as int)[j] == a[j]);
        }
    }
    assert forall|j: int| a.len() <= j < c.len() implies records(#[trigger] c[j], (x + y)[j - a.len()], file) by {
        if j < b.len() {
            assert(c.subrange(0, b.len() as int)[j] == c[j]);
            assert(records(b[j], x[j - a.len()], file));
        } else {
            assert(records(c[j], y[j - b.len()], file));
        }
    }
}

proof fn lemma_flags_trans(
    a: Seq<Lint>, b: Seq<Lint>, c: Seq<Lint>,
    x: Seq<SyntaxNode>, y: Seq<SyntaxNode>, lines: Seq<Seq<char>>, file: Seq<char>,
)
    requires
        flags_all(b, a, x, lines, file),
        flags_all(c, b, y, lines, file),
    ensures
        flags_all(c, a, x + y, lines, file),
{
    assert(c.subrange(0, a.len() as int) =~= a) by {
        assert forall|j: int| 0 <= j < a.len() implies c.subrange(0, a.len() as int)[j] == a[j] by {
            assert(c.subrange(0, b.len() as int)[j] == b[j]);
            assert(b.subrange(0, a.len() as int)[j] == a[j]);
        }
    }
    assert forall|j: int| a.len() <= j < c.len() implies flags_macro(#[trigger] c[j], (x + y)[j - a.len()], lines, file) by {
        if j < b.len() {
            assert(c.subrange(0, b.len() as int)[j] == c[j]);
            assert(flags_macro(b[j], x[j - a.len()], lines, file));
        } else {
            assert(flags_macro(c[j], y[j - b.len()], lines, file));
        }
    }
}

/// Records the styled identifier children of `n`.
fn collect_styled(n: &SyntaxNode, file: &String, ids: &mut Vec<Identifier>)
    ensures
        records_all(final(ids)@, old(ids)@, styled_identifiers(n.children@, n.children@.len() as int), file@),
{
    let ghost start = ids@;
    let mut i: usize = 0;
    assert(ids@.subrange(0, start.len() as int) =~= start);
    while i < n.children.len()
        invariant
            i <= n.children@.len(),
            records_all(ids@, start, styled_identifiers(n.children@, i as int), file@),
        decreases n.children@.len() - i,
    {
        let c = &n.children[i];
        if c.kind == NodeKind::Identifier {
            match classify_name(c.text.as_str()) {
                Some(case) => {
                    let ghost before = ids@;
                    ids.push(Identifier { file: file.clone(), span: c.span, case, text: c.text.clone() });
                    proof {
                        assert(ids@.subrange(0, start.len() as int) =~= before.subrange(0, start.len() as int));
                        assert(ids@.subrange(0, before.len() as int) =~= before);
                    }
                },
                None => {},
            }
        }
        i = i + 1;
    }
}

/// Records, for each child of `n` of kind `parent`, its styled identifier children.
fn collect_nested(n: &SyntaxNode, parent: NodeKind, file: &String, ids: &mut Vec<Identifier>)
    ensures
        records_all(final(ids)@, old(ids)@, nested_identifiers(n.children@, n.children@.len() as int, parent), file@),
{
    let ghost start = ids@;
    let mut i: usize = 0;
    assert(ids@.subrange(0, start.len() as int) =~= start);
    while i < n.children.len()
        invariant
            i <= n.children@.len(),
            records_all(ids@, start, nested_identifiers(n.children@, i as int, parent), file@),
        decreases n.children@.len() - i,
    {
        let c = &n.children[i];
        if c.kind == parent {
            let ghost before = ids@;
            collect_styled(c, file, ids);
            proof {
                lemma_records_trans(start, before, ids@, nested_identifiers(n.children@, i as int, parent),
                    styled_identifiers(c.children@, c.children@.len() as int), file@);
            }
        }
        i = i + 1;
    }
}

/// Records the names that declaration `n` declares, in source order.
fn collect_declared(n: &SyntaxNode, file: &String, ids: &mut Vec<Identifier>)
    ensures
        records_all(final(ids)@, old(ids)@, declared_identifiers(n.children@, n.children@.len() as int), file@),
{
    let ghost start = ids@;
    let mut i: usize = 0;
    assert(ids@.subrange(0, start.len() as int) =~= start);
    while i < n.children.len()
        invariant
            i <= n.children@.len(),
            records_all(ids@, start, declared_identifiers(n.children@, i as int), file@),
        decreases n.children@.len() - i,
    {
        let c = &n.children[i];
        let ghost before = ids@;
        if c.kind == NodeKind::Identifier {
            match classify_name(c.text.as_str()) {
                Some(case) => {
                    ids.push(Identifier { file: file.clone(), span: c.span, case, text: c.text.clone() });
                    proof {
                        assert(ids@.subrange(0, start.len() as int) =~= before.subrange(0, start.len() as int));
                        assert(ids@.subrange(0, before.len() as int) =~= before);
                    }
                },
                None => {},
            }
        } else if c.kind == NodeKind::InitDeclarator {
            collect_styled(c, file, ids);
            proof {
                lemma_records_trans(start, before, ids@, declared_identifiers(n.children@, i as int),
                    styled_identifiers(c.children@, c.children@.len() as int), file@);
            }
        }
        i = i + 1;
    }
}

/// Records the styled identifiers of the tree `n` and appends a finding for
/// each badly named macro, both in pre-order.
fn check_names(n: &SyntaxNode, lines: &Vec<String>, file: &String, lints: &mut Vec<Lint>, ids: &mut Vec<Identifier>)
    ensures
        records_all(final(ids)@, old(ids)@, tree_identifiers(*n), file@),
        flags_all(final(lints)@, old(lints)@, tree_bad_macros(*n), line_views(lines@), file@),
    decreases *n, 1nat,
{
    let ghost lv = line_views(lines@);
    let ghost ids0 = ids@;
    let ghost lints0 = lints@;
    assert(lints@.subrange(0, lints0.len() as int) =~= lints0);
    assert(ids@.subrange(0, ids0.len() as int) =~= ids0);
    if n.kind == NodeKind::Declaration {
        collect_declared(n, file, ids);
    } else if n.kind == NodeKind::ParameterList {
        collect_nested(n, NodeKind::ParameterDeclaration, file, ids);
    }
    if n.kind == NodeKind::PreprocDef || n.kind == NodeKind::PreprocFunctionDef {
        match n.field_position(Field::Name) {
            Some(i) => {
                let name = &n.children[i];
                if !is_screaming_snake_case(name.text.as_str()) {
                    let l = Lint {
                        message: String::from_str("Macro is not SCREAMING_SNAKE_CASE"),
                        text: line_at(lines, name.span.start_row),
                        span: name.span,
                        file: file.clone(),
                        sublints: Vec::new(),
                    };
                    lints.push(l);
                    proof {
                        assert(lints@.subrange(0, lints0.len() as int) =~= lints0);
                        assert(lv =~= lines@.map_values(|l: String| l@));
                    }
                }
            },
            None => {},
        }
    }
    let ghost ids1 = ids@;
    let ghost lints1 = lints@;
    let mut k: usize = 0;
    assert(ids@.subrange(0, ids1.len() as int) =~= ids1);
    assert(lints@.subrange(0, lints1.len() as int) =~= lints1);
    while k < n.children.len()
        invariant
            k <= n.children@.len(),
            lv == line_views(lines@),
            records_all(ids1, ids0, own_identifiers(*n), file@),
            flags_all(lints1, lints0, own_bad_macro(*n), lv, file@),
            records_all(ids@, ids1, list_identifiers(n.children@, k as int), file@),
            flags_all(lints@, lints1, list_bad_macros(n.children@, k as int), lv, file@),
        decreases n.children@.len() - k,
    {
        let ghost ids_b = ids@;
        let ghost lints_b = lints@;
        proof {
            assert(decreases_to!(n.children => n.children@));
            assert(decreases_to!(n.children@ => n.children@[k as int]));
        }
        check_names(&n.children[k], lines, file, lints, ids);
        proof {
            lemma_records_trans(ids1, ids_b, ids@, list_identifiers(n.children@, k as int),
                tree_identifiers(n.children@[k as int]), file@);
            lemma_flags_trans(lints1, lints_b, lints@, list_bad_macros(n.children@, k as int),
                tree_bad_macros(n.children@[k as int]), lv, file@);
        }
        k = k + 1;
    }
    proof {
        lemma_records_trans(ids0, ids1, ids@, own_identifiers(*n), list_identifiers(n.children@, k as int), file@);
        lemma_flags_trans(lints0, lints1, lints@, own_bad_macro(*n), list_bad_macros(n.children@, k as int), lv, file@);
    }
}

/// The naming check of one file: a finding for each macro whose name is not
/// SCREAMING_SNAKE_CASE, and every identifier that is lower_snake_case or
/// camelCase (declared names, initialized declarators, parameters), both in
/// source order.
pub fn lint_identifiers(root: &SyntaxNode, lines: &Vec<String>, file: &String) -> (r: (Vec<Lint>, Vec<Identifier>))
    ensures
        flags_all(r.0@, Seq::<Lint>::empty(), tree_bad_macros(*root), line_views(lines@), file@),
        records_all(r.1@, Seq::<Identifier>::empty(), tree_identifiers(*root), file@),
{
    let mut lints: Vec<Lint> = Vec::new();
    let mut ids: Vec<Identifier> = Vec::new();
    check_names(root, lines, file, &mut lints, &mut ids);
    (lints, ids)
}

/// The identifiers of style `c`, in order.
pub open spec fn with_case(ids: Seq<Identifier>, c: IdentifierCase) -> Seq<Identifier>
    decreases ids.len(),
{
    if ids.len() == 0 {
        seq![]
    } else {
        let rest = with_case(ids.drop_last(), c);
        if ids.last().case == c {
            rest.push(ids.last())
        } else {
            rest
        }
    }
}

/// Both styles occur among `ids`.
pub open spec fn mixed_styles(ids: Seq<Identifier>) -> bool {
    &&& exists|i: int| 0 <= i < ids.len() && #[trigger] ids[i].case == IdentifierCase::LowerSnake
    &&& exists|i: int| 0 <= i < ids.len() && #[trigger] ids[i].case == IdentifierCase::Camel
}

pub open spec fn consistency_message(c: IdentifierCase) -> Seq<char> {
    match c {
        IdentifierCase::LowerSnake => "Snake case identifier contributes to case inconsistency"@,
        IdentifierCase::Camel => "Camel case identifier contributes to case inconsistency"@,
    }
}

/// `l` reports identifier `id` as part of a style inconsistency.
pub open spec fn flags_identifier(l: Lint, id: Identifier) -> bool {
    &&& l.message@ == consistency_message(id.case)
    &&& l.text@ == id.text@
    &&& l.span == id.span
    &&& l.file@ == id.file@
    &&& l.sublints@.len() == 0
}

proof fn lemma_with_case_member(ids: Seq<Identifier>, i: int)
    requires
        0 <= i < ids.len(),
    ensures
        exists|m: int| 0 <= m < with_case(ids, ids[i].case).len() && with_case(ids, ids[i].case)[m] == ids[i],
    decreases ids.len(),
{
    let c = ids[i].case;
    if i == ids.len() - 1 {
        let w = with_case(ids, c);
        assert(w[w.len() - 1] == ids[i]);
    } else {
        lemma_with_case_member(ids.drop_last(), i);
        let m = choose|m: int| 0 <= m < with_case(ids.drop_last(), c).len() && with_case(ids.drop_last(), c)[m] == ids.drop_last()[i];
        assert(with_case(ids, c)[m] == ids[i]);
    }
}

/// Appends a finding for each identifier of style `c`, in order.
fn flag_case(ids: &Vec<Identifier>, c: IdentifierCase, out: &mut Vec<Lint>)
    ensures
        final(out)@.len() == old(out)@.len() + with_case(ids@, c).len(),
        final(out)@.subrange(0, old(out)@.len() as int) == old(out)@,
        forall|j: int| 0 <= j < with_case(ids@, c).len()
            ==> flags_identifier(#[trigger] final(out)@[old(out)@.len() + j], with_case(ids@, c)[j]),
{
    let ghost start = out@;
    let mut i: usize = 0;
    assert(out@.subrange(0, start.len() as int) =~= start);
    while i < ids.len()
        invariant
            i <= ids@.len(),
            out@.len() == start.len() + with_case(ids@.take(i as int), c).len(),
            out@.subrange(0, start.len() as int) == start,
            forall|j: int| 0 <= j < with_case(ids@.take(i as int), c).len()
                ==> flags_identifier(#[trigger] out@[start.len() + j], with_case(ids@.take(i as int), c)[j]),
        decreases ids@.len() - i,
    {
        proof {
            assert(ids@.take(i + 1).drop_last() =~= ids@.take(i as int));
            assert(ids@.take(i + 1).last() == ids@[i as int]);
        }
        let id = &ids[i];
        if id.case == c {
            let message = match c {
                IdentifierCase::LowerSnake => String::from_str("Snake case identifier contributes to case inconsistency"),
                IdentifierCase::Camel => String::from_str("Camel case identifier contributes to case inconsistency"),
            };
            let ghost before = out@;
            out.push(Lint { message, text: id.text.clone(), span: id.span, file: id.file.clone(), sublints: Vec::new() });
            proof {
                assert(out@.subrange(0, start.len() as int) =~= before.subrange(0, start.len() as int));
                assert forall|j: int| 0 <= j < with_case(ids@.take(i + 1), c).len()
                    implies flags_identifier(#[trigger] out@[start.len() + j], with_case(ids@.take(i + 1), c)[j]) by {
                    if j < with_case(ids@.take(i as int), c).len() {
                        assert(out@[start.len() + j] == before[start.len() + j]);
                    }
                }
            }
        }
        i = i + 1;
    }
    proof {
        assert(ids@.take(i as int) =~= ids@);
    }
}

/// The project-wide style check: when both lower_snake_case and camelCase
/// identifiers occur, one finding for each snake case identifier and then
/// one for each camel case identifier, each in order; otherwise none.
pub fn consistency_lints(ids: &Vec<Identifier>) -> (r: Vec<Lint>)
    ensures
        !mixed_styles(ids@) ==> r@.len() == 0,
        mixed_styles(ids@) ==> {
            let s = with_case(ids@, IdentifierCase::LowerSnake);
            let c = with_case(ids@, IdentifierCase::Camel);
            &&& r@.len() == s.len() + c.len()
            &&& forall|j: int| 0 <= j < s.len() ==> flags_identifier(#[trigger] r@[j], s[j])
            &&& forall|j: int| 0 <= j < c.len() ==> flags_identifier(#[trigger] r@[s.len() + j], c[j])
        },
        mixed_styles(ids@) ==> forall|i: int| #![trigger ids@[i]] 0 <= i < ids@.len()
            ==> exists|k: int| 0 <= k < r@.len() && flags_identifier(#[trigger] r@[k], ids@[i]),
{
    let mut has_snake = false;
    let mut has_camel = false;
    let mut i: usize = 0;
    while i < ids.len()
        invariant
            i <= ids@.len(),
            has_snake == exists|k: int| 0 <= k < i && #[trigger] ids@[k].case == IdentifierCase::LowerSnake,
            has_camel == exists|k: int| 0 <= k < i && #[trigger] ids@[k].case == IdentifierCase::Camel,
        decreases ids@.len() - i,
    {
        if ids[i].case == IdentifierCase::LowerSnake {
            has_snake = true;
        } else {
            has_camel = true;
        }
        i = i + 1;
    }
    let mut out: Vec<Lint> = Vec::new();
    if has_snake && has_camel {
        flag_case(ids, IdentifierCase::LowerSnake, &mut out);
        let ghost mid = out@;
        flag_case(ids, IdentifierCase::Camel, &mut out);
        proof {
            let s = with_case(ids@, IdentifierCase::LowerSnake);
            let c = with_case(ids@, IdentifierCase::Camel);
            assert forall|j: int| 0 <= j < s.len() implies flags_identifier(#[trigger] out@[j], s[j]) by {
                assert(out@.subrange(0, mid.len() as int)[j] == out@[j]);
                assert(flags_identifier(mid[0 + j], s[j]));
            }
            assert forall|k: int| #![trigger ids@[k]] 0 <= k < ids@.len() implies exists|m: int| 0 <= m < out@.len() && flags_identifier(#[trigger] out@[m], ids@[k]) by {
                lemma_with_case_member(ids@, k);
                let w = with_case(ids@, ids@[k].case);
                let m = choose|m: int| 0 <= m < w.len() && w[m] == ids@[k];
                if ids@[k].case == IdentifierCase::LowerSnake {
                    assert(out@.subrange(0, mid.len() as int)[m] == out@[m]);
                    assert(flags_identifier(mid[0 + m], s[m]));
                    assert(flags_identifier(out@[m], ids@[k]));
                } else {
                    assert(flags_identifier(out@[s.len() + m], c[m]));
                }
            }
        }
    }
    out
}

} // verus!
