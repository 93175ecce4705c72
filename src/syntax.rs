//! A plain model of a C syntax tree: node kinds, the field each node fills
//! in its parent, source spans and the text each node covers.
use vstd::prelude::*;
use crate::text::chars_of;

verus! {

/// A region of one text buffer: rows and columns from zero, and byte offsets.
#[derive(Clone, Copy, Debug, PartialEq, Eq, Structural)]
pub struct Span {
    pub start_row: usize,
    pub start_col: usize,
    pub end_row: usize,
    pub end_col: usize,
    pub start_byte: usize,
    pub end_byte: usize,
}

/// The node kinds of the C grammar that the checks look at.
#[derive(Clone, Copy, Debug, PartialEq, Eq, Structural)]
pub enum NodeKind {
    TranslationUnit,
    Declaration,
    InitDeclarator,
    Identifier,
    FunctionDefinition,
    Comment,
    CompoundStatement,
    IfStatement,
    ElseClause,
    WhileStatement,
    DoStatement,
    ForStatement,
    SwitchStatement,
    CaseStatement,
    ExpressionStatement,
    BreakStatement,
    ContinueStatement,
    ReturnStatement,
    PreprocIfdef,
    PreprocInclude,
    PreprocDef,
    PreprocFunctionDef,
    StringLiteral,
    ParameterList,
    ParameterDeclaration,
    Other,
}

/// The grammar fields that the checks read.
#[derive(Clone, Copy, Debug, PartialEq, Eq, Structural)]
pub enum Field {
    Body,
    Condition,
    Consequence,
    Alternative,
    Declarator,
    Name,
    Path,
    Other,
    Unnamed,
}

/// One node: its kind, the field it fills in its parent, its span, the text
/// it covers and its children in source order.
#[derive(Debug)]
pub struct SyntaxNode {
    pub kind: NodeKind,
    pub field: Field,
    pub span: Span,
    pub text: String,
    pub children: Vec<SyntaxNode>,
}

/// The kind that a grammar kind name stands for.
pub open spec fn kind_named(name: Seq<char>) -> NodeKind {
    if name == "translation_unit"@ { NodeKind::TranslationUnit }
    else if name == "declaration"@ { NodeKind::Declaration }
    else if name == "init_declarator"@ { NodeKind::InitDeclarator }
    else if name == "identifier"@ { NodeKind::Identifier }
    else if name == "function_definition"@ { NodeKind::FunctionDefinition }
    else if name == "comment"@ { NodeKind::Comment }
    else if name == "compound_statement"@ { NodeKind::CompoundStatement }
    else if name == "if_statement"@ { NodeKind::IfStatement }
    else if name == "else_clause"@ { NodeKind::ElseClause }
    else if name == "while_statement"@ { NodeKind::WhileStatement }
    else if name == "do_statement"@ { NodeKind::DoStatement }
    else if name == "for_statement"@ { NodeKind::ForStatement }
    else if name == "switch_statement"@ { NodeKind::SwitchStatement }
    else if name == "case_statement"@ { NodeKind::CaseStatement }
    else if name == "expression_statement"@ { NodeKind::ExpressionStatement }
    else if name == "break_statement"@ { NodeKind::BreakStatement }
    else if name == "continue_statement"@ { NodeKind::ContinueStatement }
    else if name == "return_statement"@ { NodeKind::ReturnStatement }
    else if name == "preproc_ifdef"@ { NodeKind::PreprocIfdef }
    else if name == "preproc_include"@ { NodeKind::PreprocInclude }
    else if name == "preproc_def"@ { NodeKind::PreprocDef }
    else if name == "preproc_function_def"@ { NodeKind::PreprocFunctionDef }
    else if name == "string_literal"@ { NodeKind::StringLiteral }
    else if name == "parameter_list"@ { NodeKind::ParameterList }
    else if name == "parameter_declaration"@ { NodeKind::ParameterDeclaration }
    else { NodeKind::Other }
}

/// The field that a grammar field name stands for.
pub open spec fn field_named(name: Seq<char>) -> Field {
    if name == "body"@ { Field::Body }
    else if name == "condition"@ { Field::Condition }
    else if name == "consequence"@ { Field::Consequence }
    else if name == "alternative"@ { Field::Alternative }
    else if name == "declarator"@ { Field::Declarator }
    else if name == "name"@ { Field::Name }
    else if name == "path"@ { Field::Path }
    else { Field::Other }
}

/// Whether two strings hold the same characters.
pub fn same_text(a: &str, b: &str) -> (r: bool)
    ensures
        r == (a@ == b@),
{
    let x = chars_of(a);
    let y = chars_of(b);
    if x.len() != y.len() {
        return false;
    }
    let mut i: usize = 0;
    while i < x.len()
        invariant
            x@ == a@,
            y@ == b@,
            x@.len() == y@.len(),
            i <= x@.len(),
            forall|k: int| 0 <= k < i ==> x@[k] == y@[k],
        decreases x@.len() - i,
    {
        if x[i] != y[i] {
            return false;
        }
        i = i + 1;
    }
    assert(x@ =~= y@);
    true
}

impl NodeKind {
    /// The kind named by a grammar kind name; names the checks ignore give `Other`.
    pub fn from_name(name: &str) -> (r: NodeKind)
        ensures
            r == kind_named(name@),
    {
        if same_text(name, "translation_unit") { NodeKind::TranslationUnit }
        else if same_text(name, "declaration") { NodeKind::Declaration }
        else if same_text(name, "init_declarator") { NodeKind::InitDeclarator }
        else if same_text(name, "identifier") { NodeKind::Identifier }
        else if same_text(name, "function_definition") { NodeKind::FunctionDefinition }
        else if same_text(name, "comment") { NodeKind::Comment }
        else if same_text(name, "compound_statement") { NodeKind::CompoundStatement }
        else if same_text(name, "if_statement") { NodeKind::IfStatement }
        else if same_text(name, "else_clause") { NodeKind::ElseClause }
        else if same_text(name, "while_statement") { NodeKind::WhileStatement }
        else if same_text(name, "do_statement") { NodeKind::DoStatement }
        else if same_text(name, "for_statement") { NodeKind::ForStatement }
        else if same_text(name, "switch_statement") { NodeKind::SwitchStatement }
        else if same_text(name, "case_statement") { NodeKind::CaseStatement }
        else if same_text(name, "expression_statement") { NodeKind::ExpressionStatement }
        else if same_text(name, "break_statement") { NodeKind::BreakStatement }
        else if same_text(name, "continue_statement") { NodeKind::ContinueStatement }
        else if same_text(name, "return_statement") { NodeKind::ReturnStatement }
        else if same_text(name, "preproc_ifdef") { NodeKind::PreprocIfdef }
        else if same_text(name, "preproc_include") { NodeKind::PreprocInclude }
        else if same_text(name, "preproc_def") { NodeKind::PreprocDef }
        else if same_text(name, "preproc_function_def") { NodeKind::PreprocFunctionDef }
        else if same_text(name, "string_literal") { NodeKind::StringLiteral }
        else if same_text(name, "parameter_list") { NodeKind::ParameterList }
        else if same_text(name, "parameter_declaration") { NodeKind::ParameterDeclaration }
        else { NodeKind::Other }
    }
}

impl Field {
    /// The field named by a grammar field name; a child outside any field is `Unnamed`.
    pub fn from_name(name: Option<&str>) -> (r: Field)
        ensures
            r == (match name {
                Some(n) => field_named(n@),
                None => Field::Unnamed,
            }),
    {
        match name {
            None => Field::Unnamed,
            Some(n) => {
                if same_text(n, "body") { Field::Body }
                else if same_text(n, "condition") { Field::Condition }
                else if same_text(n, "consequence") { Field::Consequence }
                else if same_text(n, "alternative") { Field::Alternative }
                else if same_text(n, "declarator") { Field::Declarator }
                else if same_text(n, "name") { Field::Name }
                else if same_text(n, "path") { Field::Path }
                else { Field::Other }
            }
        }
    }
}

/// Index of the first of `children` that fills field `f`.
pub open spec fn field_index(children: Seq<SyntaxNode>, f: Field) -> Option<int>
    decreases children.len(),
{
    if children.len() == 0 {
        None
    } else {
        match field_index(children.drop_last(), f) {
            Some(i) => Some(i),
            None => if children.last().field == f {
                Some(children.len() - 1)
            } else {
                None
            },
        }
    }
}

proof fn lemma_field_index(children: Seq<SyntaxNode>, f: Field)
    ensures
        match field_index(children, f) {
            Some(i) => 0 <= i < children.len() && children[i].field == f
                && forall|k: int| 0 <= k < i ==> children[k].field != f,
            None => forall|k: int| 0 <= k < children.len() ==> children[k].field != f,
        },
    decreases children.len(),
{
    if children.len() > 0 {
        let p = children.drop_last();
        lemma_field_index(p, f);
        assert(forall|k: int| 0 <= k < p.len() ==> p[k] == children[k]);
    }
}

impl SyntaxNode {
    /// Position among the children of the first child filling field `f`.
    pub fn field_position(&self, f: Field) -> (r: Option<usize>)
        ensures
            r matches Some(i) ==> field_index(self.children@, f) == Some(i as int) && i < self.children@.len(),
            r is None ==> field_index(self.children@, f) is None,
    {
        proof {
            lemma_field_index(self.children@, f);
        }
        let mut i: usize = 0;
        while i < self.children.len()
            invariant
                i <= self.children@.len(),
                forall|k: int| 0 <= k < i ==> self.children@[k].field != f,
                match field_index(self.children@, f) {
                    Some(j) => 0 <= j < self.children@.len() && self.children@[j].field == f
                        && forall|k: int| 0 <= k < j ==> self.children@[k].field != f,
                    None => forall|k: int| 0 <= k < self.children@.len() ==> self.children@[k].field != f,
                },
            decreases self.children@.len() - i,
        {
            if self.children[i].field == f {
                return Some(i);
            }
            i = i + 1;
        }
        None
    }
}

} // verus!
