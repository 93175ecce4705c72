use c_lint::complexity::count_function_body;
use c_lint::identifiers::{classify_name, consistency_lints, is_screaming_snake_case, lint_identifiers, Identifier, IdentifierCase};
use c_lint::includes::{local_includes, normalize, resolve_include, IncludeResolver, ResolveStep};
use c_lint::lint::{lint_declarations, lint_function_lengths, Lint};
use c_lint::realign::realign;
use c_lint::syntax::{Field, NodeKind, Span, SyntaxNode};
use c_lint::text::{decimal_string, split_lines};

fn copy_node(node: tree_sitter::Node, field: Option<&str>, src: &str) -> SyntaxNode {
    let mut children = Vec::new();
    let mut cursor = node.walk();
    if cursor.goto_first_child() {
        loop {
            children.push(copy_node(cursor.node(), cursor.field_name(), src));
            if !cursor.goto_next_sibling() {
                break;
            }
        }
    }
    let r = node.range();
    SyntaxNode {
        kind: NodeKind::from_name(node.kind()),
        field: Field::from_name(field),
        span: Span {
            start_row: r.start_point.row,
            start_col: r.start_point.column,
            end_row: r.end_point.row,
            end_col: r.end_point.column,
            start_byte: r.start_byte,
            end_byte: r.end_byte,
        },
        text: src[r.start_byte..r.end_byte].to_string(),
        children,
    }
}

fn parse(src: &str) -> SyntaxNode {
    let mut parser = tree_sitter::Parser::new();
    parser.set_language(tree_sitter_c::language()).unwrap();
    let tree = parser.parse(src, None).unwrap();
    copy_node(tree.root_node(), None, src)
}

fn first_function_body(root: &SyntaxNode) -> &SyntaxNode {
    let f = root.children.iter().find(|c| c.kind == NodeKind::FunctionDefinition).unwrap();
    f.children.iter().find(|c| c.field == Field::Body).unwrap()
}

fn body_score(src: &str) -> (usize, Vec<Lint>) {
    let root = parse(src);
    let lines = split_lines(src);
    count_function_body(first_function_body(&root), &lines, &"f.c".to_string()).unwrap()
}

fn counted_value(message: &str) -> usize {
    let after = message.rsplit(" for ").next().unwrap();
    after.split(' ').next().unwrap().parse().unwrap()
}

#[test]
fn single_return_counts_one() {
    let (score, items) = body_score("int f(void) {\n  return 0;\n}\n");
    assert_eq!(score, 1);
    assert_eq!(items.len(), 1);
    assert_eq!(items[0].message, "Counted return statement for 1 line");
    assert_eq!(items[0].text, "  return 0;");
    assert_eq!(items[0].span.start_row, 1);
    assert_eq!(items[0].span.start_col, 9);
}

#[test]
fn contributions_add_up_to_score() {
    let src = "int f(int n) {\n  int a = 1;\n  int b;\n  if (n >\n      2) {\n    a++;\n  } else {\n    a--;\n  }\n  while (a < 10) { a++; continue; }\n  do { a--; } while (a > 0);\n  for (int i = 0;\n       i < n; i++) { b = i; break; }\n  switch (n) {\n  case 1:\n    a = 2;\n    break;\n  default: { a = 3; }\n  }\n  return a;\n}\n";
    let (score, items) = body_score(src);
    let sum: usize = items.iter().map(|l| counted_value(&l.message)).sum();
    assert_eq!(sum, score);
    assert_eq!(score, 18);
    assert!(items.iter().all(|l| l.sublints.is_empty() && l.file == "f.c"));
}

#[test]
fn multi_line_condition_counts_its_rows() {
    let (score, items) = body_score("int f(int n) {\n  if (n >\n      2)\n    return 1;\n  return 0;\n}\n");
    assert_eq!(score, 4);
    assert_eq!(items[0].message, "Counted if condition for 2 lines");
    assert_eq!(items[1].message, "Counted return statement for 1 line");
}

#[test]
fn for_header_spans_keyword_to_parenthesis() {
    let (score, items) = body_score("void f(int n) {\n  for (int i = 0;\n       i < n;\n       i++)\n    g(i);\n}\n");
    assert_eq!(score, 4);
    assert_eq!(items[0].message, "Counted for condition for 3 lines");
    assert_eq!(items[0].span.start_row, 1);
    assert_eq!(items[1].message, "Counted expression for 1 line");
}

#[test]
fn uninitialized_declaration_counts_nothing() {
    let (score, items) = body_score("void f(void) {\n  int a;\n  int b = 2;\n}\n");
    assert_eq!(score, 1);
    assert_eq!(items.len(), 1);
    assert_eq!(items[0].message, "Counted definition for 1 line");
}

#[test]
fn case_break_is_free() {
    let with_break = body_score("void f(int n) {\n  switch (n) {\n  case 1:\n    g();\n    break;\n  }\n}\n");
    let without = body_score("void f(int n) {\n  switch (n) {\n  case 1:\n    g();\n  }\n}\n");
    assert_eq!(with_break.0, without.0);
    assert_eq!(with_break.0, 2);
    assert_eq!(with_break.1.len(), without.1.len());
}

#[test]
fn case_block_break_is_free() {
    let with_break = body_score("void f(int n) {\n  switch (n) {\n  case 1: {\n    g();\n    break;\n  }\n  }\n}\n");
    let without = body_score("void f(int n) {\n  switch (n) {\n  case 1: {\n    g();\n  }\n  }\n}\n");
    assert_eq!(with_break.0, without.0);
    assert_eq!(with_break.0, 2);
}

#[test]
fn break_outside_case_counts_one() {
    let (score, items) = body_score("void f(void) {\n  while (1) {\n    break;\n  }\n}\n");
    assert_eq!(score, 2);
    assert_eq!(items[1].message, "Counted break statement for 1 line");
}

#[test]
fn debug_block_is_not_counted() {
    let debug = body_score("void f(void) {\n#ifdef DEBUG\n  g();\n  g();\n#endif\n  g();\n}\n");
    assert_eq!(debug.0, 1);
    let other = body_score("void f(void) {\n#ifdef VERBOSE\n  g();\n  g();\n#endif\n  g();\n}\n");
    assert_eq!(other.0, 3);
}

#[test]
fn realign_only_includes_is_empty() {
    let raw = "# 0 \"<stdin>\"\n# 0 \"<built-in>\"\n# 1 \"<stdin>\"\n# 1 \"a.h\" 1\nint from_header;\n\n# 2 \"<stdin>\" 2\n";
    assert_eq!(realign(raw, "<stdin>"), "");
}

#[test]
fn realign_round_trip() {
    let text = "int main(void) {\n  return 0;\n}\n";
    let raw = "# 0 \"<stdin>\"\n# 0 \"<built-in>\"\n# 0 \"<command-line>\"\n# 1 \"/usr/include/stdc-predef.h\" 1 3 4\n\n# 0 \"<command-line>\" 2\n# 1 \"<stdin>\"\nint main(void) {\n  return 0;\n}\n";
    assert_eq!(realign(raw, "<stdin>"), text);
}

#[test]
fn realign_pads_to_original_lines() {
    let raw = "# 1 \"<stdin>\"\nint a;\n# 1 \"x.h\" 1\nint b;\n# 4 \"<stdin>\" 2\nint c;\nint d;\n";
    assert_eq!(realign(raw, "<stdin>"), "int a;\n\n\nint c;\nint d;\n");
}

#[test]
fn realign_skips_malformed_marker() {
    let raw = "# 1 \"<stdin>\"\nint a;\n# 7 no quotes\nint b;\n";
    assert_eq!(realign(raw, "<stdin>"), "int a;\nint b;\n");
}

#[test]
fn realign_matches_name_exactly() {
    let raw = "# 1 \"<STDIN>\"\nint a;\n";
    assert_eq!(realign(raw, "<stdin>"), "");
}

fn ident(case: IdentifierCase, text: &str, row: usize) -> Identifier {
    Identifier {
        file: "a.c".to_string(),
        span: Span { start_row: row, start_col: 0, end_row: row, end_col: text.len(), start_byte: 0, end_byte: text.len() },
        case,
        text: text.to_string(),
    }
}

#[test]
fn mixed_styles_flag_every_identifier() {
    let ids = vec![
        ident(IdentifierCase::Camel, "myValue", 0),
        ident(IdentifierCase::LowerSnake, "my_value", 1),
        ident(IdentifierCase::Camel, "otherValue", 2),
    ];
    let lints = consistency_lints(&ids);
    assert_eq!(lints.len(), 3);
    assert_eq!(lints[0].message, "Snake case identifier contributes to case inconsistency");
    assert_eq!(lints[0].text, "my_value");
    assert_eq!(lints[1].message, "Camel case identifier contributes to case inconsistency");
    assert_eq!(lints[1].text, "myValue");
    assert_eq!(lints[2].text, "otherValue");
}

#[test]
fn single_style_flags_nothing() {
    let ids = vec![ident(IdentifierCase::LowerSnake, "my_value", 0), ident(IdentifierCase::LowerSnake, "x_y", 1)];
    assert!(consistency_lints(&ids).is_empty());
    assert!(consistency_lints(&Vec::new()).is_empty());
}

#[test]
fn identifiers_are_collected_and_classified() {
    let src = "int my_count = 1, otherCount;\nvoid f(int first_arg, int secondArg, int x) {\n  int local_value = first_arg;\n}\n";
    let root = parse(src);
    let lines = split_lines(src);
    let (lints, ids) = lint_identifiers(&root, &lines, &"a.c".to_string());
    assert!(lints.is_empty());
    let seen: Vec<(&str, IdentifierCase)> = ids.iter().map(|i| (i.text.as_str(), i.case)).collect();
    assert!(seen.contains(&("my_count", IdentifierCase::LowerSnake)));
    assert!(seen.contains(&("otherCount", IdentifierCase::Camel)));
    assert!(seen.contains(&("first_arg", IdentifierCase::LowerSnake)));
    assert!(seen.contains(&("secondArg", IdentifierCase::Camel)));
    assert!(seen.contains(&("local_value", IdentifierCase::LowerSnake)));
    assert!(!seen.iter().any(|(t, _)| *t == "x"));
    assert_eq!(ids.len(), 6);
}

#[test]
fn macro_naming() {
    let src = "#define myMacro 1\n#define MY_MACRO 1\n#define twice(x) ((x) * 2)\n";
    let root = parse(src);
    let lines = split_lines(src);
    let (lints, _) = lint_identifiers(&root, &lines, &"m.h".to_string());
    assert_eq!(lints.len(), 2);
    assert_eq!(lints[0].message, "Macro is not SCREAMING_SNAKE_CASE");
    assert_eq!(lints[0].text, "#define myMacro 1");
    assert_eq!(lints[0].span.start_row, 0);
    assert_eq!(lints[1].span.start_row, 2);
}

#[test]
fn name_patterns() {
    assert!(is_screaming_snake_case("MY_MACRO"));
    assert!(is_screaming_snake_case("X1"));
    assert!(!is_screaming_snake_case("myMacro"));
    assert!(!is_screaming_snake_case(""));
    assert_eq!(classify_name("my_value"), Some(IdentifierCase::LowerSnake));
    assert_eq!(classify_name("myValue"), Some(IdentifierCase::Camel));
    assert_eq!(classify_name("value"), None);
    assert_eq!(classify_name("_value"), None);
    assert_eq!(classify_name("MyValue"), None);
    assert_eq!(classify_name("a1B2"), None);
    assert_eq!(classify_name("abC2d"), Some(IdentifierCase::Camel));
}

fn twelve_statement_file() -> String {
    let mut src = String::from("/* adds */\nint add(int a) {\n");
    for i in 0..12 {
        src.push_str(&format!("  a = a + {};\n", i));
    }
    src.push_str("}\n");
    src
}

#[test]
fn long_function_is_flagged_once() {
    let src = twelve_statement_file();
    let root = parse(&src);
    let lines = split_lines(&src);
    let file = "long.c".to_string();
    let lengths = lint_function_lengths(&root, &lines, &file);
    assert_eq!(lengths.len(), 1);
    assert_eq!(lengths[0].message, "Function has more than 10 lines (12)");
    assert!(lengths[0].message.contains("12"));
    assert_eq!(lengths[0].text, "int add(int a) {");
    assert_eq!(lengths[0].sublints.len(), 12);
    assert!(lint_declarations(&root, &lines, &file).is_empty());
    let (macros, _) = lint_identifiers(&root, &lines, &file);
    assert!(macros.is_empty());
}

#[test]
fn short_function_is_not_flagged() {
    let src = "/* ok */\nint f(void) {\n  return 1;\n}\n";
    let root = parse(src);
    let lines = split_lines(src);
    assert!(lint_function_lengths(&root, &lines, &"s.c".to_string()).is_empty());
}

#[test]
fn global_variable_is_flagged_once() {
    let src = "int global_x;\n";
    let root = parse(src);
    let lines = split_lines(src);
    let found = lint_declarations(&root, &lines, &"g.c".to_string());
    assert_eq!(found.len(), 1);
    assert_eq!(found[0].message, "Global variable");
    assert_eq!(found[0].text, "int global_x;");
    assert_eq!(found[0].file, "g.c");
}

#[test]
fn function_prototype_is_not_a_global() {
    let src = "int f(void);\n";
    let root = parse(src);
    let lines = split_lines(src);
    assert!(lint_declarations(&root, &lines, &"p.c".to_string()).is_empty());
}

#[test]
fn uncommented_function_is_flagged_once() {
    let src = "int x(void) {\n  return 1;\n}\n";
    let root = parse(src);
    let lines = split_lines(src);
    let found = lint_declarations(&root, &lines, &"c.c".to_string());
    assert_eq!(found.len(), 1);
    assert_eq!(found[0].message, "Missing comment directly above function");
    assert_eq!(found[0].text, "int x(void) {");
}

#[test]
fn comment_must_touch_function() {
    let touching = "// does x\nint x(void) {\n  return 1;\n}\n";
    let root = parse(touching);
    assert!(lint_declarations(&root, &split_lines(touching), &"c.c".to_string()).is_empty());
    let gap = "// does x\n\nint x(void) {\n  return 1;\n}\n";
    let root = parse(gap);
    assert_eq!(lint_declarations(&root, &split_lines(gap), &"c.c".to_string()).len(), 1);
}

#[test]
fn include_cycle_is_reported() {
    let root = "a.h".to_string();
    let mut resolver = IncludeResolver::new(&root);
    assert!(resolver.awaiting_includes());
    let mut step = resolver.loaded(vec!["b.h".to_string()]);
    let mut loads = Vec::new();
    let mut circular = None;
    for _ in 0..20 {
        step = match step {
            ResolveStep::Continue => resolver.advance(),
            ResolveStep::Load(p) => {
                loads.push(p.clone());
                let includes = if p == "b.h" { vec!["a.h".to_string()] } else { Vec::new() };
                resolver.loaded(includes)
            }
            ResolveStep::Circular(p) => {
                circular = Some(p);
                break;
            }
            ResolveStep::Done => break,
        };
    }
    assert_eq!(loads, vec!["b.h".to_string()]);
    assert_eq!(circular, Some(vec!["a.h".to_string(), "b.h".to_string(), "a.h".to_string()]));
}

#[test]
fn shared_header_is_found_once() {
    let root = "main.c".to_string();
    let mut resolver = IncludeResolver::new(&root);
    let mut step = resolver.loaded(vec!["a.h".to_string(), "b.h".to_string()]);
    let mut done = false;
    for _ in 0..50 {
        step = match step {
            ResolveStep::Continue => resolver.advance(),
            ResolveStep::Load(p) => {
                let includes = if p == "a.h" || p == "b.h" { vec!["common.h".to_string()] } else { Vec::new() };
                resolver.loaded(includes)
            }
            ResolveStep::Circular(c) => panic!("unexpected cycle {:?}", c),
            ResolveStep::Done => {
                done = true;
                break;
            }
        };
    }
    assert!(done);
    let files = resolver.into_files();
    assert_eq!(files, vec!["main.c", "a.h", "common.h", "b.h"]);
}

#[test]
fn quoted_includes_only() {
    let src = "#include <stdio.h>\n#include \"util.h\"\n#include \"dir/other.h\"\nint main(void) { return 0; }\n";
    let root = parse(src);
    assert_eq!(local_includes(&root), vec!["util.h", "dir/other.h"]);
}

#[test]
fn include_paths_resolve_relative_to_the_file() {
    assert_eq!(resolve_include("src/main.c", "util.h"), "src/util.h");
    assert_eq!(resolve_include("main.c", "util.h"), "util.h");
    assert_eq!(resolve_include("src/main.c", "/usr/x.h"), "/usr/x.h");
    assert_eq!(resolve_include("/a/b/c.h", "../d.h"), "/a/d.h");
    assert_eq!(resolve_include("main.c", "./x.h"), "x.h");
    assert_eq!(resolve_include("src/main.c", "../inc//./y.h"), "inc/y.h");
    assert_eq!(resolve_include("main.c", "../up.h"), "../up.h");
    assert_eq!(resolve_include("/main.c", "../../root.h"), "/root.h");
}

#[test]
fn cycle_through_parent_directory_is_reported() {
    let root = "d/a.h".to_string();
    let mut resolver = IncludeResolver::new(&root);
    let written = "../d/a.h";
    let step = resolver.loaded(vec![resolve_include(&root, written)]);
    assert!(matches!(step, ResolveStep::Continue));
    match resolver.advance() {
        ResolveStep::Circular(c) => assert_eq!(c, vec!["d/a.h", "d/a.h"]),
        other => panic!("expected a cycle, got {:?}", other),
    }
}

#[test]
fn realign_of_empty_output_is_empty() {
    assert_eq!(realign("", "<stdin>"), "");
}

#[test]
fn lines_split_like_str_lines() {
    assert_eq!(split_lines("a\r\nb\n\nc"), vec!["a", "b", "", "c"]);
    assert_eq!(split_lines("a\n"), vec!["a"]);
    assert!(split_lines("").is_empty());
}

#[test]
fn decimal_rendering() {
    assert_eq!(decimal_string(0), "0");
    assert_eq!(decimal_string(7), "7");
    assert_eq!(decimal_string(1203), "1203");
    assert_eq!(decimal_string(usize::MAX), usize::MAX.to_string());
}

#[test]
fn kind_and_field_names() {
    assert_eq!(NodeKind::from_name("if_statement"), NodeKind::IfStatement);
    assert_eq!(NodeKind::from_name("preproc_function_def"), NodeKind::PreprocFunctionDef);
    assert_eq!(NodeKind::from_name("goto_statement"), NodeKind::Other);
    assert_eq!(Field::from_name(Some("consequence")), Field::Consequence);
    assert_eq!(Field::from_name(Some("type")), Field::Other);
    assert_eq!(Field::from_name(None), Field::Unnamed);
}

#[test]
fn long_function_through_realigned_text() {
    let src = twelve_statement_file();
    let raw = format!("# 0 \"<stdin>\"\n# 0 \"<built-in>\"\n# 1 \"<stdin>\"\n{}", src);
    let text = realign(&raw, "<stdin>");
    assert_eq!(text, src);
    let root = parse(&text);
    let lengths = lint_function_lengths(&root, &split_lines(&text), &"long.c".to_string());
    assert_eq!(lengths.len(), 1);
    assert!(lengths[0].message.contains("12"));
}

#[test]
fn macro_expansion_reveals_hidden_statements() {
    let raw = "# 1 \"<stdin>\"\n\n/* steps */\nvoid steps(int a) {\n  a++; a++; a++; a++; a++; a++;\n  a++; a++; a++; a++; a++; a++;\n}\n";
    let text = realign(raw, "<stdin>");
    let root = parse(&text);
    let lengths = lint_function_lengths(&root, &split_lines(&text), &"m.c".to_string());
    assert_eq!(lengths.len(), 1);
    assert_eq!(lengths[0].message, "Function has more than 10 lines (12)");
    assert_eq!(lengths[0].span.start_row, 2);
    assert_eq!(lengths[0].sublints.len(), 12);
}

#[test]
fn bare_return_costs_nothing() {
    let (score, items) = body_score("void f(void) {\n  return;\n}\n");
    assert_eq!(score, 0);
    assert!(items.is_empty());
}

#[test]
fn empty_statement_costs_nothing() {
    let (score, items) = body_score("void f(void) {\n  ;\n  ;\n}\n");
    assert_eq!(score, 0);
    assert!(items.is_empty());
}

#[test]
fn only_trailing_case_break_is_free() {
    let (score, items) = body_score("void f(int n) {\n  switch (n) {\n  case 1:\n    break;\n    g();\n  }\n}\n");
    assert_eq!(score, 3);
    assert_eq!(items[1].message, "Counted break statement for 1 line");
    let (twice, _) = body_score("void f(int n) {\n  switch (n) {\n  case 1:\n    g();\n    break;\n    break;\n  }\n}\n");
    assert_eq!(twice, 3);
}

#[test]
fn trailing_break_before_comment_is_free() {
    let (score, _) = body_score("void f(int n) {\n  switch (n) {\n  case 1:\n    g();\n    break; /* done */\n  }\n}\n");
    assert_eq!(score, 2);
}

#[test]
fn realign_drops_text_before_first_marker() {
    let raw = "int stray;\n# 1 \"<stdin>\"\nint a;\n";
    assert_eq!(realign(raw, "<stdin>"), "int a;\n");
}

#[test]
fn root_paths_are_normalized() {
    assert_eq!(normalize("./a.c"), "a.c");
    assert_eq!(normalize("src/../a.c"), "a.c");
    assert_eq!(normalize("/x//y/./z.h"), "/x/y/z.h");
}

#[test]
fn declared_names_come_in_source_order() {
    let src = "int a_b = 1, cD;\n";
    let root = parse(src);
    let (_, ids) = lint_identifiers(&root, &split_lines(src), &"o.c".to_string());
    let names: Vec<&str> = ids.iter().map(|i| i.text.as_str()).collect();
    assert_eq!(names, vec!["a_b", "cD"]);
}

#[test]
fn case_statements_before_a_block_count() {
    let with_break = body_score("void f(int n) {\n  switch (n) {\n  case 1:\n    a();\n    { b(); }\n    break;\n  }\n}\n");
    let without = body_score("void f(int n) {\n  switch (n) {\n  case 1:\n    a();\n    { b(); }\n  }\n}\n");
    assert_eq!(with_break.0, 3);
    assert_eq!(without.0, 3);
}

#[test]
fn any_initialized_declarator_charges_once() {
    let (score, items) = body_score("void f(void) {\n  int a, b = g();\n}\n");
    assert_eq!(score, 1);
    assert_eq!(items[0].message, "Counted definition for 1 line");
    assert_eq!(items[0].span.start_col, 9);
    let (both, _) = body_score("void f(void) {\n  int a = 1, b = 2;\n}\n");
    assert_eq!(both, 1);
}
