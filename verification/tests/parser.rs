use friggen::ast::{
    AstNode, AstTaskDef, AstTaskDep, AstTaskHeader, AstTaskScript, AstVarAssignment,
};
use friggen::grammar::Expected;
use friggen::parser::parse_friggenfile;

fn b(s: &str) -> Vec<u8> {
    s.as_bytes().to_vec()
}

fn lines(ls: &[&str]) -> Vec<Vec<u8>> {
    ls.iter().map(|l| b(l)).collect()
}

fn parse(s: &str) -> AstNode {
    parse_friggenfile(&b(s)).unwrap()
}

fn simple_task(name: &str, script: &[&str]) -> AstNode {
    AstNode::TaskDef(AstTaskDef {
        docs: None,
        header: Box::new(AstNode::TaskHeader(AstTaskHeader { name: b(name), deps: vec![] })),
        script: Box::new(AstNode::TaskScript(AstTaskScript {
            hash_bang: None,
            lines: lines(script),
        })),
    })
}

fn assignment(name: &str, value: AstNode) -> AstNode {
    AstNode::VarAssignment(AstVarAssignment { name: b(name), value: Box::new(value) })
}

#[test]
fn test_empty() {
    let ast = parse("");
    assert_eq!(ast, AstNode::Root(vec![]));
}

#[test]
fn test_empty_lines() {
    let ast = parse("\n\r\n\r");
    assert_eq!(ast, AstNode::Root(vec![]));
}

#[test]
fn test_single_comment() {
    let ast = parse("#hey");
    assert_eq!(ast, AstNode::Root(vec![]));

    let ast = parse("#hey\n");
    assert_eq!(ast, AstNode::Root(vec![]));
}

#[test]
fn test_multiple_comment() {
    let ast = parse("#foo\n# bar\n#  baz\n");
    assert_eq!(ast, AstNode::Root(vec![]));

    let ast = parse("#  baz\n# bar\n#foo\n");
    assert_eq!(ast, AstNode::Root(vec![]));
}

#[test]
fn test_simple_task() {
    let ff = "\nfoo:\n  echo hi\n";

    let ast = parse(ff);
    assert_eq!(ast, AstNode::Root(vec![simple_task("foo", &["echo hi\n"])]));
}

#[test]
fn test_two_simple_tasks() {
    let ff = "\nfoo:\n  echo hi\n\nbar:\n  echo hello\n";

    let ast = parse(ff);
    assert_eq!(
        ast,
        AstNode::Root(vec![
            simple_task("foo", &["echo hi\n", "\n"]),
            simple_task("bar", &["echo hello\n"]),
        ])
    );
}

#[test]
fn test_task_docs_single_line() {
    let ff = "\n## foo kicks ass\nfoo:\n  echo hi\n";

    let ast = parse(ff);
    assert_eq!(
        ast,
        AstNode::Root(vec![AstNode::TaskDef(AstTaskDef {
            docs: Some(Box::new(AstNode::TaskDocs(lines(&["foo kicks ass\n"])))),
            header: Box::new(AstNode::TaskHeader(AstTaskHeader { name: b("foo"), deps: vec![] })),
            script: Box::new(AstNode::TaskScript(AstTaskScript {
                hash_bang: None,
                lines: lines(&["echo hi\n"]),
            })),
        })])
    );
}

#[test]
fn test_task_docs_multiple_lines() {
    let ff = "\n## foo kicks ass\n## no seriously\nfoo:\n  echo hi\n";

    let ast = parse(ff);
    assert_eq!(
        ast,
        AstNode::Root(vec![AstNode::TaskDef(AstTaskDef {
            docs: Some(Box::new(AstNode::TaskDocs(lines(&[
                "foo kicks ass\n",
                "no seriously\n"
            ])))),
            header: Box::new(AstNode::TaskHeader(AstTaskHeader { name: b("foo"), deps: vec![] })),
            script: Box::new(AstNode::TaskScript(AstTaskScript {
                hash_bang: None,
                lines: lines(&["echo hi\n"]),
            })),
        })])
    );
}

#[test]
fn test_task_docs_multiple_lines_with_ws_gap() {
    // Documentation lines separated from the header by a blank line are not
    // attached to the task: they count as plain comments.
    let ff = "\n## foo kicks ass\n## no seriously\n\nfoo:\n  echo hi\n";

    let ast = parse(ff);
    assert_eq!(ast, AstNode::Root(vec![simple_task("foo", &["echo hi\n"])]));
}

#[test]
fn test_var_assignment_empty() {
    let ff = "\nfoo =\n";

    let ast = parse(ff);
    assert_eq!(ast, AstNode::Root(vec![assignment("foo", AstNode::VarValue(b("")))]));
}

#[test]
fn test_var_assignment_plain() {
    let ff = "\nfoo = bar\n";

    let ast = parse(ff);
    assert_eq!(ast, AstNode::Root(vec![assignment("foo", AstNode::VarValue(b("bar")))]));
}

#[test]
fn test_var_assignment_plain_no_eol() {
    let ff = "\nfoo = bar";

    let ast = parse(ff);
    assert_eq!(ast, AstNode::Root(vec![assignment("foo", AstNode::VarValue(b("bar")))]));
}

#[test]
fn test_var_assignment_single_quote() {
    let ff = "\nfoo = 'bar'\n";

    let ast = parse(ff);
    assert_eq!(ast, AstNode::Root(vec![assignment("foo", AstNode::VarValue(b("bar")))]));
}

#[test]
fn test_var_assignment_double_quote() {
    let ff = "\nfoo = \"bar\"\n";

    let ast = parse(ff);
    assert_eq!(ast, AstNode::Root(vec![assignment("foo", AstNode::VarValue(b("bar")))]));
}

#[test]
fn test_var_assignment_triple_quote() {
    let ff = "\nfoo = \"\"\"bar\"\"\"\n";

    let ast = parse(ff);
    assert_eq!(ast, AstNode::Root(vec![assignment("foo", AstNode::VarValue(b("bar")))]));
}

#[test]
fn test_var_assignment_command_substitution() {
    let ff = "\nfoo = $(echo \"bar\")\n";

    let ast = parse(ff);
    assert_eq!(
        ast,
        AstNode::Root(vec![assignment("foo", AstNode::CommandSubstitution(b("echo \"bar\"")))])
    );
}

#[test]
fn test_var_assignment_triple_quote_multiline() {
    let ff = "foo = \"\"\"a\nb\"\"\"\n";

    let ast = parse(ff);
    assert_eq!(ast, AstNode::Root(vec![assignment("foo", AstNode::VarValue(b("a\nb")))]));
}

#[test]
fn test_task_with_deps() {
    let ff = "build: (fmt, lint check!)\n  make\n";

    let ast = parse(ff);
    assert_eq!(
        ast,
        AstNode::Root(vec![AstNode::TaskDef(AstTaskDef {
            docs: None,
            header: Box::new(AstNode::TaskHeader(AstTaskHeader {
                name: b("build"),
                deps: vec![
                    AstNode::TaskDep(AstTaskDep { name: b("fmt"), run_always: false }),
                    AstNode::TaskDep(AstTaskDep { name: b("lint"), run_always: false }),
                    AstNode::TaskDep(AstTaskDep { name: b("check"), run_always: true }),
                ],
            })),
            script: Box::new(AstNode::TaskScript(AstTaskScript {
                hash_bang: None,
                lines: lines(&["make\n"]),
            })),
        })])
    );
}

#[test]
fn test_task_hash_bang() {
    let ff = "foo:\n  #!/usr/bin/env python3 -u\n  print(1)\n";

    let ast = parse(ff);
    assert_eq!(
        ast,
        AstNode::Root(vec![AstNode::TaskDef(AstTaskDef {
            docs: None,
            header: Box::new(AstNode::TaskHeader(AstTaskHeader { name: b("foo"), deps: vec![] })),
            script: Box::new(AstNode::TaskScript(AstTaskScript {
                hash_bang: Some(lines(&["/usr/bin/env", "python3", "-u"])),
                lines: lines(&["print(1)\n"]),
            })),
        })])
    );
}

#[test]
fn test_indentation_stripped_relative_kept() {
    // Four spaces of common indentation disappear from every line; deeper
    // relative indentation and the line terminators stay.
    let ff = "foo:\n    if true; then\n      echo a\n    fi\n";

    let ast = parse(ff);
    assert_eq!(
        ast,
        AstNode::Root(vec![simple_task("foo", &["if true; then\n", "  echo a\n", "fi\n"])])
    );
}

#[test]
fn test_unterminated_quote_is_rejected() {
    let err = parse_friggenfile(&b("foo = 'bar\n")).unwrap_err();
    assert_eq!(err.expected, Expected::ClosingQuote);
    assert_eq!(err.pos, 6);
}

#[test]
fn test_task_without_script_is_rejected() {
    let err = parse_friggenfile(&b("foo:\nbar = 1\n")).unwrap_err();
    assert_eq!(err.expected, Expected::Script);
}

#[test]
fn test_stray_text_after_ident_is_rejected() {
    let err = parse_friggenfile(&b("foo bar\n")).unwrap_err();
    assert_eq!(err.expected, Expected::Definition);
    assert_eq!(err.pos, 4);
}

#[test]
fn test_unexpected_indent_is_rejected() {
    let err = parse_friggenfile(&b("  echo hi\n")).unwrap_err();
    assert_eq!(err.expected, Expected::Item);
    assert_eq!(err.pos, 0);
}

#[test]
fn test_unclosed_dep_list_is_rejected() {
    let err = parse_friggenfile(&b("foo: (bar\n  echo\n")).unwrap_err();
    assert_eq!(err.expected, Expected::Dependency);
}

#[test]
fn test_script_without_trailing_newline() {
    let ast = parse("foo:\n  echo hi");
    assert_eq!(ast, AstNode::Root(vec![simple_task("foo", &["echo hi"])]));
}

#[test]
fn test_carriage_return_line_endings() {
    let ast = parse("foo:\r\n  echo hi\r\n");
    assert_eq!(ast, AstNode::Root(vec![simple_task("foo", &["echo hi\r\n"])]));
}

#[test]
fn test_empty_dependency_list() {
    let ast = parse("foo: ()\n  echo hi\n");
    assert_eq!(ast, AstNode::Root(vec![simple_task("foo", &["echo hi\n"])]));
}

#[test]
fn test_docs_at_end_of_file_are_comments() {
    let ast = parse("## stray docs\n");
    assert_eq!(ast, AstNode::Root(vec![]));
}

#[test]
fn test_plain_value_trailing_whitespace_trimmed() {
    let ast = parse("foo = bar baz   \n");
    assert_eq!(ast, AstNode::Root(vec![assignment("foo", AstNode::VarValue(b("bar baz")))]));
}
