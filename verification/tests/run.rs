use friggen::error::FriggenError;
use friggen::friggenfile::Friggenfile;
use friggen::grammar::Expected;
use friggen::print::{print_theme_for_code, OutputPrinter, PrintTheme};
use friggen::run::TaskRun;

fn b(s: &str) -> Vec<u8> {
    s.as_bytes().to_vec()
}

#[test]
fn test_run_stops_at_first_failure() {
    // Two tasks: the first exits non-zero, so the second is never offered
    // and the run's status is exactly the first task's code.
    let mut run = TaskRun::new(vec![b("first"), b("second")]);
    assert_eq!(run.next_task(), Some(&b("first")));
    run.record_exit(7);
    assert_eq!(run.next_task(), None);
    assert_eq!(run.exit_status(), 7);
    let (task, code) = run.failure_info().unwrap();
    assert_eq!(task, &b("first"));
    assert_eq!(code, 7);
    assert_eq!(
        run.failure_error(),
        Some(FriggenError::TaskExecutionFailure { task: b("first"), exit_code: 7 })
    );
}

#[test]
fn test_run_completes_with_zero_status() {
    let mut run = TaskRun::new(vec![b("first"), b("second")]);
    assert_eq!(run.next_task(), Some(&b("first")));
    run.record_exit(0);
    assert_eq!(run.next_task(), Some(&b("second")));
    run.record_exit(0);
    assert_eq!(run.next_task(), None);
    assert_eq!(run.exit_status(), 0);
    assert!(run.failure_info().is_none());
}

#[test]
fn test_friggenfile_from_parses() {
    let ff = Friggenfile::from(&b("foo:\n  echo hi\n")).unwrap();
    match ff.ast() {
        friggen::ast::AstNode::Root(items) => assert_eq!(items.len(), 1),
        _ => panic!("expected a root node"),
    }
}

#[test]
fn test_friggenfile_from_reports_syntax_error() {
    let err = Friggenfile::from(&b("foo = 'unterminated\n")).unwrap_err();
    match err {
        FriggenError::FriggenfileSyntaxError(se) => {
            assert_eq!(se.expected, Expected::ClosingQuote);
        },
        other => panic!("unexpected error: {:?}", other),
    }
}

#[test]
fn test_theme_follows_exit_code() {
    assert_eq!(print_theme_for_code(0), PrintTheme::ThisFriggenKicksAss);
    assert_eq!(print_theme_for_code(1), PrintTheme::ThisFriggenSucks);
    assert_eq!(print_theme_for_code(-1), PrintTheme::ThisFriggenSucks);
}

#[test]
fn test_printer_keeps_quiet_across_theme_change() {
    let p = OutputPrinter::new(PrintTheme::ThisFriggenKicksAss, true);
    assert!(p.is_quiet());
    let q = p.with_theme(PrintTheme::ThisFriggenSucks);
    assert!(q.is_quiet());
    assert_eq!(q.get_theme(), PrintTheme::ThisFriggenSucks);
}
