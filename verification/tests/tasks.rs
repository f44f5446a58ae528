use friggen::error::FriggenError;
use friggen::friggenfile::Task;
use friggen::parser::parse_friggenfile;
use friggen::tasks::{
    build_task_map, build_task_sequence, find_task, sorted_task_names, validate_tasks,
};

fn b(s: &str) -> Vec<u8> {
    s.as_bytes().to_vec()
}

fn names(ns: &[&str]) -> Vec<Vec<u8>> {
    ns.iter().map(|n| b(n)).collect()
}

fn table(src: &str) -> Vec<Task> {
    let ast = parse_friggenfile(&b(src)).unwrap();
    let mut tasks: Vec<Task> = Vec::new();
    build_task_map(&ast, &mut tasks).unwrap();
    tasks
}

fn sequence_of(tasks: &Vec<Task>, req: &[&str]) -> Result<Vec<Vec<u8>>, FriggenError> {
    build_task_sequence(&names(req), tasks)
}

#[test]
fn test_build_task_map_collects_metadata() {
    let tasks = table("## docs here\nfoo: (bar!, baz)\n  echo hi\nbar:\n  x\nbaz:\n  x\n");
    assert_eq!(tasks.len(), 3);
    let foo = find_task(&tasks, &b("foo")).unwrap();
    assert_eq!(foo.name, b("foo"));
    assert_eq!(foo.docs, Some(vec![b("docs here\n")]));
    assert_eq!(foo.deps.len(), 2);
    assert_eq!(foo.deps[0].name, b("bar"));
    assert!(foo.deps[0].run_always);
    assert_eq!(foo.deps[1].name, b("baz"));
    assert!(!foo.deps[1].run_always);
    assert_eq!(foo.script, vec![b("echo hi\n")]);
}

#[test]
fn test_duplicate_task_definition() {
    // The second definition is the error even though the bodies differ.
    let ast = parse_friggenfile(&b("foo:\n  echo one\nfoo:\n  echo two\n")).unwrap();
    let mut tasks: Vec<Task> = Vec::new();
    let err = build_task_map(&ast, &mut tasks).unwrap_err();
    assert_eq!(err, FriggenError::DuplicateTaskDefinition(b("foo")));
}

#[test]
fn test_duplicate_keeps_first_definition() {
    let ast = parse_friggenfile(&b("foo:\n  echo one\nfoo:\n  echo two\n")).unwrap();
    let mut tasks: Vec<Task> = Vec::new();
    let _ = build_task_map(&ast, &mut tasks);
    assert_eq!(tasks.len(), 1);
    assert_eq!(tasks[0].script, vec![b("echo one\n")]);
}

#[test]
fn test_validate_accepts_resolved_references() {
    let tasks = table("a: (c)\n  x\nc:\n  x\n");
    assert!(validate_tasks(&tasks).is_ok());
}

#[test]
fn test_invalid_task_reference() {
    let tasks = table("a: (missing)\n  x\n");
    let err = validate_tasks(&tasks).unwrap_err();
    assert_eq!(
        err,
        FriggenError::InvalidTaskReference { referrer: b("a"), referee: b("missing") }
    );
}

#[test]
fn test_task_not_found() {
    let tasks = table("a:\n  x\n");
    let err = sequence_of(&tasks, &["nope"]).unwrap_err();
    assert_eq!(err, FriggenError::TaskNotFound(b("nope")));
}

#[test]
fn test_cycle_three_tasks() {
    // a -> b -> c -> a reports the full path back to the repeated task.
    let tasks = table("a: (b)\n  x\nb: (c)\n  x\nc: (a)\n  x\n");
    let err = sequence_of(&tasks, &["a"]).unwrap_err();
    assert_eq!(err, FriggenError::CyclicTaskReference(names(&["a", "b", "c", "a"])));
}

#[test]
fn test_cycle_self_reference() {
    let tasks = table("a: (a)\n  x\n");
    let err = sequence_of(&tasks, &["a"]).unwrap_err();
    assert_eq!(err, FriggenError::CyclicTaskReference(names(&["a", "a"])));
}

#[test]
fn test_diamond_dependency_deduplicated() {
    // a depends on (b, c); b and c both depend on d; d runs exactly once,
    // before b and c, which precede a.
    let tasks = table("a: (b, c)\n  x\nb: (d)\n  x\nc: (d)\n  x\nd:\n  x\n");
    let order = sequence_of(&tasks, &["a"]).unwrap();
    assert_eq!(order, names(&["d", "b", "c", "a"]));
}

#[test]
fn test_always_run_edge_repeats_task() {
    // d is first sequenced through the plain edge c -> d; the run_always
    // edge b -> d appends it a second time at the point b is resolved.
    let tasks = table("a: (c, b)\n  x\nb: (d!)\n  x\nc: (d)\n  x\nd:\n  x\n");
    let order = sequence_of(&tasks, &["a"]).unwrap();
    assert_eq!(order, names(&["d", "c", "d", "b", "a"]));
}

#[test]
fn test_requested_tasks_deduplicated() {
    let tasks = table("a:\n  x\nb: (a)\n  x\n");
    let order = sequence_of(&tasks, &["a", "b", "a"]).unwrap();
    assert_eq!(order, names(&["a", "b"]));
}

#[test]
fn test_requested_order_is_kept() {
    let tasks = table("a:\n  x\nb:\n  x\nc:\n  x\n");
    let order = sequence_of(&tasks, &["c", "a", "b"]).unwrap();
    assert_eq!(order, names(&["c", "a", "b"]));
}

#[test]
fn test_sorted_task_names_for_listing() {
    let tasks = table("zeta:\n  x\nalpha:\n  x\nmid:\n  x\n");
    let sorted = sorted_task_names(&tasks);
    assert_eq!(sorted, names(&["alpha", "mid", "zeta"]));
}
