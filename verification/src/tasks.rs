//! The task table and the sequencer: building a name-keyed table from the
//! syntax tree, validating every dependency reference, and expanding a list
//! of requested task names into the final execution order with cycle
//! detection and "always run" semantics.

use vstd::prelude::*;

use crate::ast::{AstNode, DepView, ItemView, TaskDefView};
use crate::error::FriggenError;
use crate::friggenfile::{Task, TaskDep};
use crate::scan::{bytes_eq, copy_bytes, copy_lines};

verus! {

broadcast use crate::scan::lemma_bytes_deep_view;

/// The models of a table of resolved tasks.
pub open spec fn task_views(ts: Seq<Task>) -> Seq<TaskDefView> {
    ts.map_values(|t: Task| t@)
}

/// The defined names, in definition order.
pub open spec fn table_names(tasks: Seq<TaskDefView>) -> Seq<Seq<u8>> {
    tasks.map_values(|t: TaskDefView| t.name)
}

/// The set of defined names.
pub open spec fn names_of(tasks: Seq<TaskDefView>) -> Set<Seq<u8>> {
    table_names(tasks).to_set()
}

/// The first task of the table that carries `name`.
pub open spec fn spec_find_task(tasks: Seq<TaskDefView>, name: Seq<u8>) -> Option<TaskDefView>
    decreases tasks.len(),
{
    if tasks.len() == 0 {
        None
    } else if tasks[0].name == name {
        Some(tasks[0])
    } else {
        spec_find_task(tasks.drop_first(), name)
    }
}

/// Whether `name` is a defined task name.
pub open spec fn task_defined(tasks: Seq<TaskDefView>, name: Seq<u8>) -> bool {
    spec_find_task(tasks, name) is Some
}

pub proof fn lemma_find_task_name(tasks: Seq<TaskDefView>, name: Seq<u8>)
    ensures
        spec_find_task(tasks, name) matches Some(t) ==> names_of(tasks).contains(name) && t.name
            == name,
        spec_find_task(tasks, name) is None ==> !names_of(tasks).contains(name),
    decreases tasks.len(),
{
    if tasks.len() > 0 {
        lemma_find_task_name(tasks.drop_first(), name);
        assert(table_names(tasks.drop_first()) =~= table_names(tasks).drop_first());
        if tasks[0].name == name {
            assert(table_names(tasks)[0] == name);
            assert(table_names(tasks).contains(name));
        } else {
            if spec_find_task(tasks, name) is Some {
                let t = spec_find_task(tasks, name)->Some_0;
                assert(table_names(tasks.drop_first()).contains(name));
                let j = choose|j: int|
                    0 <= j < table_names(tasks.drop_first()).len() && table_names(
                        tasks.drop_first(),
                    )[j] == name;
                assert(table_names(tasks)[j + 1] == name);
            } else {
                if names_of(tasks).contains(name) {
                    let j = choose|j: int|
                        0 <= j < table_names(tasks).len() && table_names(tasks)[j] == name;
                    assert(j != 0);
                    assert(table_names(tasks.drop_first())[j - 1] == name);
                }
            }
        }
    }
}

// --- building the table ---

/// Folds the items of a file into a task table, rejecting the first task
/// definition whose name is already present.
pub open spec fn spec_build_tasks_from(items: Seq<ItemView>, acc: Seq<TaskDefView>) -> Result<
    Seq<TaskDefView>,
    Seq<u8>,
>
    decreases items.len(),
{
    if items.len() == 0 {
        Ok(acc)
    } else {
        match items[0] {
            ItemView::Assign { .. } => spec_build_tasks_from(items.drop_first(), acc),
            ItemView::Task(t) => {
                if task_defined(acc, t.name) {
                    Err(t.name)
                } else {
                    spec_build_tasks_from(items.drop_first(), acc.push(t))
                }
            },
        }
    }
}

/// The task table of a file, or the name of the first duplicated task.
pub open spec fn spec_build_tasks(items: Seq<ItemView>) -> Result<Seq<TaskDefView>, Seq<u8>> {
    spec_build_tasks_from(items, Seq::empty())
}

/// A file with no items defines no tasks.
pub proof fn lemma_no_items_no_tasks()
    ensures
        spec_build_tasks(Seq::empty()) == Ok::<Seq<TaskDefView>, Seq<u8>>(Seq::empty()),
{
}

/// The names of the task definitions among the items, in document order.
pub open spec fn item_task_names(items: Seq<ItemView>) -> Seq<Seq<u8>>
    decreases items.len(),
{
    if items.len() == 0 {
        Seq::empty()
    } else {
        match items[0] {
            ItemView::Task(t) => seq![t.name] + item_task_names(items.drop_first()),
            ItemView::Assign { .. } => item_task_names(items.drop_first()),
        }
    }
}

/// Uniqueness: building the table fails exactly when two task definitions
/// carry the same name, whatever their bodies hold.
pub proof fn lemma_duplicate_detected(items: Seq<ItemView>)
    ensures
        spec_build_tasks(items) is Err <==> !item_task_names(items).no_duplicates(),
{
    assert(table_names(Seq::empty()) =~= Seq::<Seq<u8>>::empty());
    lemma_build_err_iff_dup(items, Seq::empty());
    assert(table_names(Seq::empty()) + item_task_names(items) =~= item_task_names(items));
}

proof fn lemma_build_err_iff_dup(items: Seq<ItemView>, acc: Seq<TaskDefView>)
    requires
        table_names(acc).no_duplicates(),
    ensures
        spec_build_tasks_from(items, acc) is Err <==> !(table_names(acc) + item_task_names(
            items,
        )).no_duplicates(),
    decreases items.len(),
{
    let names = table_names(acc);
    if items.len() == 0 {
        assert(names + item_task_names(items) =~= names);
    } else {
        match items[0] {
            ItemView::Assign { .. } => {
                lemma_build_err_iff_dup(items.drop_first(), acc);
            },
            ItemView::Task(t) => {
                let rest = item_task_names(items.drop_first());
                assert(names + item_task_names(items) =~= (names + seq![t.name]) + rest);
                if task_defined(acc, t.name) {
                    lemma_find_task_name(acc, t.name);
                    assert(names.contains(t.name));
                    let k = choose|k: int| 0 <= k < names.len() && names[k] == t.name;
                    let whole = (names + seq![t.name]) + rest;
                    assert(whole[k] == t.name && whole[names.len() as int] == t.name);
                    assert(!whole.no_duplicates());
                } else {
                    lemma_find_task_name(acc, t.name);
                    assert(!names.contains(t.name));
                    assert(table_names(acc.push(t)) =~= names + seq![t.name]);
                    assert((names + seq![t.name]).no_duplicates()) by {
                        let p = names + seq![t.name];
                        assert forall|i: int, j: int| 0 <= i < j < p.len() implies p[i] != p[j]
                            by {
                                if j == p.len() - 1 {
                                    assert(p[i] == names[i]);
                                } else {
                                    assert(p[i] == names[i] && p[j] == names[j]);
                                }
                            };
                    }
                    lemma_build_err_iff_dup(items.drop_first(), acc.push(t));
                }
            },
        }
    }
}

/// The table invariant: a successfully built table never holds two tasks
/// of the same name.
pub proof fn lemma_table_names_unique(items: Seq<ItemView>)
    ensures
        spec_build_tasks(items) matches Ok(ts) ==> table_names(ts).no_duplicates(),
{
    assert(table_names(Seq::empty()) =~= Seq::<Seq<u8>>::empty());
    lemma_build_from_unique(items, Seq::empty());
}

proof fn lemma_build_from_unique(items: Seq<ItemView>, acc: Seq<TaskDefView>)
    requires
        table_names(acc).no_duplicates(),
    ensures
        spec_build_tasks_from(items, acc) matches Ok(ts) ==> table_names(ts).no_duplicates(),
    decreases items.len(),
{
    if items.len() > 0 {
        match items[0] {
            ItemView::Assign { .. } => {
                lemma_build_from_unique(items.drop_first(), acc);
            },
            ItemView::Task(t) => {
                if !task_defined(acc, t.name) {
                    lemma_find_task_name(acc, t.name);
                    let names = table_names(acc);
                    let p = table_names(acc.push(t));
                    assert(p =~= names.push(t.name));
                    assert(!names.contains(t.name));
                    assert forall|i: int, j: int| 0 <= i < j < p.len() implies p[i] != p[j] by {
                        if j == p.len() - 1 {
                            assert(p[i] == names[i]);
                        } else {
                            assert(p[i] == names[i] && p[j] == names[j]);
                        }
                    }
                    lemma_build_from_unique(items.drop_first(), acc.push(t));
                }
            },
        }
    }
}

// --- validation ---

/// The first dependency of `t` at or after index `j` that names no defined
/// task.
pub open spec fn first_bad_dep(tasks: Seq<TaskDefView>, t: TaskDefView, j: int) -> Option<
    (Seq<u8>, Seq<u8>),
>
    decreases t.deps.len() - j,
{
    if j < 0 || j >= t.deps.len() {
        None
    } else if !task_defined(tasks, t.deps[j].name) {
        Some((t.name, t.deps[j].name))
    } else {
        first_bad_dep(tasks, t, j + 1)
    }
}

pub open spec fn spec_validate_from(tasks: Seq<TaskDefView>, i: int) -> Option<(Seq<u8>, Seq<u8>)>
    decreases tasks.len() - i,
{
    if i < 0 || i >= tasks.len() {
        None
    } else {
        match first_bad_dep(tasks, tasks[i], 0) {
            Some(bad) => Some(bad),
            None => spec_validate_from(tasks, i + 1),
        }
    }
}

/// The first unresolved dependency reference of the table, as the pair
/// (referrer, referee), or nothing when every reference resolves.
pub open spec fn spec_validate(tasks: Seq<TaskDefView>) -> Option<(Seq<u8>, Seq<u8>)> {
    spec_validate_from(tasks, 0)
}

/// Validation is complete as well as sound: it passes exactly when every
/// dependency of every task names a defined task.
pub proof fn lemma_validate_complete(tasks: Seq<TaskDefView>)
    ensures
        spec_validate(tasks) is None <==> (forall|i: int, j: int|
            0 <= i < tasks.len() && 0 <= j < tasks[i].deps.len() ==> task_defined(
                tasks,
                #[trigger] tasks[i].deps[j].name,
            )),
{
    lemma_validate_from_none(tasks, 0);
}

proof fn lemma_first_bad_none(tasks: Seq<TaskDefView>, t: TaskDefView, j: int)
    requires
        0 <= j <= t.deps.len(),
    ensures
        first_bad_dep(tasks, t, j) is None <==> (forall|k: int|
            j <= k < t.deps.len() ==> task_defined(tasks, #[trigger] t.deps[k].name)),
    decreases t.deps.len() - j,
{
    if j < t.deps.len() && task_defined(tasks, t.deps[j].name) {
        lemma_first_bad_none(tasks, t, j + 1);
    }
}

proof fn lemma_validate_from_none(tasks: Seq<TaskDefView>, i: int)
    requires
        0 <= i <= tasks.len(),
    ensures
        spec_validate_from(tasks, i) is None <==> (forall|i2: int, j: int|
            i <= i2 < tasks.len() && 0 <= j < tasks[i2].deps.len() ==> task_defined(
                tasks,
                #[trigger] tasks[i2].deps[j].name,
            )),
    decreases tasks.len() - i,
{
    if i < tasks.len() {
        lemma_first_bad_none(tasks, tasks[i], 0);
        lemma_validate_from_none(tasks, i + 1);
    }
}

// --- sequencing ---

/// Why a sequence could not be built.
pub enum ResolveErr {
    /// The path from the first repeated task back to itself, in visitation
    /// order.
    Cycle(Seq<Seq<u8>>),
    /// A name that no task carries.
    NotFound(Seq<u8>),
}

/// The resolving stack is fit for recursion: no repeats, every entry a
/// defined task name.
pub open spec fn stack_ok(tasks: Seq<TaskDefView>, stack: Seq<Seq<u8>>) -> bool {
    stack.no_duplicates() && forall|j: int|
        0 <= j < stack.len() ==> names_of(tasks).contains(#[trigger] stack[j])
}

pub proof fn lemma_stack_len(tasks: Seq<TaskDefView>, stack: Seq<Seq<u8>>)
    requires
        stack_ok(tasks, stack),
    ensures
        stack.len() <= tasks.len(),
{
    stack.unique_seq_to_set();
    table_names(tasks).lemma_cardinality_of_set();
    vstd::seq_lib::seq_to_set_is_finite::<Seq<u8>>(table_names(tasks));
    assert(stack.to_set().subset_of(names_of(tasks))) by {
        assert forall|x: Seq<u8>| stack.to_set().contains(x) implies names_of(tasks).contains(
            x,
        ) by {
            let j = choose|j: int| 0 <= j < stack.len() && stack[j] == x;
            assert(names_of(tasks).contains(stack[j]));
        }
    }
    vstd::set_lib::lemma_len_subset(stack.to_set(), names_of(tasks));
}

/// Depth-first resolution of one task name: detect a cycle through the
/// stack, look the task up, then resolve its dependencies in order, appending
/// each dependency after its own subtree unless it is already present and
/// the edge is not `run_always`. Returns the grown output sequence; the
/// resolved name itself is appended by the caller.
pub open spec fn spec_resolve(
    tasks: Seq<TaskDefView>,
    name: Seq<u8>,
    acc: Seq<Seq<u8>>,
    stack: Seq<Seq<u8>>,
) -> Result<Seq<Seq<u8>>, ResolveErr>
    decreases tasks.len() + 1 - stack.len(), 0int,
    when stack_ok(tasks, stack)
    via spec_resolve_decreases
{
    if stack.contains(name) {
        Err(ResolveErr::Cycle(stack.push(name)))
    } else {
        match spec_find_task(tasks, name) {
            None => Err(ResolveErr::NotFound(name)),
            Some(t) => spec_resolve_deps(tasks, t.deps, acc, stack.push(name)),
        }
    }
}

/// Resolves a list of dependency edges in order, threading the output
/// sequence through.
pub open spec fn spec_resolve_deps(
    tasks: Seq<TaskDefView>,
    deps: Seq<DepView>,
    acc: Seq<Seq<u8>>,
    stack: Seq<Seq<u8>>,
) -> Result<Seq<Seq<u8>>, ResolveErr>
    decreases tasks.len() + 1 - stack.len(), deps.len() + 1,
    when stack_ok(tasks, stack)
    via spec_resolve_deps_decreases
{
    if deps.len() == 0 {
        Ok(acc)
    } else {
        match spec_resolve(tasks, deps[0].name, acc, stack) {
            Err(e) => Err(e),
            Ok(s1) => {
                let s2: Seq<Seq<u8>> = if deps[0].run_always || !s1.contains(deps[0].name) {
                    s1.push(deps[0].name)
                } else {
                    s1
                };
                spec_resolve_deps(tasks, deps.drop_first(), s2, stack)
            },
        }
    }
}

#[via_fn]
proof fn spec_resolve_decreases(
    tasks: Seq<TaskDefView>,
    name: Seq<u8>,
    acc: Seq<Seq<u8>>,
    stack: Seq<Seq<u8>>,
) {
    if stack_ok(tasks, stack) && !stack.contains(name) {
        if spec_find_task(tasks, name) is Some {
            lemma_find_task_name(tasks, name);
            lemma_stack_push_ok(tasks, stack, name);
            lemma_stack_len(tasks, stack.push(name));
        }
    }
}

#[via_fn]
proof fn spec_resolve_deps_decreases(
    tasks: Seq<TaskDefView>,
    deps: Seq<DepView>,
    acc: Seq<Seq<u8>>,
    stack: Seq<Seq<u8>>,
) {
    if stack_ok(tasks, stack) {
        lemma_stack_len(tasks, stack);
    }
}

/// Pushing a fresh defined name keeps the stack fit.
pub proof fn lemma_stack_push_ok(tasks: Seq<TaskDefView>, stack: Seq<Seq<u8>>, name: Seq<u8>)
    requires
        stack_ok(tasks, stack),
        !stack.contains(name),
        names_of(tasks).contains(name),
    ensures
        stack_ok(tasks, stack.push(name)),
{
    let p = stack.push(name);
    assert forall|i: int, j: int| 0 <= i < j < p.len() implies p[i] != p[j] by {
        if j == p.len() - 1 {
            assert(p[i] == stack[i]);
            assert(!stack.contains(name));
        } else {
            assert(p[i] == stack[i] && p[j] == stack[j]);
        }
    }
    assert(p.no_duplicates());
}

/// Expands the requested names in order; after each one's dependency subtree
/// is resolved, the name itself is appended unless already present.
pub open spec fn spec_build_sequence_from(
    tasks: Seq<TaskDefView>,
    requested: Seq<Seq<u8>>,
    acc: Seq<Seq<u8>>,
) -> Result<Seq<Seq<u8>>, ResolveErr>
    decreases requested.len(),
{
    if requested.len() == 0 {
        Ok(acc)
    } else {
        match spec_resolve(tasks, requested[0], acc, Seq::empty()) {
            Err(e) => Err(e),
            Ok(s1) => {
                let s2: Seq<Seq<u8>> = if !s1.contains(requested[0]) {
                    s1.push(requested[0])
                } else {
                    s1
                };
                spec_build_sequence_from(tasks, requested.drop_first(), s2)
            },
        }
    }
}

/// The full execution sequence for a list of requested task names.
pub open spec fn spec_build_sequence(tasks: Seq<TaskDefView>, requested: Seq<Seq<u8>>) -> Result<
    Seq<Seq<u8>>,
    ResolveErr,
> {
    spec_build_sequence_from(tasks, requested, Seq::empty())
}

// --- laws of the sequencer ---

/// A helper for the laws below: a table's name at an index is in its name
/// set.
proof fn lemma_name_at(tasks: Seq<TaskDefView>, i: int)
    requires
        0 <= i < tasks.len(),
    ensures
        names_of(tasks).contains(tasks[i].name),
{
    assert(table_names(tasks)[i] == tasks[i].name);
}

/// Cycle detection: when tasks refer to one another in a ring — `a` depends
/// on `b`, `b` on `c`, and `c` back on `a` — requesting `a` fails with the
/// full repeated path `[a, b, c, a]`, in visitation order.
pub proof fn lemma_cycle_reported(
    tasks: Seq<TaskDefView>,
    a: Seq<u8>,
    b: Seq<u8>,
    c: Seq<u8>,
)
    requires
        a != b && a != c && b != c,
        tasks.len() == 3,
        tasks[0].name == a && tasks[0].deps == seq![DepView { name: b, run_always: false }],
        tasks[1].name == b && tasks[1].deps == seq![DepView { name: c, run_always: false }],
        tasks[2].name == c && tasks[2].deps == seq![DepView { name: a, run_always: false }],
    ensures
        spec_build_sequence(tasks, seq![a]) == Err::<Seq<Seq<u8>>, ResolveErr>(
            ResolveErr::Cycle(seq![a, b, c, a]),
        ),
{
    let e0: Seq<Seq<u8>> = Seq::empty();
    lemma_name_at(tasks, 0);
    lemma_name_at(tasks, 1);
    lemma_name_at(tasks, 2);
    assert(spec_find_task(tasks, a) == Some(tasks[0]));
    assert(tasks.drop_first()[0] == tasks[1]);
    assert(spec_find_task(tasks.drop_first(), b) == Some(tasks[1]));
    assert(spec_find_task(tasks, b) == Some(tasks[1]));
    assert(tasks.drop_first().drop_first()[0] == tasks[2]);
    assert(spec_find_task(tasks.drop_first().drop_first(), c) == Some(tasks[2]));
    assert(spec_find_task(tasks.drop_first(), c) == Some(tasks[2]));
    assert(spec_find_task(tasks, c) == Some(tasks[2]));

    let s1 = e0.push(a);
    let s2 = s1.push(b);
    let s3 = s2.push(c);
    assert(stack_ok(tasks, e0));
    assert(!e0.contains(a));
    lemma_stack_push_ok(tasks, e0, a);
    assert(!s1.contains(b)) by {
        if s1.contains(b) {
            let j = choose|j: int| 0 <= j < s1.len() && s1[j] == b;
            assert(s1[j] == a);
        }
    }
    lemma_stack_push_ok(tasks, s1, b);
    assert(!s2.contains(c)) by {
        if s2.contains(c) {
            let j = choose|j: int| 0 <= j < s2.len() && s2[j] == c;
            assert(j == 0 || j == 1);
        }
    }
    lemma_stack_push_ok(tasks, s2, c);
    assert(s3.contains(a)) by {
        assert(s3[0] == a);
    }

    // the innermost resolution of `a` finds itself on the stack
    assert(spec_resolve(tasks, a, e0, s3) == Err::<Seq<Seq<u8>>, ResolveErr>(
        ResolveErr::Cycle(s3.push(a)),
    ));
    assert(tasks[2].deps[0] == DepView { name: a, run_always: false });
    assert(spec_resolve_deps(tasks, tasks[2].deps, e0, s3) == Err::<Seq<Seq<u8>>, ResolveErr>(
        ResolveErr::Cycle(s3.push(a)),
    ));
    assert(!s2.contains(c));
    assert(spec_resolve(tasks, c, e0, s2) == spec_resolve_deps(tasks, tasks[2].deps, e0, s3));
    assert(spec_resolve_deps(tasks, tasks[1].deps, e0, s2) == spec_resolve(tasks, c, e0, s2));
    assert(spec_resolve(tasks, b, e0, s1) == spec_resolve_deps(tasks, tasks[1].deps, e0, s2));
    assert(spec_resolve_deps(tasks, tasks[0].deps, e0, s1) == spec_resolve(tasks, b, e0, s1));
    assert(spec_resolve(tasks, a, e0, e0) == spec_resolve_deps(tasks, tasks[0].deps, e0, s1));
    assert(seq![a][0] == a);
    assert(s3.push(a) =~= seq![a, b, c, a]);
    assert(spec_build_sequence(tasks, seq![a]) == spec_resolve(tasks, a, e0, e0));
}

/// A task that depends on itself is a one-element cycle: requesting it
/// fails with the path `[a, a]`.
pub proof fn lemma_self_cycle(tasks: Seq<TaskDefView>, a: Seq<u8>)
    requires
        tasks.len() == 1,
        tasks[0].name == a,
        tasks[0].deps == seq![DepView { name: a, run_always: false }],
    ensures
        spec_build_sequence(tasks, seq![a]) == Err::<Seq<Seq<u8>>, ResolveErr>(
            ResolveErr::Cycle(seq![a, a]),
        ),
{
    let e0: Seq<Seq<u8>> = Seq::empty();
    lemma_name_at(tasks, 0);
    assert(spec_find_task(tasks, a) == Some(tasks[0]));
    let s1 = e0.push(a);
    assert(stack_ok(tasks, e0));
    assert(!e0.contains(a));
    lemma_stack_push_ok(tasks, e0, a);
    assert(s1.contains(a)) by {
        assert(s1[0] == a);
    }
    assert(spec_resolve(tasks, a, e0, s1) == Err::<Seq<Seq<u8>>, ResolveErr>(
        ResolveErr::Cycle(s1.push(a)),
    ));
    assert(tasks[0].deps[0] == DepView { name: a, run_always: false });
    assert(spec_resolve_deps(tasks, tasks[0].deps, e0, s1) == Err::<Seq<Seq<u8>>, ResolveErr>(
        ResolveErr::Cycle(s1.push(a)),
    ));
    assert(spec_resolve(tasks, a, e0, e0) == spec_resolve_deps(tasks, tasks[0].deps, e0, s1));
    assert(seq![a][0] == a);
    assert(s1.push(a) =~= seq![a, a]);
    assert(spec_build_sequence(tasks, seq![a]) == spec_resolve(tasks, a, e0, e0));
}

/// Diamond deduplication: `a` depends on `b` and `c`, and both depend on
/// `d`, no edge marked run-always. Requesting `a` runs `d` exactly once,
/// before `b` and `c`, which in turn precede `a`.
pub proof fn lemma_diamond_dedup(
    tasks: Seq<TaskDefView>,
    a: Seq<u8>,
    b: Seq<u8>,
    c: Seq<u8>,
    d: Seq<u8>,
)
    requires
        a != b && a != c && a != d && b != c && b != d && c != d,
        tasks.len() == 4,
        tasks[0].name == a && tasks[0].deps == seq![
            DepView { name: b, run_always: false },
            DepView { name: c, run_always: false },
        ],
        tasks[1].name == b && tasks[1].deps == seq![DepView { name: d, run_always: false }],
        tasks[2].name == c && tasks[2].deps == seq![DepView { name: d, run_always: false }],
        tasks[3].name == d && tasks[3].deps == Seq::<DepView>::empty(),
    ensures
        spec_build_sequence(tasks, seq![a]) == Ok::<Seq<Seq<u8>>, ResolveErr>(seq![d, b, c, a]),
{
    let e0: Seq<Seq<u8>> = Seq::empty();
    lemma_name_at(tasks, 0);
    lemma_name_at(tasks, 1);
    lemma_name_at(tasks, 2);
    lemma_name_at(tasks, 3);
    let t1 = tasks.drop_first();
    let t2 = t1.drop_first();
    let t3 = t2.drop_first();
    assert(t1[0] == tasks[1] && t2[0] == tasks[2] && t3[0] == tasks[3]);
    assert(t1.drop_first() =~= t2);
    assert(t2.drop_first() =~= t3);
    assert(spec_find_task(tasks, a) == Some(tasks[0]));
    assert(spec_find_task(t1, b) == Some(tasks[1]));
    assert(spec_find_task(tasks, b) == Some(tasks[1]));
    assert(spec_find_task(t2, c) == Some(tasks[2]));
    assert(spec_find_task(t1, c) == Some(tasks[2]));
    assert(spec_find_task(tasks, c) == Some(tasks[2]));
    assert(spec_find_task(t3, d) == Some(tasks[3]));
    assert(spec_find_task(t2, d) == Some(tasks[3]));
    assert(spec_find_task(t1, d) == Some(tasks[3]));
    assert(spec_find_task(tasks, d) == Some(tasks[3]));

    let sa = e0.push(a);
    let sab = sa.push(b);
    let sac = sa.push(c);
    assert(stack_ok(tasks, e0));
    assert(!e0.contains(a));
    lemma_stack_push_ok(tasks, e0, a);
    assert(!sa.contains(b) && !sa.contains(c)) by {
        assert(forall|j: int| 0 <= j < sa.len() ==> sa[j] == a);
    }
    lemma_stack_push_ok(tasks, sa, b);
    lemma_stack_push_ok(tasks, sa, c);
    assert(!sab.contains(d)) by {
        assert(forall|j: int| 0 <= j < sab.len() ==> sab[j] == a || sab[j] == b);
    }
    assert(!sac.contains(d)) by {
        assert(forall|j: int| 0 <= j < sac.len() ==> sac[j] == a || sac[j] == c);
    }
    lemma_stack_push_ok(tasks, sab, d);
    lemma_stack_push_ok(tasks, sac, d);

    // resolving d appends nothing by itself
    assert(spec_resolve_deps(tasks, tasks[3].deps, e0, sab.push(d)) == Ok::<
        Seq<Seq<u8>>,
        ResolveErr,
    >(e0));
    assert(spec_resolve(tasks, d, e0, sab) == Ok::<Seq<Seq<u8>>, ResolveErr>(e0));
    // b's dependency list appends d
    assert(tasks[1].deps[0] == DepView { name: d, run_always: false });
    assert(tasks[1].deps.drop_first() =~= Seq::<DepView>::empty());
    assert(!e0.contains(d));
    assert(spec_resolve_deps(tasks, Seq::<DepView>::empty(), e0.push(d), sab) == Ok::<
        Seq<Seq<u8>>,
        ResolveErr,
    >(e0.push(d)));
    assert(spec_resolve_deps(tasks, tasks[1].deps, e0, sab) == Ok::<Seq<Seq<u8>>, ResolveErr>(
        e0.push(d),
    ));
    assert(spec_resolve(tasks, b, e0, sa) == Ok::<Seq<Seq<u8>>, ResolveErr>(e0.push(d)));

    let od = e0.push(d);
    let odb = od.push(b);
    // resolving d again through c appends nothing: it is already present
    assert(spec_resolve_deps(tasks, tasks[3].deps, odb, sac.push(d)) == Ok::<
        Seq<Seq<u8>>,
        ResolveErr,
    >(odb));
    assert(spec_resolve(tasks, d, odb, sac) == Ok::<Seq<Seq<u8>>, ResolveErr>(odb));
    assert(tasks[2].deps[0] == DepView { name: d, run_always: false });
    assert(tasks[2].deps.drop_first() =~= Seq::<DepView>::empty());
    assert(odb.contains(d)) by {
        assert(odb[0] == d);
    }
    assert(spec_resolve_deps(tasks, Seq::<DepView>::empty(), odb, sac) == Ok::<
        Seq<Seq<u8>>,
        ResolveErr,
    >(odb));
    assert(spec_resolve_deps(tasks, tasks[2].deps, odb, sac) == Ok::<Seq<Seq<u8>>, ResolveErr>(
        odb,
    ));
    assert(spec_resolve(tasks, c, odb, sa) == Ok::<Seq<Seq<u8>>, ResolveErr>(odb));

    // a's dependency list: b then c
    assert(tasks[0].deps[0] == DepView { name: b, run_always: false });
    assert(tasks[0].deps[1] == DepView { name: c, run_always: false });
    assert(tasks[0].deps.drop_first() =~= seq![DepView { name: c, run_always: false }]);
    assert(seq![DepView { name: c, run_always: false }][0] == DepView {
        name: c,
        run_always: false,
    });
    assert(seq![DepView { name: c, run_always: false }].drop_first() =~= Seq::<
        DepView,
    >::empty());
    assert(!od.contains(b)) by {
        assert(forall|j: int| 0 <= j < od.len() ==> od[j] == d);
    }
    let odbc = odb.push(c);
    assert(!odb.contains(c)) by {
        assert(forall|j: int| 0 <= j < odb.len() ==> odb[j] == d || odb[j] == b);
    }
    assert(spec_resolve_deps(tasks, Seq::<DepView>::empty(), odbc, sa) == Ok::<
        Seq<Seq<u8>>,
        ResolveErr,
    >(odbc));
    assert(spec_resolve_deps(tasks, seq![DepView { name: c, run_always: false }], odb, sa)
        == Ok::<Seq<Seq<u8>>, ResolveErr>(odbc));
    assert(spec_resolve_deps(tasks, tasks[0].deps, e0, sa) == Ok::<Seq<Seq<u8>>, ResolveErr>(
        odbc,
    ));
    assert(spec_resolve(tasks, a, e0, e0) == Ok::<Seq<Seq<u8>>, ResolveErr>(odbc));

    // the requested name itself comes last
    assert(!odbc.contains(a)) by {
        assert(forall|j: int|
            0 <= j < odbc.len() ==> odbc[j] == d || odbc[j] == b || odbc[j] == c);
    }
    assert(seq![a][0] == a);
    assert(seq![a].drop_first() =~= Seq::<Seq<u8>>::empty());
    assert(spec_build_sequence_from(tasks, Seq::<Seq<u8>>::empty(), odbc.push(a)) == Ok::<
        Seq<Seq<u8>>,
        ResolveErr,
    >(odbc.push(a)));
    assert(odbc.push(a) =~= seq![d, b, c, a]);
}

/// Always-run semantics: with `a` depending on `c` then `b`, the plain edge
/// `c -> d` sequencing `d` once, and the run-always edge `b -> d`, requesting
/// `a` appends `d` a second time at the point `b` is resolved, even though
/// `d` already ran.
pub proof fn lemma_always_run_repeats(
    tasks: Seq<TaskDefView>,
    a: Seq<u8>,
    b: Seq<u8>,
    c: Seq<u8>,
    d: Seq<u8>,
)
    requires
        a != b && a != c && a != d && b != c && b != d && c != d,
        tasks.len() == 4,
        tasks[0].name == a && tasks[0].deps == seq![
            DepView { name: c, run_always: false },
            DepView { name: b, run_always: false },
        ],
        tasks[1].name == b && tasks[1].deps == seq![DepView { name: d, run_always: true }],
        tasks[2].name == c && tasks[2].deps == seq![DepView { name: d, run_always: false }],
        tasks[3].name == d && tasks[3].deps == Seq::<DepView>::empty(),
    ensures
        spec_build_sequence(tasks, seq![a]) == Ok::<Seq<Seq<u8>>, ResolveErr>(
            seq![d, c, d, b, a],
        ),
{
    let e0: Seq<Seq<u8>> = Seq::empty();
    lemma_name_at(tasks, 0);
    lemma_name_at(tasks, 1);
    lemma_name_at(tasks, 2);
    lemma_name_at(tasks, 3);
    let t1 = tasks.drop_first();
    let t2 = t1.drop_first();
    let t3 = t2.drop_first();
    assert(t1[0] == tasks[1] && t2[0] == tasks[2] && t3[0] == tasks[3]);
    assert(t1.drop_first() =~= t2);
    assert(t2.drop_first() =~= t3);
    assert(spec_find_task(tasks, a) == Some(tasks[0]));
    assert(spec_find_task(t1, b) == Some(tasks[1]));
    assert(spec_find_task(tasks, b) == Some(tasks[1]));
    assert(spec_find_task(t2, c) == Some(tasks[2]));
    assert(spec_find_task(t1, c) == Some(tasks[2]));
    assert(spec_find_task(tasks, c) == Some(tasks[2]));
    assert(spec_find_task(t3, d) == Some(tasks[3]));
    assert(spec_find_task(t2, d) == Some(tasks[3]));
    assert(spec_find_task(t1, d) == Some(tasks[3]));
    assert(spec_find_task(tasks, d) == Some(tasks[3]));

    let sa = e0.push(a);
    let sab = sa.push(b);
    let sac = sa.push(c);
    assert(stack_ok(tasks, e0));
    assert(!e0.contains(a));
    lemma_stack_push_ok(tasks, e0, a);
    assert(!sa.contains(b) && !sa.contains(c)) by {
        assert(forall|j: int| 0 <= j < sa.len() ==> sa[j] == a);
    }
    lemma_stack_push_ok(tasks, sa, b);
    lemma_stack_push_ok(tasks, sa, c);
    assert(!sab.contains(d)) by {
        assert(forall|j: int| 0 <= j < sab.len() ==> sab[j] == a || sab[j] == b);
    }
    assert(!sac.contains(d)) by {
        assert(forall|j: int| 0 <= j < sac.len() ==> sac[j] == a || sac[j] == c);
    }
    lemma_stack_push_ok(tasks, sab, d);
    lemma_stack_push_ok(tasks, sac, d);

    // through c, d is appended for the first time
    assert(spec_resolve_deps(tasks, tasks[3].deps, e0, sac.push(d)) == Ok::<
        Seq<Seq<u8>>,
        ResolveErr,
    >(e0));
    assert(spec_resolve(tasks, d, e0, sac) == Ok::<Seq<Seq<u8>>, ResolveErr>(e0));
    assert(tasks[2].deps[0] == DepView { name: d, run_always: false });
    assert(tasks[2].deps.drop_first() =~= Seq::<DepView>::empty());
    assert(!e0.contains(d));
    let od = e0.push(d);
    assert(spec_resolve_deps(tasks, Seq::<DepView>::empty(), od, sac) == Ok::<
        Seq<Seq<u8>>,
        ResolveErr,
    >(od));
    assert(spec_resolve_deps(tasks, tasks[2].deps, e0, sac) == Ok::<Seq<Seq<u8>>, ResolveErr>(
        od,
    ));
    assert(spec_resolve(tasks, c, e0, sa) == Ok::<Seq<Seq<u8>>, ResolveErr>(od));

    let odc = od.push(c);
    // through b, the run-always edge appends d again although it is present
    assert(spec_resolve_deps(tasks, tasks[3].deps, odc, sab.push(d)) == Ok::<
        Seq<Seq<u8>>,
        ResolveErr,
    >(odc));
    assert(spec_resolve(tasks, d, odc, sab) == Ok::<Seq<Seq<u8>>, ResolveErr>(odc));
    assert(tasks[1].deps[0] == DepView { name: d, run_always: true });
    assert(tasks[1].deps.drop_first() =~= Seq::<DepView>::empty());
    let odcd = odc.push(d);
    assert(spec_resolve_deps(tasks, Seq::<DepView>::empty(), odcd, sab) == Ok::<
        Seq<Seq<u8>>,
        ResolveErr,
    >(odcd));
    assert(spec_resolve_deps(tasks, tasks[1].deps, odc, sab) == Ok::<Seq<Seq<u8>>, ResolveErr>(
        odcd,
    ));
    assert(spec_resolve(tasks, b, odc, sa) == Ok::<Seq<Seq<u8>>, ResolveErr>(odcd));

    // a's dependency list: c then b
    assert(tasks[0].deps[0] == DepView { name: c, run_always: false });
    assert(tasks[0].deps[1] == DepView { name: b, run_always: false });
    assert(tasks[0].deps.drop_first() =~= seq![DepView { name: b, run_always: false }]);
    assert(seq![DepView { name: b, run_always: false }][0] == DepView {
        name: b,
        run_always: false,
    });
    assert(seq![DepView { name: b, run_always: false }].drop_first() =~= Seq::<
        DepView,
    >::empty());
    assert(!od.contains(c)) by {
        assert(forall|j: int| 0 <= j < od.len() ==> od[j] == d);
    }
    assert(!odcd.contains(b)) by {
        assert(forall|j: int| 0 <= j < odcd.len() ==> odcd[j] == d || odcd[j] == c);
    }
    let odcdb = odcd.push(b);
    assert(spec_resolve_deps(tasks, Seq::<DepView>::empty(), odcdb, sa) == Ok::<
        Seq<Seq<u8>>,
        ResolveErr,
    >(odcdb));
    assert(spec_resolve_deps(tasks, seq![DepView { name: b, run_always: false }], odc, sa)
        == Ok::<Seq<Seq<u8>>, ResolveErr>(odcdb));
    assert(spec_resolve_deps(tasks, tasks[0].deps, e0, sa) == Ok::<Seq<Seq<u8>>, ResolveErr>(
        odcdb,
    ));
    assert(spec_resolve(tasks, a, e0, e0) == Ok::<Seq<Seq<u8>>, ResolveErr>(odcdb));

    assert(!odcdb.contains(a)) by {
        assert(forall|j: int|
            0 <= j < odcdb.len() ==> odcdb[j] == d || odcdb[j] == c || odcdb[j] == b);
    }
    assert(seq![a][0] == a);
    assert(seq![a].drop_first() =~= Seq::<Seq<u8>>::empty());
    assert(spec_build_sequence_from(tasks, Seq::<Seq<u8>>::empty(), odcdb.push(a)) == Ok::<
        Seq<Seq<u8>>,
        ResolveErr,
    >(odcdb.push(a)));
    assert(odcdb.push(a) =~= seq![d, c, d, b, a]);
}

/// Whatever a dependency resolution returns only ever grows the sequence:
/// every name already present stays present.
proof fn lemma_resolve_grows(
    tasks: Seq<TaskDefView>,
    name: Seq<u8>,
    acc: Seq<Seq<u8>>,
    stack: Seq<Seq<u8>>,
    x: Seq<u8>,
)
    requires
        stack_ok(tasks, stack),
        acc.contains(x),
    ensures
        spec_resolve(tasks, name, acc, stack) matches Ok(s) ==> s.contains(x),
    decreases tasks.len() + 1 - stack.len(), 0int,
{
    if !stack.contains(name) {
        match spec_find_task(tasks, name) {
            Some(t) => {
                lemma_find_task_name(tasks, name);
                lemma_stack_push_ok(tasks, stack, name);
                lemma_stack_len(tasks, stack.push(name));
                lemma_resolve_deps_grows(tasks, t.deps, acc, stack.push(name), x);
            },
            None => {},
        }
    }
}

proof fn lemma_resolve_deps_grows(
    tasks: Seq<TaskDefView>,
    deps: Seq<DepView>,
    acc: Seq<Seq<u8>>,
    stack: Seq<Seq<u8>>,
    x: Seq<u8>,
)
    requires
        stack_ok(tasks, stack),
        acc.contains(x),
    ensures
        spec_resolve_deps(tasks, deps, acc, stack) matches Ok(s) ==> s.contains(x),
    decreases tasks.len() + 1 - stack.len(), deps.len() + 1,
{
    lemma_stack_len(tasks, stack);
    if deps.len() > 0 {
        lemma_resolve_grows(tasks, deps[0].name, acc, stack, x);
        match spec_resolve(tasks, deps[0].name, acc, stack) {
            Ok(s1) => {
                let s2: Seq<Seq<u8>> = if deps[0].run_always || !s1.contains(deps[0].name) {
                    s1.push(deps[0].name)
                } else {
                    s1
                };
                assert(s2.contains(x)) by {
                    let j = choose|j: int| 0 <= j < s1.len() && s1[j] == x;
                    assert(s2[j] == x);
                }
                lemma_resolve_deps_grows(tasks, deps.drop_first(), s2, stack, x);
            },
            Err(_) => {},
        }
    }
}

/// Every name that dependency resolution adds to the sequence is a defined
/// task name: resolution only succeeds after looking each name up.
proof fn lemma_resolve_names_defined(
    tasks: Seq<TaskDefView>,
    name: Seq<u8>,
    acc: Seq<Seq<u8>>,
    stack: Seq<Seq<u8>>,
)
    requires
        stack_ok(tasks, stack),
        forall|k: int| 0 <= k < acc.len() ==> task_defined(tasks, #[trigger] acc[k]),
    ensures
        spec_resolve(tasks, name, acc, stack) matches Ok(s) ==> forall|k: int|
            0 <= k < s.len() ==> task_defined(tasks, #[trigger] s[k]),
    decreases tasks.len() + 1 - stack.len(), 0int,
{
    if !stack.contains(name) {
        match spec_find_task(tasks, name) {
            Some(t) => {
                lemma_find_task_name(tasks, name);
                lemma_stack_push_ok(tasks, stack, name);
                lemma_stack_len(tasks, stack.push(name));
                lemma_resolve_deps_names_defined(tasks, t.deps, acc, stack.push(name));
            },
            None => {},
        }
    }
}

proof fn lemma_resolve_deps_names_defined(
    tasks: Seq<TaskDefView>,
    deps: Seq<DepView>,
    acc: Seq<Seq<u8>>,
    stack: Seq<Seq<u8>>,
)
    requires
        stack_ok(tasks, stack),
        forall|k: int| 0 <= k < acc.len() ==> task_defined(tasks, #[trigger] acc[k]),
    ensures
        spec_resolve_deps(tasks, deps, acc, stack) matches Ok(s) ==> forall|k: int|
            0 <= k < s.len() ==> task_defined(tasks, #[trigger] s[k]),
    decreases tasks.len() + 1 - stack.len(), deps.len() + 1,
{
    lemma_stack_len(tasks, stack);
    if deps.len() > 0 {
        lemma_resolve_names_defined(tasks, deps[0].name, acc, stack);
        match spec_resolve(tasks, deps[0].name, acc, stack) {
            Ok(s1) => {
                // the resolution of deps[0].name succeeded, so it was found
                assert(task_defined(tasks, deps[0].name));
                let s2: Seq<Seq<u8>> = if deps[0].run_always || !s1.contains(deps[0].name) {
                    s1.push(deps[0].name)
                } else {
                    s1
                };
                assert(forall|k: int|
                    0 <= k < s2.len() ==> task_defined(tasks, #[trigger] s2[k]));
                lemma_resolve_deps_names_defined(tasks, deps.drop_first(), s2, stack);
            },
            Err(_) => {},
        }
    }
}

/// Every name of a successfully built execution sequence is a defined task:
/// the executor can look each one up without surprise.
pub proof fn lemma_sequence_names_defined(tasks: Seq<TaskDefView>, requested: Seq<Seq<u8>>)
    ensures
        spec_build_sequence(tasks, requested) matches Ok(s) ==> forall|k: int|
            0 <= k < s.len() ==> task_defined(tasks, #[trigger] s[k]),
{
    lemma_sequence_from_names_defined(tasks, requested, Seq::empty());
}

proof fn lemma_sequence_from_names_defined(
    tasks: Seq<TaskDefView>,
    requested: Seq<Seq<u8>>,
    acc: Seq<Seq<u8>>,
)
    requires
        forall|k: int| 0 <= k < acc.len() ==> task_defined(tasks, #[trigger] acc[k]),
    ensures
        spec_build_sequence_from(tasks, requested, acc) matches Ok(s) ==> forall|k: int|
            0 <= k < s.len() ==> task_defined(tasks, #[trigger] s[k]),
    decreases requested.len(),
{
    if requested.len() > 0 {
        let e0: Seq<Seq<u8>> = Seq::empty();
        assert(stack_ok(tasks, e0));
        lemma_resolve_names_defined(tasks, requested[0], acc, e0);
        match spec_resolve(tasks, requested[0], acc, e0) {
            Ok(s1) => {
                assert(task_defined(tasks, requested[0]));
                let s2: Seq<Seq<u8>> = if !s1.contains(requested[0]) {
                    s1.push(requested[0])
                } else {
                    s1
                };
                assert(forall|k: int|
                    0 <= k < s2.len() ==> task_defined(tasks, #[trigger] s2[k]));
                lemma_sequence_from_names_defined(tasks, requested.drop_first(), s2);
            },
            Err(_) => {},
        }
    }
}

/// Every requested task is in the built sequence: a requested name is
/// appended right after its dependencies unless an earlier expansion already
/// ran it, and nothing is ever removed.
pub proof fn lemma_sequence_contains_requested(
    tasks: Seq<TaskDefView>,
    requested: Seq<Seq<u8>>,
    x: Seq<u8>,
)
    requires
        requested.contains(x),
    ensures
        spec_build_sequence(tasks, requested) matches Ok(s) ==> s.contains(x),
{
    lemma_sequence_from_contains(tasks, requested, Seq::empty(), x);
}

proof fn lemma_sequence_from_contains(
    tasks: Seq<TaskDefView>,
    requested: Seq<Seq<u8>>,
    acc: Seq<Seq<u8>>,
    x: Seq<u8>,
)
    requires
        requested.contains(x) || acc.contains(x),
    ensures
        spec_build_sequence_from(tasks, requested, acc) matches Ok(s) ==> s.contains(x),
    decreases requested.len(),
{
    if requested.len() > 0 {
        let e0: Seq<Seq<u8>> = Seq::empty();
        assert(stack_ok(tasks, e0));
        match spec_resolve(tasks, requested[0], acc, e0) {
            Ok(s1) => {
                let s2: Seq<Seq<u8>> = if !s1.contains(requested[0]) {
                    s1.push(requested[0])
                } else {
                    s1
                };
                assert(s2.contains(requested[0])) by {
                    if s1.contains(requested[0]) {
                        let j = choose|j: int| 0 <= j < s1.len() && s1[j] == requested[0];
                        assert(s2[j] == requested[0]);
                    } else {
                        assert(s2[s2.len() - 1] == requested[0]);
                    }
                }
                if acc.contains(x) {
                    lemma_resolve_grows(tasks, requested[0], acc, e0, x);
                    assert(s2.contains(x)) by {
                        let j = choose|j: int| 0 <= j < s1.len() && s1[j] == x;
                        assert(s2[j] == x);
                    }
                    lemma_sequence_from_contains(tasks, requested.drop_first(), s2, x);
                } else if requested[0] == x {
                    lemma_sequence_from_contains(tasks, requested.drop_first(), s2, x);
                } else {
                    assert(requested.drop_first().contains(x)) by {
                        let j = choose|j: int|
                            0 <= j < requested.len() && requested[j] == x;
                        assert(requested.drop_first()[j - 1] == x);
                    }
                    lemma_sequence_from_contains(tasks, requested.drop_first(), s2, x);
                }
            },
            Err(_) => {},
        }
    }
}

// --- executable code ---

/// Lexicographic order on byte strings.
pub open spec fn lex_le(a: Seq<u8>, b: Seq<u8>) -> bool
    decreases a.len(),
{
    if a.len() == 0 {
        true
    } else if b.len() == 0 {
        false
    } else if a[0] < b[0] {
        true
    } else if a[0] > b[0] {
        false
    } else {
        lex_le(a.drop_first(), b.drop_first())
    }
}

pub proof fn lemma_lex_total(a: Seq<u8>, b: Seq<u8>)
    ensures
        lex_le(a, b) || lex_le(b, a),
    decreases a.len(),
{
    if a.len() > 0 && b.len() > 0 && a[0] == b[0] {
        lemma_lex_total(a.drop_first(), b.drop_first());
    }
}

pub proof fn lemma_lex_trans(a: Seq<u8>, b: Seq<u8>, c: Seq<u8>)
    requires
        lex_le(a, b),
        lex_le(b, c),
    ensures
        lex_le(a, c),
    decreases a.len(),
{
    if a.len() > 0 {
        if a[0] == b[0] && b[0] == c[0] {
            lemma_lex_trans(a.drop_first(), b.drop_first(), c.drop_first());
        }
    }
}

/// The names appear pairwise in order.
pub open spec fn names_sorted(s: Seq<Seq<u8>>) -> bool {
    forall|i: int, j: int| 0 <= i < j < s.len() ==> lex_le(#[trigger] s[i], #[trigger] s[j])
}

/// Compares two byte strings lexicographically.
#[verifier::loop_isolation(false)]
pub fn bytes_le(a: &Vec<u8>, b: &Vec<u8>) -> (r: bool)
    ensures
        r == lex_le(a@, b@),
{
    proof {
        assert(a@.skip(0) =~= a@);
        assert(b@.skip(0) =~= b@);
    }
    let mut i: usize = 0;
    loop
        invariant
            i <= a.len(),
            i <= b.len(),
            lex_le(a@, b@) == lex_le(a@.skip(i as int), b@.skip(i as int)),
        decreases a.len() - i,
    {
        if i >= a.len() {
            proof {
                assert(a@.skip(i as int).len() == 0);
            }
            return true;
        }
        if i >= b.len() {
            proof {
                assert(b@.skip(i as int).len() == 0);
                assert(a@.skip(i as int).len() > 0);
            }
            return false;
        }
        proof {
            assert(a@.skip(i as int)[0] == a@[i as int]);
            assert(b@.skip(i as int)[0] == b@[i as int]);
            assert(a@.skip(i as int).drop_first() =~= a@.skip(i + 1));
            assert(b@.skip(i as int).drop_first() =~= b@.skip(i + 1));
        }
        if a[i] < b[i] {
            return true;
        }
        if a[i] > b[i] {
            return false;
        }
        i = i + 1;
    }
}

/// Inserting an element anywhere adds exactly it to the multiset of the
/// sequence's elements.
proof fn lemma_insert_multiset(s: Seq<Seq<u8>>, i: int, x: Seq<u8>)
    requires
        0 <= i <= s.len(),
    ensures
        s.insert(i, x).to_multiset() == s.to_multiset().insert(x),
{
    broadcast use vstd::seq_lib::group_to_multiset_ensures;

    let t = s.insert(i, x);
    assert(t.remove(i) =~= s);
    assert(t[i] == x);
    assert(s.to_multiset() =~= t.to_multiset().remove(x));
    assert(t.contains(x));
    assert(t.to_multiset().count(x) > 0);
    assert(t.to_multiset() =~= s.to_multiset().insert(x));
}

/// The defined task names in lexicographic order: what a listing of the
/// table renders. The result holds exactly the table's names.
#[verifier::loop_isolation(false)]
pub fn sorted_task_names(tasks: &Vec<Task>) -> (r: Vec<Vec<u8>>)
    ensures
        r.deep_view().to_multiset() == table_names(task_views(tasks@)).to_multiset(),
        names_sorted(r.deep_view()),
{
    broadcast use vstd::seq_lib::group_to_multiset_ensures;

    let ghost names = table_names(task_views(tasks@));
    let mut out: Vec<Vec<u8>> = Vec::new();
    proof {
        assert(out.deep_view() =~= Seq::<Seq<u8>>::empty());
        assert(names.take(0) =~= Seq::<Seq<u8>>::empty());
        assert(Seq::<Seq<u8>>::empty().to_multiset() =~= names.take(0).to_multiset());
    }
    let mut i: usize = 0;
    while i < tasks.len()
        invariant
            i <= tasks.len(),
            out.deep_view().to_multiset() == names.take(i as int).to_multiset(),
            names_sorted(out.deep_view()),
        decreases tasks.len() - i,
    {
        let name = copy_bytes(&tasks[i].name);
        let ghost nm = name@;
        proof {
            assert(names[i as int] == nm);
        }
        let mut k: usize = 0;
        while k < out.len() && bytes_le(&out[k], &name)
            invariant
                k <= out.len(),
                forall|m: int| 0 <= m < k ==> lex_le(#[trigger] out.deep_view()[m], nm),
            decreases out.len() - k,
        {
            k = k + 1;
        }
        let ghost g = out.deep_view();
        proof {
            if k < out.len() {
                lemma_lex_total(g[k as int], nm);
            }
            assert forall|m: int| k <= m < g.len() implies lex_le(nm, g[m]) by {
                if m > k {
                    lemma_lex_trans(nm, g[k as int], g[m]);
                }
            }
        }
        out.insert(k, name);
        proof {
            let t = out.deep_view();
            assert(t =~= g.insert(k as int, nm)) by {
                assert forall|m: int| 0 <= m < t.len() implies t[m] == g.insert(k as int, nm)[m]
                    by {
                        if m < k {
                            assert(out@[m] == out@[m]);
                        }
                    };
            }
            lemma_insert_multiset(g, k as int, nm);
            assert(names.take(i + 1) =~= names.take(i as int).push(nm));
            assert(names.take(i as int).push(nm).to_multiset() =~= names.take(
                i as int,
            ).to_multiset().insert(nm));
            assert(t.to_multiset() =~= names.take(i + 1).to_multiset());
            assert forall|p: int, q: int| 0 <= p < q < t.len() implies lex_le(t[p], t[q]) by {
                if q < k {
                } else if p < k && q == k {
                    assert(t[p] == g[p] && t[q] == nm);
                } else if p < k && q > k {
                    assert(t[p] == g[p] && t[q] == g[q - 1]);
                } else if p == k {
                    assert(t[p] == nm && t[q] == g[q - 1]);
                } else {
                    assert(t[p] == g[p - 1] && t[q] == g[q - 1]);
                }
            }
            assert(names_sorted(t));
        }
        i = i + 1;
    }
    proof {
        assert(names.take(i as int) =~= names);
    }
    out
}

/// Whether `name` occurs in `v`.
#[verifier::loop_isolation(false)]
pub fn contains_name(v: &Vec<Vec<u8>>, name: &Vec<u8>) -> (r: bool)
    ensures
        r == v.deep_view().contains(name@),
{
    let mut i: usize = 0;
    while i < v.len()
        invariant
            i <= v.len(),
            forall|j: int| 0 <= j < i ==> v.deep_view()[j] != name@,
        decreases v.len() - i,
    {
        if bytes_eq(&v[i], name) {
            proof {
                assert(v.deep_view()[i as int] == name@);
            }
            return true;
        }
        i = i + 1;
    }
    proof {
        if v.deep_view().contains(name@) {
            let j = choose|j: int| 0 <= j < v.deep_view().len() && v.deep_view()[j] == name@;
            assert(v.deep_view()[j] != name@);
        }
    }
    false
}

/// Looks a task up by name.
#[verifier::loop_isolation(false)]
pub fn find_task<'a>(tasks: &'a Vec<Task>, name: &Vec<u8>) -> (r: Option<&'a Task>)
    ensures
        match r {
            Some(t) => spec_find_task(task_views(tasks@), name@) == Some(t@),
            None => spec_find_task(task_views(tasks@), name@) is None,
        },
{
    let ghost vts = task_views(tasks@);
    proof {
        assert(vts.skip(0) =~= vts);
    }
    let mut i: usize = 0;
    while i < tasks.len()
        invariant
            i <= tasks.len(),
            vts == task_views(tasks@),
            spec_find_task(vts, name@) == spec_find_task(vts.skip(i as int), name@),
        decreases tasks.len() - i,
    {
        proof {
            assert(vts.skip(i as int)[0] == vts[i as int]);
            assert(vts.skip(i as int).drop_first() =~= vts.skip(i + 1));
        }
        if bytes_eq(&tasks[i].name, name) {
            return Some(&tasks[i]);
        }
        i = i + 1;
    }
    proof {
        assert(vts.skip(i as int).len() == 0);
    }
    None
}

/// Walks the root's children once, inserting each task definition by name;
/// a name already present is reported as a duplicate at once, and the second
/// definition never replaces the first.
#[verifier::loop_isolation(false)]
pub fn build_task_map(el: &AstNode, tasks: &mut Vec<Task>) -> (r: Result<(), FriggenError>)
    requires
        el.wf_root(),
        old(tasks)@.len() == 0,
    ensures
        match r {
            Ok(()) => spec_build_tasks(el.root_items()) == Ok::<Seq<TaskDefView>, Seq<u8>>(
                task_views(final(tasks)@),
            ),
            Err(e) => {
                &&& e matches FriggenError::DuplicateTaskDefinition(n)
                &&& spec_build_tasks(el.root_items()) == Err::<Seq<TaskDefView>, Seq<u8>>(n@)
            },
        },
{
    let children: &Vec<AstNode> = match el {
        AstNode::Root(v) => v,
        _ => vstd::pervasive::unreached(),
    };
    let ghost ivs = el.root_items();
    proof {
        assert(ivs.skip(0) =~= ivs);
        assert(task_views(tasks@) =~= Seq::<TaskDefView>::empty());
    }
    let mut i: usize = 0;
    while i < children.len()
        invariant
            i <= children.len(),
            ivs == el.root_items(),
            children == el->Root_0,
            el.wf_root(),
            spec_build_tasks(ivs) == spec_build_tasks_from(
                ivs.skip(i as int),
                task_views(tasks@),
            ),
        decreases children.len() - i,
    {
        proof {
            assert(el->Root_0@[i as int].wf_item());
            assert(ivs.skip(i as int)[0] == ivs[i as int]);
            assert(ivs.skip(i as int).drop_first() =~= ivs.skip(i + 1));
        }
        match &children[i] {
            AstNode::TaskDef(d) => {
                let header = d.header.as_task_header();
                let name = copy_bytes(&header.name);
                let dup = match find_task(tasks, &name) {
                    Some(_) => true,
                    None => false,
                };
                proof {
                    assert(name@ =~= header.name@);
                }
                if dup {
                    return Err(FriggenError::DuplicateTaskDefinition(name));
                }
                let mut deps: Vec<TaskDep> = Vec::new();
                let ghost gdeps = (*d.header)->TaskHeader_0.deps@.map_values(
                    |n: AstNode| n.dep_view(),
                );
                let mut j: usize = 0;
                while j < header.deps.len()
                    invariant
                        j <= header.deps.len(),
                        header == (*d.header)->TaskHeader_0,
                        (*d.header).wf_header(),
                        gdeps == (*d.header)->TaskHeader_0.deps@.map_values(
                            |n: AstNode| n.dep_view(),
                        ),
                        deps@.map_values(|dd: TaskDep| dd@) =~= gdeps.take(j as int),
                    decreases header.deps.len() - j,
                {
                    let dn = header.deps[j].as_task_dep();
                    let dep = TaskDep { name: copy_bytes(&dn.name), run_always: dn.run_always };
                    let ghost prev = deps@;
                    deps.push(dep);
                    proof {
                        assert(dep@ == gdeps[j as int]);
                        assert(deps@ == prev.push(dep));
                        assert(prev.map_values(|dd: TaskDep| dd@) =~= gdeps.take(j as int));
                        assert(deps@.map_values(|dd: TaskDep| dd@) =~= gdeps.take(j + 1));
                    }
                    j = j + 1;
                }
                let docs: Option<Vec<Vec<u8>>> = match &d.docs {
                    Some(b) => Some(copy_lines(b.as_task_docs())),
                    None => None,
                };
                let script = d.script.as_task_script();
                let hash_bang: Option<Vec<Vec<u8>>> = match &script.hash_bang {
                    Some(hb) => Some(copy_lines(hb)),
                    None => None,
                };
                let lines = copy_lines(&script.lines);
                let task = Task { name, docs, deps, hash_bang, script: lines };
                let ghost tdv = ivs[i as int]->Task_0;
                proof {
                    assert(ivs[i as int] == el->Root_0@[i as int].item_view());
                    assert(task@.name == tdv.name);
                    assert(gdeps.take(gdeps.len() as int) =~= gdeps);
                    assert(task@.deps == tdv.deps);
                    if d.docs is Some {
                        assert(task@.docs == tdv.docs);
                    } else {
                        assert(task@.docs == tdv.docs);
                    }
                    if (*d.script)->TaskScript_0.hash_bang is Some {
                        assert(task@.hash_bang == tdv.hash_bang);
                    } else {
                        assert(task@.hash_bang == tdv.hash_bang);
                    }
                    assert(task@.lines == tdv.lines);
                    assert(deps_match(task, tdv));
                    assert(task@ == tdv);
                }
                let ghost prevtasks = task_views(tasks@);
                tasks.push(task);
                proof {
                    assert(task_views(tasks@) =~= prevtasks.push(tdv));
                }
            },
            _ => {
            },
        }
        i = i + 1;
    }
    proof {
        assert(ivs.skip(i as int).len() == 0);
    }
    Ok(())
}

/// The parts of a task's model that [`build_task_map`] assembles piecewise.
spec fn deps_match(task: Task, tdv: TaskDefView) -> bool {
    &&& task@.docs == tdv.docs
    &&& task@.name == tdv.name
    &&& task@.deps == tdv.deps
    &&& task@.hash_bang == tdv.hash_bang
    &&& task@.lines == tdv.lines
}

/// Checks that every dependency of every task names a defined task; the
/// first unresolved reference is reported with its referrer and referee.
#[verifier::loop_isolation(false)]
pub fn validate_tasks(tasks: &Vec<Task>) -> (r: Result<(), FriggenError>)
    ensures
        match r {
            Ok(()) => spec_validate(task_views(tasks@)) is None,
            Err(e) => {
                &&& e matches FriggenError::InvalidTaskReference { referrer, referee }
                &&& spec_validate(task_views(tasks@)) == Some((referrer@, referee@))
            },
        },
{
    let ghost vts = task_views(tasks@);
    let mut i: usize = 0;
    while i < tasks.len()
        invariant
            i <= tasks.len(),
            vts == task_views(tasks@),
            spec_validate(vts) == spec_validate_from(vts, i as int),
        decreases tasks.len() - i,
    {
        let t = &tasks[i];
        let mut j: usize = 0;
        while j < t.deps.len()
            invariant
                j <= t.deps.len(),
                vts == task_views(tasks@),
                i < tasks.len(),
                t == tasks@[i as int],
                first_bad_dep(vts, vts[i as int], 0) == first_bad_dep(vts, vts[i as int], j as int),
            decreases t.deps.len() - j,
        {
            let defined = match find_task(tasks, &t.deps[j].name) {
                Some(_) => true,
                None => false,
            };
            if !defined {
                let referrer = copy_bytes(&t.name);
                let referee = copy_bytes(&t.deps[j].name);
                proof {
                    assert(vts[i as int] == tasks@[i as int]@);
                    assert(vts[i as int].deps[j as int] == tasks@[i as int].deps@[j as int]@);
                    assert(referrer@ == vts[i as int].name);
                    assert(referee@ == vts[i as int].deps[j as int].name);
                    assert(first_bad_dep(vts, vts[i as int], j as int) == Some(
                        (referrer@, referee@),
                    ));
                    assert(spec_validate_from(vts, i as int) == Some((referrer@, referee@)));
                }
                return Err(FriggenError::InvalidTaskReference { referrer, referee });
            }
            proof {
                assert(vts[i as int].deps[j as int] == tasks@[i as int].deps@[j as int]@);
            }
            j = j + 1;
        }
        i = i + 1;
    }
    Ok(())
}

/// Resolves one task name depth-first, growing `out` and using `stack` to
/// detect cycles; on success the stack is exactly as it was.
#[verifier::loop_isolation(false)]
pub fn resolve_task_sequence(
    task_name: &Vec<u8>,
    tasks: &Vec<Task>,
    out: &mut Vec<Vec<u8>>,
    stack: &mut Vec<Vec<u8>>,
) -> (r: Result<(), FriggenError>)
    requires
        stack_ok(task_views(tasks@), old(stack).deep_view()),
    ensures
        match r {
            Ok(()) => {
                &&& final(stack).deep_view() == old(stack).deep_view()
                &&& spec_resolve(
                    task_views(tasks@),
                    task_name@,
                    old(out).deep_view(),
                    old(stack).deep_view(),
                ) == Ok::<Seq<Seq<u8>>, ResolveErr>(final(out).deep_view())
            },
            Err(e) => match spec_resolve(
                task_views(tasks@),
                task_name@,
                old(out).deep_view(),
                old(stack).deep_view(),
            ) {
                Err(ResolveErr::Cycle(c)) => e matches FriggenError::CyclicTaskReference(vc)
                    && vc.deep_view() == c,
                Err(ResolveErr::NotFound(nm)) => e matches FriggenError::TaskNotFound(vn) && vn@
                    == nm,
                Ok(_) => false,
            },
        },
    decreases tasks@.len() + 1 - old(stack)@.len(),
{
    let ghost vts = task_views(tasks@);
    let ghost st0 = stack.deep_view();
    let ghost out0 = out.deep_view();
    if contains_name(stack, task_name) {
        let mut cycle = copy_lines(stack);
        let nm = copy_bytes(task_name);
        cycle.push(nm);
        proof {
            assert(cycle.deep_view() =~= st0.push(task_name@));
        }
        return Err(FriggenError::CyclicTaskReference(cycle));
    }
    let t = match find_task(tasks, task_name) {
        None => {
            return Err(FriggenError::TaskNotFound(copy_bytes(task_name)));
        },
        Some(t) => t,
    };
    stack.push(copy_bytes(task_name));
    let ghost st1 = st0.push(task_name@);
    proof {
        assert(stack.deep_view() =~= st1);
        lemma_find_task_name(vts, task_name@);
        lemma_stack_push_ok(vts, st0, task_name@);
        lemma_stack_len(vts, st1);
        assert(spec_resolve(vts, task_name@, out0, st0) == spec_resolve_deps(
            vts,
            t@.deps,
            out0,
            st1,
        ));
        assert(t@.deps.skip(0) =~= t@.deps);
    }
    let mut j: usize = 0;
    while j < t.deps.len()
        invariant
            j <= t.deps.len(),
            vts == task_views(tasks@),
            t@.deps.len() == t.deps.len(),
            stack.deep_view() == st1,
            st1 == st0.push(task_name@),
            stack_ok(vts, st0),
            stack_ok(vts, st1),
            spec_resolve(vts, task_name@, out0, st0) == spec_resolve_deps(
                vts,
                t@.deps,
                out0,
                st1,
            ),
            spec_resolve_deps(vts, t@.deps, out0, st1) == spec_resolve_deps(
                vts,
                t@.deps.skip(j as int),
                out.deep_view(),
                st1,
            ),
        decreases t.deps.len() - j,
    {
        let dep = &t.deps[j];
        let ghost cur_out = out.deep_view();
        proof {
            lemma_stack_len(vts, st1);
            assert(t@.deps.skip(j as int)[0] == t@.deps[j as int]);
            assert(t@.deps[j as int] == t.deps@[j as int]@);
        }
        match resolve_task_sequence(&dep.name, tasks, out, stack) {
            Err(e) => {
                proof {
                    match spec_resolve(vts, t@.deps[j as int].name, cur_out, st1) {
                        Err(re) => {
                            assert(spec_resolve_deps(vts, t@.deps.skip(j as int), cur_out, st1)
                                == Err::<Seq<Seq<u8>>, ResolveErr>(re));
                        },
                        Ok(_) => {},
                    }
                }
                return Err(e);
            },
            Ok(()) => {},
        }
        let ghost s1 = out.deep_view();
        let push_it = dep.run_always || !contains_name(out, &dep.name);
        if push_it {
            out.push(copy_bytes(&dep.name));
        }
        proof {
            let gd = t@.deps[j as int];
            if push_it {
                assert(out.deep_view() =~= s1.push(gd.name));
            }
            assert(t@.deps.skip(j as int).drop_first() =~= t@.deps.skip(j + 1));
        }
        j = j + 1;
    }
    proof {
        assert(t@.deps.skip(j as int).len() == 0);
    }
    let ghost prevs = stack@;
    let _ = stack.pop();
    proof {
        assert(stack@ == prevs.subrange(0, prevs.len() - 1));
        assert forall|k: int| 0 <= k < stack@.len() implies stack.deep_view()[k] == st0[k] by {
            assert(stack@[k] == prevs[k]);
            assert(prevs[k].deep_view() == st1[k]);
            assert(st1[k] == st0[k]);
        }
        assert(stack.deep_view() =~= st0);
    }
    Ok(())
}

/// Expands the requested task names, in the order given, into the full
/// execution sequence.
#[verifier::loop_isolation(false)]
pub fn build_task_sequence(requested_tasks: &Vec<Vec<u8>>, tasks: &Vec<Task>) -> (r: Result<
    Vec<Vec<u8>>,
    FriggenError,
>)
    ensures
        match r {
            Ok(out) => spec_build_sequence(task_views(tasks@), requested_tasks.deep_view())
                == Ok::<Seq<Seq<u8>>, ResolveErr>(out.deep_view()),
            Err(e) => match spec_build_sequence(task_views(tasks@), requested_tasks.deep_view()) {
                Err(ResolveErr::Cycle(c)) => e matches FriggenError::CyclicTaskReference(vc)
                    && vc.deep_view() == c,
                Err(ResolveErr::NotFound(nm)) => e matches FriggenError::TaskNotFound(vn) && vn@
                    == nm,
                Ok(_) => false,
            },
        },
{
    let ghost vts = task_views(tasks@);
    let ghost req = requested_tasks.deep_view();
    let mut out: Vec<Vec<u8>> = Vec::new();
    let mut stack: Vec<Vec<u8>> = Vec::new();
    proof {
        assert(req.skip(0) =~= req);
        assert(out.deep_view() =~= Seq::<Seq<u8>>::empty());
        assert(stack.deep_view() =~= Seq::<Seq<u8>>::empty());
    }
    let mut i: usize = 0;
    while i < requested_tasks.len()
        invariant
            i <= requested_tasks.len(),
            vts == task_views(tasks@),
            req == requested_tasks.deep_view(),
            stack.deep_view() == Seq::<Seq<u8>>::empty(),
            spec_build_sequence(vts, req) == spec_build_sequence_from(
                vts,
                req.skip(i as int),
                out.deep_view(),
            ),
        decreases requested_tasks.len() - i,
    {
        let name = &requested_tasks[i];
        let ghost cur_out = out.deep_view();
        proof {
            assert(req.skip(i as int)[0] == req[i as int]);
            assert(req[i as int] == name@);
        }
        match resolve_task_sequence(name, tasks, &mut out, &mut stack) {
            Err(e) => {
                proof {
                    match spec_resolve(vts, req[i as int], cur_out, Seq::empty()) {
                        Err(re) => {
                            assert(spec_build_sequence_from(vts, req.skip(i as int), cur_out)
                                == Err::<Seq<Seq<u8>>, ResolveErr>(re));
                        },
                        Ok(_) => {},
                    }
                }
                return Err(e);
            },
            Ok(()) => {},
        }
        let ghost s1 = out.deep_view();
        if !contains_name(&out, name) {
            out.push(copy_bytes(name));
            proof {
                assert(out.deep_view() =~= s1.push(name@));
            }
        }
        proof {
            assert(req.skip(i as int).drop_first() =~= req.skip(i + 1));
        }
        i = i + 1;
    }
    proof {
        assert(req.skip(i as int).len() == 0);
    }
    Ok(out)
}

} // verus!
