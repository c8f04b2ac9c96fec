//! The task store: every task ever added, the dependencies between tasks,
//! the id allocator, the task that `shuffle` chose, and a history of
//! snapshots that `undo` restores.
//! Each mutation either commits completely, recording the state it replaced,
//! or fails and leaves everything as it was.

use vstd::prelude::*;

use crate::error::Error;
use crate::model::{
    Dependency, Graph, Task, find_index, find_task, ids_ascending, pending_in, search, seq_less,
    lemma_edge_children_contains, lemma_edge_parents_contains, lemma_edges_distinct,
    lemma_find_index_bounds, lemma_find_index_sorted, lemma_find_task_sorted,
};
use crate::text::{decimal, push_decimal, push_digits};

verus! {

/// The stored rows: all tasks (deleted ones too) sorted by id, the
/// dependency rows sorted by parent then child, the next id to hand out, and
/// the task that `shuffle` chose, if any.
#[verifier::ext_equal]
pub struct Store {
    pub tasks: Seq<Task>,
    pub dependencies: Seq<Dependency>,
    pub next_task_id: i64,
    pub selected: Option<i64>,
}

/// A snapshot taken before a mutation, with the mutation's kind and time.
#[verifier::ext_equal]
pub struct Record {
    pub kind: Seq<char>,
    pub happened_at: i64,
    pub store: Store,
}

/// The whole database: the current rows and the snapshots, oldest first.
#[verifier::ext_equal]
pub struct DatabaseView {
    pub store: Store,
    pub history: Seq<Record>,
}

/// Why a mutation was refused.
pub enum Fault {
    /// A rule of the task list, with its message.
    Domain(Seq<char>),
    /// A storage constraint, with its message.
    Database(Seq<char>),
}

/// `e` reports the fault `f`.
pub open spec fn reports(e: Error, f: Fault) -> bool {
    match (e, f) {
        (Error::Domain(m), Fault::Domain(t)) => m@ == t,
        (Error::Database(m), Fault::Database(t)) => m@ == t,
        _ => false,
    }
}

/// Dependency rows strictly ascending by parent, then child.
pub open spec fn dep_less(a: Dependency, b: Dependency) -> bool {
    a.parent < b.parent || (a.parent == b.parent && a.child < b.child)
}

/// Dependency rows strictly ascending by parent, then child, all along.
pub open spec fn deps_ascending(s: Seq<Dependency>) -> bool {
    forall|i: int, j: int| 0 <= i < j < s.len() ==> dep_less(#[trigger] s[i], #[trigger] s[j])
}

/// The task with `id` unless it is deleted.
pub open spec fn live(tasks: Seq<Task>, id: i64) -> Option<Task> {
    match find_task(tasks, id) {
        Some(t) => if t.deleted_at is None {
            Some(t)
        } else {
            None
        },
        None => None,
    }
}

/// The rows keep their orders, every task id is below the next id, and every
/// dependency joins two different tasks.
pub open spec fn well_formed(s: Store) -> bool {
    &&& ids_ascending(s.tasks)
    &&& deps_ascending(s.dependencies)
    &&& forall|i: int| 0 <= i < s.tasks.len() ==> (#[trigger] s.tasks[i]).id < s.next_task_id
    &&& forall|k: int|
        0 <= k < s.dependencies.len() ==> {
            let d = #[trigger] s.dependencies[k];
            &&& d.parent != d.child
            &&& find_task(s.tasks, d.parent) is Some
            &&& find_task(s.tasks, d.child) is Some
        }
}

/// The tasks of `s` that are not deleted, in order.
pub open spec fn live_rows(s: Seq<Task>) -> Seq<Task>
    decreases s.len(),
{
    if s.len() == 0 {
        Seq::empty()
    } else {
        let r = live_rows(s.drop_last());
        if s.last().deleted_at is None {
            r.push(s.last())
        } else {
            r
        }
    }
}

/// The dependency rows whose two tasks are not deleted, in order.
pub open spec fn live_links(deps: Seq<Dependency>, tasks: Seq<Task>) -> Seq<Dependency>
    decreases deps.len(),
{
    if deps.len() == 0 {
        Seq::empty()
    } else {
        let r = live_links(deps.drop_last(), tasks);
        let d = deps.last();
        if live(tasks, d.parent) is Some && live(tasks, d.child) is Some {
            r.push(d)
        } else {
            r
        }
    }
}

/// Some dependency row has `id` as parent and a pending task as child.
pub open spec fn blocked(tasks: Seq<Task>, deps: Seq<Dependency>, id: i64) -> bool {
    exists|k: int| 0 <= k < deps.len() && (#[trigger] deps[k]).parent == id && pending_in(tasks, deps[k].child)
}

/// A pending task gains a readiness time when it becomes actionable and
/// loses it when it becomes blocked; other tasks keep theirs.
pub open spec fn refresh(t: Task, tasks: Seq<Task>, deps: Seq<Dependency>, now: i64) -> Task {
    if t.pending() {
        let actionable = !blocked(tasks, deps, t.id);
        if t.ready_at is None && actionable {
            Task { ready_at: Some(now), ..t }
        } else if t.ready_at is Some && !actionable {
            Task { ready_at: None, ..t }
        } else {
            t
        }
    } else {
        t
    }
}

/// Every task after readiness is recomputed.
pub open spec fn refreshed(tasks: Seq<Task>, deps: Seq<Dependency>, now: i64) -> Seq<Task> {
    Seq::new(tasks.len(), |i: int| refresh(tasks[i], tasks, deps, now))
}

/// The store with its readiness recomputed at `now`.
pub open spec fn settle(s: Store, now: i64) -> Store {
    Store { tasks: refreshed(s.tasks, s.dependencies, now), ..s }
}

/// Each pending task has a readiness time exactly when nothing blocks it.
pub open spec fn readiness_consistent(s: Store) -> bool {
    forall|i: int|
        0 <= i < s.tasks.len() && (#[trigger] s.tasks[i]).pending() ==> (s.tasks[i].ready_at is Some
            <==> !blocked(s.tasks, s.dependencies, s.tasks[i].id))
}

/// `task ` + id + `suffix`.
pub open spec fn id_text(prefix: Seq<char>, id: i64, suffix: Seq<char>) -> Seq<char> {
    prefix + decimal(id as int) + suffix
}

/// The refusal for an id that names no live task.
pub open spec fn not_found(id: i64) -> Fault {
    Fault::Domain(id_text("task "@, id, " not found"@))
}

/// The message for a priority outside 1 to 3.
pub open spec fn priority_text() -> Seq<char> {
    "priority must be 1, 2, or 3"@
}

/// The storage constraint that a blank description breaks.
pub open spec fn blank_description_text() -> Seq<char> {
    "CHECK constraint failed: length(trim(description)) > 0"@
}

/// SQLite's `trim` leaves nothing: the text is spaces only.
pub open spec fn sql_blank(s: Seq<char>) -> bool {
    forall|i: int| 0 <= i < s.len() ==> s[i] == ' '
}

/// Replaces the task at index `i` and keeps the rest.
pub open spec fn with_task(s: Store, i: int, t: Task) -> Store {
    Store { tasks: s.tasks.update(i, t), ..s }
}

/// The index of a task with `id` in the rows.
pub open spec fn row_of(s: Store, id: i64) -> int {
    crate::model::find_index(s.tasks, id)
}

/// Position that keeps `deps` ascending when `d` is inserted.
pub open spec fn insert_index(deps: Seq<Dependency>, d: Dependency) -> int
    decreases deps.len(),
{
    if deps.len() == 0 {
        0
    } else if dep_less(deps.last(), d) {
        deps.len() as int
    } else {
        insert_index(deps.drop_last(), d)
    }
}

/// The last index of the row `d`, or -1.
pub open spec fn dep_index(deps: Seq<Dependency>, d: Dependency) -> int
    decreases deps.len(),
{
    if deps.len() == 0 {
        -1
    } else if deps.last() == d {
        deps.len() - 1
    } else {
        dep_index(deps.drop_last(), d)
    }
}

/// The rows that do not touch `id`.
pub open spec fn detached(deps: Seq<Dependency>, id: i64) -> Seq<Dependency>
    decreases deps.len(),
{
    if deps.len() == 0 {
        Seq::empty()
    } else {
        let r = detached(deps.drop_last(), id);
        let d = deps.last();
        if d.parent == id || d.child == id {
            r
        } else {
            r.push(d)
        }
    }
}

/// How many rows touch `id`.
pub open spec fn incident(deps: Seq<Dependency>, id: i64) -> nat
    decreases deps.len(),
{
    if deps.len() == 0 {
        0
    } else {
        let d = deps.last();
        incident(deps.drop_last(), id) + if d.parent == id || d.child == id {
            1nat
        } else {
            0nat
        }
    }
}

/// `c` is a pending task that `id` depends on.
pub open spec fn blocker(s: Store, id: i64, c: i64) -> bool {
    exists|k: int|
        0 <= k < s.dependencies.len() && (#[trigger] s.dependencies[k]).parent == id
            && s.dependencies[k].child == c && pending_in(s.tasks, c)
}

/// The smallest id among the pending tasks that `id` depends on.
pub open spec fn least_blocker(s: Store, id: i64) -> i64 {
    choose|c: i64| #[trigger]
        blocker(s, id, c) && forall|c2: i64| #[trigger] blocker(s, id, c2) ==> c <= c2
}

/// A live dependency leads from `a` to `b`.
pub open spec fn linked(s: Store, a: i64, b: i64) -> bool {
    &&& s.dependencies.contains(Dependency { parent: a, child: b })
    &&& live(s.tasks, a) is Some
    &&& live(s.tasks, b) is Some
}

/// A walk down live dependencies from `a` to `b`.
pub open spec fn store_walk(s: Store, w: Seq<i64>, a: i64, b: i64) -> bool {
    &&& w.len() >= 1
    &&& w[0] == a
    &&& w.last() == b
    &&& forall|i: int| 0 < i < w.len() ==> #[trigger] linked(s, w[i - 1], w[i])
}

/// The lexicographically least walk without repeats from `a` to `b`.
pub open spec fn store_least_path(s: Store, p: Seq<i64>, a: i64, b: i64) -> bool {
    &&& store_walk(s, p, a, b)
    &&& p.no_duplicates()
    &&& forall|q: Seq<i64>| #[trigger] store_walk(s, q, a, b) && q.no_duplicates() ==> !seq_less(q, p)
}

/// Some walk leads from `a` down to `b`.
pub open spec fn store_reaches(s: Store, a: i64, b: i64) -> bool {
    exists|w: Seq<i64>| #[trigger] store_walk(s, w, a, b)
}

/// No walk of live dependencies returns to where it started.
pub open spec fn acyclic(s: Store) -> bool {
    forall|w: Seq<i64>, a: i64| #[trigger] store_walk(s, w, a, a) ==> w.len() == 1
}

/// Ids joined by ` -> `.
pub open spec fn joined_ids(s: Seq<i64>) -> Seq<char>
    decreases s.len(),
{
    if s.len() == 0 {
        Seq::empty()
    } else if s.len() == 1 {
        decimal(s[0] as int)
    } else {
        joined_ids(s.drop_last()) + " -> "@ + decimal(s.last() as int)
    }
}

/// The message for a dependency that would close a cycle through `path`.
pub open spec fn cycle_text(parent: i64, path: Seq<i64>) -> Seq<char> {
    "dependency would create cycle: "@ + joined_ids(seq![parent] + path)
}

/// The message for a dependency between two tasks.
pub open spec fn pair_text(parent: i64, child: i64, suffix: Seq<char>) -> Seq<char> {
    "dependency "@ + decimal(parent as int) + " -> "@ + decimal(child as int) + suffix
}

/// The refusal of `add`, if any.
pub open spec fn add_fault(s: Store, priority: u8, description: Seq<char>) -> Option<Fault> {
    if !(1 <= priority <= 3) {
        Some(Fault::Domain(priority_text()))
    } else if sql_blank(description) {
        Some(Fault::Database(blank_description_text()))
    } else {
        None
    }
}

/// The refusal of `set_priority`, if any.
pub open spec fn set_priority_fault(s: Store, id: i64, priority: u8) -> Option<Fault> {
    if !(1 <= priority <= 3) {
        Some(Fault::Domain(priority_text()))
    } else if live(s.tasks, id) is None {
        Some(not_found(id))
    } else {
        None
    }
}

/// The refusal of `add_dependency`, if any.
pub open spec fn add_dependency_fault(s: Store, parent: i64, child: i64) -> Option<Fault> {
    if parent == child {
        Some(Fault::Domain("a task cannot depend on itself"@))
    } else if live(s.tasks, parent) is None {
        Some(not_found(parent))
    } else if live(s.tasks, child) is None {
        Some(not_found(child))
    } else if live(s.tasks, parent).unwrap().completed_at is Some {
        Some(Fault::Domain(id_text("completed task "@, parent, " cannot gain a dependency"@)))
    } else if s.dependencies.contains(Dependency { parent, child }) {
        Some(Fault::Domain(pair_text(parent, child, " already exists"@)))
    } else if store_reaches(s, child, parent) {
        Some(
            Fault::Domain(
                cycle_text(
                    parent,
                    choose|p: Seq<i64>| #[trigger] store_least_path(s, p, child, parent),
                ),
            ),
        )
    } else {
        None
    }
}

/// The refusal of `remove_dependency`, if any.
pub open spec fn remove_dependency_fault(s: Store, parent: i64, child: i64) -> Option<Fault> {
    if live(s.tasks, parent) is None {
        Some(not_found(parent))
    } else if live(s.tasks, child) is None {
        Some(not_found(child))
    } else if !s.dependencies.contains(Dependency { parent, child }) {
        Some(Fault::Domain(pair_text(parent, child, " not found"@)))
    } else {
        None
    }
}

/// The refusal of `complete`, if any.
pub open spec fn complete_fault(s: Store, id: i64) -> Option<Fault> {
    if live(s.tasks, id) is None {
        Some(not_found(id))
    } else if live(s.tasks, id).unwrap().completed_at is Some {
        Some(Fault::Domain(id_text("task "@, id, " is already completed"@)))
    } else if blocked(s.tasks, s.dependencies, id) {
        Some(
            Fault::Domain(
                id_text("task "@, id, " is blocked by pending dependency "@) + decimal(
                    least_blocker(s, id) as int,
                ),
            ),
        )
    } else {
        None
    }
}

/// The refusal of `edit_description`, if any, before the no-op check.
pub open spec fn edit_fault(s: Store, id: i64, expected: Seq<char>) -> Option<Fault> {
    if live(s.tasks, id) is None {
        Some(not_found(id))
    } else if live(s.tasks, id).unwrap().description@ != expected {
        Some(Fault::Domain(id_text("task "@, id, " changed while the editor was open"@)))
    } else {
        None
    }
}

/// The refusal of `remove`, if any.
pub open spec fn remove_fault(s: Store, id: i64, force: bool) -> Option<Fault> {
    if live(s.tasks, id) is None {
        Some(not_found(id))
    } else if incident(s.dependencies, id) > 0 && !force {
        Some(
            Fault::Domain(
                id_text("task "@, id, " has "@) + decimal(incident(s.dependencies, id) as int)
                    + " dependency connection(s); use --force"@,
            ),
        )
    } else {
        None
    }
}

/// The new view after a mutation of kind `kind` at `now` that left `store`.
pub open spec fn committed(old: DatabaseView, kind: Seq<char>, now: i64, store: Store) -> DatabaseView {
    DatabaseView {
        store,
        history: old.history.push(Record { kind, happened_at: now, store: old.store }),
    }
}

/// The view after `undo` restored the latest snapshot.
pub open spec fn undone(v: DatabaseView) -> DatabaseView {
    DatabaseView { store: v.history.last().store, history: v.history.drop_last() }
}

/// `g` is the scheduling graph of the rows of `s`: its tasks are the live
/// ones, and its edges the dependency rows between them.
pub open spec fn graph_of(g: Graph, s: Store) -> bool {
    &&& g.valid()
    &&& forall|id: i64| #[trigger] g.spec_task(id) == live(s.tasks, id)
    &&& forall|a: i64, b: i64| #[trigger] g.spec_children(a).contains(b) <==> linked(s, a, b)
    &&& forall|a: i64, b: i64| #[trigger] g.spec_parents(b).contains(a) <==> linked(s, a, b)
    &&& forall|a: i64| (#[trigger] g.spec_children(a)).no_duplicates()
    &&& forall|a: i64| (#[trigger] g.spec_parents(a)).no_duplicates()
}

/// The choice that survives in `g`: kept while the scheduler still leads to
/// it, that is while it is ready in the highest effective tier; else none.
pub open spec fn surviving_choice(g: Graph, selected: Option<i64>) -> Option<i64> {
    match selected {
        Some(id) => if g.selection(selected) matches Some(t) && t.id == id {
            selected
        } else {
            None
        },
        None => None,
    }
}

/// `w` is `v` with its choice settled against its rows: the choice stays
/// while it is ready in the highest effective tier, and is cleared otherwise.
pub open spec fn settled_choice(v: DatabaseView, w: DatabaseView) -> bool {
    &&& w.history == v.history
    &&& w.store == (Store { selected: w.store.selected, ..v.store })
    &&& exists|g: Graph| graph_of(g, v.store) && w.store.selected == surviving_choice(g, v.store.selected)
}

/// The store after `add` inserted the task `t`.
pub open spec fn after_add(s: Store, t: Task, now: i64) -> Store {
    settle(Store { tasks: s.tasks.push(t), next_task_id: (s.next_task_id + 1) as i64, ..s }, now)
}

/// A task as `add` creates it.
pub open spec fn fresh_task(t: Task, id: i64, priority: u8, description: Seq<char>, now: i64) -> bool {
    &&& t.id == id
    &&& t.priority == priority
    &&& t.description@ == description
    &&& t.created_at == now
    &&& t.updated_at == now
    &&& t.completed_at is None
    &&& t.deleted_at is None
    &&& t.ready_at == Some(now)
}

/// The store after `set_priority` changed a task.
pub open spec fn after_priority(s: Store, id: i64, priority: u8, now: i64) -> Store {
    let i = row_of(s, id);
    settle(with_task(s, i, Task { priority, updated_at: now, ..s.tasks[i] }), now)
}

/// The store after `add_dependency` inserted a row.
pub open spec fn after_link(s: Store, parent: i64, child: i64, now: i64) -> Store {
    let d = Dependency { parent, child };
    settle(Store { dependencies: s.dependencies.insert(insert_index(s.dependencies, d), d), ..s }, now)
}

/// The store after `remove_dependency` deleted a row.
pub open spec fn after_unlink(s: Store, parent: i64, child: i64, now: i64) -> Store {
    let d = Dependency { parent, child };
    settle(Store { dependencies: s.dependencies.remove(dep_index(s.dependencies, d)), ..s }, now)
}

/// The store after `complete` marked a task completed.
pub open spec fn after_complete(s: Store, id: i64, now: i64) -> Store {
    let i = row_of(s, id);
    settle(with_task(s, i, Task { completed_at: Some(now), updated_at: now, ..s.tasks[i] }), now)
}

/// The store after `edit_description` gave a task the description of `t`.
pub open spec fn after_edit(s: Store, id: i64, t: Task, now: i64) -> Store {
    let i = row_of(s, id);
    settle(with_task(s, i, Task { description: t.description, updated_at: now, ..s.tasks[i] }), now)
}

/// The store after `remove` deleted a task and, when forced, its rows.
pub open spec fn after_remove(s: Store, id: i64, now: i64) -> Store {
    let i = row_of(s, id);
    settle(
        Store {
            tasks: s.tasks.update(i, Task { deleted_at: Some(now), updated_at: now, ..s.tasks[i] }),
            dependencies: detached(s.dependencies, id),
            ..s
        },
        now,
    )
}


/// What `add` does to `v`, leaving `w` and returning `r`: refuses with its
/// fault and changes nothing, or adds a fresh task and commits.
pub open spec fn add_outcome(
    v: DatabaseView,
    priority: u8,
    description: Seq<char>,
    now: i64,
    w: DatabaseView,
    r: Result<Task, Error>,
) -> bool {
    match add_fault(v.store, priority, description) {
        Some(f) => r matches Err(e) && reports(e, f) && w == v,
        None => r matches Ok(t) && fresh_task(t, v.store.next_task_id, priority, description, now)
            && settled_choice(committed(v, "add"@, now, after_add(v.store, t, now)), w)
            && live(w.store.tasks, t.id) == Some(t),
    }
}

/// What `set_priority` does: refuses, reports `false` for the priority the
/// task already has, or changes it, commits and reports `true`.
pub open spec fn priority_outcome(
    v: DatabaseView,
    id: i64,
    priority: u8,
    now: i64,
    w: DatabaseView,
    r: Result<bool, Error>,
) -> bool {
    match set_priority_fault(v.store, id, priority) {
        Some(f) => r matches Err(e) && reports(e, f) && w == v,
        None => if live(v.store.tasks, id).unwrap().priority == priority {
            r == Ok::<bool, Error>(false) && w == v
        } else {
            r == Ok::<bool, Error>(true) && settled_choice(
                committed(v, "priority"@, now, after_priority(v.store, id, priority, now)),
                w,
            )
        },
    }
}

/// What `complete` does: refuses, or completes the task, commits, and
/// returns the completed task.
pub open spec fn complete_outcome(v: DatabaseView, id: i64, now: i64, w: DatabaseView, r: Result<Task, Error>) -> bool {
    match complete_fault(v.store, id) {
        Some(f) => r matches Err(e) && reports(e, f) && w == v,
        None => {
            &&& settled_choice(committed(v, "done"@, now, after_complete(v.store, id, now)), w)
            &&& live(w.store.tasks, id) matches Some(t) && r == Ok::<Task, Error>(t)
        },
    }
}

/// What `edit_description` does: refuses, reports `false` for an unchanged
/// description, refuses a blank one, or replaces it, commits and reports `true`.
pub open spec fn edit_outcome(
    v: DatabaseView,
    id: i64,
    expected: Seq<char>,
    description: Seq<char>,
    now: i64,
    w: DatabaseView,
    r: Result<bool, Error>,
) -> bool {
    match edit_fault(v.store, id, expected) {
        Some(f) => r matches Err(e) && reports(e, f) && w == v,
        None => if expected == description {
            r == Ok::<bool, Error>(false) && w == v
        } else if sql_blank(description) {
            r matches Err(e) && reports(e, Fault::Database(blank_description_text())) && w == v
        } else {
            r == Ok::<bool, Error>(true) && exists|t: Task| t.description@ == description && #[trigger] settled_choice(
                committed(v, "edit"@, now, after_edit(v.store, id, t, now)),
                w,
            )
        },
    }
}

/// What `remove` does: refuses, or deletes the task, commits, and returns
/// the task as it was.
pub open spec fn remove_outcome(v: DatabaseView, id: i64, force: bool, now: i64, w: DatabaseView, r: Result<Task, Error>) -> bool {
    match remove_fault(v.store, id, force) {
        Some(f) => r matches Err(e) && reports(e, f) && w == v,
        None => r == Ok::<Task, Error>(live(v.store.tasks, id).unwrap()) && settled_choice(
            committed(v, "rm"@, now, after_remove(v.store, id, now)),
            w,
        ),
    }
}

/// What `add_dependency` does: refuses, or inserts the row and commits.
pub open spec fn link_outcome(v: DatabaseView, parent: i64, child: i64, now: i64, w: DatabaseView, r: Result<(), Error>) -> bool {
    match add_dependency_fault(v.store, parent, child) {
        Some(f) => r matches Err(e) && reports(e, f) && w == v,
        None => r is Ok && settled_choice(committed(v, "dep"@, now, after_link(v.store, parent, child, now)), w),
    }
}

/// What `remove_dependency` does: refuses, or deletes the row and commits.
pub open spec fn unlink_outcome(v: DatabaseView, parent: i64, child: i64, now: i64, w: DatabaseView, r: Result<(), Error>) -> bool {
    match remove_dependency_fault(v.store, parent, child) {
        Some(f) => r matches Err(e) && reports(e, f) && w == v,
        None => r is Ok && settled_choice(committed(v, "undep"@, now, after_unlink(v.store, parent, child, now)), w),
    }
}

/// What `undo` does: refuses on an empty history, or restores the latest
/// snapshot and returns its kind.
pub open spec fn undo_outcome(v: DatabaseView, w: DatabaseView, r: Result<Seq<char>, Error>) -> bool {
    &&& v.history.len() == 0 ==> (r matches Err(e) && reports(e, Fault::Domain("nothing to undo"@)) && w == v)
    &&& v.history.len() > 0 ==> (r == Ok::<Seq<char>, Error>(v.history.last().kind) && w == undone(v))
}

/// What `shuffle` does: with no ready task, nothing; else it returns the
/// task after the current choice in its tier and, when that is another
/// task, chooses it and commits. The scheduler then leads to that task.
pub open spec fn shuffle_outcome(v: DatabaseView, now: i64, w: DatabaseView, r: Option<Task>) -> bool {
    exists|g: Graph|
        {
            &&& graph_of(g, v.store)
            &&& match g.selection(v.store.selected) {
                None => r is None && w == v,
                Some(c) => g.shuffled(v.store.selected) matches Some(n) && r == Some(n) && if n.id == c.id {
                    w == v
                } else {
                    w == committed(v, "shuffle"@, now, Store { selected: Some(n.id), ..v.store })
                },
            }
            &&& r matches Some(n) ==> g.selection(w.store.selected) == Some(n)
        }
}

/// Where the task list is stored, from the values of `XDG_DATA_HOME` and
/// `HOME` (as bytes): the directory and the path below it. A non-empty
/// `XDG_DATA_HOME` gives `t/tasks.db` under it; else a non-empty `HOME` gives
/// `.local/share/t/tasks.db` under it; else there is no data directory.
pub fn data_location(xdg: Option<Vec<u8>>, home: Option<Vec<u8>>) -> (r: Result<(Vec<u8>, String), Error>)
    ensures
        (xdg matches Some(x) && x@.len() > 0) ==> (r matches Ok((b, s)) && b@ == xdg.unwrap()@ && s@ == "t/tasks.db"@),
        !(xdg matches Some(x) && x@.len() > 0) && (home matches Some(h) && h@.len() > 0)
            ==> (r matches Ok((b, s)) && b@ == home.unwrap()@ && s@ == ".local/share/t/tasks.db"@),
        !(xdg matches Some(x) && x@.len() > 0) && !(home matches Some(h) && h@.len() > 0)
            ==> r == Err::<(Vec<u8>, String), Error>(Error::DataDirectory),
{
    if let Some(x) = xdg {
        if x.len() > 0 {
            return Ok((x, String::from_str("t/tasks.db")));
        }
    }
    if let Some(h) = home {
        if h.len() > 0 {
            return Ok((h, String::from_str(".local/share/t/tasks.db")));
        }
    }
    Err(Error::DataDirectory)
}

/// Priorities run from 1 (highest) to 3 (lowest).
pub fn validate_priority(priority: u8) -> (r: Result<(), Error>)
    ensures
        1 <= priority <= 3 ==> r is Ok,
        !(1 <= priority <= 3) ==> (r matches Err(e) && reports(e, Fault::Domain(priority_text()))),
{
    if 1 <= priority && priority <= 3 {
        Ok(())
    } else {
        Err(Error::Domain(String::from_str("priority must be 1, 2, or 3")))
    }
}

/// A snapshot of the rows taken before a mutation.
pub struct Operation {
    pub kind: String,
    pub happened_at: i64,
    pub tasks: Vec<Task>,
    pub dependencies: Vec<Dependency>,
    pub next_task_id: i64,
    pub selected: Option<i64>,
}

impl Operation {
    /// The snapshot as it stands in the view of the history.
    pub open spec fn record(self) -> Record {
        Record {
            kind: self.kind@,
            happened_at: self.happened_at,
            store: Store {
                tasks: self.tasks@,
                dependencies: self.dependencies@,
                next_task_id: self.next_task_id,
                selected: self.selected,
            },
        }
    }
}

/// The task list with its undo history, kept in memory.
pub struct Database {
    tasks: Vec<Task>,
    dependencies: Vec<Dependency>,
    next_task_id: i64,
    selected: Option<i64>,
    history: Vec<Operation>,
}

impl View for Database {
    type V = DatabaseView;

    closed spec fn view(&self) -> DatabaseView {
        DatabaseView {
            store: Store {
                tasks: self.tasks@,
                dependencies: self.dependencies@,
                next_task_id: self.next_task_id,
                selected: self.selected,
            },
            history: self.history@.map_values(|o: Operation| o.record()),
        }
    }
}

/// The rows are well formed, now and in every snapshot.
pub open spec fn valid_view(v: DatabaseView) -> bool {
    &&& well_formed(v.store)
    &&& forall|i: int| 0 <= i < v.history.len() ==> well_formed(#[trigger] v.history[i].store)
}

/// The task rows again, row for row.
fn clone_rows(v: &Vec<Task>) -> (r: Vec<Task>)
    ensures
        r@ == v@,
{
    let mut r: Vec<Task> = Vec::new();
    let mut i: usize = 0;
    while i < v.len()
        invariant
            i <= v@.len(),
            r@ == v@.subrange(0, i as int),
        decreases v@.len() - i,
    {
        r.push(v[i].duplicate());
        i = i + 1;
        assert(r@ =~= v@.subrange(0, i as int));
    }
    assert(r@ =~= v@);
    r
}

/// The dependency rows again, row for row.
fn clone_links(v: &Vec<Dependency>) -> (r: Vec<Dependency>)
    ensures
        r@ == v@,
{
    let mut r: Vec<Dependency> = Vec::new();
    let mut i: usize = 0;
    while i < v.len()
        invariant
            i <= v@.len(),
            r@ == v@.subrange(0, i as int),
        decreases v@.len() - i,
    {
        let d = v[i];
        r.push(Dependency { parent: d.parent, child: d.child });
        i = i + 1;
        assert(r@ =~= v@.subrange(0, i as int));
    }
    assert(r@ =~= v@);
    r
}

/// `prefix`, the decimal id, then `suffix`.
fn id_message(prefix: &str, id: i64, suffix: &str) -> (r: String)
    ensures
        r@ == id_text(prefix@, id, suffix@),
{
    let mut r = String::from_str(prefix);
    push_decimal(&mut r, id);
    r.append(suffix);
    r
}

/// Whether `id` is a pending task of the rows.
fn pending_row(tasks: &Vec<Task>, id: i64) -> (r: bool)
    requires
        ids_ascending(tasks@),
    ensures
        r == pending_in(tasks@, id),
{
    proof {
        lemma_find_task_sorted(tasks@, id);
    }
    match search(tasks, id) {
        Ok(i) => tasks[i].is_pending(),
        Err(_) => false,
    }
}

/// Whether a pending task is among those that `id` depends on.
fn is_blocked(tasks: &Vec<Task>, deps: &Vec<Dependency>, id: i64) -> (r: bool)
    requires
        ids_ascending(tasks@),
    ensures
        r == blocked(tasks@, deps@, id),
{
    let mut k: usize = 0;
    while k < deps.len()
        invariant
            ids_ascending(tasks@),
            k <= deps@.len(),
            forall|q: int| 0 <= q < k ==> !((#[trigger] deps@[q]).parent == id && pending_in(tasks@, deps@[q].child)),
        decreases deps@.len() - k,
    {
        let d = deps[k];
        if d.parent == id && pending_row(tasks, d.child) {
            return true;
        }
        k = k + 1;
    }
    false
}

/// The rows with readiness recomputed at `now`.
fn settle_rows(tasks: &Vec<Task>, deps: &Vec<Dependency>, now: i64) -> (r: Vec<Task>)
    requires
        ids_ascending(tasks@),
    ensures
        r@ == refreshed(tasks@, deps@, now),
{
    let mut r: Vec<Task> = Vec::new();
    let mut i: usize = 0;
    while i < tasks.len()
        invariant
            ids_ascending(tasks@),
            i <= tasks@.len(),
            r@.len() == i,
            forall|j: int| 0 <= j < i ==> #[trigger] r@[j] == refresh(tasks@[j], tasks@, deps@, now),
        decreases tasks@.len() - i,
    {
        let t = &tasks[i];
        let mut u = t.duplicate();
        if t.is_pending() {
            let actionable = !is_blocked(tasks, deps, t.id);
            if t.ready_at.is_none() && actionable {
                u.ready_at = Some(now);
            } else if t.ready_at.is_some() && !actionable {
                u.ready_at = None;
            }
        }
        r.push(u);
        i = i + 1;
    }
    assert(r@ =~= refreshed(tasks@, deps@, now));
    r
}


/// Rows with the same ids, position by position, find each id at the same index.
pub proof fn lemma_find_index_same_ids(a: Seq<Task>, b: Seq<Task>, id: i64)
    requires
        a.len() == b.len(),
        forall|i: int| 0 <= i < a.len() ==> (#[trigger] a[i]).id == b[i].id,
    ensures
        find_index(a, id) == find_index(b, id),
    decreases a.len(),
{
    if a.len() > 0 {
        assert(a.last().id == b.last().id);
        lemma_find_index_same_ids(a.drop_last(), b.drop_last(), id);
    }
}

/// Recomputing readiness changes nothing but readiness times.
pub proof fn lemma_refreshed_shape(tasks: Seq<Task>, deps: Seq<Dependency>, now: i64)
    ensures
        refreshed(tasks, deps, now).len() == tasks.len(),
        forall|i: int|
            0 <= i < tasks.len() ==> #[trigger] refreshed(tasks, deps, now)[i] == (Task {
                ready_at: refreshed(tasks, deps, now)[i].ready_at,
                ..tasks[i]
            }),
        forall|id: i64| #[trigger] find_index(refreshed(tasks, deps, now), id) == find_index(tasks, id),
        ids_ascending(tasks) ==> ids_ascending(refreshed(tasks, deps, now)),
{
    let r = refreshed(tasks, deps, now);
    assert forall|id: i64| #[trigger] find_index(r, id) == find_index(tasks, id) by {
        lemma_find_index_same_ids(r, tasks, id);
    }
}

/// Recomputing readiness keeps the rows well formed.
pub proof fn lemma_settle_well_formed(s: Store, now: i64)
    requires
        well_formed(s),
    ensures
        well_formed(settle(s, now)),
{
    lemma_refreshed_shape(s.tasks, s.dependencies, now);
    let t = settle(s, now);
    assert forall|k: int| 0 <= k < t.dependencies.len() implies {
        let d = #[trigger] t.dependencies[k];
        &&& d.parent != d.child
        &&& find_task(t.tasks, d.parent) is Some
        &&& find_task(t.tasks, d.child) is Some
    } by {
        let d = s.dependencies[k];
        assert(find_index(t.tasks, d.parent) == find_index(s.tasks, d.parent));
        assert(find_index(t.tasks, d.child) == find_index(s.tasks, d.child));
    }
    assert forall|i: int| 0 <= i < t.tasks.len() implies (#[trigger] t.tasks[i]).id < t.next_task_id by {
        assert(t.tasks[i].id == s.tasks[i].id);
    }
}

impl Database {
    /// The rows are well formed, now and in every snapshot.
    pub open spec fn valid(self) -> bool {
        valid_view(self@)
    }

    /// An empty task list whose first task gets id 1.
    pub fn in_memory() -> (db: Database)
        ensures
            db.valid(),
            db@ == (DatabaseView {
                store: Store { tasks: Seq::empty(), dependencies: Seq::empty(), next_task_id: 1, selected: None },
                history: Seq::empty(),
            }),
    {
        let db = Database {
            tasks: Vec::new(),
            dependencies: Vec::new(),
            next_task_id: 1,
            selected: None,
            history: Vec::new(),
        };
        assert(db@.history =~= Seq::<Record>::empty());
        db
    }

    /// How many mutations `undo` can still reverse.
    pub fn history_len(&self) -> (r: usize)
        ensures
            r == self@.history.len(),
    {
        self.history.len()
    }

    /// The snapshot of the current rows for a mutation of kind `kind`.
    fn snapshot(&self, kind: &str, now: i64) -> (op: Operation)
        ensures
            op.record() == (Record { kind: kind@, happened_at: now, store: self@.store }),
    {
        Operation {
            kind: String::from_str(kind),
            happened_at: now,
            tasks: clone_rows(&self.tasks),
            dependencies: clone_links(&self.dependencies),
            next_task_id: self.next_task_id,
            selected: self.selected,
        }
    }

    /// Records `op` as the latest snapshot.
    fn record(&mut self, op: Operation)
        ensures
            final(self)@ == (DatabaseView {
                store: old(self)@.store,
                history: old(self)@.history.push(op.record()),
            }),
    {
        self.history.push(op);
        assert(self@.history =~= old(self)@.history.push(op.record()));
    }

    /// The index of the live task with `id`.
    fn live_index(&self, id: i64) -> (r: Option<usize>)
        requires
            self.valid(),
        ensures
            r is Some <==> live(self@.store.tasks, id) is Some,
            r matches Some(i) ==> i == row_of(self@.store, id) && i < self@.store.tasks.len()
                && live(self@.store.tasks, id) == Some(self@.store.tasks[i as int]),
    {
        proof {
            lemma_find_task_sorted(self.tasks@, id);
            lemma_find_index_bounds(self.tasks@, id);
        }
        match search(&self.tasks, id) {
            Ok(i) => {
                proof {
                    lemma_find_index_sorted(self.tasks@, i as int);
                }
                if self.tasks[i].deleted_at.is_none() {
                    Some(i)
                } else {
                    None
                }
            },
            Err(_) => None,
        }
    }

    /// The tasks that are not deleted, ordered by id.
    pub fn tasks(&self) -> (r: Vec<Task>)
        requires
            self.valid(),
        ensures
            r@ == live_rows(self@.store.tasks),
    {
        let mut r: Vec<Task> = Vec::new();
        let mut i: usize = 0;
        while i < self.tasks.len()
            invariant
                i <= self.tasks@.len(),
                r@ == live_rows(self.tasks@.subrange(0, i as int)),
            decreases self.tasks@.len() - i,
        {
            let ghost pre = self.tasks@.subrange(0, i + 1);
            assert(pre.drop_last() =~= self.tasks@.subrange(0, i as int));
            if self.tasks[i].deleted_at.is_none() {
                r.push(self.tasks[i].duplicate());
            }
            i = i + 1;
        }
        assert(self.tasks@.subrange(0, i as int) =~= self.tasks@);
        r
    }

    /// The task with `id`, unless it is missing or deleted.
    pub fn task(&self, id: i64) -> (r: Result<Task, Error>)
        requires
            self.valid(),
        ensures
            match live(self@.store.tasks, id) {
                Some(t) => r == Ok::<Task, Error>(t),
                None => r matches Err(e) && reports(e, not_found(id)),
            },
    {
        match self.live_index(id) {
            Some(i) => Ok(self.tasks[i].duplicate()),
            None => Err(Error::Domain(id_message("task ", id, " not found"))),
        }
    }

    /// The dependencies between tasks that are not deleted, ordered by
    /// parent, then child.
    pub fn dependencies(&self) -> (r: Vec<Dependency>)
        requires
            self.valid(),
        ensures
            r@ == live_links(self@.store.dependencies, self@.store.tasks),
    {
        let mut r: Vec<Dependency> = Vec::new();
        let mut k: usize = 0;
        while k < self.dependencies.len()
            invariant
                self.valid(),
                k <= self.dependencies@.len(),
                r@ == live_links(self.dependencies@.subrange(0, k as int), self.tasks@),
            decreases self.dependencies@.len() - k,
        {
            let ghost pre = self.dependencies@.subrange(0, k + 1);
            assert(pre.drop_last() =~= self.dependencies@.subrange(0, k as int));
            let d = self.dependencies[k];
            if self.live_index(d.parent).is_some() && self.live_index(d.child).is_some() {
                r.push(Dependency { parent: d.parent, child: d.child });
            }
            k = k + 1;
        }
        assert(self.dependencies@.subrange(0, k as int) =~= self.dependencies@);
        r
    }

}


/// Whether `s` holds nothing but spaces.
fn spaces_only(s: &str) -> (r: bool)
    ensures
        r == sql_blank(s@),
{
    let cs = crate::text::chars_of(s);
    let mut i: usize = 0;
    while i < cs.len()
        invariant
            cs@ == s@,
            i <= cs@.len(),
            forall|k: int| 0 <= k < i ==> cs@[k] == ' ',
        decreases cs@.len() - i,
    {
        if cs[i] != ' ' {
            return false;
        }
        i = i + 1;
    }
    true
}

impl Database {
    /// Adds a pending task with the next id, ready at `now`. The id after
    /// the largest `i64` does not exist, so adding needs a next id below it.
    pub fn add(&mut self, priority: u8, description: &str, now: i64) -> (r: Result<Task, Error>)
        requires
            old(self).valid(),
            add_fault(old(self)@.store, priority, description@) is None ==> old(self)@.store.next_task_id < i64::MAX,
        ensures
            final(self).valid(),
            add_outcome(old(self)@, priority, description@, now, final(self)@, r),
    {
        if let Err(e) = validate_priority(priority) {
            return Err(e);
        }
        if spaces_only(description) {
            return Err(Error::Database(String::from_str("CHECK constraint failed: length(trim(description)) > 0")));
        }
        let ghost old_view = self@;
        let id = self.next_task_id;
        let op = self.snapshot("add", now);
        let t = Task {
            id,
            priority,
            description: String::from_str(description),
            created_at: now,
            updated_at: now,
            completed_at: None,
            deleted_at: None,
            ready_at: Some(now),
        };
        let mut rows = clone_rows(&self.tasks);
        rows.push(t.duplicate());
        let ghost pushed = rows@;
        proof {
            assert forall|i: int, j: int| 0 <= i < j < pushed.len() implies #[trigger] pushed[i].id < #[trigger] pushed[j].id by {
                if j == pushed.len() - 1 {
                    assert(old_view.store.tasks[i].id < id);
                }
            }
        }
        self.tasks = settle_rows(&rows, &self.dependencies, now);
        self.next_task_id = id + 1;
        self.record(op);
        proof {
            let s2 = Store { tasks: pushed, next_task_id: (id + 1) as i64, ..old_view.store };
            assert(s2.tasks == old_view.store.tasks.push(t));
            assert(self@.store == settle(s2, now));
            assert(well_formed(s2)) by {
                assert forall|k: int| 0 <= k < s2.dependencies.len() implies {
                    let d = #[trigger] s2.dependencies[k];
                    &&& d.parent != d.child
                    &&& find_task(s2.tasks, d.parent) is Some
                    &&& find_task(s2.tasks, d.child) is Some
                } by {
                    let d = s2.dependencies[k];
                    lemma_find_index_bounds(old_view.store.tasks, d.parent);
                    lemma_find_index_bounds(old_view.store.tasks, d.child);
                    lemma_find_task_sorted(pushed, d.parent);
                    lemma_find_task_sorted(pushed, d.child);
                    let a = find_index(old_view.store.tasks, d.parent);
                    let b = find_index(old_view.store.tasks, d.child);
                    assert(pushed[a] == old_view.store.tasks[a]);
                    assert(pushed[b] == old_view.store.tasks[b]);
                }
            }
            lemma_settle_well_formed(s2, now);
            assert forall|i: int| 0 <= i < self@.history.len() implies well_formed(#[trigger] self@.history[i].store) by {
                if i < old_view.history.len() {
                    assert(self@.history[i] == old_view.history[i]);
                }
            }
            // The new task blocks on nothing: no row names it as parent.
            lemma_refreshed_shape(pushed, s2.dependencies, now);
            let n = pushed.len() - 1;
            assert(!blocked(pushed, s2.dependencies, id)) by {
                if blocked(pushed, s2.dependencies, id) {
                    let k = choose|k: int| 0 <= k < s2.dependencies.len() && (#[trigger] s2.dependencies[k]).parent == id
                        && pending_in(pushed, s2.dependencies[k].child);
                    let d = s2.dependencies[k];
                    lemma_find_index_bounds(old_view.store.tasks, d.parent);
                    let a = find_index(old_view.store.tasks, d.parent);
                    assert(old_view.store.tasks[a].id < id);
                }
            }
            assert(self@.store.tasks[n] == t);
            lemma_find_task_sorted(self@.store.tasks, id);
        }
        assert(self@ == committed(old(self)@, "add"@, now, after_add(old(self)@.store, t, now)));
        self.settle_choice();
        Ok(t)
    }
}


proof fn lemma_live_links_contains(deps: Seq<Dependency>, tasks: Seq<Task>, d: Dependency)
    ensures
        live_links(deps, tasks).contains(d) <==> (deps.contains(d) && live(tasks, d.parent) is Some
            && live(tasks, d.child) is Some),
    decreases deps.len(),
{
    if deps.len() > 0 {
        lemma_live_links_contains(deps.drop_last(), tasks, d);
        let r = live_links(deps.drop_last(), tasks);
        let e = live_links(deps, tasks);
        if deps.drop_last().contains(d) {
            let k = choose|k: int| 0 <= k < deps.drop_last().len() && deps.drop_last()[k] == d;
            assert(deps[k] == d);
        }
        if deps.contains(d) {
            let k = choose|k: int| 0 <= k < deps.len() && deps[k] == d;
            if k < deps.len() - 1 {
                assert(deps.drop_last()[k] == d);
            }
        }
        if r.contains(d) {
            let k = choose|k: int| 0 <= k < r.len() && r[k] == d;
            assert(e[k] == d);
        }
        if e.contains(d) && !r.contains(d) {
            assert(e == r.push(deps.last()));
            let k = choose|k: int| 0 <= k < e.len() && e[k] == d;
        }
        if deps.last() == d && live(tasks, d.parent) is Some && live(tasks, d.child) is Some {
            assert(e[e.len() - 1] == d);
        }
    }
}

/// Keeping some rows of a list without repeats leaves a list without repeats.
proof fn lemma_live_links_distinct(deps: Seq<Dependency>, tasks: Seq<Task>)
    requires
        deps.no_duplicates(),
    ensures
        live_links(deps, tasks).no_duplicates(),
    decreases deps.len(),
{
    if deps.len() > 0 {
        let p = deps.drop_last();
        assert(p.no_duplicates()) by {
            assert forall|i: int, j: int| 0 <= i < p.len() && 0 <= j < p.len() && i != j implies p[i] != p[j] by {
                assert(p[i] == deps[i] && p[j] == deps[j]);
            }
        }
        lemma_live_links_distinct(p, tasks);
        let d = deps.last();
        let r = live_links(p, tasks);
        let e = live_links(deps, tasks);
        lemma_live_links_contains(p, tasks, d);
        if p.contains(d) {
            let k = choose|k: int| 0 <= k < p.len() && p[k] == d;
            assert(deps[k] == deps[deps.len() - 1]);
        }
        assert forall|i: int, j: int| 0 <= i < e.len() && 0 <= j < e.len() && i != j implies e[i] != e[j] by {
            if i < r.len() && j < r.len() {
                assert(e[i] == r[i] && e[j] == r[j]);
            } else if i < r.len() {
                assert(e[j] == d && e[i] == r[i]);
                assert(r.contains(r[i]));
            } else if j < r.len() {
                assert(e[i] == d && e[j] == r[j]);
                assert(r.contains(r[j]));
            }
        }
    }
}

proof fn lemma_live_rows_lookup(tasks: Seq<Task>, x: i64)
    requires
        ids_ascending(tasks),
    ensures
        crate::model::last_live(live_rows(tasks), x) == live(tasks, x),
    decreases tasks.len(),
{
    if tasks.len() > 0 {
        let init = tasks.drop_last();
        assert(ids_ascending(init));
        lemma_live_rows_lookup(init, x);
        let e = tasks.last();
        let r = live_rows(init);
        if e.id == x {
            lemma_find_task_sorted(init, x);
            assert forall|k: int| 0 <= k < init.len() implies #[trigger] init[k].id != x by {
                assert(init[k] == tasks[k]);
            }
            assert(find_task(init, x) is None);
            assert(find_index(tasks, x) == tasks.len() - 1);
            if e.deleted_at is Some {
                assert(live_rows(tasks) == r);
            } else {
                assert(live_rows(tasks) == r.push(e));
                assert(r.push(e).last() == e);
            }
        } else {
            assert(find_index(tasks, x) == find_index(init, x));
            lemma_find_index_bounds(init, x);
            if find_index(init, x) >= 0 {
                assert(tasks[find_index(init, x)] == init[find_index(init, x)]);
            }
            if e.deleted_at is None {
                assert(live_rows(tasks) == r.push(e));
                assert(r.push(e).last() == e);
                assert(r.push(e).drop_last() =~= r);
            } else {
                assert(live_rows(tasks) == r);
            }
        }
    }
}

impl Database {
    /// The scheduling graph of the tasks and dependencies that are not deleted.
    pub fn graph(&self) -> (g: Graph)
        requires
            self.valid(),
        ensures
            g.valid(),
            forall|id: i64| #[trigger] g.spec_task(id) == live(self@.store.tasks, id),
            forall|a: i64, b: i64| #[trigger] g.spec_children(a).contains(b) <==> linked(self@.store, a, b),
            forall|a: i64, b: i64| #[trigger] g.spec_parents(b).contains(a) <==> linked(self@.store, a, b),
            forall|a: i64| (#[trigger] g.spec_children(a)).no_duplicates(),
            forall|a: i64| (#[trigger] g.spec_parents(a)).no_duplicates(),
            readiness_consistent(self@.store) ==> forall|id: i64| #[trigger] g.pending_task(id) ==> (
                g.spec_task(id).unwrap().ready_at is Some <==> g.actionable_id(id)),
    {
        let ts = self.tasks();
        let ds = self.dependencies();
        let g = Graph::new(ts, ds);
        proof {
            let s = self@.store;
            let l = live_links(s.dependencies, s.tasks);
            assert forall|id: i64| #[trigger] g.spec_task(id) == live(s.tasks, id) by {
                lemma_live_rows_lookup(s.tasks, id);
            }
            assert forall|a: i64, b: i64| #[trigger] g.spec_children(a).contains(b) <==> linked(s, a, b) by {
                let c = g.spec_children(a);
                let e = crate::model::edge_children(l, g.task_seq(), a);
                assert(g.spec_children(a).to_multiset() == e.to_multiset());
                assert(g.spec_task(a) == live(s.tasks, a));
                assert(g.spec_task(b) == live(s.tasks, b));
                c.to_multiset_ensures();
                e.to_multiset_ensures();
                assert(c.contains(b) <==> c.to_multiset().count(b) > 0);
                assert(e.contains(b) <==> e.to_multiset().count(b) > 0);
                lemma_edge_children_contains(l, g.task_seq(), a, b);
                lemma_live_links_contains(s.dependencies, s.tasks, Dependency { parent: a, child: b });
                lemma_live_rows_lookup(s.tasks, a);
                lemma_live_rows_lookup(s.tasks, b);
            }
            assert forall|a: i64, b: i64| #[trigger] g.spec_parents(b).contains(a) <==> linked(s, a, b) by {
                let c = g.spec_parents(b);
                let e = crate::model::edge_parents(l, g.task_seq(), b);
                assert(g.spec_parents(b).to_multiset() == e.to_multiset());
                assert(g.spec_task(a) == live(s.tasks, a));
                assert(g.spec_task(b) == live(s.tasks, b));
                c.to_multiset_ensures();
                e.to_multiset_ensures();
                assert(c.contains(a) <==> c.to_multiset().count(a) > 0);
                assert(e.contains(a) <==> e.to_multiset().count(a) > 0);
                lemma_edge_parents_contains(l, g.task_seq(), a, b);
                lemma_live_links_contains(s.dependencies, s.tasks, Dependency { parent: a, child: b });
                lemma_live_rows_lookup(s.tasks, a);
                lemma_live_rows_lookup(s.tasks, b);
            }
            assert(s.dependencies.no_duplicates()) by {
                assert forall|i: int, j: int| 0 <= i < s.dependencies.len() && 0 <= j < s.dependencies.len() && i != j
                    implies s.dependencies[i] != s.dependencies[j] by {
                    if i < j {
                        assert(dep_less(s.dependencies[i], s.dependencies[j]));
                    } else {
                        assert(dep_less(s.dependencies[j], s.dependencies[i]));
                    }
                }
            }
            lemma_live_links_distinct(s.dependencies, s.tasks);
            assert forall|a: i64| (#[trigger] g.spec_children(a)).no_duplicates() by {
                lemma_edges_distinct(l, g.task_seq(), a);
                let e = crate::model::edge_children(l, g.task_seq(), a);
                e.lemma_multiset_has_no_duplicates();
                assert(g.spec_children(a).to_multiset() == e.to_multiset());
                g.spec_children(a).lemma_multiset_has_no_duplicates_conv();
            }
            assert forall|a: i64| (#[trigger] g.spec_parents(a)).no_duplicates() by {
                lemma_edges_distinct(l, g.task_seq(), a);
                let e = crate::model::edge_parents(l, g.task_seq(), a);
                e.lemma_multiset_has_no_duplicates();
                assert(g.spec_parents(a).to_multiset() == e.to_multiset());
                g.spec_parents(a).lemma_multiset_has_no_duplicates_conv();
            }
            if readiness_consistent(s) {
                assert forall|id: i64| #[trigger] g.pending_task(id) implies (
                    g.spec_task(id).unwrap().ready_at is Some <==> g.actionable_id(id)) by {
                    let t = g.spec_task(id).unwrap();
                    assert(g.spec_task(id) == live(s.tasks, id));
                    lemma_find_index_bounds(s.tasks, id);
                    let i = find_index(s.tasks, id);
                    assert(s.tasks[i] == t);
                    assert(s.tasks[i].pending());
                    if blocked(s.tasks, s.dependencies, id) {
                        let k = choose|k: int| 0 <= k < s.dependencies.len() && (#[trigger] s.dependencies[k]).parent == id
                            && pending_in(s.tasks, s.dependencies[k].child);
                        let c = s.dependencies[k].child;
                        assert(s.dependencies.contains(Dependency { parent: id, child: c }));
                        lemma_find_index_bounds(s.tasks, c);
                        assert(linked(s, id, c));
                        assert(g.spec_children(id).contains(c));
                        let q = choose|q: int| 0 <= q < g.spec_children(id).len() && g.spec_children(id)[q] == c;
                        assert(g.spec_task(c) == live(s.tasks, c));
                    }
                    if !g.actionable_id(id) {
                        let q = choose|q: int| 0 <= q < g.spec_children(id).len() && !(g.spec_task(
                            #[trigger] g.spec_children(id)[q]) matches Some(ct) ==> ct.completed_at is Some);
                        let c = g.spec_children(id)[q];
                        assert(g.spec_children(id).contains(c));
                        assert(linked(s, id, c));
                        assert(g.spec_task(c) == live(s.tasks, c));
                        lemma_find_index_bounds(s.tasks, c);
                        let k = choose|k: int| 0 <= k < s.dependencies.len() && s.dependencies[k] == Dependency { parent: id, child: c };
                        assert(pending_in(s.tasks, s.dependencies[k].child));
                    }
                }
            }
        }
        g
    }

    /// The task that `shuffle` chose last, if the choice still stands.
    pub fn selected(&self) -> (r: Option<i64>)
        ensures
            r == self@.store.selected,
    {
        self.selected
    }

    /// Clears the choice unless it is still ready in the highest effective tier.
    fn settle_choice(&mut self)
        requires
            old(self).valid(),
        ensures
            final(self).valid(),
            settled_choice(old(self)@, final(self)@),
    {
        let g = self.graph();
        if let Some(id) = self.selected {
            let keep = match g.next_with_selection(self.selected) {
                Some(t) => t.id == id,
                None => false,
            };
            if !keep {
                self.selected = None;
            }
        }
        proof {
            assert(graph_of(g, old(self)@.store));
            assert(self@.store.selected == surviving_choice(g, old(self)@.store.selected));
            assert(self@.history =~= old(self)@.history);
        }
    }

    /// Moves the choice to the next ready task of its effective tier, in
    /// scheduling order and wrapping around, and returns the task chosen.
    /// Nothing changes, and nothing is recorded, when no task is ready or
    /// when the tier holds only the current one.
    pub fn shuffle(&mut self, now: i64) -> (r: Option<Task>)
        requires
            old(self).valid(),
        ensures
            final(self).valid(),
            shuffle_outcome(old(self)@, now, final(self)@, r),
    {
        let ghost before = self@;
        let g = self.graph();
        proof {
            assert(graph_of(g, before.store));
            g.lemma_shuffled_chosen(before.store.selected);
        }
        let current = match g.next_with_selection(self.selected) {
            Some(c) => c.id,
            None => return None,
        };
        let chosen = match g.shuffle_next(self.selected) {
            Some(n) => n.duplicate(),
            None => return None,
        };
        if chosen.id != current {
            let op = self.snapshot("shuffle", now);
            self.selected = Some(chosen.id);
            self.record(op);
            proof {
                assert(self@.store == (Store { selected: Some(chosen.id), ..before.store }));
                assert forall|k: int| 0 <= k < self@.history.len() implies well_formed(#[trigger] self@.history[k].store) by {
                    if k < before.history.len() {
                        assert(self@.history[k] == before.history[k]);
                    }
                }
            }
        }
        Some(chosen)
    }
}



impl Database {
    /// Replaces the task at row `i`, recomputes readiness at `now`, and
    /// records `op`.
    fn commit_row(&mut self, i: usize, t: Task, op: Operation, now: i64)
        requires
            old(self).valid(),
            i < old(self)@.store.tasks.len(),
            t.id == old(self)@.store.tasks[i as int].id,
            well_formed(op.record().store),
        ensures
            final(self)@ == (DatabaseView {
                store: settle(with_task(old(self)@.store, i as int, t), now),
                history: old(self)@.history.push(op.record()),
            }),
            final(self).valid(),
    {
        let ghost old_view = self@;
        let mut rows = clone_rows(&self.tasks);
        rows.set(i, t);
        let ghost s2 = with_task(old_view.store, i as int, t);
        proof {
            assert(rows@ == s2.tasks);
            assert forall|id: i64| #[trigger] find_index(s2.tasks, id) == find_index(old_view.store.tasks, id) by {
                lemma_find_index_same_ids(s2.tasks, old_view.store.tasks, id);
            }
            assert(ids_ascending(s2.tasks)) by {
                assert forall|a: int, b: int| 0 <= a < b < s2.tasks.len() implies #[trigger] s2.tasks[a].id < #[trigger] s2.tasks[b].id by {
                    assert(old_view.store.tasks[a].id < old_view.store.tasks[b].id);
                }
            }
            assert forall|k: int| 0 <= k < s2.tasks.len() implies (#[trigger] s2.tasks[k]).id < s2.next_task_id by {
                assert(old_view.store.tasks[k].id < old_view.store.next_task_id);
            }
            assert forall|k: int| 0 <= k < s2.dependencies.len() implies {
                let d = #[trigger] s2.dependencies[k];
                &&& d.parent != d.child
                &&& find_task(s2.tasks, d.parent) is Some
                &&& find_task(s2.tasks, d.child) is Some
            } by {
                let d = s2.dependencies[k];
                assert(find_index(s2.tasks, d.parent) == find_index(old_view.store.tasks, d.parent));
                assert(find_index(s2.tasks, d.child) == find_index(old_view.store.tasks, d.child));
            }
            assert(well_formed(s2));
            lemma_settle_well_formed(s2, now);
        }
        self.tasks = settle_rows(&rows, &self.dependencies, now);
        self.record(op);
        proof {
            assert forall|k: int| 0 <= k < self@.history.len() implies well_formed(#[trigger] self@.history[k].store) by {
                if k < old_view.history.len() {
                    assert(self@.history[k] == old_view.history[k]);
                }
            }
        }
    }

    /// Changes a task's intrinsic priority; `false` when it already had it.
    pub fn set_priority(&mut self, id: i64, priority: u8, now: i64) -> (r: Result<bool, Error>)
        requires
            old(self).valid(),
        ensures
            final(self).valid(),
            priority_outcome(old(self)@, id, priority, now, final(self)@, r),
    {
        if let Err(e) = validate_priority(priority) {
            return Err(e);
        }
        let i = match self.live_index(id) {
            Some(i) => i,
            None => return Err(Error::Domain(id_message("task ", id, " not found"))),
        };
        if self.tasks[i].priority == priority {
            return Ok(false);
        }
        let op = self.snapshot("priority", now);
        let mut t = self.tasks[i].duplicate();
        t.priority = priority;
        t.updated_at = now;
        self.commit_row(i, t, op, now);
        assert(self@ == committed(old(self)@, "priority"@, now, after_priority(old(self)@.store, id, priority, now)));
        self.settle_choice();
        Ok(true)
    }

    /// Marks a task completed at `now`; refused while a pending task that it
    /// depends on remains.
    pub fn complete(&mut self, id: i64, now: i64) -> (r: Result<Task, Error>)
        requires
            old(self).valid(),
        ensures
            final(self).valid(),
            complete_outcome(old(self)@, id, now, final(self)@, r),
    {
        let i = match self.live_index(id) {
            Some(i) => i,
            None => return Err(Error::Domain(id_message("task ", id, " not found"))),
        };
        if self.tasks[i].completed_at.is_some() {
            return Err(Error::Domain(id_message("task ", id, " is already completed")));
        }
        let mut k: usize = 0;
        while k < self.dependencies.len()
            invariant
                self.valid(),
                self@ == old(self)@,
                live(self@.store.tasks, id) is Some,
                live(self@.store.tasks, id).unwrap().completed_at is None,
                k <= self@.store.dependencies.len(),
                forall|q: int|
                    0 <= q < k ==> !((#[trigger] self@.store.dependencies[q]).parent == id && pending_in(
                        self@.store.tasks,
                        self@.store.dependencies[q].child,
                    )),
            decreases self@.store.dependencies.len() - k,
        {
            let d = self.dependencies[k];
            if d.parent == id && pending_row(&self.tasks, d.child) {
                let mut m = id_message("task ", id, " is blocked by pending dependency ");
                push_decimal(&mut m, d.child);
                proof {
                    let st = self@.store;
                    assert(blocker(st, id, d.child));
                    assert forall|c2: i64| #[trigger] blocker(st, id, c2) implies d.child <= c2 by {
                        let q = choose|q: int|
                            0 <= q < st.dependencies.len() && (#[trigger] st.dependencies[q]).parent == id
                                && st.dependencies[q].child == c2 && pending_in(st.tasks, c2);
                        if q > k {
                            assert(dep_less(st.dependencies[k as int], st.dependencies[q]));
                        }
                    }
                    let c = least_blocker(st, id);
                    assert(blocker(st, id, c) && forall|c2: i64| #[trigger] blocker(st, id, c2) ==> c <= c2);
                    assert(c == d.child);
                    assert(blocked(st.tasks, st.dependencies, id));
                }
                return Err(Error::Domain(m));
            }
            k = k + 1;
        }
        let op = self.snapshot("done", now);
        let mut t = self.tasks[i].duplicate();
        t.completed_at = Some(now);
        t.updated_at = now;
        let ghost before = self@.store;
        proof {
            lemma_find_index_bounds(before.tasks, id);
        }
        self.commit_row(i, t, op, now);
        proof {
            let s2 = with_task(before, i as int, t);
            lemma_refreshed_shape(s2.tasks, s2.dependencies, now);
            assert(self@.store.tasks == refreshed(s2.tasks, s2.dependencies, now));
            assert(self@.store.tasks[i as int] == (Task { ready_at: self@.store.tasks[i as int].ready_at, ..s2.tasks[i as int] }));
            lemma_find_task_sorted(self@.store.tasks, id);
            assert(self@.store.tasks[i as int].id == id);
        }
        assert(self@ == committed(old(self)@, "done"@, now, after_complete(old(self)@.store, id, now)));
        self.settle_choice();
        Ok(self.tasks[i].duplicate())
    }
}


/// The rows that do not touch `id`.
fn detach(deps: &Vec<Dependency>, id: i64) -> (r: Vec<Dependency>)
    ensures
        r@ == detached(deps@, id),
{
    let mut r: Vec<Dependency> = Vec::new();
    let mut k: usize = 0;
    while k < deps.len()
        invariant
            k <= deps@.len(),
            r@ == detached(deps@.subrange(0, k as int), id),
        decreases deps@.len() - k,
    {
        let ghost pre = deps@.subrange(0, k + 1);
        assert(pre.drop_last() =~= deps@.subrange(0, k as int));
        let d = deps[k];
        if !(d.parent == id || d.child == id) {
            r.push(Dependency { parent: d.parent, child: d.child });
        }
        k = k + 1;
    }
    assert(deps@.subrange(0, k as int) =~= deps@);
    r
}

/// How many rows touch `id`.
fn count_incident(deps: &Vec<Dependency>, id: i64) -> (r: usize)
    ensures
        r == incident(deps@, id),
{
    let mut r: usize = 0;
    let mut k: usize = 0;
    while k < deps.len()
        invariant
            k <= deps@.len(),
            r == incident(deps@.subrange(0, k as int), id),
            r <= k,
        decreases deps@.len() - k,
    {
        let ghost pre = deps@.subrange(0, k + 1);
        assert(pre.drop_last() =~= deps@.subrange(0, k as int));
        let d = deps[k];
        if d.parent == id || d.child == id {
            r = r + 1;
        }
        k = k + 1;
    }
    assert(deps@.subrange(0, k as int) =~= deps@);
    r
}

/// Every row of `detached` is a row of `deps`, in the same order.
proof fn lemma_detached_sub(deps: Seq<Dependency>, id: i64)
    ensures
        forall|k: int| 0 <= k < detached(deps, id).len() ==> deps.contains(#[trigger] detached(deps, id)[k]),
        forall|k: int| 0 <= k < detached(deps, id).len() ==> (#[trigger] detached(deps, id)[k]).parent != id && detached(deps, id)[k].child != id,
        deps_ascending(deps) ==> deps_ascending(detached(deps, id)),
        forall|d: Dependency| deps.contains(d) && d.parent != id && d.child != id ==> #[trigger] detached(deps, id).contains(d),
    decreases deps.len(),
{
    if deps.len() > 0 {
        let init = deps.drop_last();
        lemma_detached_sub(init, id);
        let r = detached(init, id);
        let e = detached(deps, id);
        assert forall|k: int| 0 <= k < e.len() implies deps.contains(#[trigger] e[k]) by {
            if k < r.len() {
                assert(e[k] == r[k]);
                let j = choose|j: int| 0 <= j < init.len() && init[j] == r[k];
                assert(deps[j] == init[j]);
            } else {
                assert(e[k] == deps.last());
                assert(deps[deps.len() - 1] == deps.last());
            }
        }
        assert forall|k: int| 0 <= k < e.len() implies (#[trigger] e[k]).parent != id && e[k].child != id by {
            if k < r.len() {
                assert(e[k] == r[k]);
            }
        }
        if deps_ascending(deps) {
            assert(deps_ascending(init)) by {
                assert forall|i: int, j: int| 0 <= i < j < init.len() implies dep_less(#[trigger] init[i], #[trigger] init[j]) by {
                    assert(init[i] == deps[i] && init[j] == deps[j]);
                }
            }
            assert forall|i: int, j: int| 0 <= i < j < e.len() implies dep_less(#[trigger] e[i], #[trigger] e[j]) by {
                if j < r.len() {
                    assert(e[i] == r[i] && e[j] == r[j]);
                } else {
                    assert(e[i] == r[i]);
                    let q = choose|q: int| 0 <= q < init.len() && init[q] == r[i];
                    assert(dep_less(deps[q], deps[deps.len() - 1]));
                }
            }
        }
        assert forall|d: Dependency| deps.contains(d) && d.parent != id && d.child != id implies #[trigger] e.contains(d) by {
            let j = choose|j: int| 0 <= j < deps.len() && deps[j] == d;
            if j < deps.len() - 1 {
                assert(init[j] == d);
                assert(init.contains(d));
                assert(detached(init, id).contains(d));
                let q = choose|q: int| 0 <= q < r.len() && r[q] == d;
                if deps.last().parent == id || deps.last().child == id {
                    assert(e == r);
                } else {
                    assert(e == r.push(deps.last()));
                }
                assert(e[q] == d);
            } else {
                assert(e[e.len() - 1] == d);
            }
        }
    }
}

impl Database {
    /// Replaces a task's description when it still reads `expected`;
    /// `false` when the new text equals `expected`.
    pub fn edit_description(&mut self, id: i64, expected: &str, description: &str, now: i64) -> (r: Result<bool, Error>)
        requires
            old(self).valid(),
        ensures
            final(self).valid(),
            edit_outcome(old(self)@, id, expected@, description@, now, final(self)@, r),
    {
        let i = match self.live_index(id) {
            Some(i) => i,
            None => return Err(Error::Domain(id_message("task ", id, " not found"))),
        };
        let exp = String::from_str(expected);
        if self.tasks[i].description != exp {
            return Err(Error::Domain(id_message("task ", id, " changed while the editor was open")));
        }
        let new_text = String::from_str(description);
        if exp == new_text {
            return Ok(false);
        }
        if spaces_only(description) {
            return Err(Error::Database(String::from_str("CHECK constraint failed: length(trim(description)) > 0")));
        }
        let op = self.snapshot("edit", now);
        let mut t = self.tasks[i].duplicate();
        t.description = new_text;
        t.updated_at = now;
        let ghost before = self@;
        let ghost tt = t;
        proof {
            lemma_find_index_bounds(before.store.tasks, id);
        }
        self.commit_row(i, t, op, now);
        assert(self@ == committed(before, "edit"@, now, after_edit(before.store, id, tt, now)));
        self.settle_choice();
        assert(settled_choice(committed(before, "edit"@, now, after_edit(before.store, id, tt, now)), self@));
        Ok(true)
    }

    /// Soft-deletes a task at `now`; a task with dependency rows needs
    /// `force`, which deletes those rows too. Returns the task as it was.
    pub fn remove(&mut self, id: i64, force: bool, now: i64) -> (r: Result<Task, Error>)
        requires
            old(self).valid(),
        ensures
            final(self).valid(),
            remove_outcome(old(self)@, id, force, now, final(self)@, r),
    {
        let i = match self.live_index(id) {
            Some(i) => i,
            None => return Err(Error::Domain(id_message("task ", id, " not found"))),
        };
        let connections = count_incident(&self.dependencies, id);
        if connections > 0 && !force {
            let mut m = id_message("task ", id, " has ");
            push_digits(&mut m, connections as u64);
            m.append(" dependency connection(s); use --force");
            return Err(Error::Domain(m));
        }
        let ghost before = self@;
        let op = self.snapshot("rm", now);
        let original = self.tasks[i].duplicate();
        let mut t = self.tasks[i].duplicate();
        t.deleted_at = Some(now);
        t.updated_at = now;
        let mut rows = clone_rows(&self.tasks);
        rows.set(i, t);
        let deps = detach(&self.dependencies, id);
        let ghost s2 = Store { tasks: rows@, dependencies: deps@, ..before.store };
        proof {
            lemma_find_index_bounds(before.store.tasks, id);
            let old_s = before.store;
            assert forall|x: i64| #[trigger] find_index(s2.tasks, x) == find_index(old_s.tasks, x) by {
                lemma_find_index_same_ids(s2.tasks, old_s.tasks, x);
            }
            assert(ids_ascending(s2.tasks)) by {
                assert forall|a: int, b: int| 0 <= a < b < s2.tasks.len() implies #[trigger] s2.tasks[a].id < #[trigger] s2.tasks[b].id by {
                    assert(old_s.tasks[a].id < old_s.tasks[b].id);
                }
            }
            assert forall|k: int| 0 <= k < s2.tasks.len() implies (#[trigger] s2.tasks[k]).id < s2.next_task_id by {
                assert(old_s.tasks[k].id < old_s.next_task_id);
            }
            lemma_detached_sub(old_s.dependencies, id);
            assert forall|k: int| 0 <= k < s2.dependencies.len() implies {
                let d = #[trigger] s2.dependencies[k];
                &&& d.parent != d.child
                &&& find_task(s2.tasks, d.parent) is Some
                &&& find_task(s2.tasks, d.child) is Some
            } by {
                let d = s2.dependencies[k];
                assert(old_s.dependencies.contains(d));
                let q = choose|q: int| 0 <= q < old_s.dependencies.len() && old_s.dependencies[q] == d;
                assert(find_index(s2.tasks, d.parent) == find_index(old_s.tasks, d.parent));
                assert(find_index(s2.tasks, d.child) == find_index(old_s.tasks, d.child));
            }
            assert(well_formed(s2));
            lemma_settle_well_formed(s2, now);
            assert(s2 == Store {
                tasks: old_s.tasks.update(i as int, Task { deleted_at: Some(now), updated_at: now, ..old_s.tasks[i as int] }),
                dependencies: detached(old_s.dependencies, id),
                ..old_s
            });
        }
        self.tasks = settle_rows(&rows, &deps, now);
        self.dependencies = deps;
        self.record(op);
        proof {
            assert forall|k: int| 0 <= k < self@.history.len() implies well_formed(#[trigger] self@.history[k].store) by {
                if k < before.history.len() {
                    assert(self@.history[k] == before.history[k]);
                }
            }
        }
        assert(self@ == committed(old(self)@, "rm"@, now, after_remove(old(self)@.store, id, now)));
        self.settle_choice();
        Ok(original)
    }
}


/// Of two different id sequences, one is lexicographically smaller.
pub proof fn lemma_seq_less_total(a: Seq<i64>, b: Seq<i64>)
    requires
        a != b,
    ensures
        seq_less(a, b) || seq_less(b, a),
    decreases a.len(),
{
    if a.len() > 0 && b.len() > 0 && a[0] == b[0] {
        if a.drop_first() == b.drop_first() {
            assert(a =~= seq![a[0]] + a.drop_first());
            assert(b =~= seq![b[0]] + b.drop_first());
        }
        lemma_seq_less_total(a.drop_first(), b.drop_first());
    } else if a.len() == 0 && b.len() == 0 {
        assert(a =~= b);
    }
}

/// Walks of the graph of a store are the walks of its live dependencies.
proof fn lemma_graph_walks(g: Graph, s: Store)
    requires
        forall|a: i64, b: i64| #[trigger] g.spec_children(a).contains(b) <==> linked(s, a, b),
    ensures
        forall|w: Seq<i64>, a: i64, b: i64| #[trigger] g.walk_between(w, a, b, Set::empty()) <==> #[trigger] store_walk(s, w, a, b),
{
    assert forall|w: Seq<i64>, a: i64, b: i64| #[trigger] g.walk_between(w, a, b, Set::empty()) <==> #[trigger] store_walk(s, w, a, b) by {
        if g.walk_between(w, a, b, Set::empty()) {
            assert forall|i: int| 0 < i < w.len() implies #[trigger] linked(s, w[i - 1], w[i]) by {
                assert(g.spec_children(w[i - 1]).contains(w[i]));
            }
        }
        if store_walk(s, w, a, b) {
            assert forall|i: int| 0 < i < w.len() implies #[trigger] g.spec_children(w[i - 1]).contains(w[i]) by {
                assert(linked(s, w[i - 1], w[i]));
            }
        }
    }
}

/// The least path of the graph of a store is the store's least path.
proof fn lemma_graph_least_path(g: Graph, s: Store, p: Seq<i64>, a: i64, b: i64)
    requires
        forall|x: i64, y: i64| #[trigger] g.spec_children(x).contains(y) <==> linked(s, x, y),
        g.least_path(p, a, b, Set::empty()),
    ensures
        store_least_path(s, p, a, b),
        (choose|q: Seq<i64>| #[trigger] store_least_path(s, q, a, b)) == p,
{
    lemma_graph_walks(g, s);
    assert forall|q: Seq<i64>| #[trigger] store_walk(s, q, a, b) && q.no_duplicates() implies !seq_less(q, p) by {
        assert(g.walk_between(q, a, b, Set::empty()));
    }
    assert(store_walk(s, p, a, b));
    assert(store_least_path(s, p, a, b));
    let c = choose|q: Seq<i64>| #[trigger] store_least_path(s, q, a, b);
    assert(store_least_path(s, c, a, b));
    if c != p {
        lemma_seq_less_total(c, p);
    }
}

proof fn lemma_insert_index(deps: Seq<Dependency>, d: Dependency, pos: int)
    requires
        deps_ascending(deps),
        0 <= pos <= deps.len(),
        forall|k: int| 0 <= k < pos ==> dep_less(#[trigger] deps[k], d),
        pos == deps.len() || !dep_less(deps[pos], d),
    ensures
        insert_index(deps, d) == pos,
    decreases deps.len(),
{
    if deps.len() > 0 {
        let init = deps.drop_last();
        if pos == deps.len() {
            assert(dep_less(deps[deps.len() - 1], d));
        } else {
            if pos == deps.len() - 1 {
                assert(!dep_less(deps.last(), d));
            } else {
                assert(dep_less(deps[pos], deps.last()));
                assert(!dep_less(deps.last(), d));
            }
            assert forall|i: int, j: int| 0 <= i < j < init.len() implies dep_less(#[trigger] init[i], #[trigger] init[j]) by {
                assert(init[i] == deps[i] && init[j] == deps[j]);
            }
            assert forall|k: int| 0 <= k < pos implies dep_less(#[trigger] init[k], d) by {
                assert(init[k] == deps[k]);
            }
            if pos < init.len() {
                assert(init[pos] == deps[pos]);
            }
            lemma_insert_index(init, d, pos);
        }
    }
}

proof fn lemma_dep_index(deps: Seq<Dependency>, k: int)
    requires
        deps_ascending(deps),
        0 <= k < deps.len(),
    ensures
        dep_index(deps, deps[k]) == k,
    decreases deps.len(),
{
    if k < deps.len() - 1 {
        assert(dep_less(deps[k], deps.last()));
        let init = deps.drop_last();
        assert forall|i: int, j: int| 0 <= i < j < init.len() implies dep_less(#[trigger] init[i], #[trigger] init[j]) by {
            assert(init[i] == deps[i] && init[j] == deps[j]);
        }
        assert(init[k] == deps[k]);
        lemma_dep_index(init, k);
    }
}

/// Appends ` -> ` and each id of `path` to `out`.
fn push_path(out: &mut String, first: i64, path: &Vec<i64>)
    ensures
        final(out)@ == old(out)@ + joined_ids(seq![first] + path@),
{
    let ghost start = out@;
    push_decimal(out, first);
    let mut k: usize = 0;
    assert(seq![first] + path@.subrange(0, 0) =~= seq![first]);
    while k < path.len()
        invariant
            k <= path@.len(),
            out@ == start + joined_ids(seq![first] + path@.subrange(0, k as int)),
        decreases path@.len() - k,
    {
        out.append(" -> ");
        push_decimal(out, path[k]);
        proof {
            let s1 = seq![first] + path@.subrange(0, k + 1);
            assert(s1.drop_last() =~= seq![first] + path@.subrange(0, k as int));
            assert(s1.last() == path@[k as int]);
        }
        k = k + 1;
    }
    assert(path@.subrange(0, k as int) =~= path@);
}

impl Database {
    /// Makes `parent` depend on `child`; refused for a task on itself, a
    /// missing task, a completed parent, an existing row, or a cycle.
    pub fn add_dependency(&mut self, parent: i64, child: i64, now: i64) -> (r: Result<(), Error>)
        requires
            old(self).valid(),
        ensures
            final(self).valid(),
            link_outcome(old(self)@, parent, child, now, final(self)@, r),
    {
        if parent == child {
            return Err(Error::Domain(String::from_str("a task cannot depend on itself")));
        }
        let pi = match self.live_index(parent) {
            Some(i) => i,
            None => return Err(Error::Domain(id_message("task ", parent, " not found"))),
        };
        if self.live_index(child).is_none() {
            return Err(Error::Domain(id_message("task ", child, " not found")));
        }
        if self.tasks[pi].completed_at.is_some() {
            return Err(Error::Domain(id_message("completed task ", parent, " cannot gain a dependency")));
        }
        let d = Dependency { parent, child };
        let mut pos: usize = 0;
        while pos < self.dependencies.len() && (self.dependencies[pos].parent < parent
            || (self.dependencies[pos].parent == parent && self.dependencies[pos].child < child))
            invariant
                self.valid(),
                d.parent == parent && d.child == child,
                pos <= self@.store.dependencies.len(),
                forall|k: int| 0 <= k < pos ==> dep_less(#[trigger] self@.store.dependencies[k], d),
            decreases self@.store.dependencies.len() - pos,
        {
            pos = pos + 1;
        }
        let ghost deps0 = self@.store.dependencies;
        proof {
            lemma_insert_index(deps0, d, pos as int);
        }
        let exists = pos < self.dependencies.len() && self.dependencies[pos].parent == parent
            && self.dependencies[pos].child == child;
        proof {
            if !exists {
                assert forall|k: int| 0 <= k < deps0.len() implies deps0[k] != d by {
                    if k >= pos {
                        if k > pos {
                            assert(dep_less(deps0[pos as int], deps0[k]));
                        }
                    }
                }
            } else {
                assert(deps0[pos as int] == d);
            }
        }
        if exists {
            let mut m = String::from_str("dependency ");
            push_decimal(&mut m, parent);
            m.append(" -> ");
            push_decimal(&mut m, child);
            m.append(" already exists");
            return Err(Error::Domain(m));
        }
        let g = self.graph();
        match g.deterministic_path(child, parent) {
            Some(path) => {
                proof {
                    lemma_graph_least_path(g, self@.store, path@, child, parent);
                    assert(store_reaches(self@.store, child, parent));
                }
                let mut m = String::from_str("dependency would create cycle: ");
                push_path(&mut m, parent, &path);
                return Err(Error::Domain(m));
            },
            None => {
                proof {
                    lemma_graph_walks(g, self@.store);
                    if store_reaches(self@.store, child, parent) {
                        let w = choose|w: Seq<i64>| #[trigger] store_walk(self@.store, w, child, parent);
                        assert(g.walk_between(w, child, parent, Set::empty()));
                    }
                }
            },
        }
        let ghost before = self@;
        let op = self.snapshot("dep", now);
        let mut deps = clone_links(&self.dependencies);
        deps.insert(pos, d);
        let ghost s2 = Store { dependencies: deps@, ..before.store };
        proof {
            let s = before.store;
            deps0.insert_ensures(pos as int, d);
            assert(deps@ == s.dependencies.insert(insert_index(s.dependencies, d), d));
            assert(deps_ascending(s2.dependencies)) by {
                assert forall|i: int, j: int| 0 <= i < j < deps@.len() implies dep_less(#[trigger] deps@[i], #[trigger] deps@[j]) by {
                    if j < pos {
                    } else if i > pos {
                        assert(deps@[i] == deps0[i - 1] && deps@[j] == deps0[j - 1]);
                    } else if i == pos {
                        assert(deps@[j] == deps0[j - 1]);
                        assert(deps0[pos as int] != d);
                        if j - 1 > pos {
                            assert(dep_less(deps0[pos as int], deps0[j - 1]));
                        }
                    } else {
                        if j == pos {
                        } else {
                            assert(deps@[j] == deps0[j - 1]);
                            assert(deps0[pos as int] != d);
                            if j - 1 > pos {
                                assert(dep_less(deps0[pos as int], deps0[j - 1]));
                            }
                        }
                    }
                }
            }
            lemma_find_index_bounds(s.tasks, parent);
            lemma_find_index_bounds(s.tasks, child);
            assert forall|k: int| 0 <= k < s2.dependencies.len() implies {
                let e = #[trigger] s2.dependencies[k];
                &&& e.parent != e.child
                &&& find_task(s2.tasks, e.parent) is Some
                &&& find_task(s2.tasks, e.child) is Some
            } by {
                if k < pos {
                    assert(deps@[k] == deps0[k]);
                } else if k > pos {
                    assert(deps@[k] == deps0[k - 1]);
                }
            }
            assert(well_formed(s2));
            lemma_settle_well_formed(s2, now);
        }
        self.tasks = settle_rows(&self.tasks, &deps, now);
        self.dependencies = deps;
        self.record(op);
        proof {
            assert forall|k: int| 0 <= k < self@.history.len() implies well_formed(#[trigger] self@.history[k].store) by {
                if k < before.history.len() {
                    assert(self@.history[k] == before.history[k]);
                }
            }
        }
        assert(self@ == committed(old(self)@, "dep"@, now, after_link(old(self)@.store, parent, child, now)));
        self.settle_choice();
        Ok(())
    }
}


impl Database {
    /// Deletes the row that makes `parent` depend on `child`.
    pub fn remove_dependency(&mut self, parent: i64, child: i64, now: i64) -> (r: Result<(), Error>)
        requires
            old(self).valid(),
        ensures
            final(self).valid(),
            unlink_outcome(old(self)@, parent, child, now, final(self)@, r),
    {
        if self.live_index(parent).is_none() {
            return Err(Error::Domain(id_message("task ", parent, " not found")));
        }
        if self.live_index(child).is_none() {
            return Err(Error::Domain(id_message("task ", child, " not found")));
        }
        let d = Dependency { parent, child };
        let mut k: usize = 0;
        while k < self.dependencies.len() && !(self.dependencies[k].parent == parent
            && self.dependencies[k].child == child)
            invariant
                self.valid(),
                d.parent == parent && d.child == child,
                k <= self@.store.dependencies.len(),
                forall|q: int| 0 <= q < k ==> #[trigger] self@.store.dependencies[q] != d,
            decreases self@.store.dependencies.len() - k,
        {
            k = k + 1;
        }
        if k == self.dependencies.len() {
            let mut m = String::from_str("dependency ");
            push_decimal(&mut m, parent);
            m.append(" -> ");
            push_decimal(&mut m, child);
            m.append(" not found");
            return Err(Error::Domain(m));
        }
        let ghost before = self@;
        let ghost deps0 = before.store.dependencies;
        proof {
            assert(deps0[k as int] == d);
            lemma_dep_index(deps0, k as int);
        }
        let op = self.snapshot("undep", now);
        let mut deps = clone_links(&self.dependencies);
        deps.remove(k);
        let ghost s2 = Store { dependencies: deps@, ..before.store };
        proof {
            deps0.remove_ensures(k as int);
            assert(deps_ascending(s2.dependencies)) by {
                assert forall|i: int, j: int| 0 <= i < j < deps@.len() implies dep_less(#[trigger] deps@[i], #[trigger] deps@[j]) by {
                    if j < k {
                    } else if i >= k {
                        assert(deps@[i] == deps0[i + 1] && deps@[j] == deps0[j + 1]);
                    } else {
                        assert(deps@[j] == deps0[j + 1]);
                    }
                }
            }
            assert forall|q: int| 0 <= q < s2.dependencies.len() implies {
                let e = #[trigger] s2.dependencies[q];
                &&& e.parent != e.child
                &&& find_task(s2.tasks, e.parent) is Some
                &&& find_task(s2.tasks, e.child) is Some
            } by {
                if q < k {
                    assert(deps@[q] == deps0[q]);
                } else {
                    assert(deps@[q] == deps0[q + 1]);
                }
            }
            assert(well_formed(s2));
            lemma_settle_well_formed(s2, now);
        }
        self.tasks = settle_rows(&self.tasks, &deps, now);
        self.dependencies = deps;
        self.record(op);
        proof {
            assert forall|q: int| 0 <= q < self@.history.len() implies well_formed(#[trigger] self@.history[q].store) by {
                if q < before.history.len() {
                    assert(self@.history[q] == before.history[q]);
                }
            }
        }
        assert(self@ == committed(old(self)@, "undep"@, now, after_unlink(old(self)@.store, parent, child, now)));
        self.settle_choice();
        Ok(())
    }

    /// Restores the rows of the latest snapshot and forgets it; returns the
    /// kind of the mutation it reverses.
    pub fn undo(&mut self) -> (r: Result<String, Error>)
        requires
            old(self).valid(),
        ensures
            final(self).valid(),
            undo_outcome(
                old(self)@,
                final(self)@,
                match r {
                    Ok(kind) => Ok(kind@),
                    Err(e) => Err(e),
                },
            ),
    {
        let ghost before = self@;
        match self.history.pop() {
            None => Err(Error::Domain(String::from_str("nothing to undo"))),
            Some(op) => {
                proof {
                    assert(self@.history =~= before.history.drop_last());
                    assert(op.record() == before.history.last());
                    assert(well_formed(before.history[before.history.len() - 1].store));
                    assert forall|q: int| 0 <= q < self@.history.len() implies well_formed(#[trigger] self@.history[q].store) by {
                        assert(self@.history[q] == before.history[q]);
                    }
                }
                self.tasks = op.tasks;
                self.dependencies = op.dependencies;
                self.next_task_id = op.next_task_id;
                self.selected = op.selected;
                Ok(op.kind)
            },
        }
    }

    /// Every task row, deleted ones too, sorted by id.
    pub fn task_rows(&self) -> (r: &[Task])
        ensures
            r@ == self@.store.tasks,
    {
        self.tasks.as_slice()
    }

    /// Every dependency row, sorted by parent, then child.
    pub fn dependency_rows(&self) -> (r: &[Dependency])
        ensures
            r@ == self@.store.dependencies,
    {
        self.dependencies.as_slice()
    }

    /// The id that the next added task gets.
    pub fn next_task_id(&self) -> (r: i64)
        ensures
            r == self@.store.next_task_id,
    {
        self.next_task_id
    }

    /// The latest snapshot, which `undo` would restore.
    pub fn latest_operation(&self) -> (r: Option<&Operation>)
        ensures
            self@.history.len() == 0 ==> r is None,
            self@.history.len() > 0 ==> (r matches Some(op) && op.record() == self@.history.last()),
    {
        let n = self.history.len();
        if n == 0 {
            None
        } else {
            Some(&self.history[n - 1])
        }
    }
}

/// Whether the rows are well formed.
fn check_rows(tasks: &Vec<Task>, deps: &Vec<Dependency>, next_task_id: i64) -> (r: bool)
    ensures
        forall|selected: Option<i64>| r == #[trigger] well_formed(Store { tasks: tasks@, dependencies: deps@, next_task_id, selected }),
{
    let mut i: usize = 0;
    while i < tasks.len()
        invariant
            i <= tasks@.len(),
            forall|a: int, b: int| 0 <= a < b < i ==> #[trigger] tasks@[a].id < #[trigger] tasks@[b].id,
            forall|a: int| 0 <= a < i ==> (#[trigger] tasks@[a]).id < next_task_id,
        decreases tasks@.len() - i,
    {
        if tasks[i].id >= next_task_id {
            return false;
        }
        if i > 0 && tasks[i - 1].id >= tasks[i].id {
            assert(!ids_ascending(tasks@)) by {
                assert(tasks@[i - 1].id >= tasks@[i as int].id);
            }
            return false;
        }
        i = i + 1;
    }
    assert(ids_ascending(tasks@));
    let mut k: usize = 0;
    while k < deps.len()
        invariant
            ids_ascending(tasks@),
            k <= deps@.len(),
            forall|a: int, b: int| 0 <= a < b < k ==> dep_less(#[trigger] deps@[a], #[trigger] deps@[b]),
            forall|q: int|
                0 <= q < k ==> {
                    let d = #[trigger] deps@[q];
                    &&& d.parent != d.child
                    &&& find_task(tasks@, d.parent) is Some
                    &&& find_task(tasks@, d.child) is Some
                },
        decreases deps@.len() - k,
    {
        let d = deps[k];
        if d.parent == d.child {
            return false;
        }
        proof {
            lemma_find_task_sorted(tasks@, d.parent);
            lemma_find_task_sorted(tasks@, d.child);
        }
        if search(tasks, d.parent).is_err() || search(tasks, d.child).is_err() {
            return false;
        }
        if k > 0 {
            let e = deps[k - 1];
            if !(e.parent < d.parent || (e.parent == d.parent && e.child < d.child)) {
                return false;
            }
        }
        k = k + 1;
    }
    true
}

impl Database {
    /// The database that the given rows, choice and snapshots describe;
    /// refused when the rows are not well formed.
    pub fn from_parts(
        tasks: Vec<Task>,
        dependencies: Vec<Dependency>,
        next_task_id: i64,
        selected: Option<i64>,
        history: Vec<Operation>,
    ) -> (r: Result<Database, Error>)
        ensures
            r matches Ok(db) ==> db.valid() && db@ == (DatabaseView {
                store: Store { tasks: tasks@, dependencies: dependencies@, next_task_id, selected },
                history: history@.map_values(|o: Operation| o.record()),
            }),
            r is Err <==> !valid_view(DatabaseView {
                store: Store { tasks: tasks@, dependencies: dependencies@, next_task_id, selected },
                history: history@.map_values(|o: Operation| o.record()),
            }),
    {
        let ghost v = DatabaseView {
            store: Store { tasks: tasks@, dependencies: dependencies@, next_task_id, selected },
            history: history@.map_values(|o: Operation| o.record()),
        };
        if !check_rows(&tasks, &dependencies, next_task_id) {
            return Err(Error::Database(String::from_str("malformed task rows")));
        }
        let mut i: usize = 0;
        while i < history.len()
            invariant
                i <= history@.len(),
                v == (DatabaseView {
                    store: Store { tasks: tasks@, dependencies: dependencies@, next_task_id, selected },
                    history: history@.map_values(|o: Operation| o.record()),
                }),
                forall|q: int| 0 <= q < i ==> well_formed(#[trigger] v.history[q].store),
            decreases history@.len() - i,
        {
            let op = &history[i];
            if !check_rows(&op.tasks, &op.dependencies, op.next_task_id) {
                assert(v.history[i as int].store == Store {
                    tasks: op.tasks@, dependencies: op.dependencies@, next_task_id: op.next_task_id, selected: op.selected,
                });
                assert(!well_formed(v.history[i as int].store));
                return Err(Error::Database(String::from_str("malformed snapshot rows")));
            }
            i = i + 1;
        }
        Ok(Database { tasks, dependencies, next_task_id, selected, history })
    }
}


/// The rows determine their scheduling graph: two graphs of the same rows
/// hold the same tasks, links and effective priorities.
pub proof fn law_graph_of_unique(g1: Graph, g2: Graph, s: Store)
    requires
        graph_of(g1, s),
        graph_of(g2, s),
    ensures
        g1.task_seq() == g2.task_seq(),
        g1.child_seqs() == g2.child_seqs(),
        g1.parent_seqs() == g2.parent_seqs(),
        g1.effective_seq() == g2.effective_seq(),
{
    assert forall|id: i64| #[trigger] g1.spec_task(id) == g2.spec_task(id) by {
        assert(g1.spec_task(id) == live(s.tasks, id));
        assert(g2.spec_task(id) == live(s.tasks, id));
    }
    assert forall|a: i64, b: i64| #[trigger] g1.spec_children(a).contains(b) <==> g2.spec_children(a).contains(b) by {
        assert(g1.spec_children(a).contains(b) <==> linked(s, a, b));
        assert(g2.spec_children(a).contains(b) <==> linked(s, a, b));
    }
    assert forall|a: i64, b: i64| #[trigger] g1.spec_parents(a).contains(b) <==> g2.spec_parents(a).contains(b) by {
        assert(g1.spec_parents(a).contains(b) <==> linked(s, b, a));
        assert(g2.spec_parents(a).contains(b) <==> linked(s, b, a));
    }
    Graph::lemma_same_graph(g1, g2);
}

/// A sequence without repeats whose elements all occur in `b` is no longer than `b`.
proof fn lemma_pigeonhole(a: Seq<i64>, b: Seq<i64>)
    requires
        a.no_duplicates(),
        forall|i: int| 0 <= i < a.len() ==> b.contains(#[trigger] a[i]),
    ensures
        a.len() <= b.len(),
{
    broadcast use vstd::seq_lib::group_seq_properties;
    broadcast use vstd::set::group_set_axioms;
    a.unique_seq_to_set();
    b.lemma_cardinality_of_set();
    assert forall|x: i64| a.to_set().contains(x) implies b.to_set().contains(x) by {
        let i = choose|i: int| 0 <= i < a.len() && a[i] == x;
        assert(b.contains(a[i]));
    }
    vstd::set_lib::lemma_len_subset(a.to_set(), b.to_set());
}

/// A climb through representative parents follows live rows upward, and
/// under acyclic rows it meets no task twice.
proof fn lemma_climb_walks(g: Graph, s: Store, c: Seq<i64>)
    requires
        graph_of(g, s),
        acyclic(s),
        forall|k: int| 0 <= k < c.len() - 1 ==> g.next_up(#[trigger] c[k]) == Some(c[k + 1]),
    ensures
        forall|k: int| 0 <= k < c.len() - 1 ==> #[trigger] linked(s, c[k + 1], c[k]),
        c.no_duplicates(),
{
    assert forall|k: int| 0 <= k < c.len() - 1 implies #[trigger] linked(s, c[k + 1], c[k]) by {
        lemma_next_up_linked(g, s, c[k]);
    }
    assert forall|i: int, j: int| 0 <= i < c.len() && 0 <= j < c.len() && i != j implies c[i] != c[j] by {
        if c[i] == c[j] {
            let lo = if i < j { i } else { j };
            let hi = if i < j { j } else { i };
            let w = c.subrange(lo, hi + 1).reverse();
            assert forall|m: int| 0 < m < w.len() implies #[trigger] linked(s, w[m - 1], w[m]) by {
                assert(w[m - 1] == c[hi - m + 1]);
                assert(w[m] == c[hi - m]);
                assert(linked(s, c[(hi - m) + 1], c[hi - m]));
            }
            assert(store_walk(s, w, c[lo], c[lo]));
        }
    }
}

/// The representative parent of a task depends on it by a live row.
proof fn lemma_next_up_linked(g: Graph, s: Store, x: i64)
    requires
        graph_of(g, s),
        g.next_up(x) is Some,
    ensures
        linked(s, g.next_up(x).unwrap(), x),
        g.pending_task(g.next_up(x).unwrap()),
{
    let b = choose|b: i64| #[trigger] g.best_parent(x, b);
    assert(g.best_parent(x, b));
    assert(g.spec_parents(x).contains(b));
}

/// Under acyclic rows, the context chain of a live task reaches the top:
/// the climb starts at the task and ends at one that no pending task depends
/// on, so the chain that `context_chain` draws begins at a root.
pub proof fn law_context_chain_reaches_top(g: Graph, s: Store, leaf: i64)
    requires
        graph_of(g, s),
        acyclic(s),
        live(s.tasks, leaf) is Some,
    ensures
        g.climb(leaf, g.task_seq().len()).len() >= 1,
        g.climb(leaf, g.task_seq().len())[0] == leaf,
        forall|p: i64| !#[trigger] g.candidate_parent(g.climb(leaf, g.task_seq().len()).last(), p),
{
    let ts = g.task_seq();
    let n = ts.len();
    lemma_find_index_bounds(ts, leaf);
    assert(g.spec_task(leaf) is Some);
    g.lemma_climb_shape(leaf, n);
    let c = g.climb(leaf, n);
    lemma_climb_walks(g, s, c);
    if g.next_up(c.last()) is Some {
        let p = g.next_up(c.last()).unwrap();
        lemma_next_up_linked(g, s, c.last());
        let e = c.push(p);
        lemma_climb_walks(g, s, e);
        let ids = ts.map_values(|t: Task| t.id);
        assert forall|i: int| 0 <= i < e.len() implies ids.contains(#[trigger] e[i]) by {
            let x = e[i];
            if i < c.len() {
                assert(e[i] == c[i]);
                assert(g.spec_task(c[i]) is Some);
            }
            lemma_find_index_bounds(ts, x);
            let q = find_index(ts, x);
            assert(ids[q] == x);
        }
        lemma_pigeonhole(e, ids);
    }
    g.lemma_top_has_no_pending_parent(c.last());
}

/// Every successful mutation is undone exactly: after `add`, `set_priority`,
/// `add_dependency`, `remove_dependency`, `complete`, `edit_description` or
/// `remove` commits (and its choice is settled), `undo` reports the
/// mutation's kind and gives back the view before it, rows, id allocator,
/// choice and history alike, with nothing left to redo.
pub proof fn law_undo_after_mutation(v: DatabaseView, kind: Seq<char>, now: i64, store: Store, w: DatabaseView)
    requires
        settled_choice(committed(v, kind, now, store), w),
    ensures
        w.history.len() > 0,
        w.history.last().kind == kind,
        undone(w) == v,
{
    assert(w.history.drop_last() =~= v.history);
}

/// Undoing a committed mutation restores exactly the view before it.
pub proof fn law_undo_reverts(v: DatabaseView, kind: Seq<char>, now: i64, store: Store)
    ensures
        undone(committed(v, kind, now, store)) == v,
        committed(v, kind, now, store).history.last().kind == kind,
{
    assert(committed(v, kind, now, store).history.drop_last() =~= v.history);
}

/// After readiness is recomputed, each pending task has a readiness time
/// exactly when no pending task that it depends on remains.
pub proof fn law_settled_readiness(s: Store, now: i64)
    ensures
        readiness_consistent(settle(s, now)),
{
    let t = settle(s, now);
    lemma_refreshed_shape(s.tasks, s.dependencies, now);
    assert forall|c: i64| #[trigger] pending_in(t.tasks, c) == pending_in(s.tasks, c) by {
        lemma_find_index_bounds(s.tasks, c);
    }
    assert forall|id: i64| #[trigger] blocked(t.tasks, t.dependencies, id) == blocked(s.tasks, s.dependencies, id) by {
        if blocked(t.tasks, t.dependencies, id) {
            let k = choose|k: int| 0 <= k < t.dependencies.len() && (#[trigger] t.dependencies[k]).parent == id
                && pending_in(t.tasks, t.dependencies[k].child);
            assert(pending_in(s.tasks, s.dependencies[k].child));
        }
        if blocked(s.tasks, s.dependencies, id) {
            let k = choose|k: int| 0 <= k < s.dependencies.len() && (#[trigger] s.dependencies[k]).parent == id
                && pending_in(s.tasks, s.dependencies[k].child);
            assert(pending_in(t.tasks, t.dependencies[k].child));
        }
    }
    assert forall|i: int| 0 <= i < t.tasks.len() && (#[trigger] t.tasks[i]).pending() implies (t.tasks[i].ready_at is Some
        <==> !blocked(t.tasks, t.dependencies, t.tasks[i].id)) by {
        assert(t.tasks[i] == refresh(s.tasks[i], s.tasks, s.dependencies, now));
        assert(blocked(t.tasks, t.dependencies, s.tasks[i].id) == blocked(s.tasks, s.dependencies, s.tasks[i].id));
    }
}

/// Recomputing readiness at `now` changes nothing but readiness times of
/// pending tasks: one that nothing blocks keeps its time or, lacking one,
/// gets `now`; a blocked one loses its time; every other row stays.
pub proof fn law_readiness_transitions(s: Store, now: i64)
    ensures
        settle(s, now) == (Store { tasks: settle(s, now).tasks, ..s }),
        settle(s, now).tasks.len() == s.tasks.len(),
        forall|i: int|
            0 <= i < s.tasks.len() ==> {
                let a = s.tasks[i];
                let b = #[trigger] settle(s, now).tasks[i];
                &&& b == Task { ready_at: b.ready_at, ..a }
                &&& !a.pending() ==> b == a
                &&& a.pending() && !blocked(s.tasks, s.dependencies, a.id) ==> b.ready_at == (if a.ready_at is Some {
                    a.ready_at
                } else {
                    Some(now)
                })
                &&& a.pending() && blocked(s.tasks, s.dependencies, a.id) ==> b.ready_at is None
            },
{
}

/// Completing a task keeps the readiness time it had.
pub proof fn law_complete_keeps_readiness(s: Store, id: i64, now: i64)
    requires
        well_formed(s),
        complete_fault(s, id) is None,
    ensures
        live(after_complete(s, id, now).tasks, id) matches Some(t) && t.ready_at == live(s.tasks, id).unwrap().ready_at
            && t.completed_at == Some(now),
{
    let i = row_of(s, id);
    lemma_find_index_bounds(s.tasks, id);
    let s2 = with_task(s, i, Task { completed_at: Some(now), updated_at: now, ..s.tasks[i] });
    lemma_refreshed_shape(s2.tasks, s2.dependencies, now);
    let t = after_complete(s, id, now);
    assert(t.tasks[i] == refresh(s2.tasks[i], s2.tasks, s2.dependencies, now));
    assert forall|x: i64| #[trigger] find_index(s2.tasks, x) == find_index(s.tasks, x) by {
        lemma_find_index_same_ids(s2.tasks, s.tasks, x);
    }
    assert(find_index(t.tasks, id) == i);
}

/// A store keeps its acyclicity when it gains no live dependency.
pub proof fn lemma_acyclic_sub(s: Store, t: Store)
    requires
        acyclic(s),
        forall|a: i64, b: i64| #[trigger] linked(t, a, b) ==> linked(s, a, b),
    ensures
        acyclic(t),
{
    assert forall|w: Seq<i64>, a: i64| #[trigger] store_walk(t, w, a, a) implies w.len() == 1 by {
        assert forall|i: int| 0 < i < w.len() implies #[trigger] linked(s, w[i - 1], w[i]) by {
            assert(linked(t, w[i - 1], w[i]));
        }
        assert(store_walk(s, w, a, a));
    }
}

/// Recomputing readiness leaves the live dependencies as they were.
proof fn lemma_settle_links(s: Store, now: i64)
    ensures
        forall|a: i64, b: i64| #[trigger] linked(settle(s, now), a, b) == linked(s, a, b),
{
    lemma_refreshed_shape(s.tasks, s.dependencies, now);
    assert forall|a: i64, b: i64| #[trigger] linked(settle(s, now), a, b) == linked(s, a, b) by {
        lemma_find_index_bounds(s.tasks, a);
        lemma_find_index_bounds(s.tasks, b);
    }
}

/// In the graph of `t`, a walk either is a walk of `s` or passes the edge
/// `parent -> child` between walks of `s`.
proof fn lemma_walk_split(s: Store, t: Store, parent: i64, child: i64, w: Seq<i64>, a: i64, b: i64)
    requires
        forall|x: i64, y: i64| #[trigger] linked(t, x, y) ==> linked(s, x, y) || (x == parent && y == child),
        store_walk(t, w, a, b),
    ensures
        store_walk(s, w, a, b) || (store_reaches(s, a, parent) && store_reaches(s, child, b)),
    decreases w.len(),
{
    if w.len() > 1 {
        let v = w.drop_last();
        let m = v.last();
        assert forall|i: int| 0 < i < v.len() implies #[trigger] linked(t, v[i - 1], v[i]) by {
            assert(linked(t, w[i - 1], w[i]));
        }
        lemma_walk_split(s, t, parent, child, v, a, m);
        assert(linked(t, w[w.len() - 2], w[w.len() - 1]));
        if linked(s, m, b) {
            if store_walk(s, v, a, m) {
                assert forall|i: int| 0 < i < w.len() implies #[trigger] linked(s, w[i - 1], w[i]) by {
                    if i < v.len() {
                        assert(linked(s, v[i - 1], v[i]));
                    }
                }
            } else {
                let u = choose|u: Seq<i64>| #[trigger] store_walk(s, u, child, m);
                let u2 = u.push(b);
                assert forall|i: int| 0 < i < u2.len() implies #[trigger] linked(s, u2[i - 1], u2[i]) by {
                    if i < u.len() {
                        assert(linked(s, u[i - 1], u[i]));
                    }
                }
                assert(store_walk(s, u2, child, b));
            }
        } else {
            assert(m == parent && b == child);
            assert(store_walk(s, seq![child], child, child));
            if store_walk(s, v, a, m) {
                assert(store_reaches(s, a, parent));
            }
        }
    }
}

/// A dependency that `add_dependency` accepts closes no cycle.
pub proof fn law_link_keeps_acyclic(s: Store, parent: i64, child: i64, now: i64)
    requires
        well_formed(s),
        acyclic(s),
        add_dependency_fault(s, parent, child) is None,
    ensures
        acyclic(after_link(s, parent, child, now)),
{
    let d = Dependency { parent, child };
    let pre = Store { dependencies: s.dependencies.insert(insert_index(s.dependencies, d), d), ..s };
    let t = after_link(s, parent, child, now);
    lemma_settle_links(pre, now);
    assert forall|x: i64, y: i64| #[trigger] linked(t, x, y) implies linked(s, x, y) || (x == parent && y == child) by {
        assert(linked(pre, x, y));
        let e = Dependency { parent: x, child: y };
        let k = choose|k: int| 0 <= k < pre.dependencies.len() && pre.dependencies[k] == e;
        let pos = insert_index(s.dependencies, d);
        lemma_insert_index_bounds(s.dependencies, d);
        s.dependencies.insert_ensures(pos, d);
        if k < pos {
            assert(s.dependencies[k] == e);
        } else if k > pos {
            assert(s.dependencies[k - 1] == e);
        }
    }
    assert forall|w: Seq<i64>, a: i64| #[trigger] store_walk(t, w, a, a) implies w.len() == 1 by {
        lemma_walk_split(s, t, parent, child, w, a, a);
        if !store_walk(s, w, a, a) {
            let u1 = choose|u: Seq<i64>| #[trigger] store_walk(s, u, a, parent);
            let u2 = choose|u: Seq<i64>| #[trigger] store_walk(s, u, child, a);
            let u3 = u2 + u1.drop_first();
            assert forall|i: int| 0 < i < u3.len() implies #[trigger] linked(s, u3[i - 1], u3[i]) by {
                if i < u2.len() {
                    assert(linked(s, u2[i - 1], u2[i]));
                } else if i == u2.len() {
                    assert(u3[i - 1] == a);
                    assert(u1[0] == a);
                    assert(u1.len() >= 2);
                    assert(u3[i] == u1[1]);
                    assert(linked(s, u1[1 - 1], u1[1]));
                } else {
                    let j = i - u2.len() + 1;
                    assert(linked(s, u1[j - 1], u1[j]));
                }
            }
            if u1.len() == 1 {
                assert(u3 =~= u2);
            }
            assert(store_walk(s, u3, child, parent));
        }
    }
}

proof fn lemma_insert_index_bounds(deps: Seq<Dependency>, d: Dependency)
    ensures
        0 <= insert_index(deps, d) <= deps.len(),
    decreases deps.len(),
{
    if deps.len() > 0 {
        lemma_insert_index_bounds(deps.drop_last(), d);
    }
}


/// Changing fields of a task other than its id and deletion keeps the live
/// dependencies, and so acyclicity.
proof fn lemma_row_update_links(s: Store, i: int, t: Task, now: i64)
    requires
        well_formed(s),
        0 <= i < s.tasks.len(),
        t.id == s.tasks[i].id,
        t.deleted_at == s.tasks[i].deleted_at,
    ensures
        forall|a: i64, b: i64| #[trigger] linked(settle(with_task(s, i, t), now), a, b) == linked(s, a, b),
{
    let u = with_task(s, i, t);
    lemma_settle_links(u, now);
    assert forall|a: i64, b: i64| #[trigger] linked(u, a, b) == linked(s, a, b) by {
        lemma_find_index_same_ids(u.tasks, s.tasks, a);
        lemma_find_index_same_ids(u.tasks, s.tasks, b);
        lemma_find_index_bounds(s.tasks, a);
        lemma_find_index_bounds(s.tasks, b);
    }
}

/// Adding a task adds no live dependency: the graph stays acyclic.
pub proof fn law_add_keeps_acyclic(s: Store, t: Task, now: i64)
    requires
        well_formed(s),
        acyclic(s),
        t.id == s.next_task_id,
    ensures
        acyclic(after_add(s, t, now)),
{
    let u = Store { tasks: s.tasks.push(t), next_task_id: (s.next_task_id + 1) as i64, ..s };
    lemma_settle_links(u, now);
    assert forall|a: i64, b: i64| #[trigger] linked(after_add(s, t, now), a, b) implies linked(s, a, b) by {
        assert(linked(u, a, b));
        let k = choose|k: int| 0 <= k < s.dependencies.len() && s.dependencies[k] == Dependency { parent: a, child: b };
        lemma_find_index_bounds(s.tasks, a);
        lemma_find_index_bounds(s.tasks, b);
        assert(s.tasks[find_index(s.tasks, a)].id < t.id);
        assert(s.tasks[find_index(s.tasks, b)].id < t.id);
        assert(u.tasks.drop_last() =~= s.tasks);
    }
    lemma_acyclic_sub(s, after_add(s, t, now));
}

/// Changing a priority, completing, or editing a task keeps the graph acyclic.
pub proof fn law_updates_keep_acyclic(s: Store, id: i64, priority: u8, t: Task, now: i64)
    requires
        well_formed(s),
        acyclic(s),
        live(s.tasks, id) is Some,
    ensures
        acyclic(after_priority(s, id, priority, now)),
        acyclic(after_complete(s, id, now)),
        acyclic(after_edit(s, id, t, now)),
{
    let i = row_of(s, id);
    lemma_find_index_bounds(s.tasks, id);
    let o = s.tasks[i];
    lemma_row_update_links(s, i, Task { priority, updated_at: now, ..o }, now);
    lemma_row_update_links(s, i, Task { completed_at: Some(now), updated_at: now, ..o }, now);
    lemma_row_update_links(s, i, Task { description: t.description, updated_at: now, ..o }, now);
    lemma_acyclic_sub(s, after_priority(s, id, priority, now));
    lemma_acyclic_sub(s, after_complete(s, id, now));
    lemma_acyclic_sub(s, after_edit(s, id, t, now));
}

/// Removing a dependency or deleting a task keeps the graph acyclic.
pub proof fn law_removals_keep_acyclic(s: Store, id: i64, parent: i64, child: i64, now: i64)
    requires
        well_formed(s),
        acyclic(s),
    ensures
        remove_fault(s, id, true) is None ==> acyclic(after_remove(s, id, now)),
        remove_dependency_fault(s, parent, child) is None ==> acyclic(after_unlink(s, parent, child, now)),
{
    if remove_fault(s, id, true) is None {
        let i = row_of(s, id);
        lemma_find_index_bounds(s.tasks, id);
        let u = Store {
            tasks: s.tasks.update(i, Task { deleted_at: Some(now), updated_at: now, ..s.tasks[i] }),
            dependencies: detached(s.dependencies, id),
            ..s
        };
        lemma_settle_links(u, now);
        lemma_detached_sub(s.dependencies, id);
        assert forall|a: i64, b: i64| #[trigger] linked(after_remove(s, id, now), a, b) implies linked(s, a, b) by {
            assert(linked(u, a, b));
            let d = Dependency { parent: a, child: b };
            let k = choose|k: int| 0 <= k < u.dependencies.len() && u.dependencies[k] == d;
            assert(s.dependencies.contains(u.dependencies[k]));
            lemma_find_index_same_ids(u.tasks, s.tasks, a);
            lemma_find_index_same_ids(u.tasks, s.tasks, b);
            lemma_find_index_bounds(s.tasks, a);
            lemma_find_index_bounds(s.tasks, b);
        }
        lemma_acyclic_sub(s, after_remove(s, id, now));
    }
    if remove_dependency_fault(s, parent, child) is None {
        let d = Dependency { parent, child };
        let k0 = choose|k: int| 0 <= k < s.dependencies.len() && s.dependencies[k] == d;
        lemma_dep_index(s.dependencies, k0);
        let u = Store { dependencies: s.dependencies.remove(dep_index(s.dependencies, d)), ..s };
        lemma_settle_links(u, now);
        s.dependencies.remove_ensures(k0);
        assert forall|a: i64, b: i64| #[trigger] linked(after_unlink(s, parent, child, now), a, b) implies linked(s, a, b) by {
            assert(linked(u, a, b));
            let e = Dependency { parent: a, child: b };
            let k = choose|k: int| 0 <= k < u.dependencies.len() && u.dependencies[k] == e;
            if k < k0 {
                assert(s.dependencies[k] == e);
            } else {
                assert(s.dependencies[k + 1] == e);
            }
        }
        lemma_acyclic_sub(s, after_unlink(s, parent, child, now));
    }
}

} // verus!
