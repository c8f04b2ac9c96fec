use tasklist::db::{data_location, validate_priority, Database};
use tasklist::model::validate_description;
use tasklist::render::{list, tree, ListMode};

fn db() -> Database {
    Database::in_memory()
}

#[test]
fn readiness_transitions_and_completed_value_is_preserved() {
    let mut db = db();
    let parent = db.add(1, "parent", 10).unwrap();
    let child = db.add(2, "child", 20).unwrap();
    db.add_dependency(parent.id, child.id, 30).unwrap();
    assert_eq!(db.task(parent.id).unwrap().ready_at, None);
    assert_eq!(db.task(child.id).unwrap().ready_at, Some(20));

    db.complete(child.id, 40).unwrap();
    assert_eq!(db.task(child.id).unwrap().ready_at, Some(20));
    assert_eq!(db.task(parent.id).unwrap().ready_at, Some(40));
}

#[test]
fn undep_unlocks_with_the_command_timestamp() {
    let mut db = db();
    let parent = db.add(1, "parent", 10).unwrap();
    let child = db.add(2, "child", 20).unwrap();
    db.add_dependency(parent.id, child.id, 30).unwrap();
    db.remove_dependency(parent.id, child.id, 50).unwrap();
    assert_eq!(db.task(parent.id).unwrap().ready_at, Some(50));
}

#[test]
fn dependencies_validate_duplicates_self_cycles_and_completed_parents() {
    let mut db = db();
    for id in 0..3 {
        db.add(1, &format!("task {id}"), id).unwrap();
    }
    assert!(db.add_dependency(1, 1, 10).is_err());
    db.add_dependency(1, 2, 11).unwrap();
    assert!(db.add_dependency(1, 2, 12).is_err());
    db.add_dependency(2, 3, 13).unwrap();
    let error = db.add_dependency(3, 1, 14).unwrap_err().message();
    assert_eq!(error, "dependency would create cycle: 3 -> 1 -> 2 -> 3");

    db.complete(3, 15).unwrap();
    db.complete(2, 16).unwrap();
    db.complete(1, 17).unwrap();
    assert!(db.add_dependency(1, 3, 18).is_err());
}

#[test]
fn pending_parent_can_depend_on_completed_child() {
    let mut db = db();
    let parent = db.add(1, "parent", 1).unwrap();
    let child = db.add(2, "child", 2).unwrap();
    db.complete(child.id, 3).unwrap();
    db.add_dependency(parent.id, child.id, 4).unwrap();
    assert_eq!(db.task(parent.id).unwrap().ready_at, Some(1));
}

#[test]
fn blocked_task_cannot_be_completed() {
    let mut db = db();
    let parent = db.add(1, "parent", 1).unwrap();
    let child = db.add(2, "child", 2).unwrap();
    db.add_dependency(parent.id, child.id, 3).unwrap();
    assert!(db.complete(parent.id, 4).is_err());
    assert_eq!(db.history_len(), 3);
}

#[test]
fn forced_deletion_removes_edges_and_unlocks_parents() {
    let mut db = db();
    let parent = db.add(1, "parent", 1).unwrap();
    let child = db.add(2, "child", 2).unwrap();
    db.add_dependency(parent.id, child.id, 3).unwrap();
    assert!(db.remove(child.id, false, 4).is_err());
    db.remove(child.id, true, 5).unwrap();
    assert!(db.task(child.id).is_err());
    assert_eq!(db.task(parent.id).unwrap().ready_at, Some(5));
    assert!(db.dependencies().is_empty());
}

#[test]
fn multi_level_undo_restores_fields_edges_and_allocator() {
    let mut db = db();
    let one = db.add(1, "one", 1).unwrap();
    let two = db.add(2, "two", 2).unwrap();
    db.add_dependency(one.id, two.id, 3).unwrap();
    db.complete(two.id, 4).unwrap();
    db.remove(one.id, true, 5).unwrap();

    assert_eq!(db.undo().unwrap(), "rm");
    assert!(db.task(one.id).is_ok());
    assert_eq!(db.undo().unwrap(), "done");
    assert!(db.task(two.id).unwrap().completed_at.is_none());
    assert_eq!(db.task(one.id).unwrap().ready_at, None);
    assert_eq!(db.undo().unwrap(), "dep");
    assert!(db.dependencies().is_empty());
    assert_eq!(db.undo().unwrap(), "add");
    assert!(db.task(two.id).is_err());
    let replacement = db.add(3, "replacement", 9).unwrap();
    assert_eq!(replacement.id, two.id);
}

#[test]
fn no_ops_do_not_create_history() {
    let mut db = db();
    let task = db.add(1, "one", 1).unwrap();
    assert!(!db.set_priority(task.id, 1, 2).unwrap());
    assert!(!db.edit_description(task.id, "one", "one", 3).unwrap());
    assert_eq!(db.history_len(), 1);
}

#[test]
fn priority_validation_is_shared() {
    let mut db = db();
    assert!(db.add(0, "bad", 1).is_err());
    assert!(db.add(4, "bad", 1).is_err());
    assert_eq!(validate_description("ok").unwrap(), "ok");
}

struct Lcg(u64);

impl Lcg {
    fn next(&mut self) -> u64 {
        self.0 = self
            .0
            .wrapping_mul(6364136223846793005)
            .wrapping_add(1442695040888963407);
        self.0 >> 33
    }
}

#[test]
fn completion_is_safe_and_undo_restores_exact_observable_state() {
    let mut rng = Lcg(11);
    for _case in 0..200 {
        let count = 1 + (rng.next() % 7) as usize;
        let priorities: Vec<u8> = (0..count).map(|_| 1 + (rng.next() % 3) as u8).collect();
        let edges: Vec<bool> = (0..49).map(|_| rng.next() % 2 == 0).collect();
        let mut db = db();
        for (index, priority) in priorities.iter().enumerate() {
            db.add(*priority, &format!("task {}", index + 1), index as i64 + 1)
                .unwrap();
        }
        let mut timestamp = count as i64 + 10;
        for parent in 0..count {
            for child in (parent + 1)..count {
                if edges[parent * count + child] {
                    db.add_dependency(parent as i64 + 1, child as i64 + 1, timestamp)
                        .unwrap();
                    timestamp += 1;
                }
            }
        }

        let tasks_before = db.tasks();
        let dependencies_before = db.dependencies();
        let leaf_id = count as i64;
        let leaf_ready_at = db.task(leaf_id).unwrap().ready_at;
        db.complete(leaf_id, timestamp).unwrap();
        assert_eq!(db.task(leaf_id).unwrap().ready_at, leaf_ready_at);
        let graph = db.graph();
        for task in graph.tasks().iter().filter(|task| task.is_pending()) {
            assert_eq!(task.ready_at.is_some(), graph.is_actionable(task.id));
        }

        assert_eq!(db.undo().unwrap(), "done");
        assert_eq!(db.tasks(), tasks_before);
        assert_eq!(db.dependencies(), dependencies_before);
    }
}

#[test]
fn errors_report_the_rule_that_refused() {
    let mut db = db();
    assert_eq!(db.task(5).unwrap_err().message(), "task 5 not found");
    assert_eq!(db.undo().unwrap_err().message(), "nothing to undo");
    assert_eq!(
        db.add(7, "x", 1).unwrap_err().message(),
        "priority must be 1, 2, or 3"
    );
    assert_eq!(
        db.add(1, "   ", 1).unwrap_err().message(),
        "database error: CHECK constraint failed: length(trim(description)) > 0"
    );
    db.add(1, "a", 1).unwrap();
    db.add(1, "b", 2).unwrap();
    assert_eq!(
        db.add_dependency(1, 1, 3).unwrap_err().message(),
        "a task cannot depend on itself"
    );
    assert_eq!(
        db.add_dependency(1, 9, 3).unwrap_err().message(),
        "task 9 not found"
    );
    db.add_dependency(1, 2, 3).unwrap();
    assert_eq!(
        db.add_dependency(1, 2, 4).unwrap_err().message(),
        "dependency 1 -> 2 already exists"
    );
    assert_eq!(
        db.remove_dependency(2, 1, 4).unwrap_err().message(),
        "dependency 2 -> 1 not found"
    );
    assert_eq!(
        db.complete(1, 5).unwrap_err().message(),
        "task 1 is blocked by pending dependency 2"
    );
    assert_eq!(
        db.remove(2, false, 5).unwrap_err().message(),
        "task 2 has 1 dependency connection(s); use --force"
    );
    assert_eq!(
        db.edit_description(2, "not b", "c", 5).unwrap_err().message(),
        "task 2 changed while the editor was open"
    );
    db.complete(2, 6).unwrap();
    assert_eq!(
        db.complete(2, 7).unwrap_err().message(),
        "task 2 is already completed"
    );
    assert_eq!(
        db.add_dependency(2, 1, 8).unwrap_err().message(),
        "completed task 2 cannot gain a dependency"
    );
    assert_eq!(db.history_len(), 4);
}

#[test]
fn failed_mutations_leave_rows_and_history_alone() {
    let mut db = db();
    db.add(2, "a", 1).unwrap();
    let rows = db.task_rows().to_vec();
    let history = db.history_len();
    assert!(db.set_priority(1, 9, 2).is_err());
    assert!(db.remove(8, true, 2).is_err());
    assert!(db.edit_description(1, "a", " ", 3).is_err());
    assert_eq!(db.task_rows(), rows.as_slice());
    assert_eq!(db.history_len(), history);
}

#[test]
fn edits_and_priorities_are_undone_exactly() {
    let mut db = db();
    db.add(2, "draft", 1).unwrap();
    assert!(db.set_priority(1, 1, 5).unwrap());
    assert!(db.edit_description(1, "draft", "final", 6).unwrap());
    let t = db.task(1).unwrap();
    assert_eq!(t.description, "final");
    assert_eq!(t.priority, 1);
    assert_eq!(t.updated_at, 6);
    assert_eq!(db.undo().unwrap(), "edit");
    assert_eq!(db.task(1).unwrap().description, "draft");
    assert_eq!(db.undo().unwrap(), "priority");
    assert_eq!(db.task(1).unwrap().priority, 2);
    assert_eq!(db.latest_operation().unwrap().kind, "add");
    assert_eq!(db.next_task_id(), 2);
}

#[test]
fn deleted_tasks_keep_their_row() {
    let mut db = db();
    db.add(1, "gone", 1).unwrap();
    let removed = db.remove(1, false, 9).unwrap();
    assert_eq!(removed.deleted_at, None);
    assert_eq!(db.task_rows()[0].deleted_at, Some(9));
    assert!(db.tasks().is_empty());
    assert_eq!(db.add(1, "next", 10).unwrap().id, 2);
}

#[test]
fn rows_round_trip_through_from_parts() {
    let mut db = db();
    db.add(1, "one", 1).unwrap();
    db.add(2, "two", 2).unwrap();
    db.add_dependency(1, 2, 3).unwrap();
    let restored = Database::from_parts(
        db.task_rows().to_vec(),
        db.dependency_rows().to_vec(),
        db.next_task_id(),
        db.selected(),
        Vec::new(),
    )
    .unwrap();
    assert_eq!(restored.tasks(), db.tasks());
    assert_eq!(restored.dependencies(), db.dependencies());
    // The same rows give the same graph, whatever history led to them.
    assert_eq!(tree(&restored.graph()), tree(&db.graph()));
    assert_eq!(
        list(&restored.graph(), ListMode::All),
        list(&db.graph(), ListMode::All)
    );
    assert_eq!(restored.history_len(), 0);
    let mut backwards = db.task_rows().to_vec();
    backwards.reverse();
    assert!(Database::from_parts(backwards, Vec::new(), 3, None, Vec::new()).is_err());
}

#[test]
fn validate_priority_accepts_one_to_three() {
    assert!(validate_priority(1).is_ok());
    assert!(validate_priority(3).is_ok());
    assert!(validate_priority(0).is_err());
    assert!(validate_priority(4).is_err());
}

#[test]
fn storage_prefers_xdg_falls_back_to_home_and_errors_without_either() {
    let bytes = |s: &str| Some(s.as_bytes().to_vec());
    let (base, below) = data_location(bytes("/data"), bytes("/home/me")).unwrap();
    assert_eq!(base, b"/data".to_vec());
    assert_eq!(below, "t/tasks.db");

    let (base, below) = data_location(None, bytes("/home/me")).unwrap();
    assert_eq!(base, b"/home/me".to_vec());
    assert_eq!(below, ".local/share/t/tasks.db");
    let (base, below) = data_location(bytes(""), bytes("/home/me")).unwrap();
    assert_eq!(base, b"/home/me".to_vec());
    assert_eq!(below, ".local/share/t/tasks.db");

    for (xdg, home) in [(None, None), (bytes(""), None), (None, bytes("")), (bytes(""), bytes(""))] {
        let error = data_location(xdg, home).unwrap_err();
        assert_eq!(
            error.message(),
            "cannot determine data directory: set XDG_DATA_HOME or HOME"
        );
    }

    // Bytes that are not UTF-8 are kept as they are.
    let (base, _) = data_location(Some(vec![0x2f, 0xff, 0xfe]), None).unwrap();
    assert_eq!(base, vec![0x2f, 0xff, 0xfe]);
}
