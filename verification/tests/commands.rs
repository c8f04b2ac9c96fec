use tasklist::cli::{
    edit_target, editor_command, editor_from_words, finish_edit, join_words, list_mode, next_text,
    resolve_id, run_command, Command,
};
use tasklist::db::Database;
use tasklist::render::{find, list, tree, ListMode};

fn words(ws: &[&str]) -> Vec<String> {
    ws.iter().map(|w| w.to_string()).collect()
}

/// Runs one command and returns what it prints, or the error message.
fn run(db: &mut Database, command: Option<Command>, now: i64) -> Result<String, String> {
    run_command(db, &command, now).map_err(|e| e.message())
}

fn add(priority: u8, description: &[&str]) -> Option<Command> {
    Some(Command::Add {
        priority,
        description: words(description),
    })
}

fn ok(db: &mut Database, command: Option<Command>, now: i64) -> String {
    run(db, command, now).unwrap()
}

#[test]
fn canonical_tax_workflow_persists_and_schedules_dependencies() {
    let mut db = Database::in_memory();
    assert_eq!(ok(&mut db, add(1, &["File", "taxes"]), 1), "added #1\n");
    assert_eq!(ok(&mut db, add(2, &["Gather documents"]), 2), "added #2\n");
    assert_eq!(ok(&mut db, add(3, &["Download W-2"]), 3), "added #3\n");
    ok(&mut db, Some(Command::Dep { parent: 1, child: 2 }), 4);
    ok(&mut db, Some(Command::Dep { parent: 2, child: 3 }), 5);
    assert_eq!(
        ok(&mut db, None, 6),
        "#1 [1] File taxes\n  #2 [1←2] Gather documents\n    #3 [1←3] Download W-2\n"
    );
    assert_eq!(ok(&mut db, Some(Command::Done { id: None }), 7), "done #3\n");
    assert_eq!(
        ok(&mut db, None, 8),
        "#1 [1] File taxes\n  #2 [1←2] Gather documents\n"
    );
    assert!(ok(&mut db, Some(Command::Show { id: 3 }), 9)
        .starts_with("✓ #3 [3] Download W-2\nstatus: done\n"));
}

#[test]
fn empty_states_and_error_exit_codes_follow_the_contract() {
    let mut db = Database::in_memory();
    assert_eq!(ok(&mut db, None, 1), "");
    assert_eq!(
        ok(&mut db, Some(Command::Ls { all: false, blocked: false, done: false }), 1),
        ""
    );
    assert_eq!(ok(&mut db, Some(Command::Tree), 1), "");
    assert_eq!(
        ok(&mut db, Some(Command::Find { query: words(&["missing"]) }), 1),
        ""
    );
    assert_eq!(
        run(&mut db, Some(Command::Done { id: Some(99) }), 1),
        Err("task 99 not found".to_string())
    );
    assert_eq!(db.history_len(), 0);
}

#[test]
fn list_modes_search_tree_and_numeric_shortcuts_are_deterministic() {
    let mut db = Database::in_memory();
    ok(&mut db, add(2, &["Parent TAX task"]), 1);
    ok(&mut db, add(3, &["shared receipt"]), 2);
    ok(&mut db, add(1, &["Second tax parent"]), 3);
    ok(&mut db, Some(Command::Dep { parent: 1, child: 2 }), 4);
    ok(&mut db, Some(Command::Dep { parent: 3, child: 2 }), 5);

    let ls = |all, blocked, done| Some(Command::Ls { all, blocked, done });
    assert_eq!(ok(&mut db, ls(false, false, false), 6), "#2 [1←3] shared receipt\n");
    assert_eq!(
        ok(&mut db, ls(false, true, false), 6),
        "#3 [1] Second tax parent\n#1 [2] Parent TAX task\n"
    );
    assert_eq!(
        ok(&mut db, Some(Command::One), 6),
        "#3 [1] Second tax parent\n  #2 [1←3] shared receipt\n"
    );
    assert_eq!(ok(&mut db, Some(Command::Two), 6), "");
    assert_eq!(
        ok(&mut db, Some(Command::Find { query: words(&["TaX"]) }), 6),
        "#1 [2] Parent TAX task\n#3 [1] Second tax parent\n"
    );
    assert_eq!(
        ok(&mut db, Some(Command::Tree), 6),
        "#1 [2] Parent TAX task\n└─ #2 [1←3] shared receipt\n\n#3 [1] Second tax parent\n└─ #2 [1←3] shared receipt [see above]\n"
    );

    ok(&mut db, Some(Command::Done { id: Some(2) }), 7);
    assert_eq!(ok(&mut db, ls(false, false, true), 8), "✓ #2 [3] shared receipt\n");
    assert_eq!(
        ok(&mut db, ls(true, false, false), 8),
        "#3 [1] Second tax parent\n#1 [2] Parent TAX task\n✓ #2 [3] shared receipt\n"
    );
}

#[test]
fn soft_deletion_force_and_multi_level_undo_restore_the_graph_and_ids() {
    let mut db = Database::in_memory();
    ok(&mut db, add(1, &["parent"]), 1);
    ok(&mut db, add(2, &["child"]), 2);
    ok(&mut db, Some(Command::Dep { parent: 1, child: 2 }), 3);
    let refused = run(&mut db, Some(Command::Rm { id: 2, force: false }), 4).unwrap_err();
    assert!(refused.contains("use --force"));
    assert_eq!(ok(&mut db, Some(Command::Rm { id: 2, force: true }), 5), "removed #2\n");
    assert_eq!(
        run(&mut db, Some(Command::Show { id: 2 }), 6),
        Err("task 2 not found".to_string())
    );
    assert_eq!(ok(&mut db, Some(Command::Undo), 7), "undid rm\n");
    assert_eq!(ok(&mut db, Some(Command::Undo), 8), "undid dep\n");
    assert_eq!(ok(&mut db, Some(Command::Undo), 9), "undid add\n");
    assert_eq!(ok(&mut db, add(3, &["replacement"]), 10), "added #2\n");
}

#[test]
fn editor_success_failure_and_conflict_do_not_hold_or_corrupt_history() {
    let mut db = Database::in_memory();
    ok(&mut db, add(1, &["original"]), 1);

    let target = edit_target(&db, Some(1)).unwrap();
    assert_eq!(target.description, "original");
    let printed = finish_edit(&mut db, 1, &target.description, "edited text\n", 2).unwrap();
    assert_eq!(printed, "edited #1\n");
    assert!(ok(&mut db, Some(Command::Show { id: 1 }), 3).starts_with("#1 [1] edited text\n"));
    assert_eq!(ok(&mut db, Some(Command::Undo), 4), "undid edit\n");

    // Another edit lands while the editor is open: the outer one is refused.
    let outer = edit_target(&db, None).unwrap();
    let inner = edit_target(&db, None).unwrap();
    finish_edit(&mut db, inner.id, &inner.description, "concurrent text\n", 5).unwrap();
    let refused = finish_edit(&mut db, outer.id, &outer.description, "outer text\n", 6);
    assert_eq!(
        refused.unwrap_err().message(),
        "task 1 changed while the editor was open"
    );
    assert!(ok(&mut db, Some(Command::Show { id: 1 }), 7).starts_with("#1 [1] concurrent text\n"));
}

#[test]
fn unchanged_or_invalid_edits_record_nothing() {
    let mut db = Database::in_memory();
    ok(&mut db, add(1, &["same"]), 1);
    assert_eq!(finish_edit(&mut db, 1, "same", "  same  \n", 2).unwrap(), "");
    assert_eq!(
        finish_edit(&mut db, 1, "same", "one\ntwo", 3).unwrap_err().message(),
        "description must be a single line"
    );
    assert_eq!(
        finish_edit(&mut db, 1, "same", " \t\n", 4).unwrap_err().message(),
        "description must not be empty"
    );
    assert_eq!(db.history_len(), 1);
    assert_eq!(
        edit_target(&Database::in_memory(), None).unwrap_err().message(),
        "no actionable task"
    );
}

#[test]
fn command_messages_name_what_changed() {
    let mut db = Database::in_memory();
    ok(&mut db, add(2, &["a"]), 1);
    ok(&mut db, add(2, &["b"]), 2);
    assert_eq!(
        ok(&mut db, Some(Command::Priority { id: 1, priority: 1 }), 3),
        "priority #1 = 1\n"
    );
    assert_eq!(ok(&mut db, Some(Command::Priority { id: 1, priority: 1 }), 4), "");
    assert_eq!(
        ok(&mut db, Some(Command::Dep { parent: 1, child: 2 }), 5),
        "dependency #1 -> #2\n"
    );
    assert_eq!(
        ok(&mut db, Some(Command::Undep { parent: 1, child: 2 }), 6),
        "removed dependency #1 -> #2\n"
    );
    assert_eq!(
        run(&mut db, add(1, &[" ", ""]), 7),
        Err("description must not be empty".to_string())
    );
    assert_eq!(
        run(&mut db, Some(Command::Find { query: words(&["a\nb"]) }), 7),
        Err("description must be a single line".to_string())
    );
    assert_eq!(ok(&mut db, Some(Command::Three), 7), "");
    // Alone in its tier, the first task is shown again and nothing is recorded.
    assert_eq!(ok(&mut db, Some(Command::Shuffle), 8), "#1 [1] a\n");
    assert_eq!(ok(&mut db, add(1, &["c"]), 9), "added #3\n");
    assert_eq!(ok(&mut db, Some(Command::Shuffle), 10), "#3 [1] c\n");
    assert_eq!(ok(&mut db, None, 11), "#3 [1] c\n");
    assert_eq!(ok(&mut db, Some(Command::Undo), 12), "undid shuffle\n");
    assert_eq!(ok(&mut db, None, 13), "#1 [1] a\n");
    assert_eq!(ok(&mut db, Some(Command::Undo), 14), "undid add\n");
}

#[test]
fn empty_states_follow_the_contract() {
    let db = Database::in_memory();
    assert_eq!(next_text(&db, None), "");
    assert_eq!(list(&db.graph(), ListMode::Ready), "");
    assert_eq!(tree(&db.graph()), "");
    assert_eq!(find(&db.graph(), "missing"), "");
    assert_eq!(resolve_id(&db, None).unwrap_err().message(), "no actionable task");
    assert_eq!(resolve_id(&db, Some(99)).unwrap(), 99);
}

#[test]
fn list_mode_follows_the_flags() {
    assert_eq!(list_mode(false, false, false), ListMode::Ready);
    assert_eq!(list_mode(true, false, false), ListMode::All);
    assert_eq!(list_mode(false, true, false), ListMode::Blocked);
    assert_eq!(list_mode(false, false, true), ListMode::Done);
}

#[test]
fn join_words_uses_single_spaces() {
    assert_eq!(join_words(&words(&["a", "b", "c"])), "a b c");
    assert_eq!(join_words(&words(&[])), "");
    assert_eq!(join_words(&words(&["solo"])), "solo");
}

#[test]
fn editor_prefers_visual_then_editor_then_vi() {
    let (p, a) = editor_command(Some("code --wait".into()), Some("nano".into())).unwrap();
    assert_eq!(p, "code");
    assert_eq!(a, words(&["--wait"]));
    let (p, a) = editor_command(Some("  ".into()), Some("nano -w".into())).unwrap();
    assert_eq!(p, "nano");
    assert_eq!(a, words(&["-w"]));
    let (p, a) = editor_command(None, Some("\t".into())).unwrap();
    assert_eq!(p, "vi");
    assert!(a.is_empty());
    let (p, a) = editor_command(Some("'my editor' \"-x y\"".into()), None).unwrap();
    assert_eq!(p, "my editor");
    assert_eq!(a, words(&["-x y"]));
}

#[test]
fn editor_errors_name_the_problem() {
    let e = editor_command(Some("vim 'open".into()), None).unwrap_err();
    assert_eq!(e.message(), "invalid editor command: missing closing quote");
    let e = editor_command(Some("# only a comment".into()), None).unwrap_err();
    assert_eq!(e.message(), "invalid editor command: empty command");
    assert!(editor_from_words(None).is_err());
    let (p, a) = editor_from_words(Some(words(&["ed", "-s"]))).unwrap();
    assert_eq!(p, "ed");
    assert_eq!(a, words(&["-s"]));
}
