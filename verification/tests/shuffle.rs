use tasklist::cli::{next_text, resolve_id};
use tasklist::db::Database;
use tasklist::render::{list, ListMode};

/// Three priority-1 tasks ready at 1, 2, 3 and one priority-2 task.
fn four_tasks() -> Database {
    let mut db = Database::in_memory();
    db.add(1, "a", 1).unwrap();
    db.add(1, "b", 2).unwrap();
    db.add(1, "c", 3).unwrap();
    db.add(2, "d", 4).unwrap();
    db
}

fn shuffled_id(db: &mut Database, now: i64) -> Option<i64> {
    db.shuffle(now).map(|task| task.id)
}

#[test]
fn shuffle_cycles_through_the_tier_and_wraps() {
    let mut db = four_tasks();
    assert_eq!(db.selected(), None);
    assert_eq!(shuffled_id(&mut db, 10), Some(2));
    assert_eq!(db.selected(), Some(2));
    assert_eq!(next_text(&db, None), "#2 [1] b\n");
    assert_eq!(shuffled_id(&mut db, 11), Some(3));
    assert_eq!(shuffled_id(&mut db, 12), Some(1));
    assert_eq!(shuffled_id(&mut db, 13), Some(2));
    assert_eq!(db.history_len(), 8);
}

#[test]
fn undo_reverses_a_shuffle() {
    let mut db = four_tasks();
    db.shuffle(10).unwrap();
    db.shuffle(11).unwrap();
    assert_eq!(db.selected(), Some(3));
    assert_eq!(db.undo().unwrap(), "shuffle");
    assert_eq!(db.selected(), Some(2));
    assert_eq!(db.undo().unwrap(), "shuffle");
    assert_eq!(db.selected(), None);
    assert_eq!(next_text(&db, None), "#1 [1] a\n");
}

#[test]
fn shuffle_without_ready_tasks_prints_nothing_and_records_nothing() {
    let mut db = Database::in_memory();
    assert!(db.shuffle(1).is_none());
    assert_eq!(db.history_len(), 0);
    db.add(1, "parent", 1).unwrap();
    db.add(1, "child", 2).unwrap();
    db.add_dependency(1, 2, 3).unwrap();
    db.complete(2, 4).unwrap();
    db.complete(1, 5).unwrap();
    let before = db.history_len();
    assert!(db.shuffle(6).is_none());
    assert_eq!(db.history_len(), before);
}

#[test]
fn shuffle_with_one_task_in_the_tier_shows_it_without_a_record() {
    let mut db = Database::in_memory();
    db.add(1, "only", 1).unwrap();
    db.add(2, "lower", 2).unwrap();
    assert_eq!(shuffled_id(&mut db, 3), Some(1));
    assert_eq!(db.history_len(), 2);
    assert_eq!(db.selected(), None);
}

#[test]
fn done_and_edit_without_an_id_act_on_the_choice() {
    let mut db = four_tasks();
    db.shuffle(10).unwrap();
    assert_eq!(resolve_id(&db, None).unwrap(), 2);
    let done = db.complete(resolve_id(&db, None).unwrap(), 11).unwrap();
    assert_eq!(done.id, 2);
    // Completing the choice clears it; normal scheduling resumes.
    assert_eq!(db.selected(), None);
    assert_eq!(resolve_id(&db, None).unwrap(), 1);
}

#[test]
fn numeric_views_honor_the_choice_in_its_tier_without_changing_it() {
    let mut db = four_tasks();
    db.shuffle(10).unwrap();
    db.shuffle(11).unwrap();
    assert_eq!(next_text(&db, Some(1)), "#3 [1] c\n");
    assert_eq!(next_text(&db, Some(2)), "#4 [2] d\n");
    assert_eq!(next_text(&db, Some(3)), "");
    assert_eq!(db.selected(), Some(3));
    assert_eq!(db.history_len(), 6);
}

#[test]
fn task_changes_keep_the_choice_while_it_stays_in_the_highest_tier() {
    let mut db = four_tasks();
    db.shuffle(10).unwrap();
    assert_eq!(db.selected(), Some(2));
    db.edit_description(2, "b", "b2", 11).unwrap();
    db.set_priority(4, 3, 12).unwrap();
    db.add(1, "e", 13).unwrap();
    assert_eq!(db.selected(), Some(2));
    assert_eq!(next_text(&db, None), "#2 [1] b2\n");
    // `t ls` keeps its usual order.
    assert_eq!(
        list(&db.graph(), ListMode::Ready),
        "#1 [1] a\n#2 [1] b2\n#3 [1] c\n#5 [1] e\n#4 [3] d\n"
    );
}

#[test]
fn blocking_the_choice_clears_it() {
    let mut db = four_tasks();
    db.shuffle(10).unwrap();
    db.add_dependency(2, 4, 11).unwrap();
    assert_eq!(db.selected(), None);
    assert_eq!(next_text(&db, None), "#1 [1] a\n");
    // Undoing the change brings the choice back with the rows.
    assert_eq!(db.undo().unwrap(), "dep");
    assert_eq!(db.selected(), Some(2));
}

#[test]
fn a_higher_effective_priority_clears_the_choice() {
    let mut db = Database::in_memory();
    db.add(2, "x", 1).unwrap();
    db.add(2, "y", 2).unwrap();
    assert_eq!(db.shuffle(3).unwrap().id, 2);
    assert_eq!(db.selected(), Some(2));
    db.add(1, "urgent", 4).unwrap();
    assert_eq!(db.selected(), None);
    db.complete(3, 5).unwrap();
    assert_eq!(next_text(&db, None), "#1 [2] x\n");
}

#[test]
fn deleting_the_choice_clears_it() {
    let mut db = four_tasks();
    db.shuffle(10).unwrap();
    db.remove(2, false, 11).unwrap();
    assert_eq!(db.selected(), None);
}
