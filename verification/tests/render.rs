use tasklist::model::{Dependency, Graph, Task};
use tasklist::render::{find, list, next, show, show_with_times, task_line, tree, ListMode};

fn task(id: i64, done: bool) -> Task {
    Task {
        id,
        priority: id.min(3) as u8,
        description: format!("task {id}"),
        created_at: id,
        updated_at: id,
        completed_at: if done { Some(10) } else { None },
        deleted_at: None,
        ready_at: Some(id),
    }
}

#[test]
fn tree_marks_done_and_references_shared_nodes() {
    let graph = Graph::new(
        vec![task(1, false), task(2, false), task(3, true)],
        vec![
            Dependency {
                parent: 1,
                child: 3,
            },
            Dependency {
                parent: 2,
                child: 3,
            },
        ],
    );
    assert_eq!(
        tree(&graph),
        "#1 [1] task 1\n└─ ✓ #3 [3] task 3\n\n#2 [2] task 2\n└─ ✓ #3 [3] task 3 [see above]\n"
    );
}

#[test]
fn find_is_case_insensitive_and_marks_completed_tasks() {
    let mut first = task(1, false);
    first.description = "File TAXES".into();
    let mut second = task(2, true);
    second.description = "tax receipt".into();
    let graph = Graph::new(vec![first, second], vec![]);
    assert_eq!(
        find(&graph, "TaX"),
        "#1 [1] File TAXES\n✓ #2 [2] tax receipt\n"
    );
}

fn pending(id: i64, priority: u8, description: &str) -> Task {
    Task {
        id,
        priority,
        description: description.to_string(),
        created_at: id,
        updated_at: id,
        completed_at: None,
        deleted_at: None,
        ready_at: None,
    }
}

#[test]
fn task_line_shows_inherited_urgency() {
    let graph = Graph::new(
        vec![pending(1, 1, "File taxes"), pending(2, 3, "Download W-2")],
        vec![Dependency { parent: 1, child: 2 }],
    );
    assert_eq!(task_line(&graph, graph.task(2).unwrap()), "#2 [1←3] Download W-2");
    assert_eq!(task_line(&graph, graph.task(1).unwrap()), "#1 [1] File taxes");
}

#[test]
fn next_indents_the_context_chain() {
    let graph = Graph::new(
        vec![
            pending(1, 1, "File taxes"),
            pending(2, 2, "Gather documents"),
            pending(3, 3, "Download W-2"),
        ],
        vec![
            Dependency { parent: 1, child: 2 },
            Dependency { parent: 2, child: 3 },
        ],
    );
    let first = graph.next().unwrap();
    assert_eq!(
        next(&graph, first),
        "#1 [1] File taxes\n  #2 [1←2] Gather documents\n    #3 [1←3] Download W-2\n"
    );
}

#[test]
fn list_modes_order_and_filter() {
    let mut done = pending(4, 2, "done thing");
    done.completed_at = Some(50);
    let graph = Graph::new(
        vec![
            pending(1, 2, "Parent TAX task"),
            pending(2, 3, "shared receipt"),
            pending(3, 1, "Second tax parent"),
            done,
        ],
        vec![
            Dependency { parent: 1, child: 2 },
            Dependency { parent: 3, child: 2 },
        ],
    );
    assert_eq!(list(&graph, ListMode::Ready), "#2 [1←3] shared receipt\n");
    assert_eq!(
        list(&graph, ListMode::Blocked),
        "#3 [1] Second tax parent\n#1 [2] Parent TAX task\n"
    );
    assert_eq!(list(&graph, ListMode::Done), "✓ #4 [2] done thing\n");
    assert_eq!(
        list(&graph, ListMode::All),
        "#3 [1] Second tax parent\n#2 [1←3] shared receipt\n#1 [2] Parent TAX task\n✓ #4 [2] done thing\n"
    );
}

#[test]
fn show_lists_status_times_and_links() {
    let graph = Graph::new(
        vec![pending(1, 1, "parent"), pending(2, 3, "child")],
        vec![Dependency { parent: 1, child: 2 }],
    );
    let text = show_with_times(&graph, graph.task(2).unwrap(), "t2", "t2", "", "");
    assert_eq!(
        text,
        "#2 [1←3] child\nstatus: ready\neffective priority: 1\ncreated: t2\nupdated: t2\nneeded by: #1\n"
    );
    let text = show_with_times(&graph, graph.task(1).unwrap(), "t1", "t1", "unused", "unused");
    assert_eq!(
        text,
        "#1 [1] parent\nstatus: blocked\neffective priority: 1\ncreated: t1\nupdated: t1\ndepends on: #2\n"
    );
}

#[test]
fn show_marks_done_tasks() {
    let mut t = pending(3, 3, "Download W-2");
    t.completed_at = Some(77);
    t.ready_at = Some(20);
    let graph = Graph::new(vec![t], vec![]);
    let text = show_with_times(&graph, graph.task(3).unwrap(), "3", "3", "20", "77");
    assert_eq!(
        text,
        "✓ #3 [3] Download W-2\nstatus: done\ncreated: 3\nupdated: 3\nready: 20\ncompleted: 77\n"
    );
}

#[test]
fn show_writes_times_as_local_date_and_time() {
    let mut t = pending(3, 3, "Download W-2");
    t.created_at = 1_662_921_288_000_000;
    t.updated_at = i64::MAX;
    t.ready_at = Some(0);
    let graph = Graph::new(vec![t], vec![]);
    let text = show(&graph, graph.task(3).unwrap());
    let lines: Vec<&str> = text.lines().collect();
    assert_eq!(lines[0], "#3 [3] Download W-2");
    assert_eq!(lines[1], "status: ready");
    assert_eq!(lines[2], "effective priority: 3");
    // A date and time, whatever the local time zone.
    let created = lines[3].strip_prefix("created: ").unwrap();
    assert_eq!(created.len(), 19);
    assert!(created.starts_with("2022-09-1"));
    assert_eq!(&created[4..5], "-");
    assert_eq!(&created[13..14], ":");
    assert!(created
        .chars()
        .all(|c| c.is_ascii_digit() || c == '+' || c == '-' || c == ':' || c == ' '));
    // Out of chrono's range: the bare number.
    assert_eq!(lines[4], format!("updated: {}", i64::MAX));
    assert!(lines[5].starts_with("ready: 19"));
    assert_eq!(lines.len(), 6);
}

#[test]
fn show_falls_back_to_the_number_exactly_outside_chrono_range() {
    let low: i64 = -8_334_601_228_800_000_000;
    let high: i64 = 8_210_266_876_799_999_999;
    for (timestamp, is_number) in [(low - 1, true), (low, false), (high, false), (high + 1, true)] {
        let mut t = pending(1, 1, "edge");
        t.created_at = timestamp;
        let graph = Graph::new(vec![t], vec![]);
        let text = show(&graph, graph.task(1).unwrap());
        let created = text
            .lines()
            .find_map(|line| line.strip_prefix("created: "))
            .unwrap()
            .to_string();
        assert_eq!(created == timestamp.to_string(), is_number, "{timestamp}: {created}");
    }
}

#[test]
fn show_writes_each_time_from_its_own_timestamp() {
    let local = |micros: i64| {
        chrono::DateTime::from_timestamp_micros(micros)
            .unwrap()
            .with_timezone(&chrono::Local)
            .format("%Y-%m-%d %H:%M:%S")
            .to_string()
    };
    let mut t = pending(1, 1, "times");
    t.created_at = 1_000_000_000_000_000;
    t.updated_at = 1_700_000_000_000_000;
    t.ready_at = Some(1_600_000_000_000_000);
    t.completed_at = Some(1_650_000_000_000_000);
    let graph = Graph::new(vec![t.clone()], vec![]);
    let text = show(&graph, graph.task(1).unwrap());
    let line = |label: &str| {
        text.lines()
            .find_map(|l| l.strip_prefix(label))
            .unwrap()
            .to_string()
    };
    assert_eq!(line("created: "), local(t.created_at));
    assert_eq!(line("updated: "), local(t.updated_at));
    assert_eq!(line("ready: "), local(1_600_000_000_000_000));
    assert_eq!(line("completed: "), local(1_650_000_000_000_000));
    assert_ne!(line("created: "), line("updated: "));
}

#[test]
fn empty_graph_renders_nothing() {
    let graph = Graph::new(vec![], vec![]);
    assert_eq!(tree(&graph), "");
    assert_eq!(list(&graph, ListMode::Ready), "");
    assert_eq!(find(&graph, "missing"), "");
}

#[test]
fn find_uses_unicode_lowercase() {
    let graph = Graph::new(vec![pending(1, 1, "ÄPFEL kaufen")], vec![]);
    assert_eq!(find(&graph, "äpfel"), "#1 [1] ÄPFEL kaufen\n");
    assert_eq!(find(&graph, "birnen"), "");
}
