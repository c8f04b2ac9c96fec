use tasklist::model::{validate_description, Dependency, Graph, Task};

fn task(id: i64, priority: u8, ready_at: Option<i64>) -> Task {
    Task {
        id,
        priority,
        description: format!("task {id}"),
        created_at: id,
        updated_at: id,
        completed_at: None,
        deleted_at: None,
        ready_at,
    }
}

fn dep(parent: i64, child: i64) -> Dependency {
    Dependency { parent, child }
}

#[test]
fn effective_priority_propagates_through_ancestors() {
    let graph = Graph::new(
        vec![task(1, 1, None), task(2, 3, None), task(3, 3, Some(3))],
        vec![dep(1, 2), dep(2, 3)],
    );
    assert_eq!(graph.effective_priority(3), Some(1));
    assert_eq!(graph.next().map(|task| task.id), Some(3));
}

#[test]
fn scheduler_uses_all_tie_breakers() {
    let graph = Graph::new(
        vec![
            task(4, 1, Some(20)),
            task(3, 2, Some(10)),
            task(2, 1, Some(10)),
        ],
        vec![],
    );
    let ids: Vec<_> = graph.actionable().iter().map(|task| task.id).collect();
    assert_eq!(ids, vec![2, 4, 3]);
}

#[test]
fn shuffle_cycles_in_scheduler_order_within_the_effective_tier() {
    let mut completed = task(7, 1, Some(1));
    completed.completed_at = Some(30);
    let mut deleted = task(8, 1, Some(1));
    deleted.deleted_at = Some(30);
    let graph = Graph::new(
        vec![
            task(1, 1, None),
            task(2, 1, Some(20)),
            task(3, 3, Some(1)),
            task(4, 2, Some(30)),
            task(6, 1, Some(10)),
            task(5, 1, Some(10)),
            completed,
            deleted,
            task(9, 2, Some(1)),
        ],
        vec![dep(1, 3), dep(1, 4)],
    );
    assert_eq!(graph.next().unwrap().id, 5);
    let mut selected = None;
    for expected in [6, 2, 4, 3, 5, 6] {
        selected = graph.shuffle_next(selected).map(|task| task.id);
        assert_eq!(selected, Some(expected));
    }
    for invalid in [1, 7, 8, 9, 99] {
        assert_eq!(graph.next_with_selection(Some(invalid)).unwrap().id, 5);
        assert_eq!(graph.shuffle_next(Some(invalid)).unwrap().id, 6);
    }
}

#[test]
fn representative_context_chooses_best_parent() {
    let graph = Graph::new(
        vec![task(1, 2, None), task(2, 1, None), task(3, 3, Some(3))],
        vec![dep(1, 3), dep(2, 3)],
    );
    let ids: Vec<_> = graph.context_chain(3).iter().map(|task| task.id).collect();
    assert_eq!(ids, vec![2, 3]);
}

#[test]
fn descriptions_are_trimmed_and_single_line() {
    assert_eq!(
        validate_description("  keep  inner   spaces  ").unwrap(),
        "keep  inner   spaces"
    );
    assert!(validate_description(" \t ").is_err());
    assert!(validate_description("one\ntwo").is_err());
}

/// A small deterministic generator standing in for random inputs.
struct Lcg(u64);

impl Lcg {
    fn next(&mut self) -> u64 {
        self.0 = self
            .0
            .wrapping_mul(6364136223846793005)
            .wrapping_add(1442695040888963407);
        self.0 >> 33
    }
}

#[test]
fn generated_dags_have_expected_actionability_effective_priority_and_selection() {
    let mut rng = Lcg(7);
    for _case in 0..300 {
        let count = 1 + (rng.next() % 8) as usize;
        let priorities: Vec<u8> = (0..count).map(|_| 1 + (rng.next() % 3) as u8).collect();
        let edges: Vec<bool> = (0..64).map(|_| rng.next() % 2 == 0).collect();
        let tasks = priorities
            .iter()
            .enumerate()
            .map(|(index, priority)| task(index as i64 + 1, *priority, Some(index as i64 + 1)))
            .collect::<Vec<_>>();
        let mut dependencies = Vec::new();
        for parent in 0..count {
            for child in (parent + 1)..count {
                if edges[parent * count + child] {
                    dependencies.push(dep(parent as i64 + 1, child as i64 + 1));
                }
            }
        }
        let graph = Graph::new(tasks, dependencies.clone());

        let mut expected_effective = priorities.clone();
        for _ in 0..count {
            for dependency in &dependencies {
                let parent = dependency.parent as usize - 1;
                let child = dependency.child as usize - 1;
                expected_effective[child] =
                    expected_effective[child].min(expected_effective[parent]);
            }
        }
        for (index, expected) in expected_effective.iter().enumerate() {
            assert_eq!(graph.effective_priority(index as i64 + 1), Some(*expected));
            let expected_actionable = !dependencies
                .iter()
                .any(|dependency| dependency.parent == index as i64 + 1);
            assert_eq!(graph.is_actionable(index as i64 + 1), expected_actionable);
        }

        let expected_next = (0..count)
            .filter(|index| {
                !dependencies
                    .iter()
                    .any(|dependency| dependency.parent == *index as i64 + 1)
            })
            .min_by_key(|index| {
                (
                    expected_effective[*index],
                    priorities[*index],
                    *index as i64 + 1,
                    *index as i64 + 1,
                )
            })
            .map(|index| index as i64 + 1);
        assert_eq!(graph.next().map(|task| task.id), expected_next);

        for dependency in dependencies {
            assert!(dependency.parent < dependency.child);
            assert!(graph
                .deterministic_path(dependency.child, dependency.parent)
                .is_none());
        }
    }
}

#[test]
fn deterministic_path_takes_the_least_route() {
    // 1 -> 2 -> 4 and 1 -> 3 -> 4: the route through the smaller child wins.
    let graph = Graph::new(
        vec![task(1, 1, None), task(2, 1, None), task(3, 1, None), task(4, 1, None)],
        vec![dep(1, 3), dep(1, 2), dep(2, 4), dep(3, 4)],
    );
    assert_eq!(graph.deterministic_path(1, 4), Some(vec![1, 2, 4]));
    assert_eq!(graph.deterministic_path(4, 1), None);
    assert_eq!(graph.deterministic_path(2, 2), Some(vec![2]));
    assert_eq!(graph.deterministic_path(99, 99), Some(vec![99]));
    assert_eq!(graph.deterministic_path(99, 1), None);
}

#[test]
fn deleted_tasks_leave_the_graph_and_later_duplicates_win() {
    let mut gone = task(2, 1, None);
    gone.deleted_at = Some(5);
    let mut first = task(1, 3, None);
    first.description = "old".to_string();
    let mut second = task(1, 2, None);
    second.description = "new".to_string();
    let graph = Graph::new(vec![first, gone, second], vec![dep(1, 2)]);
    assert!(graph.task(2).is_none());
    assert_eq!(graph.task(1).unwrap().description, "new");
    assert!(graph.children(1).is_empty());
    assert_eq!(graph.tasks().len(), 1);
}

#[test]
fn children_and_parents_are_sorted() {
    let graph = Graph::new(
        vec![task(1, 1, None), task(2, 1, None), task(3, 1, None), task(4, 1, None)],
        vec![dep(1, 4), dep(1, 2), dep(1, 3), dep(3, 2), dep(4, 2)],
    );
    assert_eq!(graph.children(1), &[2, 3, 4]);
    assert_eq!(graph.parents(2), &[1, 3, 4]);
    assert!(graph.children(99).is_empty());
}

#[test]
fn completed_and_missing_tasks_have_no_effective_priority() {
    let mut done = task(2, 1, None);
    done.completed_at = Some(9);
    let graph = Graph::new(vec![task(1, 3, None), done], vec![dep(2, 1)]);
    assert_eq!(graph.effective_priority(2), None);
    assert_eq!(graph.effective_priority(1), Some(3));
    assert_eq!(graph.effective_priority(42), None);
    assert!(!graph.is_actionable(2));
    assert!(graph.is_actionable(1));
}

#[test]
fn next_at_priority_picks_within_the_tier() {
    let graph = Graph::new(
        vec![task(1, 2, Some(5)), task(2, 1, Some(9)), task(3, 2, Some(1))],
        vec![],
    );
    assert_eq!(graph.next_at_priority(2).map(|t| t.id), Some(3));
    assert_eq!(graph.next_at_priority(1).map(|t| t.id), Some(2));
    assert!(graph.next_at_priority(3).is_none());
}

#[test]
fn description_errors_name_the_rule() {
    let empty = validate_description("   ").unwrap_err();
    assert_eq!(empty.message(), "description must not be empty");
    let multi = validate_description(" a\r b ").unwrap_err();
    assert_eq!(multi.message(), "description must be a single line");
    assert_eq!(validate_description("\u{3000}wide\u{2003}").unwrap(), "wide");
}
