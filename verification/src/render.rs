//! Plain-text views of the task graph.

use vstd::prelude::*;

use crate::model::{
    Graph, Task, find_index, ids_ascending, key_less, lemma_find_index_bounds, lemma_find_index_sorted, lemma_unmarked_grow,
    lemma_unmarked_len, unmarked,
};
use crate::text::{
    chars_of, decimal, lemma_decimal_chars, lowercase, occurs, occurs_in, push_decimal, to_lowercase,
};
use chrono::{DateTime, FixedOffset, Local, Utc};

verus! {

/// Which tasks `list` shows.
#[derive(Clone, Copy, Debug, PartialEq, Eq, Structural)]
pub enum ListMode {
    Ready,
    All,
    Blocked,
    Done,
}

/// The mark before a completed task.
pub open spec fn mark_text(t: Task) -> Seq<char> {
    if t.completed() {
        "✓ "@
    } else {
        Seq::empty()
    }
}

/// One line for a task, without its line break: the mark, the id, the
/// priority (effective←intrinsic when they differ), and the description.
pub open spec fn line_text(g: Graph, t: Task) -> Seq<char> {
    match g.spec_effective(t.id) {
        Some(e) if e != t.priority => mark_text(t) + "#"@ + decimal(t.id as int) + " ["@ + decimal(
            e as int,
        ) + "←"@ + decimal(t.priority as int) + "] "@ + t.description@,
        _ => mark_text(t) + "#"@ + decimal(t.id as int) + " ["@ + decimal(t.priority as int)
            + "] "@ + t.description@,
    }
}

/// Two spaces for each level of depth.
pub open spec fn indent(depth: nat) -> Seq<char>
    decreases depth,
{
    if depth == 0 {
        Seq::empty()
    } else {
        indent((depth - 1) as nat) + "  "@
    }
}

/// One line per task, in order.
pub open spec fn plain_lines(g: Graph, s: Seq<Task>) -> Seq<char>
    decreases s.len(),
{
    if s.len() == 0 {
        Seq::empty()
    } else {
        plain_lines(g, s.drop_last()) + line_text(g, s.last()) + "\n"@
    }
}

/// One line per task, each indented one level deeper than the one before.
pub open spec fn indented_lines(g: Graph, s: Seq<Task>) -> Seq<char>
    decreases s.len(),
{
    if s.len() == 0 {
        Seq::empty()
    } else {
        indented_lines(g, s.drop_last()) + indent((s.len() - 1) as nat) + line_text(g, s.last())
            + "\n"@
    }
}

/// The line for a task, without its line break.
pub fn task_line(graph: &Graph, task: &Task) -> (r: String)
    requires
        graph.valid(),
    ensures
        r@ == line_text(*graph, *task),
{
    let mut out = String::new();
    if task.is_completed() {
        out.append("✓ ");
    }
    out.append("#");
    push_decimal(&mut out, task.id);
    out.append(" [");
    match graph.effective_priority(task.id) {
        Some(e) => {
            if e != task.priority {
                push_decimal(&mut out, e as i64);
                out.append("←");
            }
        },
        None => {},
    }
    push_decimal(&mut out, task.priority as i64);
    out.append("] ");
    out.append(task.description.as_str());
    proof {
        reveal_strlit("✓ ");
    }
    assert(out@ =~= line_text(*graph, *task));
    out
}

/// Appends the lines of `items` to `out`, each indented by its position
/// when `nested`.
fn push_lines(graph: &Graph, items: &Vec<&Task>, out: &mut String, nested: bool)
    requires
        graph.valid(),
    ensures
        nested ==> final(out)@ == old(out)@ + indented_lines(*graph, items@.map_values(|t: &Task| *t)),
        !nested ==> final(out)@ == old(out)@ + plain_lines(*graph, items@.map_values(|t: &Task| *t)),
{
    let ghost start = out@;
    let mut i: usize = 0;
    while i < items.len()
        invariant
            graph.valid(),
            i <= items@.len(),
            nested ==> out@ == start + indented_lines(*graph, items@.map_values(|t: &Task| *t).subrange(0, i as int)),
            !nested ==> out@ == start + plain_lines(*graph, items@.map_values(|t: &Task| *t).subrange(0, i as int)),
        decreases items@.len() - i,
    {
        let ghost s = items@.map_values(|t: &Task| *t);
        if nested {
            let mut d: usize = 0;
            while d < i
                invariant
                    d <= i,
                    out@ == start + indented_lines(*graph, s.subrange(0, i as int)) + indent(d as nat),
                decreases i - d,
            {
                out.append("  ");
                d = d + 1;
            }
        }
        let line = task_line(graph, items[i]);
        out.append(line.as_str());
        out.append("\n");
        proof {
            let s1 = s.subrange(0, i + 1);
            assert(s1.drop_last() =~= s.subrange(0, i as int));
            assert(s1.last() == *items@[i as int]);
        }
        i = i + 1;
    }
    assert(items@.map_values(|t: &Task| *t).subrange(0, i as int) =~= items@.map_values(|t: &Task| *t));
}

/// `text` is the context chain of `t`: the tasks that `climb` passes from
/// `t` up to the top, drawn from the top down, one line each, each indented
/// one level deeper.
pub open spec fn chain_text(g: Graph, t: Task, text: Seq<char>) -> bool {
    exists|s: Seq<Task>|
        {
            &&& s.len() == g.climb(t.id, g.task_seq().len()).len()
            &&& forall|i: int|
                0 <= i < s.len() ==> Some(#[trigger] s[i]) == g.spec_task(
                    g.climb(t.id, g.task_seq().len()).reverse()[i],
                )
            &&& text == indented_lines(g, s)
        }
}

/// The context chain of `task`: from the top of the graph down to the task,
/// one line each, each indented one level deeper.
pub fn next(graph: &Graph, task: &Task) -> (r: String)
    requires
        graph.valid(),
    ensures
        chain_text(*graph, *task, r@),
{
    let chain = graph.context_chain(task.id);
    let mut out = String::new();
    push_lines(graph, &chain, &mut out, true);
    proof {
        let s = chain@.map_values(|t: &Task| *t);
        assert(out@ =~= indented_lines(*graph, s));
        assert forall|i: int| 0 <= i < s.len() implies Some(#[trigger] s[i]) == graph.spec_task(
            graph.climb(task.id, graph.task_seq().len()).reverse()[i]) by {
            assert(s[i] == *chain@[i]);
        }
    }
    out
}


/// The key that orders `list`: pending tasks first, by scheduling order;
/// then the others by priority, completion time, and id.
pub type ListKey = (u8, u8, u8, i64, i64);

/// The key by which `list` orders a task.
pub open spec fn list_key(g: Graph, t: Task) -> ListKey {
    if t.pending() {
        (
            0,
            match g.spec_effective(t.id) {
                Some(e) => e,
                None => t.priority,
            },
            t.priority,
            match t.ready_at {
                Some(r) => r,
                None => t.created_at,
            },
            t.id,
        )
    } else {
        (
            1,
            t.priority,
            t.priority,
            match t.completed_at {
                Some(c) => c,
                None => t.created_at,
            },
            t.id,
        )
    }
}

/// Strict lexicographic order of list keys.
pub open spec fn list_less(a: ListKey, b: ListKey) -> bool {
    ||| a.0 < b.0
    ||| a.0 == b.0 && a.1 < b.1
    ||| a.0 == b.0 && a.1 == b.1 && a.2 < b.2
    ||| a.0 == b.0 && a.1 == b.1 && a.2 == b.2 && a.3 < b.3
    ||| a.0 == b.0 && a.1 == b.1 && a.2 == b.2 && a.3 == b.3 && a.4 < b.4
}

fn list_lt(a: ListKey, b: ListKey) -> (r: bool)
    ensures
        r == list_less(a, b),
{
    a.0 < b.0 || (a.0 == b.0 && (a.1 < b.1 || (a.1 == b.1 && (a.2 < b.2 || (a.2 == b.2 && (a.3
        < b.3 || (a.3 == b.3 && a.4 < b.4)))))))
}

/// `t` is a task of the graph that the mode shows.
pub open spec fn in_mode(g: Graph, t: Task, mode: ListMode) -> bool {
    g.spec_task(t.id) == Some(t) && match mode {
        ListMode::Ready => g.actionable_id(t.id),
        ListMode::Blocked => t.pending() && !g.actionable_id(t.id),
        ListMode::Done => t.completed(),
        ListMode::All => true,
    }
}

/// `s` holds the tasks that the mode shows, each once, in list order.
pub open spec fn listing(g: Graph, s: Seq<Task>, mode: ListMode) -> bool {
    &&& forall|i: int| 0 <= i < s.len() ==> in_mode(g, #[trigger] s[i], mode)
    &&& forall|i: int, j: int|
        0 <= i < j < s.len() ==> list_less(list_key(g, #[trigger] s[i]), list_key(g, #[trigger] s[j]))
    &&& forall|t: Task| #[trigger] in_mode(g, t, mode) ==> s.contains(t)
}

fn key_for_list(graph: &Graph, t: &Task) -> (r: ListKey)
    requires
        graph.valid(),
    ensures
        r == list_key(*graph, *t),
{
    if t.is_pending() {
        let e = match graph.effective_priority(t.id) {
            Some(e) => e,
            None => t.priority,
        };
        let r = match t.ready_at {
            Some(r) => r,
            None => t.created_at,
        };
        (0, e, t.priority, r, t.id)
    } else {
        let c = match t.completed_at {
            Some(c) => c,
            None => t.created_at,
        };
        (1, t.priority, t.priority, c, t.id)
    }
}

fn shown_in(graph: &Graph, t: &Task, mode: ListMode) -> (r: bool)
    requires
        graph.valid(),
        graph.spec_task(t.id) == Some(*t),
    ensures
        r == in_mode(*graph, *t, mode),
{
    match mode {
        ListMode::Ready => graph.is_actionable(t.id),
        ListMode::Blocked => t.is_pending() && !graph.is_actionable(t.id),
        ListMode::Done => t.is_completed(),
        ListMode::All => true,
    }
}

/// `text` lists the tasks that the mode shows, one line each, in list order.
pub open spec fn list_text(g: Graph, mode: ListMode, text: Seq<char>) -> bool {
    exists|s: Seq<Task>| listing(g, s, mode) && text == plain_lines(g, s)
}

/// Two listings of the same tasks, each strictly in the scheduler's order,
/// are the same listing.
proof fn lemma_same_schedule(g: Graph, a: Seq<Task>, b: Seq<Task>)
    requires
        forall|i: int, j: int| 0 <= i < j < a.len() ==> key_less(g.sched_key(#[trigger] a[i]), g.sched_key(#[trigger] a[j])),
        forall|i: int, j: int| 0 <= i < j < b.len() ==> key_less(g.sched_key(#[trigger] b[i]), g.sched_key(#[trigger] b[j])),
        forall|t: Task| a.contains(t) <==> b.contains(t),
    ensures
        a == b,
    decreases a.len(),
{
    if a.len() == 0 {
        if b.len() > 0 {
            assert(b.contains(b[0]));
        }
    } else if b.len() == 0 {
        assert(a.contains(a[0]));
    } else {
        assert(a.contains(a[0]));
        assert(b.contains(b[0]));
        let j = choose|j: int| 0 <= j < b.len() && b[j] == a[0];
        let i = choose|i: int| 0 <= i < a.len() && a[i] == b[0];
        if i > 0 && j > 0 {
            assert(key_less(g.sched_key(a[0]), g.sched_key(a[i])));
            assert(key_less(g.sched_key(b[0]), g.sched_key(b[j])));
        }
        assert(a[0] == b[0]);
        let a1 = a.drop_first();
        let b1 = b.drop_first();
        assert forall|x: Task| a1.contains(x) <==> b1.contains(x) by {
            if a1.contains(x) {
                let k = choose|k: int| 0 <= k < a1.len() && a1[k] == x;
                assert(a[k + 1] == x);
                assert(key_less(g.sched_key(a[0]), g.sched_key(a[k + 1])));
                assert(a.contains(x));
                let m = choose|m: int| 0 <= m < b.len() && b[m] == x;
                assert(m != 0);
                assert(b1[m - 1] == x);
            }
            if b1.contains(x) {
                let k = choose|k: int| 0 <= k < b1.len() && b1[k] == x;
                assert(b[k + 1] == x);
                assert(key_less(g.sched_key(b[0]), g.sched_key(b[k + 1])));
                assert(b.contains(x));
                let m = choose|m: int| 0 <= m < a.len() && a[m] == x;
                assert(m != 0);
                assert(a1[m - 1] == x);
            }
        }
        assert forall|i: int, j: int| 0 <= i < j < a1.len() implies key_less(g.sched_key(#[trigger] a1[i]), g.sched_key(#[trigger] a1[j])) by {
            assert(a1[i] == a[i + 1] && a1[j] == a[j + 1]);
        }
        assert forall|i: int, j: int| 0 <= i < j < b1.len() implies key_less(g.sched_key(#[trigger] b1[i]), g.sched_key(#[trigger] b1[j])) by {
            assert(b1[i] == b[i + 1] && b1[j] == b[j + 1]);
        }
        lemma_same_schedule(g, a1, b1);
        assert(a =~= seq![a[0]] + a1);
        assert(b =~= seq![b[0]] + b1);
    }
}

/// `list` follows the scheduler: in every mode the pending tasks come first,
/// in the scheduler's order (effective priority, intrinsic priority, the
/// time the task became ready or else its creation time, id); in ready mode
/// it lists exactly the ready tasks, so it is the scheduler's own list, the
/// one `actionable` returns.
pub proof fn law_list_follows_scheduler(g: Graph, s: Seq<Task>, mode: ListMode)
    requires
        g.valid(),
        listing(g, s, mode),
    ensures
        forall|i: int, j: int|
            0 <= i < j < s.len() && (#[trigger] s[j]).pending() ==> (#[trigger] s[i]).pending() && key_less(
                g.sched_key(s[i]),
                g.sched_key(s[j]),
            ),
        mode == ListMode::Ready ==> forall|t: Task| #[trigger] s.contains(t) <==> g.ready(t),
        mode == ListMode::Ready ==> forall|a: Seq<&Task>|
            #[trigger] g.lists_tier(a, None) ==> a.map_values(|t: &Task| *t) == s,
{
    assert forall|i: int, j: int|
        0 <= i < j < s.len() && (#[trigger] s[j]).pending() implies (#[trigger] s[i]).pending() && key_less(
            g.sched_key(s[i]),
            g.sched_key(s[j]),
        ) by {
        assert(list_less(list_key(g, s[i]), list_key(g, s[j])));
    }
    if mode == ListMode::Ready {
        assert forall|t: Task| #[trigger] s.contains(t) <==> g.ready(t) by {
            if s.contains(t) {
                let k = choose|k: int| 0 <= k < s.len() && s[k] == t;
                assert(in_mode(g, s[k], mode));
            }
            if g.ready(t) {
                assert(in_mode(g, t, mode));
            }
        }
        assert forall|a: Seq<&Task>| #[trigger] g.lists_tier(a, None) implies a.map_values(|t: &Task| *t) == s by {
            let am = a.map_values(|t: &Task| *t);
            assert forall|i: int, j: int| 0 <= i < j < am.len() implies key_less(g.sched_key(#[trigger] am[i]), g.sched_key(#[trigger] am[j])) by {
                assert(am[i] == *a[i] && am[j] == *a[j]);
            }
            assert forall|i: int, j: int| 0 <= i < j < s.len() implies key_less(g.sched_key(#[trigger] s[i]), g.sched_key(#[trigger] s[j])) by {
                assert(in_mode(g, s[j], mode));
                assert(g.pending_task(s[j].id));
                lemma_find_index_bounds(g.task_seq(), s[j].id);
                assert(list_less(list_key(g, s[i]), list_key(g, s[j])));
                assert(in_mode(g, s[i], mode));
            }
            assert forall|t: Task| am.contains(t) <==> s.contains(t) by {
                if am.contains(t) {
                    let k = choose|k: int| 0 <= k < am.len() && am[k] == t;
                    assert(am[k] == *a[k]);
                    assert(g.in_tier(*a[k], None));
                    assert(g.ready(t));
                }
                if s.contains(t) {
                    assert(g.ready(t));
                    assert(g.in_tier(t, None));
                    let k = choose|k: int| 0 <= k < a.len() && *a[k] == t;
                    assert(am[k] == t);
                }
            }
            lemma_same_schedule(g, am, s);
        }
    }
}

/// The tasks that the mode shows, one line each, in list order.
#[verifier::spinoff_prover]
#[verifier::rlimit(40)]
pub fn list(graph: &Graph, mode: ListMode) -> (r: String)
    requires
        graph.valid(),
    ensures
        list_text(*graph, mode, r@),
{
    let tasks = graph.tasks();
    let n = tasks.len();
    let mut out: Vec<&Task> = Vec::new();
    let mut keys: Vec<ListKey> = Vec::new();
    let mut i: usize = 0;
    while i < n
        invariant
            graph.valid(),
            tasks@ == graph.task_seq(),
            n == tasks@.len(),
            i <= n,
            out@.len() == keys@.len(),
            forall|k: int| 0 <= k < out@.len() ==> in_mode(*graph, *#[trigger] out@[k], mode),
            forall|k: int| 0 <= k < out@.len() ==> #[trigger] keys@[k] == list_key(*graph, *out@[k]),
            forall|k: int, j: int| 0 <= k < j < out@.len() ==> list_less(#[trigger] keys@[k], #[trigger] keys@[j]),
            forall|k: int, j: int|
                0 <= k < out@.len() && i <= j < n ==> (*#[trigger] out@[k]).id < (#[trigger] tasks@[j]).id,
            forall|j: int|
                0 <= j < i && #[trigger] in_mode(*graph, tasks@[j], mode) ==> exists|k: int|
                    0 <= k < out@.len() && *out@[k] == tasks@[j],
        decreases n - i,
    {
        let t = &tasks[i];
        proof {
            lemma_find_index_sorted(tasks@, i as int);
        }
        if shown_in(graph, t, mode) {
            let key = key_for_list(graph, t);
            let mut pos: usize = 0;
            while pos < keys.len() && !list_lt(key, keys[pos])
                invariant
                    pos <= keys@.len(),
                    forall|q: int| 0 <= q < pos ==> !list_less(key, #[trigger] keys@[q]),
                decreases keys@.len() - pos,
            {
                pos = pos + 1;
            }
            let ghost old_out = out@;
            let ghost old_keys = keys@;
            out.insert(pos, t);
            keys.insert(pos, key);
            proof {
                old_out.insert_ensures(pos as int, t);
                old_keys.insert_ensures(pos as int, key);
                assert forall|q: int| 0 <= q < pos implies list_less(#[trigger] old_keys[q], key) by {
                    assert(old_keys[q] == list_key(*graph, *old_out[q]));
                    assert((*old_out[q]).id < tasks@[i as int].id);
                }
                assert forall|k: int, j: int| 0 <= k < j < out@.len() implies list_less(#[trigger] keys@[k], #[trigger] keys@[j]) by {
                    if j < pos {
                    } else if k > pos {
                        assert(keys@[k] == old_keys[k - 1]);
                        assert(keys@[j] == old_keys[j - 1]);
                    } else if k == pos {
                        assert(keys@[j] == old_keys[j - 1]);
                        assert(list_less(key, old_keys[pos as int]));
                        if j - 1 > pos {
                            assert(list_less(old_keys[pos as int], old_keys[j - 1]));
                        }
                    } else {
                        if j > pos {
                            assert(keys@[j] == old_keys[j - 1]);
                            assert(list_less(old_keys[k], key));
                            assert(list_less(key, old_keys[pos as int]));
                            if j - 1 > pos {
                                assert(list_less(old_keys[pos as int], old_keys[j - 1]));
                            }
                        }
                    }
                }
                assert forall|k: int| 0 <= k < out@.len() implies in_mode(*graph, *#[trigger] out@[k], mode) by {
                    if k < pos {
                        assert(out@[k] == old_out[k]);
                    } else if k > pos {
                        assert(out@[k] == old_out[k - 1]);
                    }
                }
                assert forall|k: int| 0 <= k < out@.len() implies #[trigger] keys@[k] == list_key(*graph, *out@[k]) by {
                    if k < pos {
                        assert(out@[k] == old_out[k]);
                    } else if k > pos {
                        assert(out@[k] == old_out[k - 1]);
                    }
                }
                assert forall|k: int, j: int| 0 <= k < out@.len() && i + 1 <= j < n implies (*#[trigger] out@[k]).id < (
                    #[trigger] tasks@[j]).id by {
                    if k < pos {
                        assert(out@[k] == old_out[k]);
                    } else if k > pos {
                        assert(out@[k] == old_out[k - 1]);
                    }
                }
                assert forall|j: int| 0 <= j < i + 1 && #[trigger] in_mode(*graph, tasks@[j], mode) implies exists|k: int|
                    0 <= k < out@.len() && *out@[k] == tasks@[j] by {
                    if j < i {
                        let k = choose|k: int| 0 <= k < old_out.len() && *old_out[k] == tasks@[j];
                        if k < pos {
                            assert(out@[k] == old_out[k]);
                        } else {
                            assert(out@[k + 1] == old_out[k]);
                        }
                    } else {
                        assert(out@[pos as int] == t);
                    }
                }
            }
        }
        i = i + 1;
    }
    let mut text = String::new();
    push_lines(graph, &out, &mut text, false);
    proof {
        let s = out@.map_values(|t: &Task| *t);
        assert forall|t: Task| #[trigger] in_mode(*graph, t, mode) implies s.contains(t) by {
            crate::model::lemma_find_index_bounds(graph.task_seq(), t.id);
            let j = crate::model::find_index(graph.task_seq(), t.id);
            assert(tasks@[j] == t);
            assert(in_mode(*graph, tasks@[j], mode));
            let k = choose|k: int| 0 <= k < out@.len() && *out@[k] == tasks@[j];
            assert(s[k] == t);
        }
        assert forall|k: int, j: int| 0 <= k < j < s.len() implies list_less(list_key(*graph, #[trigger] s[k]), list_key(*graph, #[trigger] s[j])) by {
            assert(keys@[k] == list_key(*graph, *out@[k]));
            assert(keys@[j] == list_key(*graph, *out@[j]));
        }
        assert forall|k: int| 0 <= k < s.len() implies in_mode(*graph, #[trigger] s[k], mode) by {
            assert(s[k] == *out@[k]);
        }
        assert(listing(*graph, s, mode));
    }
    text
}

/// The tasks of `s` whose lowercased description holds the lowercased query.
pub open spec fn matching(s: Seq<Task>, query: Seq<char>) -> Seq<Task>
    decreases s.len(),
{
    if s.len() == 0 {
        Seq::empty()
    } else {
        let r = matching(s.drop_last(), query);
        if occurs_in(lowercase(query), lowercase(s.last().description@)) {
            r.push(s.last())
        } else {
            r
        }
    }
}

/// Whether a lowercased description holds a lowercased query.
pub fn matches_query(description_lower: &str, query_lower: &str) -> (r: bool)
    ensures
        r == occurs_in(query_lower@, description_lower@),
{
    let q = chars_of(query_lower);
    let d = chars_of(description_lower);
    occurs(&q, &d)
}

/// The lines of the tasks whose description holds `query`, ignoring case, by id.
pub open spec fn find_text(g: Graph, query: Seq<char>) -> Seq<char> {
    plain_lines(g, matching(g.task_seq(), query))
}

/// The tasks that `matching` keeps are exactly those of `s` whose
/// lowercased description holds the lowercased query, and in ascending ids
/// when `s` is.
proof fn lemma_matching(s: Seq<Task>, query: Seq<char>)
    ensures
        forall|t: Task|
            #[trigger] matching(s, query).contains(t) <==> (s.contains(t) && occurs_in(
                lowercase(query),
                lowercase(t.description@),
            )),
        ids_ascending(s) ==> ids_ascending(matching(s, query)),
    decreases s.len(),
{
    if s.len() > 0 {
        let p = s.drop_last();
        lemma_matching(p, query);
        let r = matching(p, query);
        let m = matching(s, query);
        assert forall|t: Task|
            #[trigger] m.contains(t) <==> (s.contains(t) && occurs_in(lowercase(query), lowercase(t.description@))) by {
            if s.contains(t) {
                let k = choose|k: int| 0 <= k < s.len() && s[k] == t;
                if k < s.len() - 1 {
                    assert(p[k] == t);
                }
            }
            if p.contains(t) {
                let k = choose|k: int| 0 <= k < p.len() && p[k] == t;
                assert(s[k] == t);
            }
            if r.contains(t) {
                let k = choose|k: int| 0 <= k < r.len() && r[k] == t;
                assert(m[k] == t || m == r);
            }
            if m.contains(t) && !r.contains(t) {
                let k = choose|k: int| 0 <= k < m.len() && m[k] == t;
                assert(m == r.push(s.last()));
                assert(s[s.len() - 1] == t);
            }
            if t == s.last() && occurs_in(lowercase(query), lowercase(t.description@)) {
                assert(m[m.len() - 1] == t);
            }
        }
        if ids_ascending(s) {
            assert(ids_ascending(p)) by {
                assert forall|i: int, j: int| 0 <= i < j < p.len() implies #[trigger] p[i].id < #[trigger] p[j].id by {
                    assert(s[i] == p[i] && s[j] == p[j]);
                }
            }
            assert forall|i: int, j: int| 0 <= i < j < m.len() implies #[trigger] m[i].id < #[trigger] m[j].id by {
                if j == r.len() {
                    assert(r.contains(r[i]));
                    let k = choose|k: int| 0 <= k < p.len() && p[k] == r[i];
                    assert(s[k] == p[k]);
                    assert(s[k].id < s[s.len() - 1].id);
                } else {
                    assert(m[i] == r[i] && m[j] == r[j]);
                }
            }
        }
    }
}

/// `find` lists exactly the tasks of the graph whose lowercased description
/// holds the lowercased query, each once, by ascending id: a task appears
/// in the listing if and only if it is a task of the graph and it matches.
pub proof fn law_find_lists_matches(g: Graph, query: Seq<char>)
    requires
        g.valid(),
    ensures
        forall|t: Task|
            #[trigger] matching(g.task_seq(), query).contains(t) <==> (g.spec_task(t.id) == Some(t) && occurs_in(
                lowercase(query),
                lowercase(t.description@),
            )),
        forall|i: int, j: int|
            0 <= i < j < matching(g.task_seq(), query).len() ==> #[trigger] matching(g.task_seq(), query)[i].id
                < #[trigger] matching(g.task_seq(), query)[j].id,
{
    let ts = g.task_seq();
    lemma_matching(ts, query);
    assert forall|t: Task| ts.contains(t) <==> g.spec_task(t.id) == Some(t) by {
        crate::model::lemma_find_task_sorted(ts, t.id);
        lemma_find_index_bounds(ts, t.id);
        if ts.contains(t) {
            let k = choose|k: int| 0 <= k < ts.len() && ts[k] == t;
            assert(ts[k].id == t.id);
        }
    }
}

/// The tasks whose description holds the query, ignoring case, by id.
pub fn find(graph: &Graph, query: &str) -> (r: String)
    requires
        graph.valid(),
    ensures
        r@ == find_text(*graph, query@),
{
    let q = to_lowercase(query);
    let tasks = graph.tasks();
    let mut out = String::new();
    let mut i: usize = 0;
    while i < tasks.len()
        invariant
            graph.valid(),
            tasks@ == graph.task_seq(),
            q@ == lowercase(query@),
            i <= tasks@.len(),
            out@ == plain_lines(*graph, matching(tasks@.subrange(0, i as int), query@)),
        decreases tasks@.len() - i,
    {
        let ghost pre = tasks@.subrange(0, i + 1);
        assert(pre.drop_last() =~= tasks@.subrange(0, i as int));
        let t = &tasks[i];
        let d = to_lowercase(t.description.as_str());
        if matches_query(d.as_str(), q.as_str()) {
            let line = task_line(graph, t);
            out.append(line.as_str());
            out.append("\n");
            proof {
                let m = matching(pre, query@);
                assert(m.drop_last() =~= matching(tasks@.subrange(0, i as int), query@));
            }
        }
        i = i + 1;
    }
    assert(tasks@.subrange(0, i as int) =~= tasks@);
    out
}


/// Ids written `#a, #b, ...`.
pub open spec fn hash_list(ids: Seq<i64>) -> Seq<char>
    decreases ids.len(),
{
    if ids.len() == 0 {
        Seq::empty()
    } else if ids.len() == 1 {
        "#"@ + decimal(ids[0] as int)
    } else {
        hash_list(ids.drop_last()) + ", #"@ + decimal(ids.last() as int)
    }
}

/// How many times `c` occurs in `s`.
pub open spec fn char_count(s: Seq<char>, c: char) -> nat
    decreases s.len(),
{
    if s.len() == 0 {
        0
    } else {
        char_count(s.drop_last(), c) + if s.last() == c {
            1nat
        } else {
            0nat
        }
    }
}

/// `needle` occurs in `hay` as a whole entry of a comma-separated list:
/// followed by a comma or by the end.
pub open spec fn listed_entry(needle: Seq<char>, hay: Seq<char>) -> bool {
    exists|i: int|
        0 <= i && i + needle.len() <= hay.len() && #[trigger] hay.subrange(i, i + needle.len()) == needle && (i
            + needle.len() == hay.len() || hay[i + needle.len()] == ',')
}

/// Counting a character over two texts adds up.
proof fn lemma_char_count_concat(a: Seq<char>, b: Seq<char>, c: char)
    ensures
        char_count(a + b, c) == char_count(a, c) + char_count(b, c),
    decreases b.len(),
{
    if b.len() > 0 {
        lemma_char_count_concat(a, b.drop_last(), c);
        assert((a + b).drop_last() =~= a + b.drop_last());
    } else {
        assert(a + b =~= a);
    }
}

/// The decimal form of a number holds no `#`.
proof fn lemma_no_hash_in_decimal(n: int)
    ensures
        char_count(decimal(n), '#') == 0,
{
    crate::text::lemma_decimal_chars(n);
    lemma_no_char(decimal(n), '#');
}

/// A character that is neither a digit nor `-` does not occur in a text of
/// digits and `-`.
proof fn lemma_no_char(s: Seq<char>, c: char)
    requires
        !(('0' <= c && c <= '9') || c == '-'),
        forall|i: int| 0 <= i < s.len() ==> ('0' <= #[trigger] s[i] && s[i] <= '9') || s[i] == '-',
    ensures
        char_count(s, c) == 0,
    decreases s.len(),
{
    if s.len() > 0 {
        lemma_no_char(s.drop_last(), c);
        assert(s.last() == s[s.len() - 1]);
    }
}

/// An entry of a list stays one when more text that starts with a comma follows.
proof fn lemma_entry_extend(needle: Seq<char>, hay: Seq<char>, more: Seq<char>)
    requires
        listed_entry(needle, hay),
        more.len() > 0,
        more[0] == ',',
    ensures
        listed_entry(needle, hay + more),
{
    let i = choose|i: int|
        0 <= i && i + needle.len() <= hay.len() && #[trigger] hay.subrange(i, i + needle.len()) == needle && (i
            + needle.len() == hay.len() || hay[i + needle.len()] == ',');
    let h = hay + more;
    assert(h.subrange(i, i + needle.len()) =~= hay.subrange(i, i + needle.len()));
    if i + needle.len() == hay.len() {
        assert(h[i + needle.len()] == more[0]);
    } else {
        assert(h[i + needle.len()] == hay[i + needle.len()]);
    }
}

/// The separators hold one `#` each.
proof fn lemma_hash_count()
    ensures
        char_count("#"@, '#') == 1,
        char_count(", #"@, '#') == 1,
{
    reveal_strlit("#");
    reveal_strlit(", #");
    reveal_with_fuel(char_count, 4);
    assert("#"@ =~= seq!['#']);
    assert(seq!['#'].drop_last() =~= Seq::<char>::empty());
    assert(", #"@ =~= seq![',', ' ', '#']);
    assert(seq![',', ' ', '#'].drop_last() =~= seq![',', ' ']);
    assert(seq![',', ' '].drop_last() =~= seq![',']);
    assert(seq![','].drop_last() =~= Seq::<char>::empty());
}

/// The ids that `show` lists after `depends on` and `needed by` are all
/// there, one entry each: every id, written `#` and its decimal form, stands
/// as a whole entry of the list, and the list holds exactly one `#` per id.
pub proof fn law_ids_listed(ids: Seq<i64>)
    ensures
        forall|k: int| 0 <= k < ids.len() ==> listed_entry("#"@ + decimal(#[trigger] ids[k] as int), hash_list(ids)),
        char_count(hash_list(ids), '#') == ids.len(),
    decreases ids.len(),
{
    reveal_strlit("#");
    reveal_strlit(", #");
    if ids.len() == 0 {
    } else if ids.len() == 1 {
        let e = "#"@ + decimal(ids[0] as int);
        assert(hash_list(ids) == e);
        assert(e.subrange(0int, 0int + e.len()) =~= e);
        assert(listed_entry(e, hash_list(ids)));
        lemma_no_hash_in_decimal(ids[0] as int);
        lemma_char_count_concat("#"@, decimal(ids[0] as int), '#');
        lemma_hash_count();
    } else {
        let p = ids.drop_last();
        law_ids_listed(p);
        let hp = hash_list(p);
        let d = decimal(ids.last() as int);
        let tail = ", #"@ + d;
        assert(hash_list(ids) == hp + ", #"@ + d);
        assert(hash_list(ids) =~= hp + tail);
        assert(tail[0] == ',');
        let h = hash_list(ids);
        assert forall|k: int| 0 <= k < ids.len() implies listed_entry("#"@ + decimal(#[trigger] ids[k] as int), h) by {
            if k < ids.len() - 1 {
                assert(ids[k] == p[k]);
                lemma_entry_extend("#"@ + decimal(p[k] as int), hp, tail);
            } else {
                let e = "#"@ + d;
                let i: int = hp.len() as int + 2;
                assert(h.subrange(i, i + e.len()) =~= e);
            }
        }
        lemma_no_hash_in_decimal(ids.last() as int);
        lemma_char_count_concat(hp, tail, '#');
        lemma_char_count_concat(", #"@, d, '#');
        lemma_hash_count();
    }
}

/// `label: #a, #b` and a line break, or nothing for no ids.
pub open spec fn ids_text(label: Seq<char>, ids: Seq<i64>) -> Seq<char> {
    if ids.len() == 0 {
        Seq::empty()
    } else {
        label + ": "@ + hash_list(ids) + "\n"@
    }
}

/// Whether the task is done, ready, or blocked.
pub open spec fn status_text(g: Graph, t: Task) -> Seq<char> {
    if t.completed() {
        "done"@
    } else if g.actionable_id(t.id) {
        "ready"@
    } else {
        "blocked"@
    }
}

/// The first lines of `show`: the task line, its status, its effective priority.
pub open spec fn show_head(g: Graph, t: Task) -> Seq<char> {
    line_text(g, t) + "\nstatus: "@ + status_text(g, t) + "\n"@ + match g.spec_effective(t.id) {
        Some(e) => "effective priority: "@ + decimal(e as int) + "\n"@,
        None => Seq::empty(),
    }
}

/// The time lines of `show`, given how the times read.
pub open spec fn show_times(
    t: Task,
    created: Seq<char>,
    updated: Seq<char>,
    ready: Seq<char>,
    completed: Seq<char>,
) -> Seq<char> {
    "created: "@ + created + "\n"@ + "updated: "@ + updated + "\n"@ + match t.ready_at {
        Some(_) => "ready: "@ + ready + "\n"@,
        None => Seq::empty(),
    } + match t.completed_at {
        Some(_) => "completed: "@ + completed + "\n"@,
        None => Seq::empty(),
    }
}

/// The details of a task, given how its times read.
pub open spec fn show_text(
    g: Graph,
    t: Task,
    created: Seq<char>,
    updated: Seq<char>,
    ready: Seq<char>,
    completed: Seq<char>,
) -> Seq<char> {
    show_head(g, t) + show_times(t, created, updated, ready, completed) + ids_text(
        "depends on"@,
        g.spec_children(t.id),
    ) + ids_text("needed by"@, g.spec_parents(t.id))
}

fn head_lines(graph: &Graph, task: &Task) -> (r: String)
    requires
        graph.valid(),
    ensures
        r@ == show_head(*graph, *task),
{
    let mut output = task_line(graph, task);
    output.append("\nstatus: ");
    if task.is_completed() {
        output.append("done");
    } else if graph.is_actionable(task.id) {
        output.append("ready");
    } else {
        output.append("blocked");
    }
    output.append("\n");
    if let Some(e) = graph.effective_priority(task.id) {
        output.append("effective priority: ");
        push_decimal(&mut output, e as i64);
        output.append("\n");
    }
    assert(output@ =~= show_head(*graph, *task));
    output
}

fn labelled(label: &str, value: &str) -> (r: String)
    ensures
        r@ == label@ + value@ + "\n"@,
{
    let mut r = String::from_str(label);
    r.append(value);
    r.append("\n");
    r
}

fn append_ids(output: &mut String, label: &str, ids: &[i64])
    ensures
        final(output)@ == old(output)@ + ids_text(label@, ids@),
{
    if ids.len() == 0 {
        return;
    }
    let ghost start = output@;
    output.append(label);
    output.append(": ");
    let ghost head = output@;
    let mut k: usize = 0;
    while k < ids.len()
        invariant
            k <= ids@.len(),
            output@ == head + hash_list(ids@.subrange(0, k as int)),
        decreases ids@.len() - k,
    {
        if k == 0 {
            output.append("#");
        } else {
            output.append(", #");
        }
        push_decimal(output, ids[k]);
        proof {
            let s1 = ids@.subrange(0, k + 1);
            assert(s1.drop_last() =~= ids@.subrange(0, k as int));
            if k == 0 {
                assert(ids@.subrange(0, 0) =~= Seq::<i64>::empty());
            }
        }
        k = k + 1;
    }
    output.append("\n");
    assert(ids@.subrange(0, k as int) =~= ids@);
}

/// The format in which `show` writes local times.
pub open spec fn time_format() -> Seq<char> {
    "%Y-%m-%d %H:%M:%S"@
}

/// The timestamps, in microseconds since the Unix epoch, that chrono turns
/// into a date: those from the first day of year -262143 to the last day of
/// year 262142 (`NaiveDate`'s range; day numbers outside it are refused by
/// `DateTime::from_timestamp_micros`).
pub open spec fn in_chrono_range(timestamp: i64) -> bool {
    -8334601228800000000 <= timestamp <= 8210266876799999999
}

/// A character of a written time: a digit, a sign, `:` or a space.
pub open spec fn time_char(c: char) -> bool {
    ('0' <= c && c <= '9') || c == '+' || c == '-' || c == ':' || c == ' '
}

/// A decimal digit.
pub open spec fn digit(c: char) -> bool {
    '0' <= c && c <= '9'
}

/// The layout that `%Y-%m-%d %H:%M:%S` writes: a year of at least four
/// digits, signed outside 0 to 9999, then `-MM-DD hh:mm:ss`.
pub open spec fn time_layout(t: Seq<char>) -> bool {
    let n = t.len();
    &&& n >= 19
    &&& digit(t[0]) || t[0] == '+' || t[0] == '-'
    &&& forall|i: int| 1 <= i < n - 15 ==> digit(#[trigger] t[i])
    &&& t[n - 15] == '-' && t[n - 12] == '-' && t[n - 9] == ' ' && t[n - 6] == ':' && t[n - 3] == ':'
    &&& forall|i: int|
        n - 15 < i < n && i != n - 12 && i != n - 9 && i != n - 6 && i != n - 3 ==> digit(#[trigger] t[i])
}

/// What chrono writes for `timestamp` (microseconds since the Unix epoch) at
/// `offset` seconds east of UTC, in `format`.
pub uninterp spec fn written_time(timestamp: i64, offset: i32, format: Seq<char>) -> Seq<char>;

/// `text` may stand for `timestamp` in `show`: inside chrono's range, the
/// timestamp written in `show`'s layout at some offset from UTC that chrono
/// accepts (the machine's own); outside it, the bare number. Either way it
/// holds only time characters, so no line break.
pub open spec fn time_text(timestamp: i64, text: Seq<char>) -> bool {
    &&& forall|i: int| 0 <= i < text.len() ==> time_char(#[trigger] text[i])
    &&& if in_chrono_range(timestamp) {
        &&& time_layout(text)
        &&& exists|o: i32| -86400 < o < 86400 && text == #[trigger] written_time(timestamp, o, time_format())
    } else {
        text == decimal(timestamp as int)
    }
}

/// A text in the layout holds only time characters.
proof fn lemma_layout_chars(t: Seq<char>)
    requires
        time_layout(t),
    ensures
        forall|i: int| 0 <= i < t.len() ==> time_char(#[trigger] t[i]),
{
    let n = t.len();
    assert forall|i: int| 0 <= i < n implies time_char(#[trigger] t[i]) by {
        if i == 0 {
        } else if i < n - 15 {
            assert(digit(t[i]));
        } else if i == n - 15 || i == n - 12 || i == n - 9 || i == n - 6 || i == n - 3 {
        } else {
            assert(digit(t[i]));
        }
    }
}

/// `chrono`: the machine's offset from UTC, in seconds east, at the
/// timestamp (`DateTime::from_timestamp_micros`, the conversion to `Local`,
/// and `local_minus_utc` of its offset); `None` exactly when
/// `from_timestamp_micros` refuses the timestamp as out of range. The offset
/// depends on the machine's time zone, so only the bounds that every chrono
/// `FixedOffset` keeps (`east_opt`) are stated of it.
#[verifier::external_body]
fn chrono_utc_offset(timestamp: i64) -> (r: Option<i32>)
    ensures
        r is Some <==> in_chrono_range(timestamp),
        r matches Some(o) ==> -86400 < o < 86400,
{
    match DateTime::<Utc>::from_timestamp_micros(timestamp) {
        Some(time) => Some(DateTime::<Local>::from(time).offset().local_minus_utc()),
        None => None,
    }
}

/// `chrono`: the timestamp as the date and time at `offset` seconds east of
/// UTC, written in `format` (`DateTime::from_timestamp_micros`,
/// `FixedOffset::east_opt`, `with_timezone` and `format`); `None` exactly
/// when the timestamp is out of range. The text is `written_time` of the
/// arguments, and the items of this format lay it out as `time_layout` says:
/// the year in at least four digits with a sign outside 0 to 9999, the other
/// fields in two digits each.
#[verifier::external_body]
fn chrono_format_at(timestamp: i64, offset: i32, format: &str) -> (r: Option<String>)
    requires
        format@ == time_format(),
        -86400 < offset < 86400,
    ensures
        r is Some <==> in_chrono_range(timestamp),
        r matches Some(t) ==> t@ == written_time(timestamp, offset, format@) && time_layout(t@),
{
    match (DateTime::<Utc>::from_timestamp_micros(timestamp), FixedOffset::east_opt(offset)) {
        (Some(time), Some(zone)) => Some(time.with_timezone(&zone).format(format).to_string()),
        _ => None,
    }
}

/// A timestamp as local time, or as the bare number when chrono refuses it.
fn local_time(timestamp: i64) -> (r: String)
    ensures
        time_text(timestamp, r@),
{
    proof {
        lemma_decimal_chars(timestamp as int);
    }
    let mut r = String::new();
    match chrono_utc_offset(timestamp) {
        Some(offset) => match chrono_format_at(timestamp, offset, "%Y-%m-%d %H:%M:%S") {
            Some(text) => {
                proof {
                    lemma_layout_chars(text@);
                }
                return text;
            },
            None => {},
        },
        None => {},
    }
    push_decimal(&mut r, timestamp);
    r
}

/// The details of a task, given how its times read: its line, its status,
/// its effective priority, its times, and the ids it depends on and that
/// depend on it.
pub fn show_with_times(
    graph: &Graph,
    task: &Task,
    created: &str,
    updated: &str,
    ready: &str,
    completed: &str,
) -> (r: String)
    requires
        graph.valid(),
    ensures
        r@ == show_text(*graph, *task, created@, updated@, ready@, completed@),
{
    let head = head_lines(graph, task);
    let mut times = labelled("created: ", created);
    let u = labelled("updated: ", updated);
    times.append(u.as_str());
    if task.ready_at.is_some() {
        let l = labelled("ready: ", ready);
        times.append(l.as_str());
    }
    if task.completed_at.is_some() {
        let l = labelled("completed: ", completed);
        times.append(l.as_str());
    }
    assert(times@ =~= show_times(*task, created@, updated@, ready@, completed@));
    let mut output = head;
    output.append(times.as_str());
    append_ids(&mut output, "depends on", graph.children(task.id));
    append_ids(&mut output, "needed by", graph.parents(task.id));
    assert(output@ =~= show_text(*graph, *task, created@, updated@, ready@, completed@));
    output
}

/// `text` is the details of `t`, its times written in some way.
pub open spec fn details_text(g: Graph, t: Task, text: Seq<char>) -> bool {
    exists|created: Seq<char>, updated: Seq<char>, ready: Seq<char>, completed: Seq<char>|
        {
            &&& time_text(t.created_at, created)
            &&& time_text(t.updated_at, updated)
            &&& (t.ready_at matches Some(x) ==> time_text(x, ready))
            &&& (t.completed_at matches Some(x) ==> time_text(x, completed))
            &&& text == show_text(g, t, created, updated, ready, completed)
        }
}

/// The details of a task, its times written as local date and time.
pub fn show(graph: &Graph, task: &Task) -> (r: String)
    requires
        graph.valid(),
    ensures
        details_text(*graph, *task, r@),
{
    let created = local_time(task.created_at);
    let updated = local_time(task.updated_at);
    let ready = match task.ready_at {
        Some(x) => local_time(x),
        None => String::new(),
    };
    let completed = match task.completed_at {
        Some(x) => local_time(x),
        None => String::new(),
    };
    show_with_times(graph, task, created.as_str(), updated.as_str(), ready.as_str(), completed.as_str())
}


/// The connector before a task drawn below its parent.
pub open spec fn branch(last: bool) -> Seq<char> {
    if last {
        "└─ "@
    } else {
        "├─ "@
    }
}

/// What continues a parent's column on the lines of its children.
pub open spec fn stem(last: bool) -> Seq<char> {
    if last {
        "   "@
    } else {
        "│  "@
    }
}

/// What drawing the subtree of `id` appends, and the expanded marks (one per
/// task of the graph, in id order) after it. A task drawn a second time is
/// marked `[see above]` and not expanded again; `fuel` bounds the depth.
pub open spec fn node_out(
    g: Graph,
    id: i64,
    prefix: Seq<char>,
    last: bool,
    root: bool,
    m: Seq<bool>,
    fuel: nat,
) -> (Seq<char>, Seq<bool>)
    decreases fuel, 0int,
{
    if fuel == 0 {
        (Seq::empty(), m)
    } else {
        match g.spec_task(id) {
            None => (Seq::empty(), m),
            Some(t) => {
                let line = if root {
                    line_text(g, t)
                } else {
                    prefix + branch(last) + line_text(g, t)
                };
                let i = find_index(g.task_seq(), id);
                if m[i] {
                    (line + " [see above]\n"@, m)
                } else {
                    let cp = if root {
                        Seq::empty()
                    } else {
                        prefix + stem(last)
                    };
                    let rest = children_out(g, g.spec_children(id), 0, cp, m.update(i, true), (fuel - 1) as nat);
                    (line + "\n"@ + rest.0, rest.1)
                }
            },
        }
    }
}

/// What drawing the children `cs[k..]` below one parent appends, and the
/// marks after it.
pub open spec fn children_out(
    g: Graph,
    cs: Seq<i64>,
    k: int,
    prefix: Seq<char>,
    m: Seq<bool>,
    fuel: nat,
) -> (Seq<char>, Seq<bool>)
    decreases fuel, cs.len() - k + 1,
{
    if k < 0 || k >= cs.len() {
        (Seq::empty(), m)
    } else {
        let a = node_out(g, cs[k], prefix, k + 1 == cs.len(), false, m, fuel);
        let b = children_out(g, cs, k + 1, prefix, a.1, fuel);
        (a.0 + b.0, b.1)
    }
}

/// The pending tasks of `s` that no pending task depends on.
pub open spec fn roots_in(g: Graph, s: Seq<Task>) -> Seq<Task>
    decreases s.len(),
{
    if s.len() == 0 {
        Seq::empty()
    } else {
        let r = roots_in(g, s.drop_last());
        let t = s.last();
        if t.pending() && forall|k: int|
            0 <= k < g.spec_parents(t.id).len() ==> !g.pending_task(#[trigger] g.spec_parents(t.id)[k]) {
            r.push(t)
        } else {
            r
        }
    }
}

/// `t` is a task of the graph that is pending and that no pending task of
/// the graph depends on.
pub open spec fn is_root(g: Graph, t: Task) -> bool {
    &&& g.spec_task(t.id) == Some(t)
    &&& t.completed_at is None
    &&& t.deleted_at is None
    &&& forall|q: i64| g.spec_parents(t.id).contains(q) ==> !g.pending_task(q)
}

proof fn lemma_roots_in(g: Graph, s: Seq<Task>)
    requires
        g.valid(),
        forall|i: int| 0 <= i < s.len() ==> g.spec_task((#[trigger] s[i]).id) == Some(s[i]),
    ensures
        forall|t: Task| #[trigger] roots_in(g, s).contains(t) <==> (s.contains(t) && is_root(g, t)),
        ids_ascending(s) ==> ids_ascending(roots_in(g, s)),
    decreases s.len(),
{
    if s.len() > 0 {
        let p = s.drop_last();
        assert forall|i: int| 0 <= i < p.len() implies g.spec_task((#[trigger] p[i]).id) == Some(p[i]) by {
            assert(p[i] == s[i]);
        }
        lemma_roots_in(g, p);
        let r = roots_in(g, p);
        let m = roots_in(g, s);
        let t = s.last();
        assert(g.spec_task(s[s.len() - 1].id) == Some(s[s.len() - 1]));
        let cond = t.pending() && forall|k: int|
            0 <= k < g.spec_parents(t.id).len() ==> !g.pending_task(#[trigger] g.spec_parents(t.id)[k]);
        assert(cond <==> is_root(g, t)) by {
            if cond {
                assert forall|q: i64| g.spec_parents(t.id).contains(q) implies !g.pending_task(q) by {
                    let k = choose|k: int| 0 <= k < g.spec_parents(t.id).len() && g.spec_parents(t.id)[k] == q;
                }
            }
            if is_root(g, t) {
                assert forall|k: int| 0 <= k < g.spec_parents(t.id).len() implies !g.pending_task(
                    #[trigger] g.spec_parents(t.id)[k]) by {
                    assert(g.spec_parents(t.id).contains(g.spec_parents(t.id)[k]));
                }
            }
        }
        assert forall|x: Task| #[trigger] m.contains(x) <==> (s.contains(x) && is_root(g, x)) by {
            if s.contains(x) {
                let k = choose|k: int| 0 <= k < s.len() && s[k] == x;
                if k < s.len() - 1 {
                    assert(p[k] == x);
                }
            }
            if p.contains(x) {
                let k = choose|k: int| 0 <= k < p.len() && p[k] == x;
                assert(s[k] == x);
            }
            if r.contains(x) {
                let k = choose|k: int| 0 <= k < r.len() && r[k] == x;
                assert(m[k] == x || m == r);
            }
            if m.contains(x) && !r.contains(x) {
                assert(m == r.push(t));
                let k = choose|k: int| 0 <= k < m.len() && m[k] == x;
                assert(s[s.len() - 1] == x);
            }
            if x == t && is_root(g, t) {
                assert(m[m.len() - 1] == x);
            }
        }
        if ids_ascending(s) {
            assert(ids_ascending(p)) by {
                assert forall|i: int, j: int| 0 <= i < j < p.len() implies #[trigger] p[i].id < #[trigger] p[j].id by {
                    assert(s[i] == p[i] && s[j] == p[j]);
                }
            }
            assert forall|i: int, j: int| 0 <= i < j < m.len() implies #[trigger] m[i].id < #[trigger] m[j].id by {
                if j == r.len() {
                    assert(r.contains(r[i]));
                    let k = choose|k: int| 0 <= k < p.len() && p[k] == r[i];
                    assert(s[k] == p[k]);
                    assert(s[k].id < s[s.len() - 1].id);
                } else {
                    assert(m[i] == r[i] && m[j] == r[j]);
                }
            }
        }
    }
}

/// The trees that `tree` draws start at exactly the roots of the graph: a
/// task starts a tree if and only if it is pending and no pending task
/// depends on it, and the trees come in ascending id order.
pub proof fn law_tree_roots(g: Graph)
    requires
        g.valid(),
    ensures
        forall|t: Task| #[trigger] roots_in(g, g.task_seq()).contains(t) <==> is_root(g, t),
        forall|i: int, j: int|
            0 <= i < j < roots_in(g, g.task_seq()).len() ==> #[trigger] roots_in(g, g.task_seq())[i].id
                < #[trigger] roots_in(g, g.task_seq())[j].id,
        tree_text(g) == forest_out(
            g,
            roots_in(g, g.task_seq()),
            0,
            Seq::new(g.task_seq().len(), |j: int| false),
            (g.task_seq().len() + 1) as nat,
        ),
        tree_text(g).len() == 0 <==> !exists|t: Task| #[trigger] is_root(g, t),
{
    let ts = g.task_seq();
    assert forall|i: int| 0 <= i < ts.len() implies g.spec_task((#[trigger] ts[i]).id) == Some(ts[i]) by {
        crate::model::lemma_find_index_sorted(ts, i);
    }
    lemma_roots_in(g, ts);
    assert forall|t: Task| is_root(g, t) implies ts.contains(t) by {
        lemma_find_index_bounds(ts, t.id);
        let k = find_index(ts, t.id);
        assert(ts[k] == t);
    }
    let rs = roots_in(g, ts);
    if exists|t: Task| #[trigger] is_root(g, t) {
        let t = choose|t: Task| #[trigger] is_root(g, t);
        assert(rs.contains(t));
        let r0 = rs[0];
        assert(rs.contains(r0));
        let m = Seq::new(ts.len(), |j: int| false);
        let fuel = (ts.len() + 1) as nat;
        let a = node_out(g, r0.id, Seq::empty(), true, true, m, fuel);
        assert(g.spec_task(r0.id) == Some(r0));
        let line = line_text(g, r0);
        assert(line.len() > 0);
        assert(a.0.len() >= line.len());
        assert(tree_text(g) == Seq::<char>::empty() + a.0 + forest_out(g, rs, 1, a.1, fuel));
    } else {
        if rs.len() > 0 {
            assert(rs.contains(rs[0]));
        }
    }
}

/// The trees of all roots of `g`, in id order, with nothing expanded yet.
pub open spec fn tree_text(g: Graph) -> Seq<char> {
    forest_out(
        g,
        roots_in(g, g.task_seq()),
        0,
        Seq::new(g.task_seq().len(), |j: int| false),
        (g.task_seq().len() + 1) as nat,
    )
}

/// The trees of `roots[k..]`, blank lines between them, and the marks after.
pub open spec fn forest_out(g: Graph, roots: Seq<Task>, k: int, m: Seq<bool>, fuel: nat) -> Seq<char>
    decreases roots.len() - k,
{
    if k < 0 || k >= roots.len() {
        Seq::empty()
    } else {
        let a = node_out(g, roots[k].id, Seq::empty(), true, true, m, fuel);
        (if k > 0 {
            "\n"@
        } else {
            Seq::empty()
        }) + a.0 + forest_out(g, roots, k + 1, a.1, fuel)
    }
}

fn render_tree_node(
    graph: &Graph,
    id: i64,
    prefix: &String,
    last: bool,
    root: bool,
    expanded: &mut Vec<bool>,
    output: &mut String,
    Ghost(fuel): Ghost<nat>,
)
    requires
        graph.valid(),
        old(expanded)@.len() == graph.task_seq().len(),
        unmarked(old(expanded)@) < fuel,
    ensures
        final(output)@ == old(output)@ + node_out(*graph, id, prefix@, last, root, old(expanded)@, fuel).0,
        final(expanded)@ == node_out(*graph, id, prefix@, last, root, old(expanded)@, fuel).1,
        final(expanded)@.len() == old(expanded)@.len(),
        forall|j: int| 0 <= j < old(expanded)@.len() && #[trigger] old(expanded)@[j] ==> final(expanded)@[j],
    decreases unmarked(old(expanded)@),
{
    let ghost m0 = expanded@;
    let ghost out0 = output@;
    let task = match graph.task(id) {
        Some(t) => t,
        None => return,
    };
    let i = match graph.position(id) {
        Some(i) => i,
        None => {
            proof {
                lemma_find_index_bounds(graph.task_seq(), id);
            }
            return;
        },
    };
    if root {
        let line = task_line(graph, task);
        output.append(line.as_str());
    } else {
        output.append(prefix.as_str());
        if last {
            output.append("└─ ");
        } else {
            output.append("├─ ");
        }
        let line = task_line(graph, task);
        output.append(line.as_str());
    }
    if expanded[i] {
        output.append(" [see above]\n");
        return;
    }
    expanded.set(i, true);
    output.append("\n");
    let ghost m1 = expanded@;
    proof {
        assert forall|j: int| 0 <= j < m0.len() && #[trigger] m0[j] implies m1[j] by {}
        lemma_unmarked_grow(m0, m1, i as int);
    }
    let mut child_prefix = String::new();
    if !root {
        child_prefix = String::from_str(prefix.as_str());
        if last {
            child_prefix.append("   ");
        } else {
            child_prefix.append("│  ");
        }
    }
    let children = graph.children(id);
    let ghost f1: nat = (fuel - 1) as nat;
    let ghost total = children_out(*graph, children@, 0, child_prefix@, m1, f1);
    let ghost base = output@;
    let mut k: usize = 0;
    while k < children.len()
        invariant
            graph.valid(),
            children@ == graph.spec_children(id),
            k <= children@.len(),
            expanded@.len() == m0.len(),
            m0.len() == graph.task_seq().len(),
            unmarked(expanded@) <= unmarked(m1),
            unmarked(m1) < unmarked(m0),
            unmarked(m0) < fuel,
            m0 == old(expanded)@,
            f1 == fuel - 1,
            forall|j: int| 0 <= j < m0.len() && #[trigger] m0[j] ==> expanded@[j],
            output@ + children_out(*graph, children@, k as int, child_prefix@, expanded@, f1).0 == base + total.0,
            children_out(*graph, children@, k as int, child_prefix@, expanded@, f1).1 == total.1,
            total == children_out(*graph, children@, 0, child_prefix@, m1, f1),
        decreases children@.len() - k,
    {
        let ghost mk = expanded@;
        let ghost ok = output@;
        render_tree_node(
            graph,
            children[k],
            &child_prefix,
            k + 1 == children.len(),
            false,
            expanded,
            output,
            Ghost(f1),
        );
        proof {
            assert forall|j: int| 0 <= j < m0.len() && #[trigger] m0[j] implies expanded@[j] by {
                assert(mk[j]);
            }
            assert forall|j: int| 0 <= j < mk.len() && #[trigger] mk[j] implies expanded@[j] by {}
            lemma_unmarked_grow(mk, expanded@, 0);
            let a = node_out(*graph, children@[k as int], child_prefix@, k + 1 == children@.len(), false, mk, f1);
            let rest = children_out(*graph, children@, k + 1, child_prefix@, a.1, f1);
            assert(children_out(*graph, children@, k as int, child_prefix@, mk, f1) == (a.0 + rest.0, rest.1));
            assert(output@ == ok + a.0);
            assert(output@ + rest.0 == ok + (a.0 + rest.0));
        }
        k = k + 1;
    }
    proof {
        assert(children_out(*graph, children@, k as int, child_prefix@, expanded@, f1).0 == Seq::<char>::empty());
        assert(output@ == base + total.0);
        let t = graph.spec_task(id).unwrap();
        assert(*task == t);
        lemma_find_index_bounds(graph.task_seq(), id);
        assert(!m0[i as int]);
        assert(m1 == m0.update(i as int, true));
        if !root {
            assert(child_prefix@ == prefix@ + stem(last));
        } else {
            assert(child_prefix@ == Seq::<char>::empty());
        }
        assert forall|j: int| 0 <= j < m0.len() && #[trigger] m0[j] implies expanded@[j] by {}
    }
}

/// The pending tasks that no pending task depends on, each drawn as a tree
/// of the tasks it depends on, blank lines between the trees.
pub fn tree(graph: &Graph) -> (r: String)
    requires
        graph.valid(),
    ensures
        r@ == tree_text(*graph),
{
    let tasks = graph.tasks();
    let n = tasks.len();
    let mut roots: Vec<&Task> = Vec::new();
    let mut i: usize = 0;
    while i < n
        invariant
            graph.valid(),
            tasks@ == graph.task_seq(),
            n == tasks@.len(),
            i <= n,
            roots@.map_values(|t: &Task| *t) == roots_in(*graph, tasks@.subrange(0, i as int)),
        decreases n - i,
    {
        let t = &tasks[i];
        let ghost pre = tasks@.subrange(0, i + 1);
        assert(pre.drop_last() =~= tasks@.subrange(0, i as int));
        assert(pre.last() == *t);
        if t.is_pending() {
            let ps = graph.parents(t.id);
            let mut all = true;
            let mut k: usize = 0;
            while k < ps.len()
                invariant
                    graph.valid(),
                    ps@ == graph.spec_parents(t.id),
                    k <= ps@.len(),
                    all == forall|q: int| 0 <= q < k ==> !graph.pending_task(#[trigger] ps@[q]),
                decreases ps@.len() - k,
            {
                match graph.task(ps[k]) {
                    Some(pt) => {
                        if pt.is_pending() {
                            all = false;
                        }
                    },
                    None => {},
                }
                k = k + 1;
            }
            if all {
                roots.push(t);
                assert(roots@.map_values(|t: &Task| *t) =~= roots_in(*graph, pre));
            }
        }
        i = i + 1;
    }
    assert(tasks@.subrange(0, i as int) =~= tasks@);
    let ghost rs = roots@.map_values(|t: &Task| *t);
    let mut marks: Vec<bool> = Vec::new();
    let mut j: usize = 0;
    while j < n
        invariant
            j <= n,
            marks@.len() == j,
            forall|q: int| 0 <= q < j ==> !(#[trigger] marks@[q]),
        decreases n - j,
    {
        marks.push(false);
        j = j + 1;
    }
    assert(marks@ =~= Seq::new(graph.task_seq().len(), |q: int| false));
    let ghost fuel: nat = (n + 1) as nat;
    let ghost total = forest_out(*graph, rs, 0, marks@, fuel);
    let mut out = String::new();
    let empty = String::new();
    let mut k: usize = 0;
    while k < roots.len()
        invariant
            graph.valid(),
            n == graph.task_seq().len(),
            fuel == n + 1,
            k <= roots@.len(),
            rs == roots@.map_values(|t: &Task| *t),
            marks@.len() == n,
            empty@ == Seq::<char>::empty(),
            out@ + forest_out(*graph, rs, k as int, marks@, fuel) == total,
        decreases roots@.len() - k,
    {
        let ghost ok = out@;
        let ghost mk = marks@;
        if k > 0 {
            out.append("\n");
        }
        proof {
            lemma_unmarked_len(marks@);
        }
        let root = roots[k];
        assert(rs[k as int] == *root);
        render_tree_node(graph, root.id, &empty, true, true, &mut marks, &mut out, Ghost(fuel));
        proof {
            let a = node_out(*graph, rs[k as int].id, Seq::empty(), true, true, mk, fuel);
            assert(forest_out(*graph, rs, k as int, mk, fuel) == (if k > 0 {
                "\n"@
            } else {
                Seq::<char>::empty()
            }) + a.0 + forest_out(*graph, rs, k + 1, a.1, fuel));
            assert(out@ + forest_out(*graph, rs, k + 1, marks@, fuel) =~= ok + forest_out(*graph, rs, k as int, mk, fuel));
        }
        k = k + 1;
    }
    assert(out@ =~= total);
    out
}

} // verus!
