//! Tasks, dependencies between them, and the scheduling graph.

use vstd::prelude::*;

use crate::error::Error;
use crate::text::{has_char, chars_of, trim, trimmed};

verus! {

/// One task of the list.
#[derive(Clone, Debug, PartialEq, Eq)]
pub struct Task {
    pub id: i64,
    pub priority: u8,
    pub description: String,
    pub created_at: i64,
    pub updated_at: i64,
    pub completed_at: Option<i64>,
    pub deleted_at: Option<i64>,
    pub ready_at: Option<i64>,
}

impl Task {
    /// Neither completed nor deleted.
    pub open spec fn pending(self) -> bool {
        self.completed_at is None && self.deleted_at is None
    }

    /// Completed and not deleted.
    pub open spec fn completed(self) -> bool {
        self.completed_at is Some && self.deleted_at is None
    }

    /// Neither completed nor deleted.
    pub fn is_pending(&self) -> (r: bool)
        ensures
            r == self.pending(),
    {
        self.completed_at.is_none() && self.deleted_at.is_none()
    }

    /// Completed and not deleted.
    pub fn is_completed(&self) -> (r: bool)
        ensures
            r == self.completed(),
    {
        self.completed_at.is_some() && self.deleted_at.is_none()
    }

    /// An equal task with its own description string.
    pub fn duplicate(&self) -> (r: Task)
        ensures
            r == *self,
    {
        Task {
            id: self.id,
            priority: self.priority,
            description: self.description.clone(),
            created_at: self.created_at,
            updated_at: self.updated_at,
            completed_at: self.completed_at,
            deleted_at: self.deleted_at,
            ready_at: self.ready_at,
        }
    }
}

/// `parent` depends on `child`: the child is a prerequisite of the parent.
#[derive(Clone, Copy, Debug, PartialEq, Eq, Hash, Structural)]
pub struct Dependency {
    pub parent: i64,
    pub child: i64,
}

/// Ids strictly ascending along the sequence.
pub open spec fn ids_ascending(s: Seq<Task>) -> bool {
    forall|i: int, j: int| 0 <= i < j < s.len() ==> #[trigger] s[i].id < #[trigger] s[j].id
}

/// The last index of a task with `id`, or -1.
pub open spec fn find_index(s: Seq<Task>, id: i64) -> int
    decreases s.len(),
{
    if s.len() == 0 {
        -1
    } else if s.last().id == id {
        s.len() - 1
    } else {
        find_index(s.drop_last(), id)
    }
}

/// The last task with `id`.
pub open spec fn find_task(s: Seq<Task>, id: i64) -> Option<Task> {
    let i = find_index(s, id);
    if i >= 0 {
        Some(s[i])
    } else {
        None
    }
}

/// The last task of `s` with `id` that is not deleted.
pub open spec fn last_live(s: Seq<Task>, id: i64) -> Option<Task>
    decreases s.len(),
{
    if s.len() == 0 {
        None
    } else if s.last().id == id && s.last().deleted_at is None {
        Some(s.last())
    } else {
        last_live(s.drop_last(), id)
    }
}

/// `find_index` is -1 or the index of a task with that id.
pub proof fn lemma_find_index_bounds(s: Seq<Task>, id: i64)
    ensures
        -1 <= find_index(s, id) < s.len(),
        find_index(s, id) >= 0 ==> s[find_index(s, id)].id == id,
        find_index(s, id) < 0 ==> forall|k: int| 0 <= k < s.len() ==> #[trigger] s[k].id != id,
    decreases s.len(),
{
    if s.len() > 0 {
        lemma_find_index_bounds(s.drop_last(), id);
        if s.last().id != id {
            assert forall|k: int| 0 <= k < s.len() - 1 implies #[trigger] s[k].id == s.drop_last()[k].id by {}
        }
    }
}

/// In rows sorted by id, the id of row `i` is found at `i`.
pub proof fn lemma_find_index_sorted(s: Seq<Task>, i: int)
    requires
        ids_ascending(s),
        0 <= i < s.len(),
    ensures
        find_index(s, s[i].id) == i,
    decreases s.len(),
{
    if i < s.len() - 1 {
        assert(s.last().id > s[i].id);
        let t = s.drop_last();
        assert(t[i] == s[i]);
        lemma_find_index_sorted(t, i);
    }
}

/// Where a task with `id` is, or would go, in a sequence sorted by id.
pub fn search(s: &Vec<Task>, id: i64) -> (r: Result<usize, usize>)
    requires
        ids_ascending(s@),
    ensures
        r matches Ok(i) ==> i < s@.len() && s@[i as int].id == id,
        r matches Err(i) ==> i <= s@.len() && (forall|k: int| 0 <= k < i ==> #[trigger] s@[k].id
            < id) && (forall|k: int| i <= k < s@.len() ==> #[trigger] s@[k].id > id),
{
    let mut lo: usize = 0;
    let mut hi: usize = s.len();
    while lo < hi
        invariant
            ids_ascending(s@),
            lo <= hi <= s@.len(),
            forall|k: int| 0 <= k < lo ==> #[trigger] s@[k].id < id,
            forall|k: int| hi <= k < s@.len() ==> #[trigger] s@[k].id > id,
        decreases hi - lo,
    {
        let mid = lo + (hi - lo) / 2;
        let m = s[mid].id;
        if m == id {
            return Ok(mid);
        } else if m < id {
            lo = mid + 1;
        } else {
            hi = mid;
        }
    }
    Err(lo)
}


/// In rows sorted by id, a task is found exactly when some row has the id.
pub proof fn lemma_find_task_sorted(s: Seq<Task>, id: i64)
    requires
        ids_ascending(s),
    ensures
        find_task(s, id) is None <==> forall|k: int| 0 <= k < s.len() ==> #[trigger] s[k].id != id,
        forall|k: int| 0 <= k < s.len() && #[trigger] s[k].id == id ==> find_task(s, id) == Some(s[k]),
{
    lemma_find_index_bounds(s, id);
    assert forall|k: int| 0 <= k < s.len() && #[trigger] s[k].id == id implies find_task(s, id) == Some(s[k]) by {
        lemma_find_index_sorted(s, k);
    }
}

/// The tasks of `tasks` that are not deleted, the last of each id, sorted by id.
fn live_by_id(tasks: Vec<Task>) -> (r: Vec<Task>)
    ensures
        ids_ascending(r@),
        forall|id: i64| #[trigger] find_task(r@, id) == last_live(tasks@, id),
{
    let ghost orig = tasks@;
    let mut rest = tasks;
    let mut sorted: Vec<Task> = Vec::new();
    while rest.len() > 0
        invariant
            ids_ascending(sorted@),
            rest@.len() <= orig.len(),
            rest@ == orig.subrange(0, rest@.len() as int),
            forall|id: i64| #[trigger] last_live(orig, id) == match find_task(sorted@, id) {
                Some(t) => Some(t),
                None => last_live(rest@, id),
            },
        decreases rest@.len(),
    {
        let ghost before = rest@;
        let ghost old_sorted = sorted@;
        let e = rest.pop().unwrap();
        assert(rest@ == before.drop_last());
        assert(rest@ =~= orig.subrange(0, rest@.len() as int));
        let ghost mut inserted: Option<int> = None;
        if e.deleted_at.is_none() {
            match search(&sorted, e.id) {
                Ok(_) => {},
                Err(pos) => {
                    sorted.insert(pos, e);
                    proof {
                        inserted = Some(pos as int);
                        old_sorted.insert_ensures(pos as int, e);
                        assert forall|i: int, j: int| 0 <= i < j < sorted@.len() implies #[trigger] sorted@[i].id < #[trigger] sorted@[j].id by {
                            if j < pos {
                            } else if i > pos {
                                assert(sorted@[i] == old_sorted[i - 1]);
                                assert(sorted@[j] == old_sorted[j - 1]);
                            } else if i == pos {
                                assert(sorted@[j] == old_sorted[j - 1]);
                            } else {
                                if j > pos {
                                    assert(sorted@[j] == old_sorted[j - 1]);
                                }
                            }
                        }
                    }
                },
            }
        }
        proof {
            assert forall|id: i64| #[trigger] last_live(orig, id) == match find_task(sorted@, id) {
                Some(t) => Some(t),
                None => last_live(rest@, id),
            } by {
                lemma_find_task_sorted(old_sorted, id);
                lemma_find_task_sorted(sorted@, id);
                assert(last_live(before, id) == if e.id == id && e.deleted_at is None {
                    Some(e)
                } else {
                    last_live(rest@, id)
                });
                match inserted {
                    None => {
                        assert(sorted@ == old_sorted);
                        if e.id == id && e.deleted_at is None {
                            assert(find_task(old_sorted, id) is Some);
                        }
                    },
                    Some(pos) => {
                        assert(sorted@ == old_sorted.insert(pos, e));
                        old_sorted.insert_ensures(pos, e);
                        if id == e.id {
                            assert(sorted@[pos].id == id);
                        } else {
                            if find_task(old_sorted, id) is Some {
                                let k = choose|k: int| 0 <= k < old_sorted.len() && #[trigger] old_sorted[k].id == id;
                                if k < pos {
                                    assert(sorted@[k] == old_sorted[k]);
                                } else {
                                    assert(sorted@[k + 1] == old_sorted[k]);
                                }
                            } else {
                                assert forall|k: int| 0 <= k < sorted@.len() implies #[trigger] sorted@[k].id != id by {
                                    if k < pos {
                                        assert(sorted@[k] == old_sorted[k]);
                                    } else if k > pos {
                                        assert(sorted@[k] == old_sorted[k - 1]);
                                    }
                                }
                            }
                        }
                    },
                }
            }
        }
    }
    assert(rest@ =~= Seq::<Task>::empty());
    sorted
}


/// Values ascending (ties allowed) along the sequence.
pub open spec fn ascending(s: Seq<i64>) -> bool {
    forall|i: int, j: int| 0 <= i < j < s.len() ==> #[trigger] s[i] <= #[trigger] s[j]
}

/// Whether `tasks` holds a task with `id`.
pub open spec fn has_task(tasks: Seq<Task>, id: i64) -> bool {
    find_task(tasks, id) is Some
}

/// The children that `deps` give `id`, in the order of `deps`, counting only
/// dependencies whose two ends are tasks of `tasks`.
pub open spec fn edge_children(deps: Seq<Dependency>, tasks: Seq<Task>, id: i64) -> Seq<i64>
    decreases deps.len(),
{
    if deps.len() == 0 {
        Seq::empty()
    } else {
        let rest = edge_children(deps.drop_last(), tasks, id);
        let d = deps.last();
        if d.parent == id && has_task(tasks, d.parent) && has_task(tasks, d.child) {
            rest.push(d.child)
        } else {
            rest
        }
    }
}

/// The parents that `deps` give `id`, in the order of `deps`, counting only
/// dependencies whose two ends are tasks of `tasks`.
pub open spec fn edge_parents(deps: Seq<Dependency>, tasks: Seq<Task>, id: i64) -> Seq<i64>
    decreases deps.len(),
{
    if deps.len() == 0 {
        Seq::empty()
    } else {
        let rest = edge_parents(deps.drop_last(), tasks, id);
        let d = deps.last();
        if d.child == id && has_task(tasks, d.parent) && has_task(tasks, d.child) {
            rest.push(d.parent)
        } else {
            rest
        }
    }
}

proof fn lemma_insert_multiset(s: Seq<i64>, pos: int, x: i64)
    requires
        0 <= pos <= s.len(),
    ensures
        s.insert(pos, x).to_multiset() =~= s.to_multiset().insert(x),
{
    broadcast use vstd::seq_lib::group_to_multiset_ensures;
    let n = s.insert(pos, x);
    s.insert_ensures(pos, x);
    assert(n.remove(pos) =~= s);
    assert(n[pos] == x);
    assert(n.remove(pos).to_multiset() =~= n.to_multiset().remove(x));
    assert(n.contains(x));
    assert(n.to_multiset().count(x) > 0);
}

/// `v` sorted ascending.
pub fn sort_ids(v: &Vec<i64>) -> (r: Vec<i64>)
    ensures
        ascending(r@),
        r@.to_multiset() == v@.to_multiset(),
{
    broadcast use vstd::seq_lib::group_to_multiset_ensures;
    let mut r: Vec<i64> = Vec::new();
    let mut k: usize = 0;
    while k < v.len()
        invariant
            k <= v@.len(),
            ascending(r@),
            r@.to_multiset() == v@.subrange(0, k as int).to_multiset(),
        decreases v@.len() - k,
    {
        let x = v[k];
        let mut pos: usize = 0;
        while pos < r.len() && r[pos] <= x
            invariant
                pos <= r@.len(),
                forall|q: int| 0 <= q < pos ==> #[trigger] r@[q] <= x,
            decreases r@.len() - pos,
        {
            pos = pos + 1;
        }
        let ghost old_r = r@;
        r.insert(pos, x);
        proof {
            lemma_insert_multiset(old_r, pos as int, x);
            old_r.insert_ensures(pos as int, x);
            assert forall|i: int, j: int| 0 <= i < j < r@.len() implies #[trigger] r@[i] <= #[trigger] r@[j] by {
                if j < pos {
                } else if i > pos {
                    assert(r@[i] == old_r[i - 1]);
                    assert(r@[j] == old_r[j - 1]);
                } else if i == pos {
                    assert(r@[j] == old_r[j - 1]);
                    assert(old_r[pos as int] > x);
                } else {
                    if j > pos {
                        assert(r@[j] == old_r[j - 1]);
                    }
                }
            }
            assert(v@.subrange(0, k + 1) =~= v@.subrange(0, k as int).push(x));
            v@.subrange(0, k as int).to_multiset_ensures();
            assert(v@.subrange(0, k as int).push(x).to_multiset() =~= v@.subrange(0, k as int).to_multiset().insert(x));
        }
        k = k + 1;
    }
    assert(v@.subrange(0, k as int) =~= v@);
    r
}

/// Whether a sorted task sequence holds `id`.
fn contains_id(tasks: &Vec<Task>, id: i64) -> (r: bool)
    requires
        ids_ascending(tasks@),
    ensures
        r == has_task(tasks@, id),
{
    proof {
        lemma_find_task_sorted(tasks@, id);
    }
    match search(tasks, id) {
        Ok(_) => true,
        Err(_) => false,
    }
}

/// The children, or else the parents, that `deps` give `id`, in list order.
fn collect_links(deps: &Vec<Dependency>, tasks: &Vec<Task>, id: i64, children: bool) -> (r: Vec<i64>)
    requires
        ids_ascending(tasks@),
    ensures
        children ==> r@ == edge_children(deps@, tasks@, id),
        !children ==> r@ == edge_parents(deps@, tasks@, id),
{
    let mut r: Vec<i64> = Vec::new();
    let mut k: usize = 0;
    while k < deps.len()
        invariant
            ids_ascending(tasks@),
            k <= deps@.len(),
            children ==> r@ == edge_children(deps@.subrange(0, k as int), tasks@, id),
            !children ==> r@ == edge_parents(deps@.subrange(0, k as int), tasks@, id),
        decreases deps@.len() - k,
    {
        let d = deps[k];
        proof {
            let pre = deps@.subrange(0, k + 1);
            assert(pre.drop_last() =~= deps@.subrange(0, k as int));
            assert(pre.last() == d);
        }
        if children {
            if d.parent == id && contains_id(tasks, d.parent) && contains_id(tasks, d.child) {
                r.push(d.child);
            }
        } else {
            if d.child == id && contains_id(tasks, d.parent) && contains_id(tasks, d.child) {
                r.push(d.parent);
            }
        }
        k = k + 1;
    }
    assert(deps@.subrange(0, k as int) =~= deps@);
    r
}


/// The list that `lists` holds for the task `id` of `tasks`, or nothing.
pub open spec fn list_of(tasks: Seq<Task>, lists: Seq<Seq<i64>>, id: i64) -> Seq<i64> {
    let i = find_index(tasks, id);
    if i >= 0 {
        lists[i]
    } else {
        Seq::empty()
    }
}

/// `id` is a task of `tasks` that is pending.
pub open spec fn pending_in(tasks: Seq<Task>, id: i64) -> bool {
    find_task(tasks, id) matches Some(t) && t.pending()
}

/// The intrinsic priority of task `id` of `tasks`.
pub open spec fn priority_in(tasks: Seq<Task>, id: i64) -> u8 {
    find_task(tasks, id).unwrap().priority
}

/// A chain of pending tasks, each a parent of the next: urgency flows along it.
pub open spec fn urgency_path_in(tasks: Seq<Task>, parents: Seq<Seq<i64>>, path: Seq<i64>) -> bool {
    &&& path.len() >= 1
    &&& forall|i: int| 0 <= i < path.len() ==> pending_in(tasks, #[trigger] path[i])
    &&& forall|i: int|
        0 < i < path.len() ==> list_of(tasks, parents, #[trigger] path[i]).contains(path[i - 1])
}

/// Urgency flows from `a` to `t`: a chain of pending tasks leads from `a`
/// down to its prerequisite `t` (`a` itself when the chain has one task).
pub open spec fn urges_in(tasks: Seq<Task>, parents: Seq<Seq<i64>>, a: i64, t: i64) -> bool {
    exists|path: Seq<i64>| #[trigger]
        urgency_path_in(tasks, parents, path) && path[0] == a && path.last() == t
}

/// `e` is the smallest intrinsic priority among the tasks whose urgency flows to `t`.
pub open spec fn urgency_min_in(tasks: Seq<Task>, parents: Seq<Seq<i64>>, t: i64, e: u8) -> bool {
    &&& exists|a: i64| #[trigger] urges_in(tasks, parents, a, t) && priority_in(tasks, a) == e
    &&& forall|a: i64| #[trigger] urges_in(tasks, parents, a, t) ==> e <= priority_in(tasks, a)
}

/// The sum of a sequence of small numbers.
pub open spec fn total(s: Seq<u8>) -> nat
    decreases s.len(),
{
    if s.len() == 0 {
        0
    } else {
        total(s.drop_last()) + s.last() as nat
    }
}

proof fn lemma_total_update(s: Seq<u8>, i: int, v: u8)
    requires
        0 <= i < s.len(),
    ensures
        total(s.update(i, v)) + s[i] == total(s) + v,
    decreases s.len(),
{
    if i < s.len() - 1 {
        lemma_total_update(s.drop_last(), i, v);
        assert(s.update(i, v).drop_last() =~= s.drop_last().update(i, v));
    } else {
        assert(s.update(i, v).drop_last() =~= s.drop_last());
    }
}

/// The parents of every task are tasks, in a list as long as the tasks.
pub open spec fn links_present(tasks: Seq<Task>, lists: Seq<Seq<i64>>) -> bool {
    &&& lists.len() == tasks.len()
    &&& forall|i: int, k: int|
        0 <= i < lists.len() && 0 <= k < lists[i].len() ==> has_task(tasks, #[trigger] lists[i][k])
}

/// At a fixpoint, no pending task is less urgent than a pending parent.
spec fn settled(tasks: Seq<Task>, parents: Seq<Seq<i64>>, vals: Seq<u8>) -> bool {
    forall|i: int, k: int|
        0 <= i < tasks.len() && tasks[i].pending() && 0 <= k < parents[i].len() && pending_in(
            tasks,
            #[trigger] parents[i][k],
        ) ==> vals[i] <= vals[find_index(tasks, parents[i][k])]
}

proof fn lemma_settled_bound(
    tasks: Seq<Task>,
    parents: Seq<Seq<i64>>,
    vals: Seq<u8>,
    path: Seq<i64>,
)
    requires
        ids_ascending(tasks),
        links_present(tasks, parents),
        vals.len() == tasks.len(),
        settled(tasks, parents, vals),
        forall|i: int| 0 <= i < tasks.len() && tasks[i].pending() ==> #[trigger] vals[i] <= tasks[i].priority,
        urgency_path_in(tasks, parents, path),
    ensures
        vals[find_index(tasks, path.last())] <= priority_in(tasks, path[0]),
    decreases path.len(),
{
    let t = path.last();
    assert(pending_in(tasks, path[path.len() - 1]));
    lemma_find_index_bounds(tasks, t);
    if path.len() == 1 {
    } else {
        let q = path.drop_last();
        assert forall|i: int| 0 <= i < q.len() implies pending_in(tasks, #[trigger] q[i]) by {
            assert(q[i] == path[i]);
        }
        assert forall|i: int| 0 < i < q.len() implies list_of(tasks, parents, #[trigger] q[i]).contains(q[i - 1]) by {
            assert(q[i] == path[i]);
            assert(q[i - 1] == path[i - 1]);
        }
        lemma_settled_bound(tasks, parents, vals, q);
        let p = path[path.len() - 2];
        assert(list_of(tasks, parents, path[path.len() - 1]).contains(p));
        let ti = find_index(tasks, t);
        let k = choose|k: int| 0 <= k < parents[ti].len() && parents[ti][k] == p;
        assert(pending_in(tasks, path[path.len() - 2]));
        assert(parents[ti][k] == p);
        assert(tasks[ti].pending());
    }
}

/// The effective priority of every task of `tasks`: for a pending task the
/// smallest intrinsic priority among the pending tasks whose urgency flows to it.
fn settle_urgency(tasks: &Vec<Task>, parents: &Vec<Vec<i64>>) -> (eff: Vec<Option<u8>>)
    requires
        ids_ascending(tasks@),
        links_present(tasks@, parents@.map_values(|v: Vec<i64>| v@)),
    ensures
        eff@.len() == tasks@.len(),
        forall|i: int| 0 <= i < tasks@.len() ==> (#[trigger] eff@[i] is Some <==> tasks@[i].pending()),
        forall|i: int|
            0 <= i < tasks@.len() && #[trigger] eff@[i] is Some ==> urgency_min_in(
                tasks@,
                parents@.map_values(|v: Vec<i64>| v@),
                tasks@[i].id,
                eff@[i].unwrap(),
            ),
{
    let ghost ps = parents@.map_values(|v: Vec<i64>| v@);
    let n = tasks.len();
    let mut vals: Vec<u8> = Vec::new();
    let mut i: usize = 0;
    while i < n
        invariant
            n == tasks@.len(),
            i <= n,
            ids_ascending(tasks@),
            vals@.len() == i,
            forall|j: int| 0 <= j < i ==> #[trigger] vals@[j] == tasks@[j].priority,
        decreases n - i,
    {
        vals.push(tasks[i].priority);
        i = i + 1;
    }
    proof {
        assert forall|j: int| 0 <= j < n && tasks@[j].pending() implies exists|a: i64| #[trigger]
            urges_in(tasks@, ps, a, tasks@[j].id) && priority_in(tasks@, a) == vals@[j] by {
            let id = tasks@[j].id;
            lemma_find_index_sorted(tasks@, j);
            let path = seq![id];
            assert(urgency_path_in(tasks@, ps, path));
            assert(urges_in(tasks@, ps, id, id));
        }
    }
    loop
        invariant
            n == tasks@.len(),
            ids_ascending(tasks@),
            links_present(tasks@, ps),
            ps == parents@.map_values(|v: Vec<i64>| v@),
            vals@.len() == n,
            forall|j: int| 0 <= j < n && tasks@[j].pending() ==> #[trigger] vals@[j] <= tasks@[j].priority,
            forall|j: int| 0 <= j < n && tasks@[j].pending() ==> exists|a: i64| #[trigger]
                urges_in(tasks@, ps, a, tasks@[j].id) && priority_in(tasks@, a) == vals@[j],
        ensures
            vals@.len() == n,
            settled(tasks@, ps, vals@),
            forall|j: int| 0 <= j < n && tasks@[j].pending() ==> #[trigger] vals@[j] <= tasks@[j].priority,
            forall|j: int| 0 <= j < n && tasks@[j].pending() ==> exists|a: i64| #[trigger]
                urges_in(tasks@, ps, a, tasks@[j].id) && priority_in(tasks@, a) == vals@[j],
        decreases total(vals@),
    {
        let ghost start = vals@;
        let mut changed = false;
        let mut i: usize = 0;
        while i < n
            invariant
                n == tasks@.len(),
                i <= n,
                ids_ascending(tasks@),
                links_present(tasks@, ps),
                ps == parents@.map_values(|v: Vec<i64>| v@),
                vals@.len() == n,
                start.len() == n,
                forall|j: int| 0 <= j < n && tasks@[j].pending() ==> #[trigger] vals@[j] <= tasks@[j].priority,
                forall|j: int| 0 <= j < n && tasks@[j].pending() ==> exists|a: i64| #[trigger]
                    urges_in(tasks@, ps, a, tasks@[j].id) && priority_in(tasks@, a) == vals@[j],
                changed ==> total(vals@) < total(start),
                !changed ==> vals@ == start,
                !changed ==> forall|j: int, k: int|
                    0 <= j < i && tasks@[j].pending() && 0 <= k < ps[j].len() && pending_in(
                        tasks@,
                        #[trigger] ps[j][k],
                    ) ==> vals@[j] <= vals@[find_index(tasks@, ps[j][k])],
            decreases n - i,
        {
            if tasks[i].is_pending() {
                let list = &parents[i];
                assert(list@ == ps[i as int]);
                let mut k: usize = 0;
                while k < list.len()
                    invariant
                        n == tasks@.len(),
                        i < n,
                        k <= list@.len(),
                        list@ == ps[i as int],
                        tasks@[i as int].pending(),
                        ids_ascending(tasks@),
                        links_present(tasks@, ps),
                        ps == parents@.map_values(|v: Vec<i64>| v@),
                        vals@.len() == n,
                        start.len() == n,
                        forall|j: int| 0 <= j < n && tasks@[j].pending() ==> #[trigger] vals@[j] <= tasks@[j].priority,
                        forall|j: int| 0 <= j < n && tasks@[j].pending() ==> exists|a: i64| #[trigger]
                            urges_in(tasks@, ps, a, tasks@[j].id) && priority_in(tasks@, a) == vals@[j],
                        changed ==> total(vals@) < total(start),
                        !changed ==> vals@ == start,
                        !changed ==> forall|j: int, k2: int|
                            0 <= j < i && tasks@[j].pending() && 0 <= k2 < ps[j].len() && pending_in(
                                tasks@,
                                #[trigger] ps[j][k2],
                            ) ==> vals@[j] <= vals@[find_index(tasks@, ps[j][k2])],
                        !changed ==> forall|k2: int|
                            0 <= k2 < k && pending_in(tasks@, #[trigger] ps[i as int][k2]) ==> vals@[i as int]
                                <= vals@[find_index(tasks@, ps[i as int][k2])],
                    decreases list@.len() - k,
                {
                    let p = list[k];
                    proof {
                        assert(has_task(tasks@, ps[i as int][k as int]));
                        lemma_find_task_sorted(tasks@, p);
                        lemma_find_index_bounds(tasks@, p);
                    }
                    match search(tasks, p) {
                        Ok(j) => {
                            proof {
                                lemma_find_index_sorted(tasks@, j as int);
                            }
                            if tasks[j].is_pending() && vals[j] < vals[i] {
                                let ghost before = vals@;
                                let v = vals[j];
                                vals.set(i, v);
                                proof {
                                    lemma_total_update(before, i as int, v);
                                    let id = tasks@[i as int].id;
                                    lemma_find_index_sorted(tasks@, i as int);
                                    let a = choose|a: i64| #[trigger]
                                        urges_in(tasks@, ps, a, tasks@[j as int].id) && priority_in(tasks@, a) == before[j as int];
                                    let path = choose|path: Seq<i64>| #[trigger]
                                        urgency_path_in(tasks@, ps, path) && path[0] == a && path.last() == p;
                                    let np = path.push(id);
                                    assert(np[np.len() - 1] == id);
                                    assert forall|q: int| 0 <= q < np.len() implies pending_in(tasks@, #[trigger] np[q]) by {
                                        if q < path.len() {
                                            assert(np[q] == path[q]);
                                        }
                                    }
                                    assert forall|q: int| 0 < q < np.len() implies list_of(tasks@, ps, #[trigger] np[q]).contains(np[q - 1]) by {
                                        if q < path.len() {
                                            assert(np[q] == path[q]);
                                            assert(np[q - 1] == path[q - 1]);
                                        } else {
                                            assert(np[q - 1] == path.last());
                                            assert(list_of(tasks@, ps, id) == ps[i as int]);
                                            assert(ps[i as int][k as int] == p);
                                        }
                                    }
                                    assert(urgency_path_in(tasks@, ps, np));
                                    assert(urges_in(tasks@, ps, a, id));
                                    assert forall|j2: int| 0 <= j2 < n && tasks@[j2].pending() implies exists|a2: i64| #[trigger]
                                        urges_in(tasks@, ps, a2, tasks@[j2].id) && priority_in(tasks@, a2) == vals@[j2] by {
                                        if j2 != i {
                                            assert(vals@[j2] == before[j2]);
                                        }
                                    }
                                }
                                changed = true;
                            }
                        },
                        Err(_) => {},
                    }
                    k = k + 1;
                }
            }
            i = i + 1;
        }
        if !changed {
            break;
        }
    }
    let mut eff: Vec<Option<u8>> = Vec::new();
    let mut i: usize = 0;
    while i < n
        invariant
            n == tasks@.len(),
            i <= n,
            vals@.len() == n,
            eff@.len() == i,
            forall|j: int| 0 <= j < i ==> (#[trigger] eff@[j] is Some <==> tasks@[j].pending()),
            forall|j: int| 0 <= j < i && #[trigger] eff@[j] is Some ==> eff@[j].unwrap() == vals@[j],
        decreases n - i,
    {
        if tasks[i].is_pending() {
            eff.push(Some(vals[i]));
        } else {
            eff.push(None);
        }
        i = i + 1;
    }
    proof {
        assert forall|j: int| 0 <= j < n && #[trigger] eff@[j] is Some implies urgency_min_in(
            tasks@,
            ps,
            tasks@[j].id,
            eff@[j].unwrap(),
        ) by {
            lemma_find_index_sorted(tasks@, j);
            assert forall|a: i64| #[trigger] urges_in(tasks@, ps, a, tasks@[j].id) implies vals@[j] <= priority_in(tasks@, a) by {
                let path = choose|path: Seq<i64>| #[trigger]
                    urgency_path_in(tasks@, ps, path) && path[0] == a && path.last() == tasks@[j].id;
                lemma_settled_bound(tasks@, ps, vals@, path);
            }
        }
    }
    eff
}


proof fn lemma_edges_absent(deps: Seq<Dependency>, tasks: Seq<Task>, id: i64)
    requires
        !has_task(tasks, id),
    ensures
        edge_children(deps, tasks, id) =~= Seq::<i64>::empty(),
        edge_parents(deps, tasks, id) =~= Seq::<i64>::empty(),
    decreases deps.len(),
{
    if deps.len() > 0 {
        lemma_edges_absent(deps.drop_last(), tasks, id);
    }
}

proof fn lemma_edges_present(deps: Seq<Dependency>, tasks: Seq<Task>, id: i64)
    ensures
        forall|k: int|
            0 <= k < edge_children(deps, tasks, id).len() ==> has_task(
                tasks,
                #[trigger] edge_children(deps, tasks, id)[k],
            ),
        forall|k: int|
            0 <= k < edge_parents(deps, tasks, id).len() ==> has_task(
                tasks,
                #[trigger] edge_parents(deps, tasks, id)[k],
            ),
    decreases deps.len(),
{
    if deps.len() > 0 {
        lemma_edges_present(deps.drop_last(), tasks, id);
        let rc = edge_children(deps.drop_last(), tasks, id);
        let rp = edge_parents(deps.drop_last(), tasks, id);
        let c = edge_children(deps, tasks, id);
        let p = edge_parents(deps, tasks, id);
        assert forall|k: int| 0 <= k < c.len() implies has_task(tasks, #[trigger] c[k]) by {
            if k < rc.len() {
                assert(c[k] == rc[k]);
            }
        }
        assert forall|k: int| 0 <= k < p.len() implies has_task(tasks, #[trigger] p[k]) by {
            if k < rp.len() {
                assert(p[k] == rp[k]);
            }
        }
    }
}

/// The sorted link list for `id`, and that each of its ids is a task.
fn sorted_links(deps: &Vec<Dependency>, tasks: &Vec<Task>, id: i64, children: bool) -> (r: Vec<i64>)
    requires
        ids_ascending(tasks@),
    ensures
        ascending(r@),
        children ==> r@.to_multiset() == edge_children(deps@, tasks@, id).to_multiset(),
        !children ==> r@.to_multiset() == edge_parents(deps@, tasks@, id).to_multiset(),
        forall|k: int| 0 <= k < r@.len() ==> has_task(tasks@, #[trigger] r@[k]),
{
    let raw = collect_links(deps, tasks, id, children);
    let r = sort_ids(&raw);
    proof {
        lemma_edges_present(deps@, tasks@, id);
        assert forall|k: int| 0 <= k < r@.len() implies has_task(tasks@, #[trigger] r@[k]) by {
            r@.to_multiset_ensures();
            raw@.to_multiset_ensures();
            assert(r@.contains(r@[k]));
            assert(r@.to_multiset().count(r@[k]) > 0);
            assert(raw@.to_multiset().count(r@[k]) > 0);
            assert(raw@.contains(r@[k]));
            let q = choose|q: int| 0 <= q < raw@.len() && raw@[q] == r@[k];
            assert(has_task(tasks@, raw@[q]));
        }
    }
    r
}

/// Two strictly ascending sequences with the same elements are equal.
proof fn lemma_strict_same(a: Seq<i64>, b: Seq<i64>)
    requires
        forall|i: int, j: int| 0 <= i < j < a.len() ==> #[trigger] a[i] < #[trigger] a[j],
        forall|i: int, j: int| 0 <= i < j < b.len() ==> #[trigger] b[i] < #[trigger] b[j],
        forall|x: i64| a.contains(x) <==> b.contains(x),
    ensures
        a == b,
    decreases a.len(),
{
    if a.len() == 0 {
        if b.len() > 0 {
            assert(b.contains(b[0]));
        }
    } else if b.len() == 0 {
        assert(a.contains(a[0]));
    } else {
        assert(a.contains(a[0]));
        assert(b.contains(b[0]));
        let j = choose|j: int| 0 <= j < b.len() && b[j] == a[0];
        let i = choose|i: int| 0 <= i < a.len() && a[i] == b[0];
        if i > 0 {
            assert(a[0] < a[i]);
        }
        if j > 0 {
            assert(b[0] < b[j]);
        }
        assert(a[0] == b[0]);
        let a1 = a.drop_first();
        let b1 = b.drop_first();
        assert forall|x: i64| a1.contains(x) <==> b1.contains(x) by {
            if a1.contains(x) {
                let k = choose|k: int| 0 <= k < a1.len() && a1[k] == x;
                assert(a[k + 1] == x);
                assert(a[0] < a[k + 1]);
                assert(a.contains(x));
                let m = choose|m: int| 0 <= m < b.len() && b[m] == x;
                assert(m != 0);
                assert(b1[m - 1] == x);
            }
            if b1.contains(x) {
                let k = choose|k: int| 0 <= k < b1.len() && b1[k] == x;
                assert(b[k + 1] == x);
                assert(b[0] < b[k + 1]);
                assert(b.contains(x));
                let m = choose|m: int| 0 <= m < a.len() && a[m] == x;
                assert(m != 0);
                assert(a1[m - 1] == x);
            }
        }
        assert forall|i: int, j: int| 0 <= i < j < a1.len() implies #[trigger] a1[i] < #[trigger] a1[j] by {
            assert(a[i + 1] < a[j + 1]);
        }
        assert forall|i: int, j: int| 0 <= i < j < b1.len() implies #[trigger] b1[i] < #[trigger] b1[j] by {
            assert(b[i + 1] < b[j + 1]);
        }
        lemma_strict_same(a1, b1);
        assert(a =~= seq![a[0]] + a1);
        assert(b =~= seq![b[0]] + b1);
    }
}

/// An ascending sequence without repeats is strictly ascending.
proof fn lemma_ascending_distinct(s: Seq<i64>)
    requires
        ascending(s),
        s.no_duplicates(),
    ensures
        forall|i: int, j: int| 0 <= i < j < s.len() ==> #[trigger] s[i] < #[trigger] s[j],
{
    assert forall|i: int, j: int| 0 <= i < j < s.len() implies #[trigger] s[i] < #[trigger] s[j] by {
        assert(s[i] <= s[j]);
        assert(s[i] != s[j]);
    }
}

/// The tasks that are not deleted, the dependencies between them, and the
/// effective priority that urgency gives each pending task.
pub struct Graph {
    tasks: Vec<Task>,
    children: Vec<Vec<i64>>,
    parents: Vec<Vec<i64>>,
    effective: Vec<Option<u8>>,
}

impl Graph {
    /// The tasks, sorted by id.
    pub closed spec fn task_seq(self) -> Seq<Task> {
        self.tasks@
    }

    /// The children of each task, in the order of `task_seq`.
    pub closed spec fn child_seqs(self) -> Seq<Seq<i64>> {
        self.children@.map_values(|v: Vec<i64>| v@)
    }

    /// The parents of each task, in the order of `task_seq`.
    pub closed spec fn parent_seqs(self) -> Seq<Seq<i64>> {
        self.parents@.map_values(|v: Vec<i64>| v@)
    }

    /// The effective priority of each task, in the order of `task_seq`.
    pub closed spec fn effective_seq(self) -> Seq<Option<u8>> {
        self.effective@
    }

    /// The task with `id`.
    pub open spec fn spec_task(self, id: i64) -> Option<Task> {
        find_task(self.task_seq(), id)
    }

    /// The tasks that `id` depends on, ascending.
    pub open spec fn spec_children(self, id: i64) -> Seq<i64> {
        list_of(self.task_seq(), self.child_seqs(), id)
    }

    /// The tasks that depend on `id`, ascending.
    pub open spec fn spec_parents(self, id: i64) -> Seq<i64> {
        list_of(self.task_seq(), self.parent_seqs(), id)
    }

    /// The effective priority of `id`, for a pending task.
    pub open spec fn spec_effective(self, id: i64) -> Option<u8> {
        let i = find_index(self.task_seq(), id);
        if i >= 0 {
            self.effective_seq()[i]
        } else {
            None
        }
    }

    /// `id` is a pending task of the graph.
    pub open spec fn pending_task(self, id: i64) -> bool {
        pending_in(self.task_seq(), id)
    }

    /// Urgency flows from `a` down to its prerequisite `t` through pending tasks.
    pub open spec fn urges(self, a: i64, t: i64) -> bool {
        urges_in(self.task_seq(), self.parent_seqs(), a, t)
    }

    /// `e` is the smallest intrinsic priority of the tasks whose urgency flows to `t`.
    pub open spec fn urgency_min(self, t: i64, e: u8) -> bool {
        urgency_min_in(self.task_seq(), self.parent_seqs(), t, e)
    }

    /// What every graph keeps.
    pub open spec fn valid(self) -> bool {
        let ts = self.task_seq();
        &&& ids_ascending(ts)
        &&& self.effective_seq().len() == ts.len()
        &&& forall|i: int| 0 <= i < ts.len() ==> (#[trigger] ts[i]).deleted_at is None
        &&& links_present(ts, self.child_seqs())
        &&& links_present(ts, self.parent_seqs())
        &&& forall|i: int| 0 <= i < ts.len() ==> ascending(#[trigger] self.child_seqs()[i])
        &&& forall|i: int| 0 <= i < ts.len() ==> ascending(#[trigger] self.parent_seqs()[i])
        &&& forall|i: int|
            0 <= i < ts.len() ==> (#[trigger] self.effective_seq()[i] is Some <==> ts[i].pending())
        &&& forall|i: int|
            0 <= i < ts.len() && #[trigger] self.effective_seq()[i] is Some ==> urgency_min_in(
                ts,
                self.parent_seqs(),
                ts[i].id,
                self.effective_seq()[i].unwrap(),
            )
    }

    /// Two valid graphs that hold the same tasks, and give each task the
    /// same tasks it depends on and is needed by, each listed once, are the
    /// same graph: every spec function of a graph is computed from these.
    pub proof fn lemma_same_graph(g1: Graph, g2: Graph)
        requires
            g1.valid(),
            g2.valid(),
            forall|id: i64| #[trigger] g1.spec_task(id) == g2.spec_task(id),
            forall|a: i64, b: i64| #[trigger] g1.spec_children(a).contains(b) <==> g2.spec_children(a).contains(b),
            forall|a: i64, b: i64| #[trigger] g1.spec_parents(a).contains(b) <==> g2.spec_parents(a).contains(b),
            forall|a: i64| (#[trigger] g1.spec_children(a)).no_duplicates(),
            forall|a: i64| (#[trigger] g2.spec_children(a)).no_duplicates(),
            forall|a: i64| (#[trigger] g1.spec_parents(a)).no_duplicates(),
            forall|a: i64| (#[trigger] g2.spec_parents(a)).no_duplicates(),
        ensures
            g1.task_seq() == g2.task_seq(),
            g1.child_seqs() == g2.child_seqs(),
            g1.parent_seqs() == g2.parent_seqs(),
            g1.effective_seq() == g2.effective_seq(),
    {
        let t1 = g1.task_seq();
        let t2 = g2.task_seq();
        let i1 = t1.map_values(|t: Task| t.id);
        let i2 = t2.map_values(|t: Task| t.id);
        assert forall|x: i64| i1.contains(x) <==> i2.contains(x) by {
            lemma_find_task_sorted(t1, x);
            lemma_find_task_sorted(t2, x);
            assert(g1.spec_task(x) == g2.spec_task(x));
            if i1.contains(x) {
                let k = choose|k: int| 0 <= k < i1.len() && i1[k] == x;
                assert(t1[k].id == x);
                let q = choose|q: int| 0 <= q < t2.len() && #[trigger] t2[q].id == x;
                assert(i2[q] == x);
            }
            if i2.contains(x) {
                let k = choose|k: int| 0 <= k < i2.len() && i2[k] == x;
                assert(t2[k].id == x);
                let q = choose|q: int| 0 <= q < t1.len() && #[trigger] t1[q].id == x;
                assert(i1[q] == x);
            }
        }
        assert forall|i: int, j: int| 0 <= i < j < i1.len() implies #[trigger] i1[i] < #[trigger] i1[j] by {
            assert(t1[i].id < t1[j].id);
        }
        assert forall|i: int, j: int| 0 <= i < j < i2.len() implies #[trigger] i2[i] < #[trigger] i2[j] by {
            assert(t2[i].id < t2[j].id);
        }
        lemma_strict_same(i1, i2);
        assert forall|k: int| 0 <= k < t1.len() implies t1[k] == t2[k] by {
            assert(i1[k] == i2[k]);
            lemma_find_task_sorted(t1, t1[k].id);
            lemma_find_task_sorted(t2, t1[k].id);
            assert(g1.spec_task(t1[k].id) == g2.spec_task(t1[k].id));
        }
        assert(t1 =~= t2);
        let c1 = g1.child_seqs();
        let c2 = g2.child_seqs();
        let p1 = g1.parent_seqs();
        let p2 = g2.parent_seqs();
        assert forall|k: int| 0 <= k < t1.len() implies c1[k] == c2[k] && p1[k] == p2[k] by {
            let id = t1[k].id;
            lemma_find_index_sorted(t1, k);
            assert(g1.spec_children(id) == c1[k]);
            assert(g2.spec_children(id) == c2[k]);
            assert(g1.spec_parents(id) == p1[k]);
            assert(g2.spec_parents(id) == p2[k]);
            assert forall|x: i64| c1[k].contains(x) <==> c2[k].contains(x) by {
                assert(g1.spec_children(id).contains(x) <==> g2.spec_children(id).contains(x));
            }
            assert forall|x: i64| p1[k].contains(x) <==> p2[k].contains(x) by {
                assert(g1.spec_parents(id).contains(x) <==> g2.spec_parents(id).contains(x));
            }
            lemma_ascending_distinct(c1[k]);
            lemma_ascending_distinct(c2[k]);
            lemma_ascending_distinct(p1[k]);
            lemma_ascending_distinct(p2[k]);
            lemma_strict_same(c1[k], c2[k]);
            lemma_strict_same(p1[k], p2[k]);
        }
        assert(c1 =~= c2);
        assert(p1 =~= p2);
        let e1 = g1.effective_seq();
        let e2 = g2.effective_seq();
        assert forall|k: int| 0 <= k < t1.len() implies e1[k] == e2[k] by {
            if e1[k] is Some {
                assert(e2[k] is Some);
                let x = e1[k].unwrap();
                let y = e2[k].unwrap();
                assert(urgency_min_in(t1, p1, t1[k].id, x));
                assert(urgency_min_in(t1, p1, t1[k].id, y));
                let a = choose|a: i64| #[trigger] urges_in(t1, p1, a, t1[k].id) && priority_in(t1, a) == x;
                let b = choose|b: i64| #[trigger] urges_in(t1, p1, b, t1[k].id) && priority_in(t1, b) == y;
                assert(y <= priority_in(t1, a));
                assert(x <= priority_in(t1, b));
            }
        }
        assert(e1 =~= e2);
    }

    /// The graph of the tasks that are not deleted (the last of each id) and
    /// of the dependencies whose two ends are among them.
    pub fn new(tasks: Vec<Task>, dependencies: Vec<Dependency>) -> (g: Graph)
        ensures
            g.valid(),
            forall|id: i64| #[trigger] g.spec_task(id) == last_live(tasks@, id),
            forall|id: i64|
                (#[trigger] g.spec_children(id)).to_multiset() == edge_children(
                    dependencies@,
                    g.task_seq(),
                    id,
                ).to_multiset(),
            forall|id: i64|
                (#[trigger] g.spec_parents(id)).to_multiset() == edge_parents(
                    dependencies@,
                    g.task_seq(),
                    id,
                ).to_multiset(),
            dependencies@.no_duplicates() ==> forall|id: i64|
                (#[trigger] g.spec_children(id)).no_duplicates() && g.spec_parents(id).no_duplicates(),
            forall|a: i64, b: i64| #[trigger] g.spec_children(a).contains(b) <==> #[trigger] g.spec_parents(b).contains(a),
    {
        let ts = live_by_id(tasks);
        let n = ts.len();
        let mut children: Vec<Vec<i64>> = Vec::new();
        let mut parents: Vec<Vec<i64>> = Vec::new();
        let mut i: usize = 0;
        while i < n
            invariant
                n == ts@.len(),
                i <= n,
                ids_ascending(ts@),
                children@.len() == i,
                parents@.len() == i,
                forall|j: int| 0 <= j < i ==> ascending(#[trigger] children@[j]@),
                forall|j: int| 0 <= j < i ==> ascending(#[trigger] parents@[j]@),
                forall|j: int|
                    0 <= j < i ==> (#[trigger] children@[j])@.to_multiset() == edge_children(
                        dependencies@,
                        ts@,
                        ts@[j].id,
                    ).to_multiset(),
                forall|j: int|
                    0 <= j < i ==> (#[trigger] parents@[j])@.to_multiset() == edge_parents(
                        dependencies@,
                        ts@,
                        ts@[j].id,
                    ).to_multiset(),
                forall|j: int, k: int|
                    0 <= j < i && 0 <= k < children@[j]@.len() ==> has_task(
                        ts@,
                        #[trigger] children@[j]@[k],
                    ),
                forall|j: int, k: int|
                    0 <= j < i && 0 <= k < parents@[j]@.len() ==> has_task(
                        ts@,
                        #[trigger] parents@[j]@[k],
                    ),
            decreases n - i,
        {
            let id = ts[i].id;
            let c = sorted_links(&dependencies, &ts, id, true);
            let p = sorted_links(&dependencies, &ts, id, false);
            children.push(c);
            parents.push(p);
            i = i + 1;
        }
        let ghost cs = children@.map_values(|v: Vec<i64>| v@);
        let ghost ps = parents@.map_values(|v: Vec<i64>| v@);
        proof {
            assert forall|j: int, k: int| 0 <= j < ps.len() && 0 <= k < ps[j].len() implies has_task(ts@, #[trigger] ps[j][k]) by {
                assert(ps[j] == parents@[j]@);
            }
        }
        let effective = settle_urgency(&ts, &parents);
        let g = Graph { tasks: ts, children, parents, effective };
        proof {
            assert(g.child_seqs() == cs);
            assert(g.parent_seqs() == ps);
            assert forall|j: int, k: int| 0 <= j < cs.len() && 0 <= k < cs[j].len() implies has_task(ts@, #[trigger] cs[j][k]) by {
                assert(cs[j] == children@[j]@);
            }
            assert forall|j: int| 0 <= j < n implies ascending(#[trigger] cs[j]) by {
                assert(cs[j] == children@[j]@);
            }
            assert forall|j: int| 0 <= j < n implies ascending(#[trigger] ps[j]) by {
                assert(ps[j] == parents@[j]@);
            }
            assert forall|id: i64| (#[trigger] g.spec_children(id)).to_multiset() == edge_children(
                dependencies@, g.task_seq(), id).to_multiset() by {
                lemma_find_index_bounds(ts@, id);
                lemma_find_task_sorted(ts@, id);
                let j = find_index(ts@, id);
                if j >= 0 {
                    assert(cs[j] == children@[j]@);
                } else {
                    lemma_edges_absent(dependencies@, ts@, id);
                }
            }
            assert forall|id: i64| (#[trigger] g.spec_parents(id)).to_multiset() == edge_parents(
                dependencies@, g.task_seq(), id).to_multiset() by {
                lemma_find_index_bounds(ts@, id);
                lemma_find_task_sorted(ts@, id);
                let j = find_index(ts@, id);
                if j >= 0 {
                    assert(ps[j] == parents@[j]@);
                } else {
                    lemma_edges_absent(dependencies@, ts@, id);
                }
            }
            assert forall|j: int| 0 <= j < n implies (#[trigger] ts@[j]).deleted_at is None by {
                lemma_find_index_sorted(ts@, j);
                assert(find_task(ts@, ts@[j].id) == last_live(tasks@, ts@[j].id));
                lemma_last_live_alive(tasks@, ts@[j].id);
            }
            assert forall|a: i64, b: i64| #[trigger] g.spec_children(a).contains(b) <==> #[trigger] g.spec_parents(b).contains(a) by {
                let c = g.spec_children(a);
                let p = g.spec_parents(b);
                let ec = edge_children(dependencies@, g.task_seq(), a);
                let ep = edge_parents(dependencies@, g.task_seq(), b);
                c.to_multiset_ensures();
                p.to_multiset_ensures();
                ec.to_multiset_ensures();
                ep.to_multiset_ensures();
                assert(c.contains(b) <==> c.to_multiset().count(b) > 0);
                assert(ec.contains(b) <==> ec.to_multiset().count(b) > 0);
                assert(p.contains(a) <==> p.to_multiset().count(a) > 0);
                assert(ep.contains(a) <==> ep.to_multiset().count(a) > 0);
                lemma_edge_children_contains(dependencies@, g.task_seq(), a, b);
                lemma_edge_parents_contains(dependencies@, g.task_seq(), a, b);
            }
            if dependencies@.no_duplicates() {
                assert forall|id: i64|
                    (#[trigger] g.spec_children(id)).no_duplicates() && g.spec_parents(id).no_duplicates() by {
                    lemma_edges_distinct(dependencies@, g.task_seq(), id);
                    let ec = edge_children(dependencies@, g.task_seq(), id);
                    let ep = edge_parents(dependencies@, g.task_seq(), id);
                    ec.lemma_multiset_has_no_duplicates();
                    ep.lemma_multiset_has_no_duplicates();
                    g.spec_children(id).lemma_multiset_has_no_duplicates_conv();
                    g.spec_parents(id).lemma_multiset_has_no_duplicates_conv();
                }
            }
        }
        g
    }
}

/// A child appears in the edges exactly when its dependency row is there
/// and both ends are tasks.
pub proof fn lemma_edge_children_contains(l: Seq<Dependency>, t: Seq<Task>, a: i64, b: i64)
    ensures
        edge_children(l, t, a).contains(b) <==> (l.contains(Dependency { parent: a, child: b })
            && has_task(t, a) && has_task(t, b)),
    decreases l.len(),
{
    if l.len() > 0 {
        lemma_edge_children_contains(l.drop_last(), t, a, b);
        let r = edge_children(l.drop_last(), t, a);
        let d = Dependency { parent: a, child: b };
        if l.drop_last().contains(d) {
            let k = choose|k: int| 0 <= k < l.drop_last().len() && l.drop_last()[k] == d;
            assert(l[k] == d);
        }
        if l.contains(d) {
            let k = choose|k: int| 0 <= k < l.len() && l[k] == d;
            if k < l.len() - 1 {
                assert(l.drop_last()[k] == d);
            }
        }
        if edge_children(l, t, a).contains(b) && !r.contains(b) {
            assert(edge_children(l, t, a) == r.push(l.last().child));
        }
        if r.contains(b) {
            let k = choose|k: int| 0 <= k < r.len() && r[k] == b;
            let e = edge_children(l, t, a);
            assert(e[k] == b);
        }
        if l.last() == d && has_task(t, a) && has_task(t, b) {
            let e = edge_children(l, t, a);
            assert(e[e.len() - 1] == b);
        }
    }
}

/// A parent appears in the edges exactly when its dependency row is there
/// and both ends are tasks.
pub proof fn lemma_edge_parents_contains(l: Seq<Dependency>, t: Seq<Task>, a: i64, b: i64)
    ensures
        edge_parents(l, t, b).contains(a) <==> (l.contains(Dependency { parent: a, child: b })
            && has_task(t, a) && has_task(t, b)),
    decreases l.len(),
{
    if l.len() > 0 {
        lemma_edge_parents_contains(l.drop_last(), t, a, b);
        let r = edge_parents(l.drop_last(), t, b);
        let d = Dependency { parent: a, child: b };
        if l.drop_last().contains(d) {
            let k = choose|k: int| 0 <= k < l.drop_last().len() && l.drop_last()[k] == d;
            assert(l[k] == d);
        }
        if l.contains(d) {
            let k = choose|k: int| 0 <= k < l.len() && l[k] == d;
            if k < l.len() - 1 {
                assert(l.drop_last()[k] == d);
            }
        }
        if edge_parents(l, t, b).contains(a) && !r.contains(a) {
            assert(edge_parents(l, t, b) == r.push(l.last().parent));
        }
        if r.contains(a) {
            let k = choose|k: int| 0 <= k < r.len() && r[k] == a;
            let e = edge_parents(l, t, b);
            assert(e[k] == a);
        }
        if l.last() == d && has_task(t, a) && has_task(t, b) {
            let e = edge_parents(l, t, b);
            assert(e[e.len() - 1] == a);
        }
    }
}

/// Without repeated rows, no task is listed twice as a child or as a parent.
pub proof fn lemma_edges_distinct(l: Seq<Dependency>, t: Seq<Task>, a: i64)
    requires
        l.no_duplicates(),
    ensures
        edge_children(l, t, a).no_duplicates(),
        edge_parents(l, t, a).no_duplicates(),
    decreases l.len(),
{
    if l.len() > 0 {
        let p = l.drop_last();
        assert(p.no_duplicates()) by {
            assert forall|i: int, j: int| 0 <= i < p.len() && 0 <= j < p.len() && i != j implies p[i] != p[j] by {
                assert(p[i] == l[i] && p[j] == l[j]);
            }
        }
        lemma_edges_distinct(p, t, a);
        let d = l.last();
        if p.contains(d) {
            let k = choose|k: int| 0 <= k < p.len() && p[k] == d;
            assert(l[k] == l[l.len() - 1]);
        }
        let rc = edge_children(p, t, a);
        let ec = edge_children(l, t, a);
        lemma_edge_children_contains(p, t, a, d.child);
        assert forall|i: int, j: int| 0 <= i < ec.len() && 0 <= j < ec.len() && i != j implies ec[i] != ec[j] by {
            if i < rc.len() && j < rc.len() {
                assert(ec[i] == rc[i] && ec[j] == rc[j]);
            } else if i < rc.len() {
                assert(ec[j] == d.child && ec[i] == rc[i]);
                assert(rc.contains(rc[i]));
            } else if j < rc.len() {
                assert(ec[i] == d.child && ec[j] == rc[j]);
                assert(rc.contains(rc[j]));
            }
        }
        let rp = edge_parents(p, t, a);
        let ep = edge_parents(l, t, a);
        lemma_edge_parents_contains(p, t, d.parent, a);
        assert forall|i: int, j: int| 0 <= i < ep.len() && 0 <= j < ep.len() && i != j implies ep[i] != ep[j] by {
            if i < rp.len() && j < rp.len() {
                assert(ep[i] == rp[i] && ep[j] == rp[j]);
            } else if i < rp.len() {
                assert(ep[j] == d.parent && ep[i] == rp[i]);
                assert(rp.contains(rp[i]));
            } else if j < rp.len() {
                assert(ep[i] == d.parent && ep[j] == rp[j]);
                assert(rp.contains(rp[j]));
            }
        }
    }
}

proof fn lemma_last_live_alive(s: Seq<Task>, id: i64)
    ensures
        last_live(s, id) matches Some(t) ==> t.deleted_at is None && t.id == id,
    decreases s.len(),
{
    if s.len() > 0 {
        lemma_last_live_alive(s.drop_last(), id);
    }
}


/// The task inside an optional reference.
pub open spec fn deref_task(r: Option<&Task>) -> Option<Task> {
    match r {
        Some(t) => Some(*t),
        None => None,
    }
}

/// A scheduling key: effective priority, intrinsic priority, readiness time, id.
pub type SchedKey = (u8, u8, i64, i64);

/// Strict lexicographic order of scheduling keys.
pub open spec fn key_less(a: SchedKey, b: SchedKey) -> bool {
    ||| a.0 < b.0
    ||| a.0 == b.0 && a.1 < b.1
    ||| a.0 == b.0 && a.1 == b.1 && a.2 < b.2
    ||| a.0 == b.0 && a.1 == b.1 && a.2 == b.2 && a.3 < b.3
}

/// Strict lexicographic order of scheduling keys.
pub fn key_lt(a: SchedKey, b: SchedKey) -> (r: bool)
    ensures
        r == key_less(a, b),
{
    a.0 < b.0 || (a.0 == b.0 && (a.1 < b.1 || (a.1 == b.1 && (a.2 < b.2 || (a.2 == b.2 && a.3
        < b.3)))))
}

impl Graph {
    /// The task with `id` is pending and each task it depends on is completed.
    pub open spec fn actionable_id(self, id: i64) -> bool {
        &&& self.pending_task(id)
        &&& forall|k: int|
            0 <= k < self.spec_children(id).len() ==> (self.spec_task(
                #[trigger] self.spec_children(id)[k],
            ) matches Some(c) ==> c.completed_at is Some)
    }

    /// `t` is a task of the graph, and it is actionable.
    pub open spec fn ready(self, t: Task) -> bool {
        self.spec_task(t.id) == Some(t) && self.actionable_id(t.id)
    }

    /// The key by which the scheduler orders tasks.
    pub open spec fn sched_key(self, t: Task) -> SchedKey {
        (
            match self.spec_effective(t.id) {
                Some(e) => e,
                None => t.priority,
            },
            t.priority,
            match t.ready_at {
                Some(r) => r,
                None => t.created_at,
            },
            t.id,
        )
    }

    /// `t` is ready, in the given effective-priority tier if one is given.
    pub open spec fn in_tier(self, t: Task, tier: Option<u8>) -> bool {
        self.ready(t) && (tier matches Some(p) ==> self.spec_effective(t.id) == Some(p))
    }

    /// `t` is the ready task of the tier that the scheduler puts first.
    pub open spec fn earliest(self, t: Task, tier: Option<u8>) -> bool {
        self.in_tier(t, tier) && forall|u: Task|
            #[trigger] self.in_tier(u, tier) ==> !key_less(self.sched_key(u), self.sched_key(t))
    }

    /// The ready task of the tier that the scheduler puts first.
    pub open spec fn first_ready(self, tier: Option<u8>) -> Option<Task> {
        if exists|t: Task| #[trigger] self.earliest(t, tier) {
            Some(choose|t: Task| #[trigger] self.earliest(t, tier))
        } else {
            None
        }
    }

    /// The position of the task with `id` in `tasks()`.
    pub fn position(&self, id: i64) -> (r: Option<usize>)
        requires
            self.valid(),
        ensures
            r matches Some(i) ==> i == find_index(self.task_seq(), id) && i < self.task_seq().len(),
            r is None ==> find_index(self.task_seq(), id) < 0,
    {
        self.index(id)
    }

    fn index(&self, id: i64) -> (r: Option<usize>)
        requires
            self.valid(),
        ensures
            r matches Some(i) ==> i == find_index(self.task_seq(), id) && i < self.task_seq().len(),
            r is None ==> find_index(self.task_seq(), id) < 0,
    {
        proof {
            lemma_find_index_bounds(self.tasks@, id);
            lemma_find_task_sorted(self.tasks@, id);
        }
        match search(&self.tasks, id) {
            Ok(i) => {
                proof {
                    lemma_find_index_sorted(self.tasks@, i as int);
                }
                Some(i)
            },
            Err(_) => None,
        }
    }

    /// The tasks, sorted by id.
    pub fn tasks(&self) -> (r: &[Task])
        requires
            self.valid(),
        ensures
            r@ == self.task_seq(),
    {
        self.tasks.as_slice()
    }

    /// The task with `id`.
    pub fn task(&self, id: i64) -> (r: Option<&Task>)
        requires
            self.valid(),
        ensures
            deref_task(r) == self.spec_task(id),
    {
        match self.index(id) {
            Some(i) => Some(&self.tasks[i]),
            None => None,
        }
    }

    /// The tasks that `id` depends on, ascending.
    pub fn children(&self, id: i64) -> (r: &[i64])
        requires
            self.valid(),
        ensures
            r@ == self.spec_children(id),
    {
        match self.index(id) {
            Some(i) => self.children[i].as_slice(),
            None => &[],
        }
    }

    /// The tasks that depend on `id`, ascending.
    pub fn parents(&self, id: i64) -> (r: &[i64])
        requires
            self.valid(),
        ensures
            r@ == self.spec_parents(id),
    {
        match self.index(id) {
            Some(i) => self.parents[i].as_slice(),
            None => &[],
        }
    }

    /// The effective priority of a pending task: the smallest intrinsic
    /// priority among the pending tasks whose urgency flows to it.
    pub fn effective_priority(&self, id: i64) -> (r: Option<u8>)
        requires
            self.valid(),
        ensures
            r == self.spec_effective(id),
            r is Some <==> self.pending_task(id),
            r matches Some(e) ==> self.urgency_min(id, e),
    {
        proof {
            lemma_find_index_bounds(self.tasks@, id);
        }
        match self.index(id) {
            Some(i) => self.effective[i],
            None => None,
        }
    }

    /// Whether the task is pending and each task it depends on is completed.
    pub fn is_actionable(&self, id: i64) -> (r: bool)
        requires
            self.valid(),
        ensures
            r == self.actionable_id(id),
    {
        let t = match self.task(id) {
            Some(t) => t,
            None => return false,
        };
        if !t.is_pending() {
            return false;
        }
        let cs = self.children(id);
        let mut k: usize = 0;
        while k < cs.len()
            invariant
                self.valid(),
                cs@ == self.spec_children(id),
                k <= cs@.len(),
                forall|q: int|
                    0 <= q < k ==> (self.spec_task(#[trigger] self.spec_children(id)[q]) matches Some(
                        c,
                    ) ==> c.completed_at is Some),
            decreases cs@.len() - k,
        {
            match self.task(cs[k]) {
                Some(c) => {
                    if c.completed_at.is_none() {
                        return false;
                    }
                },
                None => {},
            }
            k = k + 1;
        }
        true
    }

    fn key_of(&self, t: &Task) -> (r: SchedKey)
        requires
            self.valid(),
        ensures
            r == self.sched_key(*t),
    {
        let e = match self.effective_priority(t.id) {
            Some(e) => e,
            None => t.priority,
        };
        let r = match t.ready_at {
            Some(r) => r,
            None => t.created_at,
        };
        (e, t.priority, r, t.id)
    }
}


impl Graph {
    /// `s` lists the ready tasks of the tier, each once, in scheduling order.
    pub open spec fn lists_tier(self, s: Seq<&Task>, tier: Option<u8>) -> bool {
        &&& forall|i: int| 0 <= i < s.len() ==> self.in_tier(*#[trigger] s[i], tier)
        &&& forall|i: int, j: int|
            0 <= i < j < s.len() ==> key_less(
                self.sched_key(*#[trigger] s[i]),
                self.sched_key(*#[trigger] s[j]),
            )
        &&& forall|t: Task| #[trigger]
            self.in_tier(t, tier) ==> exists|i: int| 0 <= i < s.len() && *s[i] == t
    }

    /// `t` comes right after `cur` among the ready tasks of `cur`'s tier.
    pub open spec fn follows(self, cur: Task, t: Task) -> bool {
        let tier = self.spec_effective(cur.id);
        &&& self.in_tier(t, tier)
        &&& key_less(self.sched_key(cur), self.sched_key(t))
        &&& forall|u: Task| #[trigger]
            self.in_tier(u, tier) && key_less(self.sched_key(cur), self.sched_key(u)) ==> !key_less(
                self.sched_key(u),
                self.sched_key(t),
            )
    }

    /// The task that a saved selection leads to: the selected task while it is
    /// actionable in the tier of the first ready task, else the first ready task.
    pub open spec fn selection(self, selected: Option<i64>) -> Option<Task> {
        match self.first_ready(None) {
            None => None,
            Some(f) => match selected {
                Some(id) => if self.actionable_id(id) && self.spec_effective(id)
                    == self.spec_effective(f.id) {
                    self.spec_task(id)
                } else {
                    Some(f)
                },
                None => Some(f),
            },
        }
    }

    /// The task that a numeric view of tier `priority` shows: the selected
    /// task while it is actionable in that tier, else the tier's first task.
    pub open spec fn tier_choice(self, priority: u8, selected: Option<i64>) -> Option<Task> {
        match selected {
            Some(id) => if self.actionable_id(id) && self.spec_effective(id) == Some(priority) {
                self.spec_task(id)
            } else {
                self.first_ready(Some(priority))
            },
            None => self.first_ready(Some(priority)),
        }
    }

    /// The task after the selection in its tier, wrapping around to the first.
    pub open spec fn shuffled(self, selected: Option<i64>) -> Option<Task> {
        match self.selection(selected) {
            None => None,
            Some(c) => if exists|t: Task| #[trigger] self.follows(c, t) {
                Some(choose|t: Task| #[trigger] self.follows(c, t))
            } else {
                self.first_ready(self.spec_effective(c.id))
            },
        }
    }

    proof fn lemma_selection_ready(self, selected: Option<i64>)
        ensures
            self.selection(selected) matches Some(c) ==> self.ready(c),
    {
        if let Some(f) = self.first_ready(None) {
            let t = choose|t: Task| #[trigger] self.earliest(t, None);
            assert(self.earliest(t, None));
            if let Some(id) = selected {
                lemma_find_index_bounds(self.task_seq(), id);
            }
        }
    }

    /// The task that `shuffled` picks is ready in the highest effective
    /// tier, so choosing it makes the scheduler lead to it.
    pub proof fn lemma_shuffled_chosen(self, selected: Option<i64>)
        requires
            self.valid(),
        ensures
            self.shuffled(selected) matches Some(n) ==> {
                &&& self.ready(n)
                &&& self.selection(Some(n.id)) == Some(n)
                &&& self.selection(selected) matches Some(c) && (c.id == n.id ==> c == n)
            },
    {
        if let Some(c) = self.selection(selected) {
            self.lemma_selection_ready(selected);
            let f = self.first_ready(None).unwrap();
            let ft = choose|t: Task| #[trigger] self.earliest(t, None);
            assert(self.earliest(ft, None));
            assert(f == ft);
            lemma_find_index_bounds(self.task_seq(), c.id);
            lemma_find_index_bounds(self.task_seq(), f.id);
            if let Some(id) = selected {
                lemma_find_index_bounds(self.task_seq(), id);
            }
            assert(self.spec_effective(c.id) == self.spec_effective(f.id));
            assert(self.spec_effective(c.id) is Some);
            let e = self.spec_effective(c.id);
            if let Some(n) = self.shuffled(selected) {
                if exists|t: Task| #[trigger] self.follows(c, t) {
                    let t = choose|t: Task| #[trigger] self.follows(c, t);
                    assert(self.follows(c, t));
                    assert(n == t);
                    assert(self.in_tier(n, e));
                } else {
                    let t = choose|t: Task| #[trigger] self.earliest(t, e);
                    assert(self.earliest(t, e));
                    assert(n == t);
                    assert(self.in_tier(n, e));
                }
                lemma_find_index_bounds(self.task_seq(), n.id);
                assert(self.ready(n));
                assert(self.spec_effective(n.id) == self.spec_effective(f.id));
                assert(self.selection(Some(n.id)) == Some(n));
            }
        }
    }

    /// The shuffle step in index form: in a listing of the current task's
    /// tier in scheduling order, the task shuffled to is the one after the
    /// current task, wrapping around to the first.
    pub proof fn lemma_shuffled_index(self, s: Seq<&Task>, selected: Option<i64>, i: int)
        requires
            self.valid(),
            self.selection(selected) is Some,
            self.lists_tier(s, self.spec_effective(self.selection(selected).unwrap().id)),
            0 <= i < s.len(),
            *s[i] == self.selection(selected).unwrap(),
        ensures
            self.shuffled(selected) == Some(*s[(i + 1) % (s.len() as int)]),
    {
        let c = self.selection(selected).unwrap();
        let e = self.spec_effective(c.id);
        if i + 1 < s.len() {
            let t = *s[i + 1];
            assert(self.in_tier(t, e));
            assert(key_less(self.sched_key(*s[i]), self.sched_key(*s[i + 1])));
            assert forall|u: Task| #[trigger] self.in_tier(u, e) && key_less(self.sched_key(c), self.sched_key(u)) implies !key_less(
                self.sched_key(u), self.sched_key(t)) by {
                let q = choose|q: int| 0 <= q < s.len() && *s[q] == u;
                if q <= i {
                    if q < i {
                        assert(key_less(self.sched_key(*s[q]), self.sched_key(*s[i])));
                    }
                } else if q > i + 1 {
                    assert(key_less(self.sched_key(*s[i + 1]), self.sched_key(*s[q])));
                }
            }
            assert(self.follows(c, t));
            self.lemma_follows_unique(c, t);
            let n = s.len() as int;
            assert((i + 1) % n == i + 1) by (nonlinear_arith)
                requires
                    0 <= i + 1 < n,
            ;
        } else {
            if exists|t: Task| #[trigger] self.follows(c, t) {
                let t = choose|t: Task| #[trigger] self.follows(c, t);
                let q = choose|q: int| 0 <= q < s.len() && *s[q] == t;
                if q < i {
                    assert(key_less(self.sched_key(*s[q]), self.sched_key(*s[i])));
                }
            }
            self.lemma_listing_first(s, e);
            let n = s.len() as int;
            assert((i + 1) % n == 0) by (nonlinear_arith)
                requires
                    i + 1 == n,
                    n > 0,
            ;
        }
    }

    proof fn lemma_same_key(self, a: Task, b: Task)
        requires
            self.spec_task(a.id) == Some(a),
            self.spec_task(b.id) == Some(b),
            !key_less(self.sched_key(a), self.sched_key(b)),
            !key_less(self.sched_key(b), self.sched_key(a)),
        ensures
            a == b,
    {
    }

    proof fn lemma_earliest_unique(self, t: Task, tier: Option<u8>)
        requires
            self.earliest(t, tier),
        ensures
            self.first_ready(tier) == Some(t),
    {
        let c = choose|c: Task| #[trigger] self.earliest(c, tier);
        assert(self.earliest(c, tier));
        assert(self.in_tier(t, tier));
        assert(self.in_tier(c, tier));
        self.lemma_same_key(c, t);
    }

    proof fn lemma_follows_unique(self, cur: Task, t: Task)
        requires
            self.follows(cur, t),
        ensures
            (choose|u: Task| #[trigger] self.follows(cur, u)) == t,
    {
        let c = choose|u: Task| #[trigger] self.follows(cur, u);
        assert(self.follows(cur, c));
        assert(self.in_tier(t, self.spec_effective(cur.id)));
        assert(self.in_tier(c, self.spec_effective(cur.id)));
        self.lemma_same_key(c, t);
    }

    /// The first element of a tier listing is the earliest of the tier.
    proof fn lemma_listing_first(self, s: Seq<&Task>, tier: Option<u8>)
        requires
            self.lists_tier(s, tier),
        ensures
            s.len() == 0 ==> self.first_ready(tier) is None,
            s.len() > 0 ==> self.first_ready(tier) == Some(*s[0]),
    {
        if s.len() == 0 {
            if exists|t: Task| #[trigger] self.earliest(t, tier) {
                let t = choose|t: Task| #[trigger] self.earliest(t, tier);
                assert(self.in_tier(t, tier));
            }
        } else {
            let f = *s[0];
            assert(self.in_tier(*s[0], tier));
            assert forall|u: Task| #[trigger] self.in_tier(u, tier) implies !key_less(self.sched_key(u), self.sched_key(f)) by {
                let i = choose|i: int| 0 <= i < s.len() && *s[i] == u;
                if i > 0 {
                    assert(key_less(self.sched_key(*s[0]), self.sched_key(*s[i])));
                }
            }
            assert(self.earliest(f, tier));
            self.lemma_earliest_unique(f, tier);
        }
    }

    /// The actionable tasks in scheduling order: effective priority, then
    /// intrinsic priority, then readiness time, then id.
    pub fn actionable(&self) -> (r: Vec<&Task>)
        requires
            self.valid(),
        ensures
            self.lists_tier(r@, None),
    {
        let n = self.tasks.len();
        let mut out: Vec<&Task> = Vec::new();
        let mut keys: Vec<SchedKey> = Vec::new();
        let mut i: usize = 0;
        while i < n
            invariant
                self.valid(),
                n == self.task_seq().len(),
                i <= n,
                out@.len() == keys@.len(),
                forall|k: int| 0 <= k < out@.len() ==> self.in_tier(*#[trigger] out@[k], None),
                forall|k: int| 0 <= k < out@.len() ==> #[trigger] keys@[k] == self.sched_key(*out@[k]),
                forall|k: int, j: int|
                    0 <= k < j < out@.len() ==> key_less(#[trigger] keys@[k], #[trigger] keys@[j]),
                forall|k: int, j: int|
                    0 <= k < out@.len() && i <= j < n ==> (*#[trigger] out@[k]).id < (
                    #[trigger] self.task_seq()[j]).id,
                forall|j: int|
                    0 <= j < i && #[trigger] self.in_tier(self.task_seq()[j], None) ==> exists|k: int|
                        0 <= k < out@.len() && *out@[k] == self.task_seq()[j],
            decreases n - i,
        {
            let t = &self.tasks[i];
            proof {
                lemma_find_index_sorted(self.tasks@, i as int);
            }
            if self.is_actionable(t.id) {
                let key = self.key_of(t);
                let mut pos: usize = 0;
                while pos < keys.len() && !key_lt(key, keys[pos])
                    invariant
                        pos <= keys@.len(),
                        forall|q: int| 0 <= q < pos ==> !key_less(key, #[trigger] keys@[q]),
                    decreases keys@.len() - pos,
                {
                    pos = pos + 1;
                }
                let ghost old_out = out@;
                let ghost old_keys = keys@;
                out.insert(pos, t);
                keys.insert(pos, key);
                proof {
                    old_out.insert_ensures(pos as int, t);
                    old_keys.insert_ensures(pos as int, key);
                    assert forall|q: int| 0 <= q < pos implies key_less(#[trigger] old_keys[q], key) by {
                        assert(old_keys[q] == self.sched_key(*old_out[q]));
                        assert((*old_out[q]).id < self.task_seq()[i as int].id);
                    }
                    assert forall|k: int, j: int| 0 <= k < j < out@.len() implies key_less(#[trigger] keys@[k], #[trigger] keys@[j]) by {
                        if j < pos {
                        } else if k > pos {
                            assert(keys@[k] == old_keys[k - 1]);
                            assert(keys@[j] == old_keys[j - 1]);
                        } else if k == pos {
                            assert(keys@[j] == old_keys[j - 1]);
                            assert(key_less(key, old_keys[pos as int]));
                            if j - 1 > pos {
                                assert(key_less(old_keys[pos as int], old_keys[j - 1]));
                            }
                        } else {
                            if j > pos {
                                assert(keys@[j] == old_keys[j - 1]);
                                assert(key_less(old_keys[k], key));
                                if j == pos {
                                } else {
                                    assert(key_less(key, old_keys[pos as int]));
                                    if j - 1 > pos {
                                        assert(key_less(old_keys[pos as int], old_keys[j - 1]));
                                    }
                                }
                            }
                        }
                    }
                    assert forall|k: int| 0 <= k < out@.len() implies self.in_tier(*#[trigger] out@[k], None) by {
                        if k < pos {
                            assert(out@[k] == old_out[k]);
                        } else if k > pos {
                            assert(out@[k] == old_out[k - 1]);
                        }
                    }
                    assert forall|k: int| 0 <= k < out@.len() implies #[trigger] keys@[k] == self.sched_key(*out@[k]) by {
                        if k < pos {
                            assert(out@[k] == old_out[k]);
                        } else if k > pos {
                            assert(out@[k] == old_out[k - 1]);
                        }
                    }
                    assert forall|k: int, j: int| 0 <= k < out@.len() && i + 1 <= j < n implies (*#[trigger] out@[k]).id < (
                        #[trigger] self.task_seq()[j]).id by {
                        if k < pos {
                            assert(out@[k] == old_out[k]);
                        } else if k > pos {
                            assert(out@[k] == old_out[k - 1]);
                        }
                    }
                    assert forall|j: int| 0 <= j < i + 1 && #[trigger] self.in_tier(self.task_seq()[j], None) implies exists|k: int|
                        0 <= k < out@.len() && *out@[k] == self.task_seq()[j] by {
                        if j < i {
                            let k = choose|k: int| 0 <= k < old_out.len() && *old_out[k] == self.task_seq()[j];
                            if k < pos {
                                assert(out@[k] == old_out[k]);
                            } else {
                                assert(out@[k + 1] == old_out[k]);
                            }
                        } else {
                            assert(out@[pos as int] == t);
                        }
                    }
                }
            }
            i = i + 1;
        }
        proof {
            assert forall|t: Task| #[trigger] self.in_tier(t, None) implies exists|k: int| 0 <= k < out@.len() && *out@[k] == t by {
                lemma_find_index_bounds(self.task_seq(), t.id);
                let j = find_index(self.task_seq(), t.id);
                assert(self.task_seq()[j] == t);
                assert(self.in_tier(self.task_seq()[j], None));
            }
            assert forall|k: int, j: int| 0 <= k < j < out@.len() implies key_less(
                self.sched_key(*#[trigger] out@[k]), self.sched_key(*#[trigger] out@[j])) by {
                assert(keys@[k] == self.sched_key(*out@[k]));
                assert(keys@[j] == self.sched_key(*out@[j]));
            }
        }
        out
    }

    /// The ready tasks of a tier, in scheduling order.
    fn tier_of(&self, e: Option<u8>) -> (r: Vec<&Task>)
        requires
            self.valid(),
        ensures
            self.lists_tier(r@, e),
    {
        let all = self.actionable();
        let mut r: Vec<&Task> = Vec::new();
        let mut k: usize = 0;
        while k < all.len()
            invariant
                self.valid(),
                self.lists_tier(all@, None),
                k <= all@.len(),
                forall|i: int| 0 <= i < r@.len() ==> self.in_tier(*#[trigger] r@[i], e),
                forall|i: int, j: int|
                    0 <= i < j < r@.len() ==> key_less(
                        self.sched_key(*#[trigger] r@[i]),
                        self.sched_key(*#[trigger] r@[j]),
                    ),
                forall|i: int| 0 <= i < r@.len() ==> exists|q: int| 0 <= q < k && #[trigger] r@[i] == all@[q],
                forall|q: int|
                    0 <= q < k && #[trigger] self.in_tier(*all@[q], e) ==> exists|i: int|
                        0 <= i < r@.len() && r@[i] == all@[q],
            decreases all@.len() - k,
        {
            let t = all[k];
            let te = self.effective_priority(t.id);
            let keep = match e {
                None => true,
                Some(p) => match te {
                    Some(x) => x == p,
                    None => false,
                },
            };
            assert(self.in_tier(*all@[k as int], None));
            if keep {
                let ghost old_r = r@;
                r.push(t);
                proof {
                    assert forall|i: int, j: int| 0 <= i < j < r@.len() implies key_less(
                        self.sched_key(*#[trigger] r@[i]), self.sched_key(*#[trigger] r@[j])) by {
                        if j == r@.len() - 1 {
                            let q = choose|q: int| 0 <= q < k && #[trigger] old_r[i] == all@[q];
                            assert(r@[i] == all@[q]);
                            assert(key_less(self.sched_key(*all@[q]), self.sched_key(*all@[k as int])));
                        } else {
                            assert(r@[i] == old_r[i]);
                            assert(r@[j] == old_r[j]);
                        }
                    }
                    assert forall|i: int| 0 <= i < r@.len() implies exists|q: int| 0 <= q < k + 1 && #[trigger] r@[i] == all@[q] by {
                        if i < old_r.len() {
                            assert(r@[i] == old_r[i]);
                            let q = choose|q: int| 0 <= q < k && #[trigger] old_r[i] == all@[q];
                        } else {
                            assert(r@[i] == all@[k as int]);
                        }
                    }
                    assert forall|q: int| 0 <= q < k + 1 && #[trigger] self.in_tier(*all@[q], e) implies exists|i: int|
                        0 <= i < r@.len() && r@[i] == all@[q] by {
                        if q < k {
                            let i = choose|i: int| 0 <= i < old_r.len() && old_r[i] == all@[q];
                            assert(r@[i] == old_r[i]);
                        } else {
                            assert(r@[r@.len() - 1] == all@[q]);
                        }
                    }
                }
            } else {
                proof {
                    assert(!self.in_tier(*all@[k as int], e));
                    assert forall|i: int| 0 <= i < r@.len() implies exists|q: int| 0 <= q < k + 1 && #[trigger] r@[i] == all@[q] by {
                        let q = choose|q: int| 0 <= q < k && #[trigger] r@[i] == all@[q];
                    }
                }
            }
            k = k + 1;
        }
        proof {
            assert forall|t: Task| #[trigger] self.in_tier(t, e) implies exists|i: int| 0 <= i < r@.len() && *r@[i] == t by {
                assert(self.in_tier(t, None));
                let q = choose|q: int| 0 <= q < all@.len() && *all@[q] == t;
                assert(self.in_tier(*all@[q], e));
                let i = choose|i: int| 0 <= i < r@.len() && r@[i] == all@[q];
            }
        }
        r
    }

    /// The task the scheduler puts first.
    pub fn next(&self) -> (r: Option<&Task>)
        requires
            self.valid(),
        ensures
            deref_task(r) == self.first_ready(None),
    {
        let all = self.actionable();
        proof {
            self.lemma_listing_first(all@, None);
        }
        if all.len() == 0 {
            None
        } else {
            Some(all[0])
        }
    }

    /// The first task whose effective priority is `priority`.
    pub fn next_at_priority(&self, priority: u8) -> (r: Option<&Task>)
        requires
            self.valid(),
        ensures
            deref_task(r) == self.first_ready(Some(priority)),
    {
        let tier = self.tier_of(Some(priority));
        proof {
            self.lemma_listing_first(tier@, Some(priority));
        }
        if tier.len() == 0 {
            None
        } else {
            Some(tier[0])
        }
    }

    /// Honor a saved selection only while it is actionable in the highest tier.
    pub fn next_with_selection(&self, selected: Option<i64>) -> (r: Option<&Task>)
        requires
            self.valid(),
        ensures
            deref_task(r) == self.selection(selected),
    {
        let first = match self.next() {
            Some(f) => f,
            None => return None,
        };
        proof {
            if let Some(id) = selected {
                lemma_find_index_bounds(self.task_seq(), id);
            }
        }
        if let Some(id) = selected {
            if let Some(task) = self.task(id) {
                if self.is_actionable(task.id) {
                    let a = self.effective_priority(task.id);
                    let b = self.effective_priority(first.id);
                    let same = match (a, b) {
                        (Some(x), Some(y)) => x == y,
                        (None, None) => true,
                        _ => false,
                    };
                    if same {
                        return Some(task);
                    }
                }
            }
        }
        Some(first)
    }

    /// What a numeric view shows: the selected task while it is actionable
    /// with effective priority `priority`, else the first task of that tier.
    pub fn next_at_priority_with_selection(&self, priority: u8, selected: Option<i64>) -> (r: Option<&Task>)
        requires
            self.valid(),
        ensures
            deref_task(r) == self.tier_choice(priority, selected),
    {
        if let Some(id) = selected {
            proof {
                lemma_find_index_bounds(self.task_seq(), id);
            }
            if let Some(task) = self.task(id) {
                if self.is_actionable(task.id) && self.effective_priority(task.id) == Some(priority) {
                    return Some(task);
                }
            }
        }
        self.next_at_priority(priority)
    }

    /// Advance a saved selection to the next ready task of its effective
    /// priority tier, in scheduling order, wrapping around.
    pub fn shuffle_next(&self, selected: Option<i64>) -> (r: Option<&Task>)
        requires
            self.valid(),
        ensures
            deref_task(r) == self.shuffled(selected),
            r is Some <==> self.selection(selected) is Some,
    {
        let current = match self.next_with_selection(selected) {
            Some(c) => c,
            None => return None,
        };
        let e = self.effective_priority(current.id);
        let tier = self.tier_of(e);
        proof {
            self.lemma_selection_ready(selected);
            assert(self.ready(*current));
            assert(self.in_tier(*current, e));
        }
        let mut idx: usize = 0;
        while idx < tier.len() && tier[idx].id != current.id
            invariant
                self.valid(),
                self.lists_tier(tier@, e),
                idx <= tier@.len(),
                forall|q: int| 0 <= q < idx ==> (*#[trigger] tier@[q]).id != current.id,
            decreases tier@.len() - idx,
        {
            idx = idx + 1;
        }
        proof {
            let q = choose|q: int| 0 <= q < tier@.len() && *tier@[q] == *current;
            assert((*tier@[q]).id == current.id);
        }
        if idx == tier.len() {
            return None;
        }
        let ghost c = *current;
        proof {
            assert(self.in_tier(*tier@[idx as int], e));
            assert(*tier@[idx as int] == c);
        }
        if idx + 1 < tier.len() {
            proof {
                let t = *tier@[idx + 1];
                assert(key_less(self.sched_key(*tier@[idx as int]), self.sched_key(*tier@[idx + 1])));
                assert forall|u: Task| #[trigger] self.in_tier(u, e) && key_less(self.sched_key(c), self.sched_key(u)) implies !key_less(
                    self.sched_key(u), self.sched_key(t)) by {
                    let q = choose|q: int| 0 <= q < tier@.len() && *tier@[q] == u;
                    if q <= idx {
                        if q < idx {
                            assert(key_less(self.sched_key(*tier@[q]), self.sched_key(*tier@[idx as int])));
                        }
                    } else if q > idx + 1 {
                        assert(key_less(self.sched_key(*tier@[idx + 1]), self.sched_key(*tier@[q])));
                    }
                }
                assert(self.follows(c, t));
                self.lemma_follows_unique(c, t);
            }
            Some(tier[idx + 1])
        } else {
            proof {
                if exists|t: Task| #[trigger] self.follows(c, t) {
                    let t = choose|t: Task| #[trigger] self.follows(c, t);
                    let q = choose|q: int| 0 <= q < tier@.len() && *tier@[q] == t;
                    if q < idx {
                        assert(key_less(self.sched_key(*tier@[q]), self.sched_key(*tier@[idx as int])));
                    }
                }
                self.lemma_listing_first(tier@, e);
            }
            Some(tier[0])
        }
    }
}


/// Strict lexicographic order of the keys that pick a representative parent.
pub open spec fn key3_less(a: (u8, u8, i64), b: (u8, u8, i64)) -> bool {
    ||| a.0 < b.0
    ||| a.0 == b.0 && a.1 < b.1
    ||| a.0 == b.0 && a.1 == b.1 && a.2 < b.2
}

impl Graph {
    /// The key by which a representative parent is chosen: effective
    /// priority, intrinsic priority, id.
    pub open spec fn parent_key(self, t: Task) -> (u8, u8, i64) {
        (
            match self.spec_effective(t.id) {
                Some(e) => e,
                None => t.priority,
            },
            t.priority,
            t.id,
        )
    }

    /// `p` is a pending task that depends on `id`.
    pub open spec fn candidate_parent(self, id: i64, p: i64) -> bool {
        self.spec_parents(id).contains(p) && self.pending_task(p)
    }

    /// `p` is the pending parent of `id` with the smallest key.
    pub open spec fn best_parent(self, id: i64, p: i64) -> bool {
        self.candidate_parent(id, p) && forall|q: i64| #[trigger]
            self.candidate_parent(id, q) ==> !key3_less(
                self.parent_key(self.spec_task(q).unwrap()),
                self.parent_key(self.spec_task(p).unwrap()),
            )
    }

    /// The representative parent of `id`, if it has a pending parent.
    pub open spec fn next_up(self, id: i64) -> Option<i64> {
        if exists|p: i64| #[trigger] self.best_parent(id, p) {
            Some(choose|p: i64| #[trigger] self.best_parent(id, p))
        } else {
            None
        }
    }

    /// The ids met climbing from `id` through representative parents, at
    /// most `fuel` of them, starting with `id`.
    pub open spec fn climb(self, id: i64, fuel: nat) -> Seq<i64>
        decreases fuel,
    {
        if fuel == 0 || self.spec_task(id) is None {
            Seq::empty()
        } else {
            match self.next_up(id) {
                Some(p) => seq![id] + self.climb(p, (fuel - 1) as nat),
                None => seq![id],
            }
        }
    }

    /// The representative parent of a task, by a scan of its parents.
    fn representative_parent(&self, id: i64) -> (r: Option<&Task>)
        requires
            self.valid(),
        ensures
            deref_task(r) == match self.next_up(id) {
                Some(p) => self.spec_task(p),
                None => None,
            },
    {
        let ps = self.parents(id);
        let mut best: Option<&Task> = None;
        let mut k: usize = 0;
        proof {
            lemma_find_index_bounds(self.task_seq(), id);
        }
        while k < ps.len()
            invariant
                self.valid(),
                ps@ == self.spec_parents(id),
                k <= ps@.len(),
                forall|q: int| 0 <= q < ps@.len() ==> has_task(self.task_seq(), #[trigger] ps@[q]),
                best is None ==> forall|q: int| 0 <= q < k ==> !self.pending_task(#[trigger] ps@[q]),
                best matches Some(b) ==> {
                    &&& self.candidate_parent(id, b.id)
                    &&& self.spec_task(b.id) == Some(*b)
                    &&& forall|q: int|
                        0 <= q < k && self.pending_task(#[trigger] ps@[q]) ==> !key3_less(
                            self.parent_key(self.spec_task(ps@[q]).unwrap()),
                            self.parent_key(*b),
                        )
                },
            decreases ps@.len() - k,
        {
            proof {
                let ts = self.task_seq();
                let i = find_index(ts, id);
                if i >= 0 {
                    assert(ps@ == self.parent_seqs()[i]);
                }
            }
            let p = ps[k];
            match self.task(p) {
                Some(t) => {
                    proof {
                        lemma_find_index_bounds(self.task_seq(), p);
                    }
                    if t.is_pending() {
                        let e = match self.effective_priority(t.id) {
                            Some(e) => e,
                            None => t.priority,
                        };
                        let better = match best {
                            None => true,
                            Some(b) => {
                                let be = match self.effective_priority(b.id) {
                                    Some(x) => x,
                                    None => b.priority,
                                };
                                e < be || (e == be && (t.priority < b.priority || (t.priority
                                    == b.priority && t.id < b.id)))
                            },
                        };
                        if better {
                            best = Some(t);
                        }
                        proof {
                            assert(ps@.contains(ps@[k as int]));
                        }
                    }
                },
                None => {},
            }
            k = k + 1;
        }
        proof {
            match best {
                Some(b) => {
                    assert forall|q: i64| #[trigger] self.candidate_parent(id, q) implies !key3_less(
                        self.parent_key(self.spec_task(q).unwrap()),
                        self.parent_key(self.spec_task(b.id).unwrap())) by {
                        let j = choose|j: int| 0 <= j < ps@.len() && ps@[j] == q;
                        assert(self.pending_task(ps@[j]));
                    }
                    assert(self.best_parent(id, b.id));
                    let c = choose|p: i64| #[trigger] self.best_parent(id, p);
                    assert(self.best_parent(id, c));
                    lemma_find_index_bounds(self.task_seq(), c);
                    lemma_find_index_bounds(self.task_seq(), b.id);
                },
                None => {
                    if exists|p: i64| #[trigger] self.best_parent(id, p) {
                        let c = choose|p: i64| #[trigger] self.best_parent(id, p);
                        let j = choose|j: int| 0 <= j < ps@.len() && ps@[j] == c;
                        assert(self.pending_task(ps@[j]));
                    }
                },
            }
        }
        best
    }

    /// Among the tasks of `l`, when one is a pending parent of `id`, one
    /// of them has the smallest key.
    proof fn lemma_best_among(self, id: i64, l: Seq<i64>)
        requires
            exists|k: int| 0 <= k < l.len() && self.candidate_parent(id, #[trigger] l[k]),
        ensures
            exists|p: i64|
                {
                    &&& #[trigger] l.contains(p)
                    &&& self.candidate_parent(id, p)
                    &&& forall|q: i64|
                        l.contains(q) && #[trigger] self.candidate_parent(id, q) ==> !key3_less(
                            self.parent_key(self.spec_task(q).unwrap()),
                            self.parent_key(self.spec_task(p).unwrap()),
                        )
                },
        decreases l.len(),
    {
        let y = l.last();
        let k0 = choose|k: int| 0 <= k < l.len() && self.candidate_parent(id, #[trigger] l[k]);
        let lp = l.drop_last();
        if exists|k: int| 0 <= k < lp.len() && self.candidate_parent(id, #[trigger] lp[k]) {
            self.lemma_best_among(id, lp);
            let p0 = choose|p: i64|
                {
                    &&& #[trigger] lp.contains(p)
                    &&& self.candidate_parent(id, p)
                    &&& forall|q: i64|
                        lp.contains(q) && #[trigger] self.candidate_parent(id, q) ==> !key3_less(
                            self.parent_key(self.spec_task(q).unwrap()),
                            self.parent_key(self.spec_task(p).unwrap()),
                        )
                };
            let kp = choose|k: int| 0 <= k < lp.len() && lp[k] == p0;
            assert(l[kp] == p0);
            if self.candidate_parent(id, y) && key3_less(
                self.parent_key(self.spec_task(y).unwrap()),
                self.parent_key(self.spec_task(p0).unwrap()),
            ) {
                assert(l[l.len() - 1] == y);
                assert forall|q: i64|
                    l.contains(q) && #[trigger] self.candidate_parent(id, q) implies !key3_less(
                        self.parent_key(self.spec_task(q).unwrap()),
                        self.parent_key(self.spec_task(y).unwrap()),
                    ) by {
                    let kq = choose|k: int| 0 <= k < l.len() && l[k] == q;
                    if kq < l.len() - 1 {
                        assert(lp[kq] == q);
                    }
                }
                assert(l.contains(y));
            } else {
                assert forall|q: i64|
                    l.contains(q) && #[trigger] self.candidate_parent(id, q) implies !key3_less(
                        self.parent_key(self.spec_task(q).unwrap()),
                        self.parent_key(self.spec_task(p0).unwrap()),
                    ) by {
                    let kq = choose|k: int| 0 <= k < l.len() && l[k] == q;
                    if kq < l.len() - 1 {
                        assert(lp[kq] == q);
                    }
                }
                assert(l.contains(p0));
            }
        } else {
            assert(k0 == l.len() - 1) by {
                if k0 < l.len() - 1 {
                    assert(lp[k0] == l[k0]);
                }
            }
            assert forall|q: i64|
                l.contains(q) && #[trigger] self.candidate_parent(id, q) implies !key3_less(
                    self.parent_key(self.spec_task(q).unwrap()),
                    self.parent_key(self.spec_task(y).unwrap()),
                ) by {
                let kq = choose|k: int| 0 <= k < l.len() && l[k] == q;
                if kq < l.len() - 1 {
                    assert(lp[kq] == q);
                }
            }
            assert(l.contains(y));
        }
    }

    /// A task without a representative parent has no pending parent at all.
    pub proof fn lemma_top_has_no_pending_parent(self, id: i64)
        requires
            self.next_up(id) is None,
        ensures
            forall|p: i64| !#[trigger] self.candidate_parent(id, p),
    {
        assert forall|p: i64| !#[trigger] self.candidate_parent(id, p) by {
            if self.candidate_parent(id, p) {
                let l = self.spec_parents(id);
                let k = choose|k: int| 0 <= k < l.len() && l[k] == p;
                assert(self.candidate_parent(id, l[k]));
                self.lemma_best_among(id, l);
                let b = choose|b: i64|
                    {
                        &&& #[trigger] l.contains(b)
                        &&& self.candidate_parent(id, b)
                        &&& forall|q: i64|
                            l.contains(q) && #[trigger] self.candidate_parent(id, q) ==> !key3_less(
                                self.parent_key(self.spec_task(q).unwrap()),
                                self.parent_key(self.spec_task(b).unwrap()),
                            )
                    };
                assert(self.best_parent(id, b));
            }
        }
    }

    /// The ids that `climb` meets: at most `fuel`, starting with `id` when it
    /// is a task, each a task, each followed by its representative parent,
    /// and, when the fuel was not used up, ending with a task that has none.
    pub proof fn lemma_climb_shape(self, id: i64, fuel: nat)
        ensures
            self.climb(id, fuel).len() <= fuel,
            fuel > 0 && self.spec_task(id) is Some ==> self.climb(id, fuel).len() >= 1 && self.climb(id, fuel)[0] == id,
            forall|i: int| 0 <= i < self.climb(id, fuel).len() ==> self.spec_task(#[trigger] self.climb(id, fuel)[i]) is Some,
            forall|i: int|
                0 <= i < self.climb(id, fuel).len() - 1 ==> self.next_up(#[trigger] self.climb(id, fuel)[i]) == Some(
                    self.climb(id, fuel)[i + 1],
                ),
            1 <= self.climb(id, fuel).len() < fuel ==> self.next_up(self.climb(id, fuel).last()) is None,
        decreases fuel,
    {
        let c = self.climb(id, fuel);
        if fuel > 0 && self.spec_task(id) is Some {
            match self.next_up(id) {
                Some(p) => {
                    let b = choose|b: i64| #[trigger] self.best_parent(id, b);
                    assert(self.best_parent(id, b));
                    assert(p == b);
                    assert(self.pending_task(p));
                    self.lemma_climb_shape(p, (fuel - 1) as nat);
                    let rest = self.climb(p, (fuel - 1) as nat);
                    assert(c == seq![id] + rest);
                    assert forall|i: int| 0 <= i < c.len() implies self.spec_task(#[trigger] c[i]) is Some by {
                        if i > 0 {
                            assert(c[i] == rest[i - 1]);
                        }
                    }
                    assert forall|i: int| 0 <= i < c.len() - 1 implies self.next_up(#[trigger] c[i]) == Some(c[i + 1]) by {
                        if i > 0 {
                            assert(c[i] == rest[i - 1]);
                            assert(c[i + 1] == rest[i]);
                        } else if rest.len() > 0 {
                            assert(c[1] == rest[0]);
                        }
                    }
                    if 1 <= c.len() < fuel {
                        assert(c.last() == rest.last());
                    }
                },
                None => {},
            }
        }
    }

    /// `q` is no more urgent than `p`: its effective priority is larger, or
    /// equal with a larger intrinsic priority, or both equal with an id no
    /// smaller.
    pub open spec fn not_before(self, q: i64, p: i64) -> bool {
        let eq = self.spec_effective(q).unwrap();
        let ep = self.spec_effective(p).unwrap();
        let iq = self.spec_task(q).unwrap().priority;
        let ip = self.spec_task(p).unwrap().priority;
        ||| eq > ep
        ||| eq == ep && iq > ip
        ||| eq == ep && iq == ip && q >= p
    }

    /// The representative parent is a pending parent, and no pending parent
    /// comes before it.
    proof fn lemma_best_parent_minimal(self, x: i64, p: i64)
        requires
            self.valid(),
            self.best_parent(x, p),
        ensures
            self.spec_parents(x).contains(p),
            self.pending_task(p),
            self.spec_effective(p) is Some,
            forall|q: i64| self.spec_parents(x).contains(q) && self.pending_task(q) ==> #[trigger] self.not_before(q, p),
    {
        lemma_find_index_bounds(self.task_seq(), p);
        assert forall|q: i64| self.spec_parents(x).contains(q) && self.pending_task(q) implies #[trigger] self.not_before(q, p) by {
            assert(self.candidate_parent(x, q));
            lemma_find_index_bounds(self.task_seq(), q);
            assert(self.spec_task(q).unwrap().id == q);
            assert(self.spec_task(p).unwrap().id == p);
        }
    }

    /// `p` is a pending parent of `x` that no pending parent of `x` comes
    /// before.
    pub open spec fn most_urgent_parent(self, x: i64, p: i64) -> bool {
        &&& self.spec_parents(x).contains(p)
        &&& self.pending_task(p)
        &&& self.spec_effective(p) is Some
        &&& forall|q: i64| self.spec_parents(x).contains(q) && self.pending_task(q) ==> self.not_before(q, p)
    }

    /// Each step of the context chain climbs from a task to one of its
    /// pending parents, and to the most urgent one: no pending parent has a
    /// smaller effective priority; among equally urgent ones none has a
    /// smaller intrinsic priority; and among those none has a smaller id.
    pub proof fn law_chain_steps(self, leaf: i64)
        requires
            self.valid(),
        ensures
            forall|k: int|
                0 <= k < self.climb(leaf, self.task_seq().len()).len() - 1 ==> #[trigger] self.most_urgent_parent(
                    self.climb(leaf, self.task_seq().len())[k],
                    self.climb(leaf, self.task_seq().len())[k + 1],
                ),
    {
        let n = self.task_seq().len();
        self.lemma_climb_shape(leaf, n);
        let c = self.climb(leaf, n);
        assert forall|k: int| 0 <= k < c.len() - 1 implies #[trigger] self.most_urgent_parent(c[k], c[k + 1]) by {
            self.lemma_next_up_minimal(c[k]);
        }
    }

    /// The representative parent, when there is one, is a pending parent
    /// that no pending parent comes before.
    proof fn lemma_next_up_minimal(self, x: i64)
        requires
            self.valid(),
        ensures
            self.next_up(x) matches Some(p) ==> self.most_urgent_parent(x, p),
    {
        if self.next_up(x) is Some {
            let b = choose|b: i64| #[trigger] self.best_parent(x, b);
            assert(self.best_parent(x, b));
            self.lemma_best_parent_minimal(x, b);
        }
    }

    /// The path from the top of the graph down to `leaf` through
    /// representative parents, ending with `leaf`.
    pub fn context_chain(&self, leaf: i64) -> (r: Vec<&Task>)
        requires
            self.valid(),
        ensures
            r@.len() == self.climb(leaf, self.task_seq().len()).len(),
            forall|i: int|
                0 <= i < r@.len() ==> Some(*#[trigger] r@[i]) == self.spec_task(
                    self.climb(leaf, self.task_seq().len()).reverse()[i],
                ),
    {
        let n = self.tasks.len();
        let mut chain: Vec<&Task> = Vec::new();
        let mut current = leaf;
        let mut steps: usize = 0;
        let ghost full = self.climb(leaf, n as nat);
        loop
            invariant_except_break
                self.valid(),
                n == self.task_seq().len(),
                steps <= n,
                chain@.len() == steps,
                full == self.climb(leaf, n as nat),
                full == chain@.map_values(|t: &Task| t.id) + self.climb(current, (n - steps) as nat),
                forall|i: int| 0 <= i < chain@.len() ==> Some(*#[trigger] chain@[i]) == self.spec_task((*chain@[i]).id),
            ensures
                full == chain@.map_values(|t: &Task| t.id),
                forall|i: int| 0 <= i < chain@.len() ==> Some(*#[trigger] chain@[i]) == self.spec_task((*chain@[i]).id),
            decreases n - steps,
        {
            if steps == n {
                assert(self.climb(current, 0) =~= Seq::<i64>::empty());
                assert(full =~= chain@.map_values(|t: &Task| t.id));
                break;
            }
            let task = match self.task(current) {
                Some(t) => t,
                None => {
                    assert(full =~= chain@.map_values(|t: &Task| t.id));
                    break;
                },
            };
            proof {
                lemma_find_index_bounds(self.task_seq(), current);
            }
            let ghost prev = chain@;
            chain.push(task);
            steps = steps + 1;
            assert(chain@.map_values(|t: &Task| t.id) =~= prev.map_values(|t: &Task| t.id).push(current));
            match self.representative_parent(current) {
                Some(p) => {
                    proof {
                        let q = self.next_up(current).unwrap();
                        lemma_find_index_bounds(self.task_seq(), q);
                        assert(full =~= chain@.map_values(|t: &Task| t.id) + self.climb(p.id, (n - steps) as nat));
                    }
                    current = p.id;
                },
                None => {
                    assert(full =~= chain@.map_values(|t: &Task| t.id));
                    break;
                },
            }
        }
        let mut r: Vec<&Task> = Vec::new();
        let mut i: usize = chain.len();
        while i > 0
            invariant
                i <= chain@.len(),
                r@.len() == chain@.len() - i,
                forall|j: int| 0 <= j < r@.len() ==> #[trigger] r@[j] == chain@[chain@.len() - 1 - j],
            decreases i,
        {
            i = i - 1;
            r.push(chain[i]);
        }
        proof {
            assert forall|j: int| 0 <= j < r@.len() implies Some(*#[trigger] r@[j]) == self.spec_task(
                full.reverse()[j]) by {
                let q = chain@.len() - 1 - j;
                assert(r@[j] == chain@[q]);
                assert(full[q] == (*chain@[q]).id);
            }
        }
        r
    }
}


/// Strict lexicographic order of id sequences; a proper prefix comes first.
pub open spec fn seq_less(a: Seq<i64>, b: Seq<i64>) -> bool
    decreases a.len(),
{
    if a.len() == 0 {
        b.len() > 0
    } else if b.len() == 0 {
        false
    } else if a[0] < b[0] {
        true
    } else if a[0] > b[0] {
        false
    } else {
        seq_less(a.drop_first(), b.drop_first())
    }
}

/// No sequence is lexicographically smaller than itself.
pub proof fn lemma_seq_less_irreflexive(a: Seq<i64>)
    ensures
        !seq_less(a, a),
    decreases a.len(),
{
    if a.len() > 0 {
        lemma_seq_less_irreflexive(a.drop_first());
    }
}

/// The number of unmarked entries.
pub open spec fn unmarked(m: Seq<bool>) -> nat
    decreases m.len(),
{
    if m.len() == 0 {
        0
    } else {
        unmarked(m.drop_last()) + if m.last() {
            0nat
        } else {
            1nat
        }
    }
}

/// There are never more unmarked entries than entries.
pub proof fn lemma_unmarked_len(m: Seq<bool>)
    ensures
        unmarked(m) <= m.len(),
    decreases m.len(),
{
    if m.len() > 0 {
        lemma_unmarked_len(m.drop_last());
    }
}

/// Marking more entries never adds unmarked ones.
pub proof fn lemma_unmarked_grow(a: Seq<bool>, b: Seq<bool>, i: int)
    requires
        a.len() == b.len(),
        forall|j: int| 0 <= j < a.len() && #[trigger] a[j] ==> b[j],
    ensures
        unmarked(b) <= unmarked(a),
        0 <= i < a.len() && b[i] && !a[i] ==> unmarked(b) < unmarked(a),
    decreases a.len(),
{
    if a.len() > 0 {
        assert forall|j: int| 0 <= j < a.len() - 1 && #[trigger] a.drop_last()[j] implies b.drop_last()[j] by {
            assert(a[j]);
        }
        lemma_unmarked_grow(a.drop_last(), b.drop_last(), i);
    }
}

impl Graph {
    /// A walk down the dependency edges: each id is a child of the one before.
    pub open spec fn is_walk(self, w: Seq<i64>) -> bool {
        w.len() >= 1 && forall|i: int|
            0 < i < w.len() ==> #[trigger] self.spec_children(w[i - 1]).contains(w[i])
    }

    /// A walk from `a` to `b` that meets no id of `avoid`.
    pub open spec fn walk_between(self, w: Seq<i64>, a: i64, b: i64, avoid: Set<i64>) -> bool {
        &&& self.is_walk(w)
        &&& w[0] == a
        &&& w.last() == b
        &&& forall|i: int| 0 <= i < w.len() ==> !avoid.contains(#[trigger] w[i])
    }

    /// `p` is the lexicographically least path without repeats from `a` to
    /// `b` that meets no id of `avoid`: the one that a depth-first search over
    /// children in ascending order meets first.
    pub open spec fn least_path(self, p: Seq<i64>, a: i64, b: i64, avoid: Set<i64>) -> bool {
        &&& self.walk_between(p, a, b, avoid)
        &&& p.no_duplicates()
        &&& forall|q: Seq<i64>| #[trigger]
            self.walk_between(q, a, b, avoid) && q.no_duplicates() ==> !seq_less(q, p)
    }

    /// Some walk leads from `a` to `b`.
    pub open spec fn reaches(self, a: i64, b: i64) -> bool {
        exists|w: Seq<i64>| #[trigger] self.walk_between(w, a, b, Set::empty())
    }

    spec fn marked(self, m: Seq<bool>, id: i64) -> bool {
        let i = find_index(self.task_seq(), id);
        i >= 0 && m[i]
    }

    /// Every marked id off the stack has all its children marked.
    spec fn closed(self, m: Seq<bool>, stack: Seq<i64>) -> bool {
        forall|x: i64, k: int|
            #[trigger] self.marked(m, x) && !stack.contains(x) && 0 <= k < self.spec_children(x).len()
                ==> self.marked(m, #[trigger] self.spec_children(x)[k])
    }

    proof fn lemma_no_escape(self, m: Seq<bool>, stack: Seq<i64>, w: Seq<i64>)
        requires
            self.closed(m, stack),
            self.is_walk(w),
            self.marked(m, w[0]),
            forall|i: int| 0 <= i < w.len() ==> !stack.contains(#[trigger] w[i]),
        ensures
            self.marked(m, w.last()),
        decreases w.len(),
    {
        if w.len() > 1 {
            let v = w.drop_last();
            assert forall|i: int| 0 < i < v.len() implies #[trigger] self.spec_children(v[i - 1]).contains(v[i]) by {
                assert(self.spec_children(w[i - 1]).contains(w[i]));
            }
            assert forall|i: int| 0 <= i < v.len() implies !stack.contains(#[trigger] v[i]) by {
                assert(!stack.contains(w[i]));
            }
            self.lemma_no_escape(m, stack, v);
            let x = w[w.len() - 2];
            assert(self.spec_children(w[w.len() - 1 - 1]).contains(w[w.len() - 1]));
            let k = choose|k: int| 0 <= k < self.spec_children(x).len() && self.spec_children(x)[k] == w.last();
            assert(!stack.contains(w[w.len() - 2]));
        }
    }

    fn visit(&self, current: i64, target: i64, path: &mut Vec<i64>, marks: &mut Vec<bool>) -> (found: bool)
        requires
            self.valid(),
            old(marks)@.len() == self.task_seq().len(),
            has_task(self.task_seq(), current),
            !self.marked(old(marks)@, current),
            !self.marked(old(marks)@, target),
            forall|i: int| 0 <= i < old(path)@.len() ==> self.marked(old(marks)@, #[trigger] old(path)@[i]),
            self.closed(old(marks)@, old(path)@),
        ensures
            final(marks)@.len() == self.task_seq().len(),
            found ==> old(path)@.len() < final(path)@.len() && final(path)@.subrange(0, old(path)@.len() as int) == old(path)@
                && self.least_path(
                final(path)@.subrange(old(path)@.len() as int, final(path)@.len() as int),
                current,
                target,
                old(path)@.to_set(),
            ),
            !found ==> {
                &&& final(path)@ == old(path)@
                &&& forall|j: int| 0 <= j < old(marks)@.len() && #[trigger] old(marks)@[j] ==> final(marks)@[j]
                &&& self.marked(final(marks)@, current)
                &&& !self.marked(final(marks)@, target)
                &&& self.closed(final(marks)@, old(path)@)
            },
        decreases unmarked(old(marks)@),
    {
        let ghost stack = path@;
        let ghost entry = marks@;
        path.push(current);
        let ghost here = path@;
        assert(here == stack.push(current));
        if current == target {
            proof {
                let p = seq![current];
                assert(path@.subrange(stack.len() as int, path@.len() as int) =~= p);
                assert(path@.subrange(0, stack.len() as int) =~= stack);
                assert(!stack.contains(current)) by {
                    if stack.contains(current) {
                        let i = choose|i: int| 0 <= i < stack.len() && stack[i] == current;
                        assert(self.marked(entry, stack[i]));
                    }
                }
                assert forall|q: Seq<i64>| #[trigger] self.walk_between(q, current, target, stack.to_set()) && q.no_duplicates() implies !seq_less(q, p) by {
                    if q.len() > 1 {
                        assert(q[0] == q[q.len() - 1]);
                        assert(0 != q.len() - 1);
                    }
                    assert(q =~= p);
                    lemma_seq_less_irreflexive(p);
                }
            }
            return true;
        }
        let ci = match self.index(current) {
            Some(i) => i,
            None => {
                proof {
                    lemma_find_task_sorted(self.task_seq(), current);
                    lemma_find_index_bounds(self.task_seq(), current);
                }
                return false;
            },
        };
        marks.set(ci, true);
        proof {
            lemma_find_index_bounds(self.task_seq(), current);
            assert(!entry[ci as int]);
            assert forall|j: int| 0 <= j < entry.len() && #[trigger] entry[j] implies marks@[j] by {}
            lemma_unmarked_grow(entry, marks@, ci as int);
            assert(here[here.len() - 1] == current);
            assert(here.contains(current));
            lemma_find_index_bounds(self.task_seq(), target);
            if find_index(self.task_seq(), target) >= 0 {
                assert(find_index(self.task_seq(), target) != ci);
            }
            assert forall|x: i64, k: int| #[trigger] self.marked(marks@, x) && !here.contains(x) && 0 <= k < self.spec_children(x).len()
                implies self.marked(marks@, #[trigger] self.spec_children(x)[k]) by {
                lemma_find_index_bounds(self.task_seq(), x);
                if stack.contains(x) {
                    let i = choose|i: int| 0 <= i < stack.len() && stack[i] == x;
                    assert(here[i] == stack[i]);
                }
                let xi = find_index(self.task_seq(), x);
                assert(xi != ci);
                assert(marks@[xi] == entry[xi]);
                assert(self.marked(entry, x));
                let c = self.spec_children(x)[k];
                assert(self.marked(entry, c));
                lemma_find_index_bounds(self.task_seq(), c);
                assert(entry[find_index(self.task_seq(), c)]);
            }
            assert(!stack.contains(current)) by {
                if stack.contains(current) {
                    let i = choose|i: int| 0 <= i < stack.len() && stack[i] == current;
                    assert(self.marked(entry, stack[i]));
                }
            }
            assert forall|i: int| 0 <= i < here.len() implies self.marked(marks@, #[trigger] here[i]) by {
                if i < stack.len() {
                    assert(here[i] == stack[i]);
                    assert(self.marked(entry, stack[i]));
                    lemma_find_index_bounds(self.task_seq(), stack[i]);
                    assert(entry[find_index(self.task_seq(), stack[i])]);
                }
            }
        }
        let cs = self.children(current);
        let mut k: usize = 0;
        while k < cs.len()
            invariant
                self.valid(),
                cs@ == self.spec_children(current),
                path@ == here,
                here == stack.push(current),
                !stack.contains(current),
                current != target,
                marks@.len() == entry.len(),
                entry.len() == self.task_seq().len(),
                ci == find_index(self.task_seq(), current),
                ci < marks@.len(),
                marks@[ci as int],
                !entry[ci as int],
                entry == old(marks)@,
                stack == old(path)@,
                unmarked(marks@) < unmarked(entry),
                forall|j: int| 0 <= j < entry.len() && #[trigger] entry[j] ==> marks@[j],
                !self.marked(marks@, target),
                forall|i: int| 0 <= i < here.len() ==> self.marked(marks@, #[trigger] here[i]),
                self.closed(marks@, here),
                k <= cs@.len(),
                forall|q: int| 0 <= q < k ==> self.marked(marks@, #[trigger] cs@[q]),
                forall|q: int|
                    0 <= q < k ==> here.contains(#[trigger] cs@[q]) || !exists|w: Seq<i64>|
                        self.walk_between(w, cs@[q], target, here.to_set()),
            decreases cs@.len() - k,
        {
            let c = cs[k];
            proof {
                lemma_find_index_bounds(self.task_seq(), current);
                assert(has_task(self.task_seq(), self.child_seqs()[ci as int][k as int]));
                lemma_find_index_bounds(self.task_seq(), c);
            }
            let cix = match self.index(c) {
                Some(i) => i,
                None => {
                    proof {
                        lemma_find_task_sorted(self.task_seq(), c);
                    }
                    k = k + 1;
                    continue;
                },
            };
            let ghost before = marks@;
            if !marks[cix] {
                proof {
                    assert forall|i: int| 0 <= i < here.len() implies self.marked(marks@, #[trigger] here[i]) by {}
                }
                assert(unmarked(marks@) < unmarked(old(marks)@));
                let found = self.visit(c, target, path, marks);
                if found {
                    proof {
                        let r = path@.subrange(here.len() as int, path@.len() as int);
                        let p = seq![current] + r;
                        assert(path@.subrange(0, here.len() as int)[stack.len() as int] == here[stack.len() as int]);
                        assert forall|i: int| 0 <= i < p.len() implies #[trigger] path@.subrange(stack.len() as int, path@.len() as int)[i] == p[i] by {
                            if i == 0 {
                            } else {
                                assert(p[i] == r[i - 1]);
                            }
                        }
                        assert(path@.subrange(stack.len() as int, path@.len() as int) =~= p);
                        assert(path@.subrange(0, stack.len() as int) =~= stack) by {
                            assert(path@.subrange(0, here.len() as int) == here);
                        }
                        let a = here.to_set();
                        assert(self.least_path(r, c, target, a));
                        assert(!r.contains(current)) by {
                            if r.contains(current) {
                                let i = choose|i: int| 0 <= i < r.len() && r[i] == current;
                                assert(!a.contains(r[i]));
                                assert(here.contains(current)) by {
                                    assert(here[here.len() - 1] == current);
                                }
                            }
                        }
                        assert(p.drop_first() =~= r);
                        assert(p.last() == r.last());
                        assert(path@.len() > stack.len());
                        assert(self.is_walk(p)) by {
                            assert forall|i: int| 0 < i < p.len() implies #[trigger] self.spec_children(p[i - 1]).contains(p[i]) by {
                                if i == 1 {
                                    assert(cs@[k as int] == c);
                                } else {
                                    assert(p[i] == r[i - 1]);
                                    assert(p[i - 1] == r[i - 2]);
                                    assert(self.spec_children(r[i - 1 - 1]).contains(r[i - 1]));
                                }
                            }
                        }
                        assert forall|i: int| 0 <= i < p.len() implies !stack.to_set().contains(#[trigger] p[i]) by {
                            if i > 0 {
                                assert(p[i] == r[i - 1]);
                                assert(!a.contains(r[i - 1]));
                                if stack.contains(r[i - 1]) {
                                    let j = choose|j: int| 0 <= j < stack.len() && stack[j] == r[i - 1];
                                    assert(here[j] == stack[j]);
                                }
                            }
                        }
                        assert(p.no_duplicates()) by {
                            assert forall|i: int, j: int| 0 <= i < p.len() && 0 <= j < p.len() && i != j implies p[i] != p[j] by {
                                if i > 0 && j > 0 {
                                    assert(p[i] == r[i - 1]);
                                    assert(p[j] == r[j - 1]);
                                } else if i == 0 {
                                    assert(p[j] == r[j - 1]);
                                    assert(r.contains(r[j - 1]));
                                } else {
                                    assert(p[i] == r[i - 1]);
                                    assert(r.contains(r[i - 1]));
                                }
                            }
                        }
                        assert forall|q: Seq<i64>| #[trigger] self.walk_between(q, current, target, stack.to_set()) && q.no_duplicates() implies !seq_less(q, p) by {
                            assert(q.len() >= 2);
                            let q1 = q[1];
                            assert(self.spec_children(q[1 - 1]).contains(q[1]));
                            let j = choose|j: int| 0 <= j < cs@.len() && cs@[j] == q1;
                            let qd = q.drop_first();
                            assert(qd.no_duplicates());
                            assert(self.is_walk(qd)) by {
                                assert forall|i: int| 0 < i < qd.len() implies #[trigger] self.spec_children(qd[i - 1]).contains(qd[i]) by {
                                    assert(self.spec_children(q[i + 1 - 1]).contains(q[i + 1]));
                                }
                            }
                            assert forall|i: int| 0 <= i < qd.len() implies !a.contains(#[trigger] qd[i]) by {
                                assert(qd[i] == q[i + 1]);
                                assert(q[i + 1] != q[0]);
                                assert(!stack.to_set().contains(q[i + 1]));
                                if here.contains(qd[i]) {
                                    let h = choose|h: int| 0 <= h < here.len() && here[h] == qd[i];
                                    if h < stack.len() {
                                        assert(stack[h] == here[h]);
                                        assert(stack.contains(qd[i]));
                                    }
                                }
                            }
                            assert(self.walk_between(qd, q1, target, a));
                            if q1 < c {
                                if j >= k {
                                    assert(self.child_seqs()[ci as int] == cs@);
                                    assert(ascending(self.child_seqs()[ci as int]));
                                    assert(cs@[k as int] <= cs@[j]);
                                }
                                assert(here.contains(cs@[j]) || !exists|w: Seq<i64>| self.walk_between(w, cs@[j], target, a));
                                if here.contains(cs@[j]) {
                                    assert(!a.contains(qd[0]));
                                }
                                assert(cs@[j] == q1);
                                assert(self.walk_between(qd, cs@[j], target, a));
                                assert(false);
                            } else if q1 == c {
                                assert(!seq_less(qd, r));
                            } else {
                                assert(r[0] == c);
                                assert(!seq_less(qd, r));
                            }
                            assert(q.drop_first() == qd);
                            assert(p.drop_first() == r);
                            assert(q[0] == p[0]);
                            assert(seq_less(q, p) == seq_less(qd, r));
                        }
                        assert(self.least_path(p, current, target, stack.to_set()));
                    }
                    return true;
                }
                proof {
                    assert forall|j: int| 0 <= j < entry.len() && #[trigger] entry[j] implies marks@[j] by {
                        assert(before[j]);
                    }
                    lemma_unmarked_grow(entry, marks@, ci as int);
                    assert forall|i: int| 0 <= i < here.len() implies self.marked(marks@, #[trigger] here[i]) by {
                        assert(self.marked(before, here[i]));
                        lemma_find_index_bounds(self.task_seq(), here[i]);
                    }
                    assert(self.marked(marks@, cs@[k as int]));
                    assert forall|q: int| 0 <= q < k implies self.marked(marks@, #[trigger] cs@[q]) by {
                        assert(self.marked(before, cs@[q]));
                        lemma_find_index_bounds(self.task_seq(), cs@[q]);
                    }
                }
            }
            proof {
                let a = here.to_set();
                assert(self.marked(marks@, cs@[k as int])) by {
                    lemma_find_index_bounds(self.task_seq(), c);
                }
                if !here.contains(c) {
                    if exists|w: Seq<i64>| self.walk_between(w, c, target, a) {
                        let w = choose|w: Seq<i64>| self.walk_between(w, c, target, a);
                        assert forall|i: int| 0 <= i < w.len() implies !here.contains(#[trigger] w[i]) by {
                            assert(!a.contains(w[i]));
                        }
                        self.lemma_no_escape(marks@, here, w);
                    }
                }
            }
            k = k + 1;
        }
        path.pop();
        proof {
            assert(path@ =~= stack);
            assert forall|x: i64, q: int| #[trigger] self.marked(marks@, x) && !stack.contains(x) && 0 <= q < self.spec_children(x).len()
                implies self.marked(marks@, #[trigger] self.spec_children(x)[q]) by {
                if x != current {
                    assert(!here.contains(x));
                } else {
                    assert(self.marked(marks@, cs@[q]));
                }
            }
            lemma_find_index_bounds(self.task_seq(), current);
        }
        false
    }

    /// The first path that a depth-first search over children in ascending
    /// order finds from `from` to `to`; `None` when no walk leads there.
    pub fn deterministic_path(&self, from: i64, to: i64) -> (r: Option<Vec<i64>>)
        requires
            self.valid(),
        ensures
            r matches Some(p) ==> self.least_path(p@, from, to, Set::empty()),
            r is None <==> !self.reaches(from, to),
    {
        if self.index(from).is_none() {
            proof {
                lemma_find_index_bounds(self.task_seq(), from);
                assert(self.spec_children(from) =~= Seq::<i64>::empty());
                assert forall|w: Seq<i64>| #[trigger] self.walk_between(w, from, to, Set::empty()) implies w.len() == 1 && from == to by {
                    if w.len() > 1 {
                        assert(self.spec_children(w[1 - 1]).contains(w[1]));
                    }
                }
            }
            if from == to {
                let mut p: Vec<i64> = Vec::new();
                p.push(from);
                proof {
                    assert(p@ =~= seq![from]);
                    assert forall|q: Seq<i64>| #[trigger] self.walk_between(q, from, to, Set::empty()) && q.no_duplicates() implies !seq_less(q, p@) by {
                        assert(q =~= p@);
                        lemma_seq_less_irreflexive(p@);
                    }
                    assert(self.walk_between(p@, from, to, Set::empty()));
                }
                return Some(p);
            } else {
                return None;
            }
        }
        let n = self.tasks.len();
        let mut marks: Vec<bool> = Vec::new();
        let mut i: usize = 0;
        while i < n
            invariant
                i <= n,
                marks@.len() == i,
                forall|j: int| 0 <= j < i ==> !(#[trigger] marks@[j]),
            decreases n - i,
        {
            marks.push(false);
            i = i + 1;
        }
        let mut path: Vec<i64> = Vec::new();
        proof {
            lemma_find_index_bounds(self.task_seq(), from);
            lemma_find_index_bounds(self.task_seq(), to);
            lemma_find_task_sorted(self.task_seq(), from);
            assert(Seq::<i64>::empty().to_set() =~= Set::<i64>::empty());
        }
        proof {
            assert forall|x: i64| !self.marked(marks@, x) by {
                lemma_find_index_bounds(self.task_seq(), x);
            }
        }
        let found = self.visit(from, to, &mut path, &mut marks);
        if found {
            proof {
                assert(path@.subrange(0, path@.len() as int) =~= path@);
            }
            Some(path)
        } else {
            proof {
                if exists|w: Seq<i64>| #[trigger] self.walk_between(w, from, to, Set::empty()) {
                    let w = choose|w: Seq<i64>| #[trigger] self.walk_between(w, from, to, Set::empty());
                    self.lemma_no_escape(marks@, Seq::empty(), w);
                }
            }
            None
        }
    }
}


/// Text of the error for a description that is blank.
pub open spec fn empty_description_text() -> Seq<char> {
    "description must not be empty"@
}

/// Text of the error for a description that spans lines.
pub open spec fn multiline_description_text() -> Seq<char> {
    "description must be a single line"@
}

/// What `validate_description` returns for `raw`.
pub open spec fn description_check(raw: Seq<char>) -> Result<Seq<char>, Seq<char>> {
    let d = trim(raw);
    if d.len() == 0 {
        Err(empty_description_text())
    } else if d.contains('\n') || d.contains('\r') {
        Err(multiline_description_text())
    } else {
        Ok(d)
    }
}

/// The description trimmed of surrounding white space; refused when nothing
/// is left or when it holds a line break.
pub fn validate_description(raw: &str) -> (r: Result<String, Error>)
    ensures
        match description_check(raw@) {
            Ok(d) => r matches Ok(s) && s@ == d,
            Err(m) => r matches Err(Error::Domain(e)) && e@ == m,
        },
{
    let description = trimmed(raw);
    let cs = chars_of(description.as_str());
    if cs.len() == 0 {
        let m = String::from_str("description must not be empty");
        return Err(Error::domain(m));
    }
    if has_char(&cs, '\n') || has_char(&cs, '\r') {
        let m = String::from_str("description must be a single line");
        return Err(Error::domain(m));
    }
    Ok(description)
}

} // verus!
