//! The task model: a record with a unique positive identifier and a text
//! description, the collection invariant, identifier assignment, and the two
//! mutating operations (append a new task, drop a task by identifier).

use vstd::prelude::*;

verus! {

/// A single to-do item: a positive identifier, unique within the stored
/// collection, and the text the user supplied.
pub struct Task {
    pub id: u32,
    pub description: String,
}

/// The mathematical value of a task: the identifier and the description as a
/// sequence of characters.
pub ghost struct TaskView {
    pub id: u32,
    pub description: Seq<char>,
}

impl View for Task {
    type V = TaskView;

    open spec fn view(&self) -> TaskView {
        TaskView { id: self.id, description: self.description@ }
    }
}

impl Clone for Task {
    fn clone(&self) -> (r: Self)
        ensures
            r@ == self@,
    {
        Task { id: self.id, description: self.description.clone() }
    }
}

/// The values of a sequence of tasks.
pub open spec fn views(ts: Seq<Task>) -> Seq<TaskView> {
    ts.map_values(|t: Task| t@)
}

pub proof fn lemma_views_push(ts: Seq<Task>, t: Task)
    ensures
        views(ts.push(t)) == views(ts).push(t@),
{
    assert(views(ts.push(t)) =~= views(ts).push(t@));
}

/// The collection invariant: identifiers are positive and pairwise distinct.
pub open spec fn wf_tasks(ts: Seq<TaskView>) -> bool {
    &&& forall|i: int, j: int| 0 <= i < j < ts.len() ==> ts[i].id != ts[j].id
    &&& forall|i: int| 0 <= i < ts.len() ==> ts[i].id >= 1
}

/// The largest identifier present, or 0 for an empty collection.
pub open spec fn spec_max_id(ts: Seq<TaskView>) -> int
    decreases ts.len(),
{
    if ts.len() == 0 {
        0
    } else {
        let rest = spec_max_id(ts.drop_last());
        if ts.last().id > rest {
            ts.last().id as int
        } else {
            rest
        }
    }
}

/// The identifier the next added task receives: one more than the largest
/// identifier present, so 1 on an empty collection. It is recomputed from the
/// current contents every time, never kept as a counter, so removing the
/// highest-numbered task frees its identifier for reuse.
pub open spec fn spec_next_id(ts: Seq<TaskView>) -> int {
    spec_max_id(ts) + 1
}

pub proof fn lemma_max_id_bounds(ts: Seq<TaskView>)
    ensures
        0 <= spec_max_id(ts) <= u32::MAX,
        forall|i: int| 0 <= i < ts.len() ==> ts[i].id <= spec_max_id(ts),
    decreases ts.len(),
{
    if ts.len() > 0 {
        lemma_max_id_bounds(ts.drop_last());
        assert(forall|i: int| 0 <= i < ts.len() - 1 ==> ts[i] == ts.drop_last()[i]);
    }
}

/// The largest identifier in the collection, or 0 when it is empty.
pub fn max_id(tasks: &Vec<Task>) -> (r: u32)
    ensures
        r as int == spec_max_id(views(tasks@)),
{
    let ghost vs = views(tasks@);
    let mut m: u32 = 0;
    let mut i: usize = 0;
    while i < tasks.len()
        invariant
            i <= tasks@.len(),
            vs == views(tasks@),
            vs.len() == tasks@.len(),
            m as int == spec_max_id(vs.subrange(0, i as int)),
        decreases tasks@.len() - i,
    {
        if tasks[i].id > m {
            m = tasks[i].id;
        }
        i = i + 1;
        proof {
            let prefix = vs.subrange(0, i as int);
            assert(prefix.drop_last() =~= vs.subrange(0, i - 1));
            assert(prefix.last() == vs[i - 1]);
            assert(vs[i - 1] == tasks@[i - 1]@);
        }
    }
    proof {
        assert(vs.subrange(0, tasks@.len() as int) =~= vs);
    }
    m
}

/// The identifier for the next task to add.
pub fn next_id(tasks: &Vec<Task>) -> (r: u32)
    requires
        spec_max_id(views(tasks@)) < u32::MAX,
    ensures
        r as int == spec_next_id(views(tasks@)),
        r >= 1,
{
    max_id(tasks) + 1
}

/// The collection after adding a task with the given description: the new
/// task is appended and receives the next identifier.
pub open spec fn spec_add(ts: Seq<TaskView>, desc: Seq<char>) -> Seq<TaskView> {
    ts.push(TaskView { id: spec_next_id(ts) as u32, description: desc })
}

/// Appends a new task carrying the given description under the next free
/// identifier.
pub fn add_task(tasks: &mut Vec<Task>, description: String)
    requires
        spec_max_id(views(old(tasks)@)) < u32::MAX,
    ensures
        views(final(tasks)@) == spec_add(views(old(tasks)@), description@),
{
    let id = next_id(tasks);
    let ghost before = tasks@;
    let ghost desc_view = description@;
    tasks.push(Task { id, description });
    proof {
        assert(views(tasks@) =~= spec_add(views(before), desc_view));
    }
}

/// The collection after removing the tasks whose identifier equals `id`:
/// every other task stays, in order.
pub open spec fn spec_remove(ts: Seq<TaskView>, id: u32) -> Seq<TaskView> {
    ts.filter(|t: TaskView| t.id != id)
}

/// Whether some task in the collection carries the given identifier.
pub open spec fn contains_id(ts: Seq<TaskView>, id: u32) -> bool {
    exists|i: int| 0 <= i < ts.len() && ts[i].id == id
}

/// Removing an identifier that no task carries leaves the collection as it
/// was.
pub proof fn lemma_remove_absent(ts: Seq<TaskView>, id: u32)
    requires
        !contains_id(ts, id),
    ensures
        spec_remove(ts, id) == ts,
    decreases ts.len(),
{
    reveal(Seq::filter);
    if ts.len() > 0 {
        if contains_id(ts.drop_last(), id) {
            let w = choose|k: int|
                0 <= k < ts.drop_last().len() && ts.drop_last()[k].id == id;
            assert(ts[w].id == id);
        }
        lemma_remove_absent(ts.drop_last(), id);
        assert(ts.last().id != id) by {
            if ts.last().id == id {
                assert(ts[ts.len() - 1].id == id);
            }
        }
        assert(spec_remove(ts, id) =~= ts);
    } else {
        assert(spec_remove(ts, id) =~= ts);
    }
}

/// Drops every task whose identifier equals `id`, keeping the others in
/// order; reports whether anything was dropped.
pub fn remove_task(tasks: &mut Vec<Task>, id: u32) -> (removed: bool)
    ensures
        views(final(tasks)@) == spec_remove(views(old(tasks)@), id),
        removed == contains_id(views(old(tasks)@), id),
{
    let ghost vs = views(tasks@);
    let mut out: Vec<Task> = Vec::new();
    let mut found = false;
    let mut i: usize = 0;
    proof {
        reveal(Seq::filter);
        assert(vs.subrange(0, 0) =~= Seq::<TaskView>::empty());
        assert(views(out@) =~= Seq::<TaskView>::empty());
    }
    while i < tasks.len()
        invariant
            i <= tasks@.len(),
            vs == views(tasks@),
            vs.len() == tasks@.len(),
            views(out@) == vs.subrange(0, i as int).filter(|t: TaskView| t.id != id),
            found == contains_id(vs.subrange(0, i as int), id),
        decreases tasks@.len() - i,
    {
        let ghost out_before = out@;
        let ghost cur = vs[i as int];
        proof {
            reveal(Seq::filter);
            assert(cur == tasks@[i as int]@);
            let prefix = vs.subrange(0, i + 1);
            assert(prefix.drop_last() =~= vs.subrange(0, i as int));
            assert(prefix.last() == cur);
        }
        if tasks[i].id == id {
            found = true;
            proof {
                reveal(Seq::filter);
                assert(vs.subrange(0, i + 1)[i as int].id == id);
            }
        } else {
            let t = tasks[i].clone();
            proof {
                assert(t@ == cur);
            }
            out.push(t);
            proof {
                reveal(Seq::filter);
                lemma_views_push(out_before, t);
                let prefix = vs.subrange(0, i + 1);
                assert(views(out@) == prefix.filter(|t: TaskView| t.id != id));
                // membership of the identifier is unchanged by this step
                if contains_id(prefix, id) {
                    let w = choose|k: int| 0 <= k < prefix.len() && prefix[k].id == id;
                    assert(vs.subrange(0, i as int)[w].id == id);
                    assert(contains_id(vs.subrange(0, i as int), id));
                }
                if contains_id(vs.subrange(0, i as int), id) {
                    let w = choose|k: int|
                        0 <= k < i && vs.subrange(0, i as int)[k].id == id;
                    assert(prefix[w].id == id);
                }
            }
        }
        i = i + 1;
    }
    proof {
        assert(vs.subrange(0, tasks@.len() as int) =~= vs);
    }
    *tasks = out;
    found
}

} // verus!
