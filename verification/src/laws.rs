//! The promises the library keeps across operations, each stated over the
//! specification functions the public contracts use, and proved here once
//! and for all inputs.

use vstd::prelude::*;

use crate::commands::spec_lines;
use crate::numbers::spec_dec;
use crate::task::TaskView;
use crate::task::contains_id;
use crate::task::lemma_max_id_bounds;
use crate::task::lemma_remove_absent;
use crate::task::spec_add;
use crate::task::spec_max_id;
use crate::task::spec_next_id;
use crate::task::spec_remove;
use crate::task::wf_tasks;

verus! {

/// Identifiers count 1, 2, ... n in collection order: what holds of a
/// collection built by adds alone.
pub open spec fn ids_sequential(ts: Seq<TaskView>) -> bool {
    forall|i: int| 0 <= i < ts.len() ==> ts[i].id == i + 1
}

/// The empty collection has sequential identifiers, vacuously: the starting
/// point for a history of adds.
pub proof fn lemma_empty_ids_sequential()
    ensures
        ids_sequential(Seq::<TaskView>::empty()),
{
}

/// With sequential identifiers, the largest identifier is the length.
pub proof fn lemma_sequential_max(ts: Seq<TaskView>)
    requires
        ids_sequential(ts),
    ensures
        spec_max_id(ts) == ts.len(),
    decreases ts.len(),
{
    if ts.len() > 0 {
        let dl = ts.drop_last();
        assert(ids_sequential(dl)) by {
            assert(forall|i: int| 0 <= i < dl.len() ==> dl[i] == ts[i]);
        }
        lemma_sequential_max(dl);
        assert(ts.last().id == ts.len());
    }
}

/// Every `add` onto a collection whose identifiers are 1..n appends the
/// identifier n + 1: over any sequence of adds from the empty collection,
/// the identifiers come out as exactly 1..n in call order.
pub proof fn lemma_add_keeps_ids_sequential(ts: Seq<TaskView>, desc: Seq<char>)
    requires
        ids_sequential(ts),
        ts.len() < u32::MAX,
    ensures
        ids_sequential(spec_add(ts, desc)),
        spec_add(ts, desc)[ts.len() as int].id == ts.len() + 1,
{
    lemma_sequential_max(ts);
    let after = spec_add(ts, desc);
    assert(after[ts.len() as int].id == ts.len() + 1);
    assert(forall|i: int| 0 <= i < ts.len() ==> after[i] == ts[i]);
}

/// Adding a task and then listing shows it as the last line, under the
/// identifier assigned at add time and with the exact description given;
/// the earlier lines stay as they were.
pub proof fn lemma_add_then_list(ts: Seq<TaskView>, desc: Seq<char>)
    requires
        spec_max_id(ts) < u32::MAX,
    ensures
        spec_lines(spec_add(ts, desc)).len() == ts.len() + 1,
        spec_lines(spec_add(ts, desc)).last() == spec_dec(spec_next_id(ts)) + seq![':', ' ']
            + desc,
        forall|i: int| 0 <= i < ts.len() ==> spec_lines(spec_add(ts, desc))[i] == spec_lines(
            ts,
        )[i],
{
    lemma_max_id_bounds(ts);
    let after = spec_add(ts, desc);
    assert(after.last().id == spec_next_id(ts));
    assert(spec_lines(after).last() == crate::commands::spec_line(after.last()));
    assert(forall|i: int| 0 <= i < ts.len() ==> after[i] == ts[i]);
}

/// Removing the only task present empties the collection; listing then
/// reports that there are no tasks, by the dispatcher's contract on an
/// empty collection.
pub proof fn lemma_remove_only_task(t: TaskView)
    ensures
        spec_remove(seq![t], t.id).len() == 0,
{
    reveal(Seq::filter);
    let ts = seq![t];
    assert(ts.drop_last() =~= Seq::<TaskView>::empty());
    assert(spec_remove(Seq::<TaskView>::empty(), t.id).len() == 0);
}

/// Removing the highest-numbered task frees its identifier: on a collection
/// with identifiers 1..n, removing n and adding again assigns n, not n + 1.
/// The next identifier is recomputed from what is present, never remembered.
pub proof fn lemma_removed_max_id_reused(ts: Seq<TaskView>, desc: Seq<char>)
    requires
        ids_sequential(ts),
        1 <= ts.len() <= u32::MAX,
    ensures
        spec_next_id(spec_remove(ts, ts.len() as u32)) == ts.len(),
        spec_add(spec_remove(ts, ts.len() as u32), desc).last().id == ts.len(),
{
    reveal(Seq::filter);
    let n = ts.len() as u32;
    let dl = ts.drop_last();
    assert(ids_sequential(dl)) by {
        assert(forall|i: int| 0 <= i < dl.len() ==> dl[i] == ts[i]);
    }
    if contains_id(dl, n) {
        let w = choose|k: int| 0 <= k < dl.len() && dl[k].id == n;
        assert(ts[w].id == n);
    }
    lemma_remove_absent(dl, n);
    assert(ts.last().id == n);
    assert(spec_remove(ts, n) == dl);
    lemma_sequential_max(dl);
}

/// An `add` keeps identifiers unique and positive: the assigned identifier
/// exceeds the largest one present.
pub proof fn lemma_add_preserves_wf(ts: Seq<TaskView>, desc: Seq<char>)
    requires
        wf_tasks(ts),
        spec_max_id(ts) < u32::MAX,
    ensures
        wf_tasks(spec_add(ts, desc)),
{
    lemma_max_id_bounds(ts);
    let after = spec_add(ts, desc);
    assert(forall|i: int| 0 <= i < ts.len() ==> after[i] == ts[i]);
    assert(after[ts.len() as int].id == spec_max_id(ts) + 1);
}

/// A `remove` keeps identifiers unique and positive: what remains is drawn
/// from what was there, with nothing duplicated.
pub proof fn lemma_remove_preserves_wf(ts: Seq<TaskView>, id: u32)
    requires
        wf_tasks(ts),
    ensures
        wf_tasks(spec_remove(ts, id)),
        forall|k: int| 0 <= k < spec_remove(ts, id).len() ==> contains_id(
            ts,
            #[trigger] spec_remove(ts, id)[k].id,
        ),
    decreases ts.len(),
{
    reveal(Seq::filter);
    let f = spec_remove(ts, id);
    if ts.len() == 0 {
        assert(f =~= ts);
    } else {
        let dl = ts.drop_last();
        assert(wf_tasks(dl)) by {
            assert(forall|i: int| 0 <= i < dl.len() ==> dl[i] == ts[i]);
        }
        lemma_remove_preserves_wf(dl, id);
        let fdl = spec_remove(dl, id);
        assert forall|k: int| 0 <= k < fdl.len() implies contains_id(
            ts,
            #[trigger] fdl[k].id,
        ) by {
            assert(contains_id(dl, fdl[k].id));
            let w = choose|p: int| 0 <= p < dl.len() && dl[p].id == fdl[k].id;
            assert(ts[w].id == fdl[k].id);
        }
        if ts.last().id != id {
            assert(f == fdl.push(ts.last()));
            assert forall|k: int| 0 <= k < fdl.len() implies fdl[k].id != ts.last().id by {
                assert(contains_id(dl, fdl[k].id));
                let w = choose|p: int| 0 <= p < dl.len() && dl[p].id == fdl[k].id;
                assert(ts[w].id == fdl[k].id);
                assert(ts[w].id != ts[ts.len() - 1].id);
            }
            assert(wf_tasks(f)) by {
                assert(forall|i: int| 0 <= i < fdl.len() ==> f[i] == fdl[i]);
                assert(f.last() == ts.last());
                assert(ts.last().id >= 1) by {
                    assert(ts[ts.len() - 1].id >= 1);
                }
            }
            assert forall|k: int| 0 <= k < f.len() implies contains_id(
                ts,
                #[trigger] f[k].id,
            ) by {
                if k < fdl.len() {
                    assert(f[k] == fdl[k]);
                } else {
                    assert(f[k] == ts.last());
                    assert(ts[ts.len() - 1].id == f[k].id);
                }
            }
        } else {
            assert(f == fdl);
        }
    }
}

} // verus!
