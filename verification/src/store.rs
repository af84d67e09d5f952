//! The in-memory task store: an ordered `Vec<Task>` with position-indexed
//! mutations.  Every operation's contract is stated over the store's
//! mathematical view, a `Seq<TaskView>`.

use vstd::prelude::*;
use crate::task::{Task, TaskView};

verus! {

/// A task survives a purge exactly when it has not been completed.
pub open spec fn is_pending(t: TaskView) -> bool {
    !t.done
}

/// The store after purging: all and only the not-yet-completed tasks, in
/// their original relative order.
pub open spec fn purge(ts: Seq<TaskView>) -> Seq<TaskView> {
    ts.filter(|t: TaskView| is_pending(t))
}

/// Appends a task at the end of the store; always succeeds and grows the
/// store by exactly one.
pub fn add_task(tasks: &mut Vec<Task>, new_task: Task)
    ensures
        final(tasks).deep_view() == old(tasks).deep_view().push(new_task@),
{
    let ghost prior = tasks.deep_view();
    tasks.push(new_task);
    proof {
        assert(tasks.deep_view() =~= prior.push(new_task@));
    }
}

/// Marks the task at `index` (0-based) complete.  On a valid index exactly
/// that task's `done` flag is set and every other task and field is left
/// unchanged; on an invalid index the store is untouched and `false` comes
/// back.
pub fn complete_task(tasks: &mut Vec<Task>, index: usize) -> (ok: bool)
    ensures
        ok == (index < old(tasks).deep_view().len()),
        ok ==> final(tasks).deep_view() == old(tasks).deep_view().update(
            index as int,
            TaskView { done: true, ..old(tasks).deep_view()[index as int] },
        ),
        !ok ==> *final(tasks) == *old(tasks),
{
    if index < tasks.len() {
        let ghost prior = tasks.deep_view();
        tasks[index].done = true;
        proof {
            assert(tasks.deep_view() =~= prior.update(
                index as int,
                TaskView { done: true, ..prior[index as int] },
            ));
        }
        true
    } else {
        false
    }
}

/// Deletes the task at `index` (0-based).  On a valid index the store
/// shrinks by one and every later task shifts down one position; on an
/// invalid index the store is untouched and `false` comes back.
pub fn delete_task(tasks: &mut Vec<Task>, index: usize) -> (ok: bool)
    ensures
        ok == (index < old(tasks).deep_view().len()),
        ok ==> final(tasks).deep_view() == old(tasks).deep_view().remove(index as int),
        !ok ==> *final(tasks) == *old(tasks),
{
    if index < tasks.len() {
        let ghost prior = tasks.deep_view();
        tasks.remove(index);
        proof {
            assert(tasks.deep_view() =~= prior.remove(index as int));
        }
        true
    } else {
        false
    }
}

/// Removes every completed task, preserving the relative order of the rest.
pub fn remove_complete_tasks(tasks: &mut Vec<Task>)
    ensures
        final(tasks).deep_view() == purge(old(tasks).deep_view()),
{
    let ghost orig = tasks.deep_view();
    let mut i: usize = 0;
    let ghost j: int = 0;
    while i < tasks.len()
        invariant
            0 <= i <= tasks.deep_view().len(),
            0 <= j <= orig.len(),
            tasks.deep_view() =~= purge(orig.take(j)) + orig.skip(j),
            i == purge(orig.take(j)).len(),
        decreases orig.len() - j,
    {
        proof {
            assert(orig.skip(j).len() > 0);
            assert(tasks.deep_view()[i as int] == orig.skip(j)[0]);
            assert(orig.skip(j)[0] == orig[j]);
            lemma_purge_take_step(orig, j);
        }
        let ghost prior = tasks.deep_view();
        if tasks[i].done {
            tasks.remove(i);
            proof {
                assert(tasks.deep_view() =~= prior.remove(i as int));
                assert(tasks.deep_view() =~= purge(orig.take(j + 1)) + orig.skip(j + 1));
            }
        } else {
            i = i + 1;
            proof {
                assert(tasks.deep_view() =~= purge(orig.take(j + 1)) + orig.skip(j + 1));
            }
        }
        proof {
            j = j + 1;
        }
    }
    proof {
        assert(j == orig.len());
        assert(orig.take(j) =~= orig);
        assert(tasks.deep_view() =~= purge(orig));
    }
}

/// One step of the purge: extending the purged prefix by one task appends it
/// when it is pending and drops it when it is done.
proof fn lemma_purge_take_step(ts: Seq<TaskView>, j: int)
    requires
        0 <= j < ts.len(),
    ensures
        is_pending(ts[j]) ==> purge(ts.take(j + 1)) == purge(ts.take(j)).push(ts[j]),
        !is_pending(ts[j]) ==> purge(ts.take(j + 1)) == purge(ts.take(j)),
{
    let pred = |t: TaskView| is_pending(t);
    let pre = ts.take(j + 1);
    assert(pre.drop_last() =~= ts.take(j));
    assert(pre.last() == ts[j]);
    reveal_with_fuel(Seq::filter, 2);
    assert(pre.filter(pred) == if pred(pre.last()) {
        pre.drop_last().filter(pred).push(pre.last())
    } else {
        pre.drop_last().filter(pred)
    });
}

/// Folding a run of `add_task` calls over the store, one per element of
/// `adds` in order.
pub open spec fn apply_adds(init: Seq<TaskView>, adds: Seq<TaskView>) -> Seq<TaskView>
    decreases adds.len(),
{
    if adds.len() == 0 {
        init
    } else {
        apply_adds(init.push(adds[0]), adds.drop_first())
    }
}

/// Law: any sequence of adds leaves the store holding the initial tasks
/// followed by the added ones in call order; in particular the store's
/// length grows by exactly the number of adds.
pub proof fn lemma_adds_in_order(init: Seq<TaskView>, adds: Seq<TaskView>)
    ensures
        apply_adds(init, adds) == init + adds,
        apply_adds(init, adds).len() == init.len() + adds.len(),
    decreases adds.len(),
{
    if adds.len() == 0 {
        assert(init + adds =~= init);
    } else {
        lemma_adds_in_order(init.push(adds[0]), adds.drop_first());
        assert(init.push(adds[0]) + adds.drop_first() =~= init + adds);
    }
}

/// Every task that survives a purge is pending.
proof fn lemma_purge_all_pending(ts: Seq<TaskView>)
    ensures
        forall|i: int| 0 <= i < purge(ts).len() ==> is_pending(#[trigger] purge(ts)[i]),
{
    let pred = |t: TaskView| is_pending(t);
    broadcast use vstd::seq_lib::group_filter_ensures;

    assert(forall|i: int| 0 <= i < ts.filter(pred).len() ==> pred(#[trigger] ts.filter(pred)[i]));
}

/// A sequence whose tasks are all pending is left alone by a purge.
proof fn lemma_purge_of_pending(ts: Seq<TaskView>)
    requires
        forall|i: int| 0 <= i < ts.len() ==> is_pending(#[trigger] ts[i]),
    ensures
        purge(ts) == ts,
    decreases ts.len(),
{
    let pred = |t: TaskView| is_pending(t);
    reveal_with_fuel(Seq::filter, 2);
    if ts.len() == 0 {
        assert(purge(ts) =~= ts);
    } else {
        assert(forall|i: int| 0 <= i < ts.drop_last().len() ==> is_pending(
            #[trigger] ts.drop_last()[i],
        ));
        lemma_purge_of_pending(ts.drop_last());
        assert(pred(ts.last()));
        assert(purge(ts) == ts.drop_last().filter(pred).push(ts.last()));
        assert(ts.drop_last().push(ts.last()) =~= ts);
    }
}

/// Law: purging is idempotent — a second purge right after a first one
/// changes nothing.
pub proof fn lemma_purge_idempotent(ts: Seq<TaskView>)
    ensures
        purge(purge(ts)) == purge(ts),
{
    lemma_purge_all_pending(ts);
    lemma_purge_of_pending(purge(ts));
}

} // verus!
