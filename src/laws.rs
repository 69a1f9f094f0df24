//! Properties of the registry operations, stated over their abstract values.
use vstd::prelude::*;
use crate::json::registry_text;
use crate::registry::{
    add_spec, group_without, has_class, has_id, ids_distinct, remove_spec, rename_spec, retitle, tasks_have_id,
    tasks_without, well_formed, GroupView, TaskView,
};

verus! {

/// Adding a window that is not present keeps the registry well formed.
pub proof fn lemma_add_keeps_wf(gs: Seq<GroupView>, id: u64, class: Seq<char>, title: Seq<char>)
    requires
        well_formed(gs),
    ensures
        well_formed(add_spec(gs, id, class, title)),
{
    if !has_id(gs, id) {
        let t = TaskView { title, id };
        assert forall|a: int, k: int| 0 <= a < gs.len() && 0 <= k < gs[a].tasks.len() implies #[trigger] gs[a].tasks[k].id != id by {
            if gs[a].tasks[k].id == id {
                assert(tasks_have_id(gs[a].tasks, id));
            }
        }
        if has_class(gs, class) {
            let i = choose|i: int| 0 <= i < gs.len() && #[trigger] gs[i].class == class;
            crate::registry::lemma_add_to_group_keeps_wf(gs, i, t);
        } else {
            let r = add_spec(gs, id, class, title);
            assert(r == gs.push(GroupView { title, class, tasks: seq![t] }));
            assert forall|a: int| 0 <= a < r.len() implies ids_distinct(#[trigger] r[a].tasks) && r[a].tasks.len() > 0 by {
                if a < gs.len() {
                    assert(r[a] == gs[a]);
                }
            }
            assert forall|a: int, b: int| 0 <= a < r.len() && 0 <= b < r.len() && #[trigger] r[a].class == #[trigger] r[b].class implies a == b by {
                if a < gs.len() && b < gs.len() {
                    assert(gs[a].class == gs[b].class);
                } else if a < gs.len() {
                    assert(gs[a].class == class);
                } else if b < gs.len() {
                    assert(gs[b].class == class);
                }
            }
            assert forall|a: int, b: int, k: int, l: int|
                0 <= a < r.len() && 0 <= b < r.len() && a != b && 0 <= k < r[a].tasks.len() && 0 <= l < r[b].tasks.len()
                implies #[trigger] r[a].tasks[k].id != #[trigger] r[b].tasks[l].id by {
                if a < gs.len() && b < gs.len() {
                    assert(gs[a].tasks[k].id != gs[b].tasks[l].id);
                } else if a < gs.len() {
                    assert(gs[a].tasks[k].id != id);
                } else {
                    assert(gs[b].tasks[l].id != id);
                }
            }
        }
    }
}

/// Adding two windows of one class, with distinct ids that are not present,
/// leaves one group of that class: where the class had a group, its tasks
/// are followed by the two windows in the order added; where it had none, a
/// new group at the end holds exactly the two windows, in that order, and
/// takes the first one's title.
pub proof fn lemma_grouping(
    gs: Seq<GroupView>,
    id1: u64,
    id2: u64,
    class: Seq<char>,
    title1: Seq<char>,
    title2: Seq<char>,
)
    requires
        well_formed(gs),
        id1 != id2,
        !has_id(gs, id1),
        !has_id(gs, id2),
    ensures
        ({
            let r = add_spec(add_spec(gs, id1, class, title1), id2, class, title2);
            let t1 = TaskView { title: title1, id: id1 };
            let t2 = TaskView { title: title2, id: id2 };
            &&& well_formed(r)
            &&& forall|i: int|
                0 <= i < gs.len() && gs[i].class == class ==> r == gs.update(
                    i,
                    GroupView { tasks: gs[i].tasks + seq![t1, t2], ..gs[i] },
                )
            &&& !has_class(gs, class) ==> r == gs.push(
                GroupView { title: title1, class, tasks: seq![t1, t2] },
            )
        }),
{
    let r1 = add_spec(gs, id1, class, title1);
    let r = add_spec(r1, id2, class, title2);
    let t1 = TaskView { title: title1, id: id1 };
    let t2 = TaskView { title: title2, id: id2 };
    lemma_add_keeps_wf(gs, id1, class, title1);
    lemma_add_keeps_wf(r1, id2, class, title2);
    if has_class(gs, class) {
        let i = choose|i: int| 0 <= i < gs.len() && #[trigger] gs[i].class == class;
        assert(r1 == gs.update(i, GroupView { tasks: gs[i].tasks.push(t1), ..gs[i] }));
        assert(!has_id(r1, id2)) by {
            if has_id(r1, id2) {
                let a = choose|a: int| 0 <= a < r1.len() && tasks_have_id(#[trigger] r1[a].tasks, id2);
                let k = choose|k: int| 0 <= k < r1[a].tasks.len() && r1[a].tasks[k].id == id2;
                if a != i || k < gs[i].tasks.len() {
                    assert(r1[a].tasks[k] == gs[a].tasks[k]);
                    assert(tasks_have_id(gs[a].tasks, id2));
                }
            }
        }
        assert(r1[i].class == class);
        let j = choose|j: int| 0 <= j < r1.len() && #[trigger] r1[j].class == class;
        assert(j == i);
        assert(r1[i].tasks.push(t2) =~= gs[i].tasks + seq![t1, t2]);
        assert(r =~= gs.update(i, GroupView { tasks: gs[i].tasks + seq![t1, t2], ..gs[i] }));
        assert forall|i2: int| 0 <= i2 < gs.len() && gs[i2].class == class implies r == gs.update(
            i2,
            GroupView { tasks: gs[i2].tasks + seq![t1, t2], ..gs[i2] },
        ) by {
            assert(gs[i2].class == gs[i].class);
        }
    } else {
        assert(r1 == gs.push(GroupView { title: title1, class, tasks: seq![t1] }));
        assert(!has_id(r1, id2)) by {
            if has_id(r1, id2) {
                let a = choose|a: int| 0 <= a < r1.len() && tasks_have_id(#[trigger] r1[a].tasks, id2);
                if a < gs.len() {
                    assert(r1[a] == gs[a]);
                }
            }
        }
        let last = gs.len() as int;
        assert(r1[last].class == class);
        let j = choose|j: int| 0 <= j < r1.len() && #[trigger] r1[j].class == class;
        assert(j == last);
        assert(r1[last].tasks.push(t2) =~= seq![t1, t2]);
        assert(r =~= gs.push(GroupView { title: title1, class, tasks: seq![t1, t2] }));
    }
}

proof fn lemma_remove_origin(gs: Seq<GroupView>, id: u64)
    ensures
        forall|j: int| 0 <= j < remove_spec(gs, id).len() ==> exists|m: int| 0 <= m < gs.len()
            && #[trigger] remove_spec(gs, id)[j] == group_without(gs[m], id)
            && tasks_without(gs[m].tasks, id).len() > 0,
    decreases gs.len(),
{
    if gs.len() > 0 {
        let rest = gs.drop_last();
        lemma_remove_origin(rest, id);
        let r = remove_spec(gs, id);
        assert forall|j: int| 0 <= j < r.len() implies exists|m: int| 0 <= m < gs.len()
            && #[trigger] r[j] == group_without(gs[m], id)
            && tasks_without(gs[m].tasks, id).len() > 0 by {
            if j < remove_spec(rest, id).len() {
                assert(r[j] == remove_spec(rest, id)[j]);
                let m = choose|m: int| 0 <= m < rest.len()
                    && #[trigger] remove_spec(rest, id)[j] == group_without(rest[m], id)
                    && tasks_without(rest[m].tasks, id).len() > 0;
                assert(rest[m] == gs[m]);
            } else {
                assert(r[j] == group_without(gs.last(), id));
                assert(gs.last() == gs[gs.len() - 1]);
            }
        }
    }
}

/// Removing the only window of a group drops that group: no group of its
/// class is left.
pub proof fn lemma_pruning(gs: Seq<GroupView>, i: int, id: u64)
    requires
        well_formed(gs),
        0 <= i < gs.len(),
        gs[i].tasks.len() == 1,
        gs[i].tasks[0].id == id,
    ensures
        !has_class(remove_spec(gs, id), gs[i].class),
{
    let r = remove_spec(gs, id);
    lemma_remove_origin(gs, id);
    let ts = gs[i].tasks;
    assert(ts.drop_last().len() == 0);
    assert(ts.last().id == id);
    assert(tasks_without(ts.drop_last(), id).len() == 0);
    assert(tasks_without(ts, id).len() == 0);
    if has_class(r, gs[i].class) {
        let j = choose|j: int| 0 <= j < r.len() && #[trigger] r[j].class == gs[i].class;
        let m = choose|m: int| 0 <= m < gs.len()
            && #[trigger] r[j] == group_without(gs[m], id)
            && tasks_without(gs[m].tasks, id).len() > 0;
        assert(gs[m].class == gs[i].class);
    }
}

proof fn lemma_without_absent(ts: Seq<TaskView>, id: u64)
    requires
        !tasks_have_id(ts, id),
    ensures
        tasks_without(ts, id) == ts,
    decreases ts.len(),
{
    if ts.len() > 0 {
        let rest = ts.drop_last();
        assert(!tasks_have_id(rest, id)) by {
            if tasks_have_id(rest, id) {
                let k = choose|k: int| 0 <= k < rest.len() && rest[k].id == id;
                assert(ts[k].id == id);
            }
        }
        lemma_without_absent(rest, id);
        assert(ts.last().id != id) by {
            if ts.last().id == id {
                assert(ts[ts.len() - 1].id == id);
            }
        }
        assert(rest.push(ts.last()) =~= ts);
    }
}

proof fn lemma_remove_absent(gs: Seq<GroupView>, id: u64)
    requires
        forall|i: int| 0 <= i < gs.len() ==> #[trigger] gs[i].tasks.len() > 0,
        !has_id(gs, id),
    ensures
        remove_spec(gs, id) == gs,
    decreases gs.len(),
{
    if gs.len() > 0 {
        let rest = gs.drop_last();
        assert forall|i: int| 0 <= i < rest.len() implies #[trigger] rest[i].tasks.len() > 0 by {
            assert(rest[i] == gs[i]);
        }
        assert(!has_id(rest, id)) by {
            if has_id(rest, id) {
                let a = choose|a: int| 0 <= a < rest.len() && tasks_have_id(#[trigger] rest[a].tasks, id);
                assert(rest[a] == gs[a]);
            }
        }
        lemma_remove_absent(rest, id);
        let g = gs.last();
        assert(g == gs[gs.len() - 1]);
        assert(!tasks_have_id(g.tasks, id));
        lemma_without_absent(g.tasks, id);
        assert(group_without(g, id) == g);
        assert(rest.push(g) =~= gs);
    }
}

/// Removing a window id that no group holds leaves the registry, and so
/// its JSON text, unchanged.
pub proof fn lemma_remove_absent_is_identity(gs: Seq<GroupView>, id: u64)
    requires
        well_formed(gs),
        !has_id(gs, id),
    ensures
        remove_spec(gs, id) == gs,
        registry_text(remove_spec(gs, id)) == registry_text(gs),
{
    lemma_remove_absent(gs, id);
}

/// Renaming window `id` changes no task but that window's: every group keeps
/// its class and its tasks their number and ids; a task with id `id` takes
/// the new title, and every other task keeps its title.
pub proof fn lemma_rename_scoping(gs: Seq<GroupView>, id: u64, title: Seq<char>, group_title: Option<Seq<char>>)
    requires
        well_formed(gs),
    ensures
        ({
            let r = rename_spec(gs, id, title, group_title);
            &&& r.len() == gs.len()
            &&& forall|i: int| 0 <= i < gs.len() ==> #[trigger] r[i].class == gs[i].class && r[i].tasks.len() == gs[i].tasks.len()
            &&& forall|i: int, k: int| 0 <= i < gs.len() && 0 <= k < gs[i].tasks.len() ==> #[trigger] r[i].tasks[k].id == gs[i].tasks[k].id
            &&& forall|i: int, k: int| 0 <= i < gs.len() && 0 <= k < gs[i].tasks.len() && gs[i].tasks[k].id != id
                ==> #[trigger] r[i].tasks[k].title == gs[i].tasks[k].title
            &&& forall|i: int, k: int| 0 <= i < gs.len() && 0 <= k < gs[i].tasks.len() && gs[i].tasks[k].id == id
                ==> #[trigger] r[i].tasks[k].title == title
        }),
{
    let r = rename_spec(gs, id, title, group_title);
    assert forall|i: int, k: int| 0 <= i < gs.len() && 0 <= k < gs[i].tasks.len() implies
        #[trigger] r[i].tasks[k] == retitle(gs[i].tasks[k], id, title) by {
        if gs[i].tasks[k].id == id {
            assert(tasks_have_id(gs[i].tasks, id));
        }
    }
}

} // verus!
