//! Windows ("tasks") grouped by application class.
use vstd::prelude::*;
use crate::json::{groups_text, registry_text};

verus! {

/// The abstract value of one task: its title and its window id.
pub struct TaskView {
    pub title: Seq<char>,
    pub id: u64,
}

/// The abstract value of one group.
pub struct GroupView {
    pub title: Seq<char>,
    pub class: Seq<char>,
    pub tasks: Seq<TaskView>,
}

/// One open window.
pub struct Task {
    pub title: String,
    pub id: u64,
}

/// The windows of one application class, in the order they were added.
pub struct Group {
    pub title: String,
    pub class: String,
    pub tasks: Vec<Task>,
}

/// A window as the window system reports it at startup.
pub struct Window {
    pub id: u64,
    pub class: String,
    pub title: String,
    /// Whether the window is mapped (visible); unmapped windows are not listed.
    pub mapped: bool,
}

/// The abstract value of a reported window.
pub struct WindowView {
    pub id: u64,
    pub class: Seq<char>,
    pub title: Seq<char>,
    pub mapped: bool,
}

impl View for Window {
    type V = WindowView;

    open spec fn view(&self) -> WindowView {
        WindowView { id: self.id, class: self.class@, title: self.title@, mapped: self.mapped }
    }
}

/// The registry: groups in the order their class was first seen.
pub struct EntryList {
    entries: Vec<Group>,
}

impl View for Task {
    type V = TaskView;

    open spec fn view(&self) -> TaskView {
        TaskView { title: self.title@, id: self.id }
    }
}

impl View for Group {
    type V = GroupView;

    open spec fn view(&self) -> GroupView {
        GroupView { title: self.title@, class: self.class@, tasks: self.tasks@.map_values(|t: Task| t@) }
    }
}

impl View for EntryList {
    type V = Seq<GroupView>;

    closed spec fn view(&self) -> Seq<GroupView> {
        self.entries@.map_values(|g: Group| g@)
    }
}

/// Whether some task of `ts` has window id `id`.
pub open spec fn tasks_have_id(ts: Seq<TaskView>, id: u64) -> bool {
    exists|k: int| 0 <= k < ts.len() && ts[k].id == id
}

/// Whether some group of `gs` holds a task with window id `id`.
pub open spec fn has_id(gs: Seq<GroupView>, id: u64) -> bool {
    exists|i: int| 0 <= i < gs.len() && tasks_have_id(#[trigger] gs[i].tasks, id)
}

/// Whether the ids of `ts` are pairwise distinct.
pub open spec fn ids_distinct(ts: Seq<TaskView>) -> bool {
    forall|k: int, l: int|
        0 <= k < ts.len() && 0 <= l < ts.len() && #[trigger] ts[k].id == #[trigger] ts[l].id ==> k == l
}

/// The invariant of a registry: no group is empty, no two groups share a
/// class, and no window id occurs twice.
pub open spec fn well_formed(gs: Seq<GroupView>) -> bool {
    &&& forall|i: int| 0 <= i < gs.len() ==> #[trigger] gs[i].tasks.len() > 0
    &&& forall|i: int, j: int|
        0 <= i < gs.len() && 0 <= j < gs.len() && #[trigger] gs[i].class == #[trigger] gs[j].class ==> i == j
    &&& forall|i: int| 0 <= i < gs.len() ==> ids_distinct(#[trigger] gs[i].tasks)
    &&& forall|i: int, j: int, k: int, l: int|
        0 <= i < gs.len() && 0 <= j < gs.len() && i != j && 0 <= k < gs[i].tasks.len() && 0 <= l
            < gs[j].tasks.len() ==> #[trigger] gs[i].tasks[k].id != #[trigger] gs[j].tasks[l].id
}


/// `title`, or the empty text where it is absent.
pub open spec fn title_or_empty(title: Option<String>) -> Seq<char> {
    match title {
        Some(t) => t@,
        None => Seq::empty(),
    }
}

/// Whether some group of `gs` has class `class`.
pub open spec fn has_class(gs: Seq<GroupView>, class: Seq<char>) -> bool {
    exists|i: int| 0 <= i < gs.len() && #[trigger] gs[i].class == class
}

/// The registry after adding window `id` of class `class` with title `title`:
/// unchanged where `id` is already present; else the task is appended to the
/// group of that class, or a new group seeded with the task's title is
/// appended to the registry.
pub open spec fn add_spec(gs: Seq<GroupView>, id: u64, class: Seq<char>, title: Seq<char>) -> Seq<
    GroupView,
> {
    let t = TaskView { title, id };
    if has_id(gs, id) {
        gs
    } else if has_class(gs, class) {
        let i = choose|i: int| 0 <= i < gs.len() && #[trigger] gs[i].class == class;
        gs.update(i, GroupView { tasks: gs[i].tasks.push(t), ..gs[i] })
    } else {
        gs.push(GroupView { title, class, tasks: seq![t] })
    }
}

/// `ts` without the tasks whose id is `id`, order kept.
pub open spec fn tasks_without(ts: Seq<TaskView>, id: u64) -> Seq<TaskView>
    decreases ts.len(),
{
    if ts.len() == 0 {
        ts
    } else {
        let rest = tasks_without(ts.drop_last(), id);
        if ts.last().id == id {
            rest
        } else {
            rest.push(ts.last())
        }
    }
}

/// Group `g` without its tasks whose id is `id`.
pub open spec fn group_without(g: GroupView, id: u64) -> GroupView {
    GroupView { tasks: tasks_without(g.tasks, id), ..g }
}

/// The registry after removing window `id`: every group loses its tasks with
/// that id, and the groups left empty are dropped; order is kept.
pub open spec fn remove_spec(gs: Seq<GroupView>, id: u64) -> Seq<GroupView>
    decreases gs.len(),
{
    if gs.len() == 0 {
        gs
    } else {
        let rest = remove_spec(gs.drop_last(), id);
        let ts = tasks_without(gs.last().tasks, id);
        if ts.len() == 0 {
            rest
        } else {
            rest.push(group_without(gs.last(), id))
        }
    }
}

/// Whether one of the first `i` groups of `gs` has class `c`.
pub open spec fn class_before(gs: Seq<GroupView>, i: int, c: Seq<char>) -> bool {
    exists|m: int| 0 <= m < i && gs[m].class == c
}

/// Whether one of the first `i` groups of `gs` holds window id `id`.
pub open spec fn id_before(gs: Seq<GroupView>, i: int, id: u64) -> bool {
    exists|m: int| 0 <= m < i && tasks_have_id(gs[m].tasks, id)
}

/// The text of an optional `String`.
pub open spec fn opt_text(o: Option<String>) -> Option<Seq<char>> {
    match o {
        Some(t) => Some(t@),
        None => None,
    }
}

/// Task `t` with title `title` where its id is `id`.
pub open spec fn retitle(t: TaskView, id: u64, title: Seq<char>) -> TaskView {
    if t.id == id {
        TaskView { title, ..t }
    } else {
        t
    }
}

/// Group `g` after renaming window `id` to `title`: where the group holds
/// that window, its task gets the new title, and the group gets
/// `group_title` where one is given; any other group is unchanged.
pub open spec fn rename_group(g: GroupView, id: u64, title: Seq<char>, group_title: Option<Seq<char>>) -> GroupView {
    if tasks_have_id(g.tasks, id) {
        GroupView {
            title: match group_title {
                Some(t) => t,
                None => g.title,
            },
            class: g.class,
            tasks: g.tasks.map_values(|t: TaskView| retitle(t, id, title)),
        }
    } else {
        g
    }
}

/// The registry after renaming window `id`.
pub open spec fn rename_spec(gs: Seq<GroupView>, id: u64, title: Seq<char>, group_title: Option<Seq<char>>) -> Seq<GroupView> {
    gs.map_values(|g: GroupView| rename_group(g, id, title, group_title))
}

/// The registry built from the windows `ws`: each mapped window is added in
/// turn, starting from no groups.
pub open spec fn initial_spec(ws: Seq<WindowView>) -> Seq<GroupView>
    decreases ws.len(),
{
    if ws.len() == 0 {
        Seq::empty()
    } else {
        let rest = initial_spec(ws.drop_last());
        let w = ws.last();
        if w.mapped {
            add_spec(rest, w.id, w.class, w.title)
        } else {
            rest
        }
    }
}

/// Renaming keeps the registry well formed: classes and ids stay in place.
proof fn lemma_rename_keeps_wf(gs: Seq<GroupView>, id: u64, title: Seq<char>, group_title: Option<Seq<char>>)
    requires
        well_formed(gs),
    ensures
        well_formed(rename_spec(gs, id, title, group_title)),
{
    let r = rename_spec(gs, id, title, group_title);
    assert forall|i: int| 0 <= i < r.len() implies r[i].class == gs[i].class && r[i].tasks.len() == gs[i].tasks.len()
        && forall|k: int| 0 <= k < r[i].tasks.len() ==> #[trigger] r[i].tasks[k].id == gs[i].tasks[k].id by {
        assert(r[i] == rename_group(gs[i], id, title, group_title));
    }
    assert forall|i: int| 0 <= i < r.len() implies ids_distinct(#[trigger] r[i].tasks) by {
        assert(ids_distinct(gs[i].tasks));
        assert forall|k: int, l: int| 0 <= k < r[i].tasks.len() && 0 <= l < r[i].tasks.len() && #[trigger] r[i].tasks[k].id == #[trigger] r[i].tasks[l].id implies k == l by {
            assert(gs[i].tasks[k].id == gs[i].tasks[l].id);
        }
    }
    assert forall|i: int, j: int, k: int, l: int|
        0 <= i < r.len() && 0 <= j < r.len() && i != j && 0 <= k < r[i].tasks.len() && 0 <= l < r[j].tasks.len()
        implies #[trigger] r[i].tasks[k].id != #[trigger] r[j].tasks[l].id by {
        assert(gs[i].tasks[k].id != gs[j].tasks[l].id);
    }
    assert forall|i: int, j: int| 0 <= i < r.len() && 0 <= j < r.len() && #[trigger] r[i].class == #[trigger] r[j].class implies i == j by {
        assert(gs[i].class == gs[j].class);
    }
}

/// Appending a task whose id no group holds to group `i` keeps the
/// registry well formed.
pub(crate) proof fn lemma_add_to_group_keeps_wf(gs: Seq<GroupView>, i: int, t: TaskView)
    requires
        well_formed(gs),
        0 <= i < gs.len(),
        forall|a: int, k: int| 0 <= a < gs.len() && 0 <= k < gs[a].tasks.len() ==> #[trigger] gs[a].tasks[k].id != t.id,
    ensures
        well_formed(gs.update(i, GroupView { tasks: gs[i].tasks.push(t), ..gs[i] })),
{
    let r = gs.update(i, GroupView { tasks: gs[i].tasks.push(t), ..gs[i] });
    assert forall|a: int| 0 <= a < r.len() implies ids_distinct(#[trigger] r[a].tasks) && r[a].tasks.len() > 0 by {
        if a == i {
            assert(ids_distinct(gs[a].tasks));
            let ts = r[a].tasks;
            assert forall|k: int, l: int| 0 <= k < ts.len() && 0 <= l < ts.len() && #[trigger] ts[k].id == #[trigger] ts[l].id implies k == l by {
                if k < gs[a].tasks.len() && l < gs[a].tasks.len() {
                    assert(gs[a].tasks[k].id == gs[a].tasks[l].id);
                } else if k < gs[a].tasks.len() {
                    assert(gs[a].tasks[k].id != t.id);
                } else if l < gs[a].tasks.len() {
                    assert(gs[a].tasks[l].id != t.id);
                }
            }
        }
    }
    assert forall|a: int, b: int| 0 <= a < r.len() && 0 <= b < r.len() && #[trigger] r[a].class == #[trigger] r[b].class implies a == b by {
        assert(gs[a].class == gs[b].class);
    }
    assert forall|a: int, b: int, k: int, l: int|
        0 <= a < r.len() && 0 <= b < r.len() && a != b && 0 <= k < r[a].tasks.len() && 0 <= l < r[b].tasks.len()
        implies #[trigger] r[a].tasks[k].id != #[trigger] r[b].tasks[l].id by {
        if a == i && k == gs[i].tasks.len() {
            assert(gs[b].tasks[l].id != t.id);
        } else if b == i && l == gs[i].tasks.len() {
            assert(gs[a].tasks[k].id != t.id);
        } else {
            assert(gs[a].tasks[k].id != gs[b].tasks[l].id);
        }
    }
}

/// `tasks` without the tasks whose id is `id`.
fn tasks_without_id(tasks: Vec<Task>, id: u64) -> (r: Vec<Task>)
    ensures
        r@.map_values(|t: Task| t@) == tasks_without(tasks@.map_values(|t: Task| t@), id),
        forall|k: int| 0 <= k < r@.len() ==> exists|l: int| 0 <= l < tasks@.len() && #[trigger] r@[k]@ == tasks@[l]@,
        ids_distinct(tasks@.map_values(|t: Task| t@)) ==> ids_distinct(r@.map_values(|t: Task| t@)),
{
    let ghost orig = tasks@;
    let ghost tv = orig.map_values(|t: Task| t@);
    let n = tasks.len();
    let mut rest = tasks;
    let mut r: Vec<Task> = Vec::new();
    let mut i: usize = 0;
    while i < n
        invariant
            n == orig.len(),
            tv == orig.map_values(|t: Task| t@),
            0 <= i <= n,
            rest@ == orig.subrange(i as int, n as int),
            r@.map_values(|t: Task| t@) == tasks_without(tv.subrange(0, i as int), id),
            forall|k: int| 0 <= k < r@.len() ==> exists|l: int| 0 <= l < i && #[trigger] r@[k]@ == orig[l]@,
            ids_distinct(tv) ==> ids_distinct(r@.map_values(|t: Task| t@)),
        decreases n - i,
    {
        let ghost before = r@;
        let t = rest.remove(0);
        assert(t == orig[i as int]);
        assert(tv.subrange(0, i + 1).drop_last() =~= tv.subrange(0, i as int));
        if t.id != id {
            r.push(t);
            proof {
                assert(r@.map_values(|t: Task| t@) =~= before.map_values(|t: Task| t@).push(t@));
                assert forall|k: int| 0 <= k < r@.len() implies exists|l: int| 0 <= l < i + 1 && #[trigger] r@[k]@ == orig[l]@ by {
                    if k == before.len() {
                        assert(r@[k]@ == orig[i as int]@);
                    } else {
                        assert(r@[k] == before[k]);
                    }
                }
                if ids_distinct(tv) {
                    let rv = r@.map_values(|t: Task| t@);
                    assert forall|a: int, b: int| 0 <= a < rv.len() && 0 <= b < rv.len() && #[trigger] rv[a].id == #[trigger] rv[b].id implies a == b by {
                        if a != b {
                            if a == before.len() {
                                assert(r@[b] == before[b]);
                                let l = choose|l: int| 0 <= l < i && #[trigger] before[b]@ == orig[l]@;
                                assert(tv[l].id == tv[i as int].id);
                            } else if b == before.len() {
                                assert(r@[a] == before[a]);
                                let l = choose|l: int| 0 <= l < i && #[trigger] before[a]@ == orig[l]@;
                                assert(tv[l].id == tv[i as int].id);
                            } else {
                                assert(r@[a] == before[a]);
                                assert(r@[b] == before[b]);
                                assert(before.map_values(|t: Task| t@)[a].id == before.map_values(|t: Task| t@)[b].id);
                            }
                        }
                    }
                }
            }
        }
        i += 1;
    }
    assert(tv.subrange(0, n as int) =~= tv);
    r
}

/// Whether some task of `tasks` has window id `id`.
fn has_task(tasks: &Vec<Task>, id: u64) -> (r: bool)
    ensures
        r == tasks_have_id(tasks@.map_values(|t: Task| t@), id),
{
    let ghost tv = tasks@.map_values(|t: Task| t@);
    let m = tasks.len();
    let mut k: usize = 0;
    while k < m
        invariant
            m == tasks@.len(),
            tv == tasks@.map_values(|t: Task| t@),
            0 <= k <= m,
            forall|l: int| 0 <= l < k ==> #[trigger] tv[l].id != id,
        decreases m - k,
    {
        if tasks[k].id == id {
            assert(tv[k as int].id == id);
            return true;
        }
        k += 1;
    }
    false
}

/// `tasks` with title `title` on the tasks whose id is `id`.
fn retitle_tasks(tasks: Vec<Task>, id: u64, title: &String) -> (r: Vec<Task>)
    ensures
        r@.map_values(|t: Task| t@) == tasks@.map_values(|t: Task| t@).map_values(|t: TaskView| retitle(t, id, title@)),
{
    let ghost orig = tasks@;
    let ghost tv = orig.map_values(|t: Task| t@);
    let n = tasks.len();
    let mut rest = tasks;
    let mut r: Vec<Task> = Vec::new();
    let mut i: usize = 0;
    while i < n
        invariant
            n == orig.len(),
            tv == orig.map_values(|t: Task| t@),
            0 <= i <= n,
            rest@ == orig.subrange(i as int, n as int),
            r@.map_values(|t: Task| t@) =~= tv.subrange(0, i as int).map_values(|t: TaskView| retitle(t, id, title@)),
        decreases n - i,
    {
        let ghost before = r@;
        let t = rest.remove(0);
        assert(t == orig[i as int]);
        if t.id == id {
            r.push(Task { title: title.clone(), id: t.id });
        } else {
            r.push(t);
        }
        assert(r@.map_values(|t: Task| t@) =~= before.map_values(|t: Task| t@).push(retitle(tv[i as int], id, title@)));
        assert(tv.subrange(0, i + 1).map_values(|t: TaskView| retitle(t, id, title@)) =~= tv.subrange(0, i as int).map_values(|t: TaskView| retitle(t, id, title@)).push(retitle(tv[i as int], id, title@)));
        i += 1;
    }
    assert(tv.subrange(0, n as int) =~= tv);
    r
}

impl EntryList {
    /// The registry keeps its invariant (see `well_formed`).
    pub closed spec fn wf(&self) -> bool {
        well_formed(self@)
    }

    /// The registry with no groups.
    pub fn empty() -> (r: EntryList)
        ensures
            r@ == Seq::<GroupView>::empty(),
            r.wf(),
    {
        let r = EntryList { entries: Vec::new() };
        assert(r@ =~= Seq::<GroupView>::empty());
        r
    }

    /// Appending the remains of group `i` of `gs` to registry `before`, which
    /// was built from the groups ahead of it, keeps the result well formed.
    proof fn lemma_push_kept_group(&self, before: Seq<GroupView>, gs: Seq<GroupView>, i: int, ng: GroupView)
        requires
            well_formed(gs),
            well_formed(before),
            0 <= i < gs.len(),
            self@ == before.push(ng),
            ng.class == gs[i].class,
            ng.tasks.len() > 0,
            ids_distinct(ng.tasks),
            forall|k: int| 0 <= k < ng.tasks.len() ==> tasks_have_id(gs[i].tasks, #[trigger] ng.tasks[k].id),
            forall|j: int| 0 <= j < before.len() ==> class_before(gs, i, #[trigger] before[j].class),
            forall|j: int, k: int| 0 <= j < before.len() && 0 <= k < before[j].tasks.len() ==>
                id_before(gs, i, #[trigger] before[j].tasks[k].id),
        ensures
            well_formed(self@),
            forall|j: int| 0 <= j < self@.len() ==> class_before(gs, i + 1, #[trigger] self@[j].class),
            forall|j: int, k: int| 0 <= j < self@.len() && 0 <= k < self@[j].tasks.len() ==>
                id_before(gs, i + 1, #[trigger] self@[j].tasks[k].id),
    {
        let r = self@;
        let last = before.len() as int;
        assert forall|j: int| 0 <= j < r.len() implies class_before(gs, i + 1, #[trigger] r[j].class) by {
            if j == last {
                assert(r[j].class == gs[i].class);
            } else {
                assert(r[j] == before[j]);
                let m = choose|m: int| 0 <= m < i && gs[m].class == before[j].class;
            }
        }
        assert forall|j: int, k: int| 0 <= j < r.len() && 0 <= k < r[j].tasks.len() implies
            id_before(gs, i + 1, #[trigger] r[j].tasks[k].id) by {
            if j == last {
                assert(tasks_have_id(gs[i].tasks, ng.tasks[k].id));
            } else {
                assert(r[j] == before[j]);
                assert(id_before(gs, i, before[j].tasks[k].id));
                let m = choose|m: int| 0 <= m < i && tasks_have_id(gs[m].tasks, before[j].tasks[k].id);
            }
        }
        assert forall|a: int, b: int| 0 <= a < r.len() && 0 <= b < r.len() && #[trigger] r[a].class == #[trigger] r[b].class implies a == b by {
            if a != b {
                if a == last {
                    assert(r[b] == before[b]);
                    assert(class_before(gs, i, before[b].class));
                    let m = choose|m: int| 0 <= m < i && gs[m].class == before[b].class;
                    assert(gs[m].class == gs[i].class);
                } else if b == last {
                    assert(r[a] == before[a]);
                    assert(class_before(gs, i, before[a].class));
                    let m = choose|m: int| 0 <= m < i && gs[m].class == before[a].class;
                    assert(gs[m].class == gs[i].class);
                } else {
                    assert(r[a] == before[a]);
                    assert(r[b] == before[b]);
                }
            }
        }
        assert forall|a: int| 0 <= a < r.len() implies ids_distinct(#[trigger] r[a].tasks) && r[a].tasks.len() > 0 by {
            if a != last {
                assert(r[a] == before[a]);
            }
        }
        assert forall|a: int, b: int, k: int, l: int|
            0 <= a < r.len() && 0 <= b < r.len() && a != b && 0 <= k < r[a].tasks.len() && 0 <= l < r[b].tasks.len()
            implies #[trigger] r[a].tasks[k].id != #[trigger] r[b].tasks[l].id by {
            if a == last || b == last {
                let (x, y) = if a == last { (k, l) } else { (l, k) };
                let o = if a == last { b } else { a };
                assert(r[o] == before[o]);
                assert(tasks_have_id(gs[i].tasks, ng.tasks[x].id));
                assert(id_before(gs, i, before[o].tasks[y].id));
                let l1 = choose|l1: int| 0 <= l1 < gs[i].tasks.len() && gs[i].tasks[l1].id == ng.tasks[x].id;
                let m2 = choose|m2: int| 0 <= m2 < i && tasks_have_id(gs[m2].tasks, before[o].tasks[y].id);
                let l2 = choose|l2: int| 0 <= l2 < gs[m2].tasks.len() && gs[m2].tasks[l2].id == before[o].tasks[y].id;
                assert(gs[i].tasks[l1].id != gs[m2].tasks[l2].id);
            } else {
                assert(r[a] == before[a]);
                assert(r[b] == before[b]);
            }
        }
    }

    /// The JSON text of the registry: an array of its groups in order, each
    /// with its title, class and tasks in order, each task with its title and
    /// id. Where the encoder refuses one of the texts, the empty array `[]`.
    pub fn serialize(&self) -> (r: String)
        ensures
            r@ == registry_text(self@),
    {
        groups_text(&self.entries)
    }

    /// Whether some task of the registry has window id `id`.
    pub fn contains_id(&self, id: u64) -> (r: bool)
        ensures
            r == has_id(self@, id),
    {
        let n = self.entries.len();
        let mut i: usize = 0;
        while i < n
            invariant
                n == self.entries@.len(),
                0 <= i <= n,
                forall|j: int| 0 <= j < i ==> !tasks_have_id(#[trigger] self@[j].tasks, id),
            decreases n - i,
        {
            assert(self@[i as int] == self.entries@[i as int]@);
            if has_task(&self.entries[i].tasks, id) {
                assert(tasks_have_id(self@[i as int].tasks, id));
                return true;
            }
            i += 1;
        }
        false
    }

    /// The registry of the mapped windows among `windows`, added in the
    /// order given.
    pub fn new(windows: &Vec<Window>) -> (r: EntryList)
        ensures
            r.wf(),
            r@ == initial_spec(windows@.map_values(|w: Window| w@)),
    {
        let ghost ws = windows@.map_values(|w: Window| w@);
        let mut r = EntryList::empty();
        let n = windows.len();
        let mut i: usize = 0;
        while i < n
            invariant
                n == windows@.len(),
                ws == windows@.map_values(|w: Window| w@),
                0 <= i <= n,
                r.wf(),
                r@ == initial_spec(ws.subrange(0, i as int)),
            decreases n - i,
        {
            let w = &windows[i];
            assert(ws.subrange(0, i + 1).drop_last() =~= ws.subrange(0, i as int));
            assert(ws[i as int] == w@);
            if w.mapped {
                r.add_task(w.id, w.class.clone(), Some(w.title.clone()));
            }
            i += 1;
        }
        assert(ws.subrange(0, n as int) =~= ws);
        r
    }

    /// Removes window `id`: every group drops its tasks with that id, then
    /// the groups left without tasks are dropped. An absent id changes
    /// nothing.
    pub fn remove_task(&mut self, id: u64)
        requires
            old(self).wf(),
        ensures
            final(self).wf(),
            final(self)@ == remove_spec(old(self)@, id),
    {
        let mut rest: Vec<Group> = Vec::new();
        std::mem::swap(&mut self.entries, &mut rest);
        let ghost orig = rest@;
        let ghost gs = orig.map_values(|g: Group| g@);
        assert(gs == old(self)@);
        let n = rest.len();
        let mut i: usize = 0;
        while i < n
            invariant
                n == orig.len(),
                gs == orig.map_values(|g: Group| g@),
                well_formed(gs),
                0 <= i <= n,
                rest@ == orig.subrange(i as int, n as int),
                self@ == remove_spec(gs.subrange(0, i as int), id),
                well_formed(self@),
                forall|j: int| 0 <= j < self@.len() ==> class_before(gs, i as int, #[trigger] self@[j].class),
                forall|j: int, k: int| 0 <= j < self@.len() && 0 <= k < self@[j].tasks.len() ==>
                    id_before(gs, i as int, #[trigger] self@[j].tasks[k].id),
            decreases n - i,
        {
            let ghost before = self@;
            let ghost before_entries = self.entries@;
            let g = rest.remove(0);
            assert(g == orig[i as int]);
            assert(gs.subrange(0, i + 1).drop_last() =~= gs.subrange(0, i as int));
            let Group { title, class, tasks } = g;
            let ghost tasks_seq = tasks@;
            assert(gs[i as int].tasks == tasks_seq.map_values(|t: Task| t@));
            let kept = tasks_without_id(tasks, id);
            if kept.len() > 0 {
                let ng = Group { title, class, tasks: kept };
                self.entries.push(ng);
                proof {
                    assert(self.entries@ == before_entries.push(ng));
                    assert(self@ =~= before.push(ng@));
                    assert(ng@ == group_without(gs[i as int], id));
                    assert forall|k: int| 0 <= k < ng@.tasks.len() implies tasks_have_id(gs[i as int].tasks, #[trigger] ng@.tasks[k].id) by {
                        let l = choose|l: int| 0 <= l < tasks_seq.len() && #[trigger] kept@[k]@ == tasks_seq[l]@;
                        assert(ng@.tasks[k] == kept@[k]@);
                        assert(gs[i as int].tasks[l] == tasks_seq[l]@);
                    }
                    self.lemma_push_kept_group(before, gs, i as int, ng@);
                }
            } else {
                assert(kept@.map_values(|t: Task| t@).len() == 0);
            }
            i += 1;
        }
        assert(gs.subrange(0, n as int) =~= gs);
    }

    /// Renames window `id` to `title`. Where `group_title` is given, the
    /// group that holds the window takes it as its title; no other group
    /// changes. An absent id changes nothing.
    pub fn rename_task(&mut self, id: u64, title: String, group_title: Option<String>)
        requires
            old(self).wf(),
        ensures
            final(self).wf(),
            final(self)@ == rename_spec(old(self)@, id, title@, opt_text(group_title)),
    {
        let mut rest: Vec<Group> = Vec::new();
        std::mem::swap(&mut self.entries, &mut rest);
        let ghost orig = rest@;
        let ghost gs = orig.map_values(|g: Group| g@);
        let ghost gt = opt_text(group_title);
        assert(gs == old(self)@);
        let n = rest.len();
        let mut i: usize = 0;
        while i < n
            invariant
                n == orig.len(),
                gs == orig.map_values(|g: Group| g@),
                gt == opt_text(group_title),
                0 <= i <= n,
                rest@ == orig.subrange(i as int, n as int),
                self@ =~= gs.subrange(0, i as int).map_values(|g: GroupView| rename_group(g, id, title@, gt)),
            decreases n - i,
        {
            let ghost before = self@;
            let g = rest.remove(0);
            assert(g == orig[i as int]);
            let ng = if has_task(&g.tasks, id) {
                let Group { title: old_title, class, tasks } = g;
                let group_title_now = match &group_title {
                    Some(t) => t.clone(),
                    None => old_title,
                };
                Group { title: group_title_now, class, tasks: retitle_tasks(tasks, id, &title) }
            } else {
                g
            };
            self.entries.push(ng);
            proof {
                assert(ng@ =~= rename_group(gs[i as int], id, title@, gt));
                assert(self@ =~= before.push(ng@));
                assert(gs.subrange(0, i + 1).map_values(|g: GroupView| rename_group(g, id, title@, gt)) =~= gs.subrange(0, i as int).map_values(|g: GroupView| rename_group(g, id, title@, gt)).push(rename_group(gs[i as int], id, title@, gt)));
            }
            i += 1;
        }
        assert(gs.subrange(0, n as int) =~= gs);
        proof {
            lemma_rename_keeps_wf(gs, id, title@, gt);
        }
    }

    /// Adds window `id` of class `class`; an absent title counts as empty.
    /// The window joins the group of its class, after the windows already
    /// there, or starts a new group at the end, whose title is the window's
    /// title. A window id that is already present is ignored.
    pub fn add_task(&mut self, id: u64, class: String, title: Option<String>)
        requires
            old(self).wf(),
        ensures
            final(self).wf(),
            final(self)@ == add_spec(old(self)@, id, class@, title_or_empty(title)),
    {
        let ghost tv = title_or_empty(title);
        let text = match title {
            Some(t) => t,
            None => String::new(),
        };
        if self.contains_id(id) {
            return;
        }
        let ghost gs = self@;
        let n = self.entries.len();
        let mut i: usize = 0;
        while i < n
            invariant
                n == self.entries@.len(),
                gs == self@,
                gs == old(self)@,
                well_formed(gs),
                text@ == tv,
                tv == title_or_empty(title),
                !has_id(gs, id),
                0 <= i <= n,
                forall|j: int| 0 <= j < i ==> #[trigger] self@[j].class != class@,
            decreases n - i,
        {
            if self.entries[i].class == class {
                assert(self@[i as int].class == class@);
                let ghost old_entries = self.entries@;
                let mut g = self.entries.remove(i);
                let ghost old_g = g;
                assert(text@ == tv);
                let task = Task { title: text, id };
                g.tasks.push(task);
                self.entries.insert(i, g);
                proof {
                    assert(self.entries@ =~= old_entries.update(i as int, g));
                    let t = TaskView { title: tv, id };
                    assert(old_g == old_entries[i as int]);
                    assert(g.tasks@ == old_g.tasks@.push(task));
                    assert(g@.tasks =~= old_entries[i as int]@.tasks.push(t));
                    assert(well_formed(gs));
                    let c = choose|c: int| 0 <= c < gs.len() && #[trigger] gs[c].class == class@;
                    assert(gs[i as int].class == class@);
                    assert(c == i);
                    assert(self@ =~= add_spec(gs, id, class@, tv));
                    assert(!has_id(gs, id));
                    assert forall|a: int, k: int| 0 <= a < gs.len() && 0 <= k < gs[a].tasks.len() implies #[trigger] gs[a].tasks[k].id != id by {
                        if gs[a].tasks[k].id == id {
                            assert(tasks_have_id(gs[a].tasks, id));
                        }
                    }
                    lemma_add_to_group_keeps_wf(gs, i as int, t);
                    assert(self@ =~= gs.update(i as int, GroupView { tasks: gs[i as int].tasks.push(t), ..gs[i as int] }));
                    assert(well_formed(self@));
                    assert(self@ == add_spec(old(self)@, id, class@, tv));
                }
                return;
            }
            i += 1;
        }
        let ghost old_entries = self.entries@;
        assert(text@ == tv);
        let group_title = text.clone();
        let mut tasks = Vec::new();
        tasks.push(Task { title: text, id });
        self.entries.push(Group { title: group_title, class, tasks });
        proof {
            assert(self.entries@ =~= old_entries.push(self.entries@[n as int]));
            let t = TaskView { title: tv, id };
            assert(self@[n as int].tasks =~= seq![t]);
            assert(!has_class(gs, class@));
            assert(self@ =~= add_spec(gs, id, class@, tv));
            assert(!has_id(gs, id));
            assert forall|a: int, k: int| 0 <= a < gs.len() && 0 <= k < gs[a].tasks.len() implies #[trigger] gs[a].tasks[k].id != id by {
                if gs[a].tasks[k].id == id {
                    assert(tasks_have_id(gs[a].tasks, id));
                }
            }
        }
    }
}

} // verus!
