use vstd::prelude::*;
use crate::model::TaskView;
use crate::model::blank_view;
use crate::model::forest_complexity;
use crate::model::sorts_before;
use crate::model::key_le;
use crate::model::sorted_by_priority;
use crate::model::forest_nodes;
use crate::model::spec_add_all;
use crate::status::TaskStatus;

verus! {

/// One task or subtask: scalar attributes plus an exclusively owned
/// collection of child tasks, keyed by their ids. A task owns its whole
/// subtree; a child's lifetime ends when it is removed or when the owner is
/// dropped.
///
/// `importance` and `urgency` are caller-controlled ranking scalars, never
/// validated; they matter only through the signed distance
/// `importance·|importance| + urgency·|urgency|`.
#[derive(Debug)]
pub struct Task {
    pub id: u32,
    pub importance: i64,
    pub urgency: i64,
    pub status: TaskStatus,
    pub desc: String,
    subtasks: Vec<Task>,
}

/// A vector of owned tasks, as bulk operations hand them around.
pub type BoxTaskVec = Vec<Box<Task>>;

/// The shape of a task: its scalar fields and, recursively, the shapes of
/// its children.
pub closed spec fn task_view(t: Task) -> TaskView
    decreases t,
{
    TaskView {
        id: t.id,
        importance: t.importance as int,
        urgency: t.urgency as int,
        status: t.status,
        desc: t.desc@,
        subtasks: forest_view(t.subtasks@),
    }
}

/// The shapes of a sequence of tasks, element by element.
pub closed spec fn forest_view(s: Seq<Task>) -> Seq<TaskView>
    decreases s,
{
    if s.len() == 0 {
        Seq::empty()
    } else {
        seq![task_view(s[0])] + forest_view(s.drop_first())
    }
}

impl View for Task {
    type V = TaskView;

    open spec fn view(&self) -> TaskView {
        task_view(*self)
    }
}

/// A task forest views to a sequence of the same length.
pub broadcast proof fn lemma_forest_view_len(s: Seq<Task>)
    ensures
        (#[trigger] forest_view(s)).len() == s.len(),
    decreases s,
{
    if s.len() > 0 {
        lemma_forest_view_len(s.drop_first());
    }
}

/// A task forest views element by element.
pub broadcast proof fn lemma_forest_view_index(s: Seq<Task>, i: int)
    requires
        0 <= i < s.len(),
    ensures
        forest_view(s).len() == s.len(),
        #[trigger] forest_view(s)[i] == task_view(s[i]),
    decreases s,
{
    lemma_forest_view_len(s);
    if i > 0 {
        lemma_forest_view_index(s.drop_first(), i - 1);
    }
}

/// Appending a task appends its view.
pub proof fn lemma_forest_view_push(s: Seq<Task>, t: Task)
    ensures
        forest_view(s.push(t)) == forest_view(s).push(task_view(t)),
{
    lemma_forest_view_len(s);
    lemma_forest_view_len(s.push(t));
    assert forall|j: int| 0 <= j < s.len() + 1 implies #[trigger] forest_view(s.push(t))[j]
        == forest_view(s).push(task_view(t))[j] by {
        lemma_forest_view_index(s.push(t), j);
        if j < s.len() {
            lemma_forest_view_index(s, j);
        }
    }
    assert(forest_view(s.push(t)) =~= forest_view(s).push(task_view(t)));
}

/// Updating one task updates one view.
pub proof fn lemma_forest_view_update(s: Seq<Task>, i: int, t: Task)
    requires
        0 <= i < s.len(),
    ensures
        forest_view(s.update(i, t)) == forest_view(s).update(i, task_view(t)),
{
    lemma_forest_view_len(s);
    lemma_forest_view_len(s.update(i, t));
    assert forall|j: int| 0 <= j < s.len() implies #[trigger] forest_view(s.update(i, t))[j]
        == forest_view(s).update(i, task_view(t))[j] by {
        lemma_forest_view_index(s.update(i, t), j);
        lemma_forest_view_index(s, j);
    }
    assert(forest_view(s.update(i, t)) =~= forest_view(s).update(i, task_view(t)));
}

/// Removing one task removes one view.
pub proof fn lemma_forest_view_remove(s: Seq<Task>, i: int)
    requires
        0 <= i < s.len(),
    ensures
        forest_view(s.remove(i)) == forest_view(s).remove(i),
{
    lemma_forest_view_len(s);
    lemma_forest_view_len(s.remove(i));
    assert forall|j: int| 0 <= j < s.len() - 1 implies #[trigger] forest_view(s.remove(i))[j]
        == forest_view(s).remove(i)[j] by {
        lemma_forest_view_index(s.remove(i), j);
        if j < i {
            lemma_forest_view_index(s, j);
        } else {
            lemma_forest_view_index(s, j + 1);
        }
    }
    assert(forest_view(s.remove(i)) =~= forest_view(s).remove(i));
}

impl Task {
    /// A detached task with the given attributes and no subtasks.
    pub fn new(id: u32, desc: String, importance: i64, urgency: i64, status: TaskStatus) -> (t:
        Task)
        ensures
            t@ == (TaskView {
                id,
                importance: importance as int,
                urgency: urgency as int,
                status,
                desc: desc@,
                subtasks: Seq::<TaskView>::empty(),
            }),
            t@.wf(),
    {
        let t = Task { id, importance, urgency, status, desc, subtasks: Vec::new() };
        proof {
            assert(t@ =~= TaskView {
                id,
                importance: importance as int,
                urgency: urgency as int,
                status,
                desc: desc@,
                subtasks: Seq::<TaskView>::empty(),
            });
        }
        t
    }

    /// A detached task that carries only an id: open, unranked, with an
    /// empty description and no subtasks.
    pub fn new_with_id(id: u32) -> (t: Task)
        ensures
            t@ == blank_view(id),
            t@.wf(),
    {
        let t = Task {
            id,
            importance: 0,
            urgency: 0,
            status: TaskStatus::Open,
            desc: String::new(),
            subtasks: Vec::new(),
        };
        proof {
            assert(t@ =~= blank_view(id));
        }
        t
    }

    /// The signed priority scalar `importance·|importance| +
    /// urgency·|urgency|`; exact, with no rounding or saturation.
    pub fn get_distance(&self) -> (d: i128)
        ensures
            d == self@.distance(),
    {
        let imp = self.importance as i128;
        let urg = self.urgency as i128;
        let imp_abs: i128 = if imp < 0 { -imp } else { imp };
        let urg_abs: i128 = if urg < 0 { -urg } else { urg };
        proof {
            crate::model::lemma_signed_square_shape(imp as int, imp_abs as int);
            crate::model::lemma_signed_square_shape(urg as int, urg_abs as int);
        }
        imp * imp_abs + urg * urg_abs
    }
}

impl Task {
    /// Total node count of the subtree rooted here, including this node: a
    /// leaf counts 1, every other node counts 1 plus its children's counts.
    pub fn get_complexity(&self) -> (c: u32)
        requires
            self@.complexity() <= u32::MAX,
        ensures
            c == self@.complexity(),
        decreases *self,
    {
        let mut c: u32 = 1;
        let n = self.subtasks.len();
        let mut i: usize = 0;
        proof {
            lemma_forest_view_len(self.subtasks@);
            assert(self@.subtasks.take(0) =~= Seq::<TaskView>::empty());
        }
        while i < n
            invariant
                n == self.subtasks.len(),
                i <= n,
                self@.complexity() <= u32::MAX,
                self@.subtasks == forest_view(self.subtasks@),
                self@.subtasks.len() == n,
                c == 1 + forest_complexity(self@.subtasks.take(i as int)),
            decreases n - i,
        {
            proof {
                lemma_forest_view_index(self.subtasks@, i as int);
                crate::model::lemma_forest_complexity_take_step(self@.subtasks, i as int);
                crate::model::lemma_forest_complexity_split(self@.subtasks, i as int + 1);
                crate::model::lemma_forest_complexity_member(self@.subtasks, i as int);
            }
            let sub = self.subtasks[i].get_complexity();
            c = c + sub;
            i += 1;
        }
        proof {
            assert(self@.subtasks.take(n as int) =~= self@.subtasks);
        }
        c
    }

    /// The node of this subtree whose direct children carry the given id —
    /// the node an insert or delete of that id would mutate — or `None`
    /// when the id lives nowhere below this node.
    pub fn get_subtask_parent(&self, id: u32) -> (r: Option<&Task>)
        ensures
            r is Some <==> self@.holds(id),
            match r {
                Some(p) => p@ == self@.holder(id),
                None => true,
            },
        decreases *self,
    {
        let n = self.subtasks.len();
        proof {
            lemma_forest_view_len(self.subtasks@);
        }
        let mut i: usize = 0;
        while i < n
            invariant
                n == self.subtasks.len(),
                i <= n,
                self@.subtasks.len() == n,
                self@.subtasks == forest_view(self.subtasks@),
                forall|j: int| 0 <= j < i ==> (#[trigger] self@.subtasks[j]).id != id,
            decreases n - i,
        {
            proof {
                lemma_forest_view_index(self.subtasks@, i as int);
            }
            if self.subtasks[i].id == id {
                proof {
                    assert(self@.subtasks[i as int].id == id);
                    assert(self@.has_child(id));
                }
                return Some(self);
            }
            i += 1;
        }
        proof {
            assert(!self@.has_child(id));
        }
        let mut i: usize = 0;
        while i < n
            invariant
                n == self.subtasks.len(),
                i <= n,
                self@.subtasks.len() == n,
                self@.subtasks == forest_view(self.subtasks@),
                !self@.has_child(id),
                forall|j: int| 0 <= j < i ==> !(#[trigger] self@.subtasks[j]).holds(id),
            decreases n - i,
        {
            proof {
                lemma_forest_view_index(self.subtasks@, i as int);
            }
            let r = self.subtasks[i].get_subtask_parent(id);
            if r.is_some() {
                proof {
                    crate::model::lemma_first_holding_is(self@.subtasks, id, i as int);
                    assert(self@.holds(id));
                }
                return r;
            }
            i += 1;
        }
        proof {
            assert(!self@.holds(id));
        }
        None
    }
}

impl Task {
    /// The total-order comparator behind every listing: equal ids compare
    /// equal whatever the other fields say; otherwise status ascending,
    /// then complexity ascending, then distance descending, and finally id
    /// ascending as the deterministic tie-break.
    pub fn cmp(&self, other: &Task) -> (r: core::cmp::Ordering)
        requires
            self@.complexity() <= u32::MAX,
            other@.complexity() <= u32::MAX,
        ensures
            (r == core::cmp::Ordering::Equal) <==> self@.id == other@.id,
            (r == core::cmp::Ordering::Less) <==> sorts_before(self@, other@),
            (r == core::cmp::Ordering::Greater) <==> sorts_before(other@, self@),
    {
        if self.id == other.id {
            return core::cmp::Ordering::Equal;
        }
        let self_code = self.status.to_code();
        let other_code = other.status.to_code();
        if self_code != other_code {
            return if self_code < other_code {
                core::cmp::Ordering::Less
            } else {
                core::cmp::Ordering::Greater
            };
        }
        let self_complexity = self.get_complexity();
        let other_complexity = other.get_complexity();
        if self_complexity != other_complexity {
            return if self_complexity < other_complexity {
                core::cmp::Ordering::Less
            } else {
                core::cmp::Ordering::Greater
            };
        }
        let dist = self.get_distance();
        let other_dist = other.get_distance();
        if dist > other_dist {
            return core::cmp::Ordering::Less;
        }
        if dist < other_dist {
            return core::cmp::Ordering::Greater;
        }
        if self.id < other.id {
            core::cmp::Ordering::Less
        } else {
            core::cmp::Ordering::Greater
        }
    }

    /// Insert `subtask` into the subtree: if its id already lives anywhere
    /// below this node, the whole stored node is replaced in place there —
    /// even when insert was invoked on a distant ancestor — discarding
    /// whatever subtree hung off the old entry; otherwise it becomes a new
    /// direct child of this node.
    pub fn add_subtask(&mut self, subtask: Box<Task>)
        ensures
            final(self)@ == old(self)@.spec_add(subtask@),
            old(self)@.wf() && subtask@.wf() ==> final(self)@.wf(),
    {
        if self.get_subtask_parent(subtask.id).is_some() {
            self.replace_at_holder(subtask);
        } else {
            let ghost pre = self.subtasks@;
            let t = *subtask;
            self.subtasks.push(t);
            proof {
                lemma_forest_view_push(pre, t);
            }
        }
        proof {
            if old(self)@.wf() && subtask@.wf() {
                old(self)@.lemma_add_preserves_wf(subtask@);
            }
        }
    }

    /// Replace the stored node with id `st.id` inside whichever children
    /// mapping holds it, preserving its position in the hierarchy.
    fn replace_at_holder(&mut self, st: Box<Task>)
        requires
            old(self)@.holds(st@.id),
        ensures
            final(self)@ == old(self)@.spec_replace(st@),
        decreases *old(self),
    {
        let id = st.id;
        let n = self.subtasks.len();
        proof {
            lemma_forest_view_len(self.subtasks@);
        }
        let mut i: usize = 0;
        while i < n
            invariant
                *self == *old(self),
                n == self.subtasks.len(),
                i <= n,
                self@.subtasks.len() == n,
                id == st@.id,
                forall|j: int| 0 <= j < i ==> (#[trigger] self@.subtasks[j]).id != id,
            decreases n - i,
        {
            proof {
                lemma_forest_view_index(self.subtasks@, i as int);
            }
            if self.subtasks[i].id == id {
                proof {
                    assert(old(self)@.subtasks[i as int].id == id);
                    assert(old(self)@.has_child(id));
                    crate::model::lemma_first_with_id_is(old(self)@.subtasks, id, i as int);
                }
                let ghost pre = self.subtasks@;
                let _old_entry = self.subtasks.remove(i);
                self.subtasks.insert(i, *st);
                proof {
                    assert(self.subtasks@ =~= pre.update(i as int, *st));
                    lemma_forest_view_update(pre, i as int, *st);
                    assert(self@ =~= old(self)@.spec_replace(st@));
                }
                return;
            }
            i += 1;
        }
        proof {
            assert(!self@.has_child(id));
        }
        let mut i: usize = 0;
        while i < n
            invariant
                *self == *old(self),
                n == self.subtasks.len(),
                i <= n,
                self@.subtasks.len() == n,
                id == st@.id,
                !self@.has_child(id),
                forall|j: int| 0 <= j < i ==> !(#[trigger] self@.subtasks[j]).holds(id),
            decreases n - i,
        {
            proof {
                lemma_forest_view_index(self.subtasks@, i as int);
            }
            let found = self.subtasks[i].get_subtask_parent(id).is_some();
            if found {
                proof {
                    crate::model::lemma_first_holding_is(old(self)@.subtasks, id, i as int);
                }
                let ghost pre = self.subtasks@;
                let mut child = self.subtasks.remove(i);
                child.replace_at_holder(st);
                self.subtasks.insert(i, child);
                proof {
                    assert(self.subtasks@ =~= pre.update(i as int, child));
                    lemma_forest_view_update(pre, i as int, child);
                    assert(self@ =~= old(self)@.spec_replace(st@));
                }
                return;
            }
            i += 1;
        }
        proof {
            assert(!self@.holds(id));
            assert(false);
        }
    }

    /// Delete the given id from whichever children mapping holds it,
    /// anywhere in the subtree. When the id is absent this is a silent
    /// no-op that leaves the task untouched, not an error.
    pub fn delete_subtask(&mut self, id: u32)
        ensures
            final(self)@ == old(self)@.spec_delete(id),
            !old(self)@.holds(id) ==> *final(self) == *old(self),
            old(self)@.wf() ==> final(self)@.wf(),
    {
        proof {
            if old(self)@.wf() {
                old(self)@.lemma_delete_preserves_wf(id);
            }
        }
        if self.get_subtask_parent(id).is_some() {
            self.remove_at_holder(id);
        } else {
            proof {
                let s = self@.subtasks;
                assert(forall|k: int| 0 <= k < s.len() ==> !(#[trigger] s[k]).holds(id));
                crate::model::lemma_first_holding_none(s, id);
            }
        }
    }

    /// Remove the direct entry with the given id from whichever children
    /// mapping holds it.
    fn remove_at_holder(&mut self, id: u32)
        requires
            old(self)@.holds(id),
        ensures
            final(self)@ == old(self)@.spec_delete(id),
        decreases *old(self),
    {
        let n = self.subtasks.len();
        proof {
            lemma_forest_view_len(self.subtasks@);
        }
        let mut i: usize = 0;
        while i < n
            invariant
                *self == *old(self),
                n == self.subtasks.len(),
                i <= n,
                self@.subtasks.len() == n,
                forall|j: int| 0 <= j < i ==> (#[trigger] self@.subtasks[j]).id != id,
            decreases n - i,
        {
            proof {
                lemma_forest_view_index(self.subtasks@, i as int);
            }
            if self.subtasks[i].id == id {
                proof {
                    assert(old(self)@.subtasks[i as int].id == id);
                    assert(old(self)@.has_child(id));
                    crate::model::lemma_first_with_id_is(old(self)@.subtasks, id, i as int);
                }
                let ghost pre = self.subtasks@;
                let _removed = self.subtasks.remove(i);
                proof {
                    lemma_forest_view_remove(pre, i as int);
                    assert(self@ =~= old(self)@.spec_delete(id));
                }
                return;
            }
            i += 1;
        }
        proof {
            assert(!self@.has_child(id));
        }
        let mut i: usize = 0;
        while i < n
            invariant
                *self == *old(self),
                n == self.subtasks.len(),
                i <= n,
                self@.subtasks.len() == n,
                !self@.has_child(id),
                forall|j: int| 0 <= j < i ==> !(#[trigger] self@.subtasks[j]).holds(id),
            decreases n - i,
        {
            proof {
                lemma_forest_view_index(self.subtasks@, i as int);
            }
            let found = self.subtasks[i].get_subtask_parent(id).is_some();
            if found {
                proof {
                    crate::model::lemma_first_holding_is(old(self)@.subtasks, id, i as int);
                }
                let ghost pre = self.subtasks@;
                let mut child = self.subtasks.remove(i);
                child.remove_at_holder(id);
                self.subtasks.insert(i, child);
                proof {
                    assert(self.subtasks@ =~= pre.update(i as int, child));
                    lemma_forest_view_update(pre, i as int, child);
                    assert(self@ =~= old(self)@.spec_delete(id));
                }
                return;
            }
            i += 1;
        }
        proof {
            assert(!self@.holds(id));
            assert(false);
        }
    }
}

/// The views of a sequence of borrowed tasks, element by element.
pub open spec fn ref_views(s: Seq<&Task>) -> Seq<TaskView> {
    s.map_values(|t: &Task| task_view(*t))
}

/// The views of a sequence of boxed tasks, element by element.
pub open spec fn box_views(s: Seq<Box<Task>>) -> Seq<TaskView> {
    s.map_values(|t: Box<Task>| task_view(*t))
}

/// Whether `a` comes no later than `b` under the comparator's key.
fn le_by_key(a: &Task, b: &Task) -> (r: bool)
    requires
        a@.complexity() <= u32::MAX,
        b@.complexity() <= u32::MAX,
    ensures
        r == key_le(a@, b@),
{
    let a_code = a.status.to_code();
    let b_code = b.status.to_code();
    if a_code != b_code {
        return a_code < b_code;
    }
    let a_complexity = a.get_complexity();
    let b_complexity = b.get_complexity();
    if a_complexity != b_complexity {
        return a_complexity < b_complexity;
    }
    let a_dist = a.get_distance();
    let b_dist = b.get_distance();
    if a_dist != b_dist {
        return a_dist > b_dist;
    }
    a.id <= b.id
}

/// Insertion sort by the comparator's key; the result lists the same tasks,
/// in priority order.
fn sorted_refs<'a>(input: Vec<&'a Task>) -> (r: Vec<&'a Task>)
    requires
        forall|k: int| 0 <= k < input@.len() ==> (#[trigger] input@[k]@).complexity() <= u32::MAX,
    ensures
        r@.len() == input@.len(),
        ref_views(r@).to_multiset() == ref_views(input@).to_multiset(),
        sorted_by_priority(ref_views(r@)),
{
    broadcast use vstd::seq_lib::group_to_multiset_ensures;

    let n = input.len();
    let mut r: Vec<&Task> = Vec::new();
    let mut i: usize = 0;
    proof {
        assert(ref_views(r@) =~= Seq::<TaskView>::empty());
        assert(ref_views(input@.take(0)) =~= Seq::<TaskView>::empty());
        assert(ref_views(r@).to_multiset() =~= ref_views(input@.take(0)).to_multiset());
    }
    while i < n
        invariant
            n == input@.len(),
            i <= n,
            r@.len() == i,
            forall|k: int| 0 <= k < n ==> (#[trigger] input@[k]@).complexity() <= u32::MAX,
            forall|k: int| 0 <= k < i ==> (#[trigger] r@[k]@).complexity() <= u32::MAX,
            forall|p: int, q: int|
                0 <= p < q < i ==> key_le(#[trigger] r@[p]@, #[trigger] r@[q]@),
            ref_views(r@).to_multiset() == ref_views(input@.take(i as int)).to_multiset(),
        decreases n - i,
    {
        broadcast use vstd::seq_lib::group_to_multiset_ensures;

        let x = input[i];
        let mut pos: usize = 0;
        while pos < r.len() && le_by_key(r[pos], x)
            invariant
                r@.len() == i,
                pos <= i,
                x@.complexity() <= u32::MAX,
                forall|k: int| 0 <= k < i ==> (#[trigger] r@[k]@).complexity() <= u32::MAX,
                forall|k: int| 0 <= k < pos ==> key_le(#[trigger] r@[k]@, x@),
            decreases i - pos,
        {
            pos += 1;
        }
        proof {
            if pos < i {
                crate::model::lemma_key_le_total(r@[pos as int]@, x@);
                assert(key_le(x@, r@[pos as int]@));
            }
        }
        let ghost pre = r@;
        r.insert(pos, x);
        proof {
            assert forall|p: int, q: int| 0 <= p < q < i + 1 implies key_le(
                #[trigger] r@[p]@,
                #[trigger] r@[q]@,
            ) by {
                let pi = pos as int;
                if q == pi {
                    assert(r@[p] == pre[p]);
                    assert(r@[q] == x);
                } else if p == pi {
                    assert(r@[p] == x);
                    assert(r@[q] == pre[q - 1]);
                    assert(pi <= q - 1 < i);
                    assert(key_le(x@, pre[pi]@));
                    crate::model::lemma_key_le_trans(x@, pre[pi]@, pre[q - 1]@);
                } else if q < pi {
                    assert(r@[p] == pre[p] && r@[q] == pre[q]);
                } else if p < pi {
                    assert(r@[p] == pre[p] && r@[q] == pre[q - 1]);
                    assert(p < q - 1);
                } else {
                    assert(r@[p] == pre[p - 1] && r@[q] == pre[q - 1]);
                }
            }
            assert(ref_views(r@) =~= ref_views(pre).insert(pos as int, x@));
            assert(ref_views(input@.take(i as int + 1)) =~= ref_views(input@.take(i as int)).push(
                x@,
            ));
            assert(ref_views(r@).to_multiset() == ref_views(input@.take(i as int + 1)).to_multiset());
        }
        i += 1;
    }
    proof {
        assert(input@.take(n as int) =~= input@);
        assert forall|p: int, q: int| 0 <= p < q < ref_views(r@).len() implies key_le(
            #[trigger] ref_views(r@)[p],
            #[trigger] ref_views(r@)[q],
        ) by {
            assert(key_le(r@[p]@, r@[q]@));
        }
        crate::model::lemma_key_sorted_is_priority_sorted(ref_views(r@));
    }
    r
}

impl Task {
    /// All direct children of the node, in priority order.
    pub fn get_subtasks(&self) -> (r: Vec<&Task>)
        requires
            self@.complexity() <= u32::MAX,
        ensures
            r@.len() == self@.subtasks.len(),
            ref_views(r@).to_multiset() == self@.subtasks.to_multiset(),
            sorted_by_priority(ref_views(r@)),
    {
        broadcast use vstd::seq_lib::group_to_multiset_ensures;

        let n = self.subtasks.len();
        proof {
            lemma_forest_view_len(self.subtasks@);
        }
        let mut collected: Vec<&Task> = Vec::new();
        let mut i: usize = 0;
        proof {
            assert(ref_views(collected@) =~= self@.subtasks.take(0));
        }
        while i < n
            invariant
                n == self.subtasks.len(),
                i <= n,
                self@.subtasks.len() == n,
                self@.subtasks == forest_view(self.subtasks@),
                self@.complexity() <= u32::MAX,
                collected@.len() == i,
                ref_views(collected@) == self@.subtasks.take(i as int),
            decreases n - i,
        {
            proof {
                lemma_forest_view_index(self.subtasks@, i as int);
            }
            collected.push(&self.subtasks[i]);
            proof {
                assert(ref_views(collected@) =~= self@.subtasks.take(i as int + 1));
            }
            i += 1;
        }
        proof {
            assert(self@.subtasks.take(n as int) =~= self@.subtasks);
            assert forall|k: int| 0 <= k < collected@.len() implies (
            #[trigger] collected@[k]@).complexity() <= u32::MAX by {
                assert(collected@[k]@ == self@.subtasks[k]);
                crate::model::lemma_forest_complexity_member(self@.subtasks, k);
            }
        }
        sorted_refs(collected)
    }

    /// Every node of the subtree below the receiver — the receiver itself
    /// excluded — flattened into one sequence in priority order, whatever
    /// the nesting depth.
    pub fn get_all_subtasks(&self) -> (r: Vec<&Task>)
        requires
            self@.complexity() <= u32::MAX,
        ensures
            r@.len() == self@.complexity() - 1,
            ref_views(r@).to_multiset() == forest_nodes(self@.subtasks).to_multiset(),
            sorted_by_priority(ref_views(r@)),
    {
        let n = self.subtasks.len();
        proof {
            lemma_forest_view_len(self.subtasks@);
        }
        let mut collected: Vec<&Task> = Vec::new();
        let mut i: usize = 0;
        proof {
            assert(forest_nodes(self@.subtasks.take(0)) =~= Seq::<TaskView>::empty());
            assert(ref_views(collected@) =~= Seq::<TaskView>::empty());
        }
        while i < n
            invariant
                n == self.subtasks.len(),
                i <= n,
                self@.subtasks.len() == n,
                self@.subtasks == forest_view(self.subtasks@),
                ref_views(collected@) == forest_nodes(self@.subtasks.take(i as int)),
            decreases n - i,
        {
            proof {
                lemma_forest_view_index(self.subtasks@, i as int);
            }
            self.subtasks[i].push_all(&mut collected);
            proof {
                assert(self@.subtasks.take(i as int + 1) =~= self@.subtasks.take(i as int).push(
                    self@.subtasks[i as int],
                ));
                crate::model::lemma_forest_nodes_push(
                    self@.subtasks.take(i as int),
                    self@.subtasks[i as int],
                );
            }
            i += 1;
        }
        proof {
            assert(self@.subtasks.take(n as int) =~= self@.subtasks);
            crate::model::lemma_forest_nodes_len(self@.subtasks);
            crate::model::lemma_forest_nodes_complexity_bound(self@.subtasks);
            assert forall|k: int| 0 <= k < collected@.len() implies (
            #[trigger] collected@[k]@).complexity() <= u32::MAX by {
                assert(collected@[k]@ == ref_views(collected@)[k]);
            }
        }
        sorted_refs(collected)
    }

    /// Append the receiver and, after it, every node of its subtree to `out`.
    fn push_all<'a>(&'a self, out: &mut Vec<&'a Task>)
        ensures
            ref_views(final(out)@) == ref_views(old(out)@) + self@.nodes(),
        decreases *self,
    {
        let n = self.subtasks.len();
        proof {
            lemma_forest_view_len(self.subtasks@);
        }
        out.push(self);
        proof {
            assert(forest_nodes(self@.subtasks.take(0)) =~= Seq::<TaskView>::empty());
            assert(ref_views(out@) =~= ref_views(old(out)@) + seq![self@] + forest_nodes(
                self@.subtasks.take(0),
            ));
        }
        let mut i: usize = 0;
        while i < n
            invariant
                n == self.subtasks.len(),
                i <= n,
                self@.subtasks.len() == n,
                self@.subtasks == forest_view(self.subtasks@),
                ref_views(out@) == ref_views(old(out)@) + seq![self@] + forest_nodes(
                    self@.subtasks.take(i as int),
                ),
            decreases n - i,
        {
            proof {
                lemma_forest_view_index(self.subtasks@, i as int);
            }
            self.subtasks[i].push_all(out);
            proof {
                assert(self@.subtasks.take(i as int + 1) =~= self@.subtasks.take(i as int).push(
                    self@.subtasks[i as int],
                ));
                crate::model::lemma_forest_nodes_push(
                    self@.subtasks.take(i as int),
                    self@.subtasks[i as int],
                );
                assert(ref_views(out@) =~= ref_views(old(out)@) + seq![self@] + forest_nodes(
                    self@.subtasks.take(i as int + 1),
                ));
            }
            i += 1;
        }
        proof {
            assert(self@.subtasks.take(n as int) =~= self@.subtasks);
            assert(ref_views(out@) =~= ref_views(old(out)@) + self@.nodes());
        }
    }

    /// Insert every task of the vector, in order, through the ordinary
    /// insert algorithm.
    pub fn add_subtasks_vec(&mut self, subtasks: BoxTaskVec)
        ensures
            final(self)@ == spec_add_all(old(self)@, box_views(subtasks@)),
            old(self)@.wf() && (forall|i: int|
                0 <= i < subtasks@.len() ==> (#[trigger] box_views(subtasks@)[i]).wf())
                ==> final(self)@.wf(),
    {
        proof {
            if old(self)@.wf() && (forall|i: int|
                0 <= i < subtasks@.len() ==> (#[trigger] box_views(subtasks@)[i]).wf()) {
                crate::model::lemma_add_all_preserves_wf(old(self)@, box_views(subtasks@));
            }
        }
        let mut rest = subtasks;
        while rest.len() > 0
            invariant
                spec_add_all(self@, box_views(rest@)) == spec_add_all(
                    old(self)@,
                    box_views(subtasks@),
                ),
            decreases rest@.len(),
        {
            let ghost pre = rest@;
            let next = rest.remove(0);
            proof {
                assert(rest@ =~= pre.drop_first());
                assert(box_views(rest@) =~= box_views(pre).drop_first());
                assert(box_views(pre)[0] == next@);
            }
            self.add_subtask(next);
        }
        proof {
            assert(box_views(rest@) =~= Seq::<TaskView>::empty());
        }
    }
}

impl PartialEq for Task {
    /// Task identity: two tasks are equal exactly when their ids are,
    /// whatever the other fields say.
    fn eq(&self, other: &Self) -> (r: bool) {
        self.id == other.id
    }
}

impl vstd::std_specs::cmp::PartialEqSpecImpl for Task {
    open spec fn obeys_eq_spec() -> bool {
        true
    }

    open spec fn eq_spec(&self, other: &Task) -> bool {
        self@.id == other@.id
    }
}

impl Clone for Task {
    /// A deep copy: the clone views identically to the value it copies.
    fn clone(&self) -> (res: Self)
        ensures
            res@ == self@,
        decreases *self,
    {
        let mut subtasks: Vec<Task> = Vec::new();
        let n = self.subtasks.len();
        let mut i: usize = 0;
        while i < n
            invariant
                n == self.subtasks.len(),
                i <= n,
                subtasks@.len() == i,
                forall|j: int| 0 <= j < i ==> task_view(#[trigger] subtasks@[j]) == task_view(
                    self.subtasks@[j],
                ),
            decreases n - i,
        {
            let child = self.subtasks[i].clone();
            subtasks.push(child);
            i += 1;
        }
        let res = Task {
            id: self.id,
            importance: self.importance,
            urgency: self.urgency,
            status: self.status,
            desc: self.desc.clone(),
            subtasks,
        };
        proof {
            assert forall|j: int| 0 <= j < n implies #[trigger] forest_view(res.subtasks@)[j]
                == forest_view(self.subtasks@)[j] by {
                lemma_forest_view_index(res.subtasks@, j);
                lemma_forest_view_index(self.subtasks@, j);
            }
            lemma_forest_view_len(res.subtasks@);
            lemma_forest_view_len(self.subtasks@);
            assert(forest_view(res.subtasks@) =~= forest_view(self.subtasks@));
            assert(res@ =~= self@);
        }
        res
    }
}

impl Default for Task {
    /// The blank task: id 0, open, unranked, no description, no subtasks.
    fn default() -> (t: Task)
        ensures
            t@ == blank_view(0),
            t@.wf(),
    {
        Task::new_with_id(0)
    }
}

} // verus!
