use vstd::prelude::*;
use crate::model::TaskView;
use crate::model::blank_view;
use crate::model::forest_nodes;
use crate::model::sorted_by_priority;
use crate::model::spec_add_all;
use crate::tasks::BoxTaskVec;
use crate::tasks::Task;
use crate::tasks::box_views;
use crate::tasks::ref_views;

verus! {

/// The task registry: a blank root task with no externally visible
/// identity, used purely as the container of the whole tree a user sees. It
/// presents the hierarchy as a flat API and prepares bulk loads and saves
/// for a storage collaborator; the collaborator itself lives with the
/// surrounding program.
#[derive(Debug, Clone)]
pub struct Oswald {
    root: Task,
}

impl View for Oswald {
    type V = TaskView;

    closed spec fn view(&self) -> TaskView {
        self.root@
    }
}

impl Oswald {
    /// An empty registry.
    pub fn new() -> (o: Oswald)
        ensures
            o@ == blank_view(0),
            o@.wf(),
    {
        Oswald { root: Task::new_with_id(0) }
    }

    /// Upsert the task into the tree through the root's insert algorithm:
    /// replaced in place wherever its id already lives, appended as a new
    /// top-level task otherwise. Always succeeds structurally.
    pub fn add_task(&mut self, task: Box<Task>)
        ensures
            final(self)@ == old(self)@.spec_add(task@),
            old(self)@.wf() && task@.wf() ==> final(self)@.wf(),
    {
        self.root.add_subtask(task)
    }

    /// The top-level tasks, in priority order.
    pub fn get_tasks(&self) -> (r: Vec<&Task>)
        requires
            self@.complexity() <= u32::MAX,
        ensures
            r@.len() == self@.subtasks.len(),
            ref_views(r@).to_multiset() == self@.subtasks.to_multiset(),
            sorted_by_priority(ref_views(r@)),
    {
        self.root.get_subtasks()
    }

    /// Every task in the tree — the invisible root excluded — flattened
    /// into one globally sorted sequence, whatever the nesting depth.
    pub fn get_all_tasks(&self) -> (r: Vec<&Task>)
        requires
            self@.complexity() <= u32::MAX,
        ensures
            r@.len() == self@.complexity() - 1,
            ref_views(r@).to_multiset() == forest_nodes(self@.subtasks).to_multiset(),
            sorted_by_priority(ref_views(r@)),
    {
        self.root.get_all_subtasks()
    }

    /// Discard the whole tree, resetting to an empty root. Irreversible;
    /// callers gate it behind their own confirmation.
    pub fn clear(&mut self)
        ensures
            final(self)@ == blank_view(0),
            final(self)@.wf(),
    {
        self.root = Task::new_with_id(0);
    }

    /// Take in the top-level tasks a storage collaborator read — each
    /// already carrying its own nested subtasks — and insert every one
    /// through the standard insert algorithm, in order. Reading is the
    /// collaborator's business; a failed read simply never reaches this
    /// point, leaving the registry as it was.
    pub fn load(&mut self, tasks: BoxTaskVec)
        ensures
            final(self)@ == spec_add_all(old(self)@, box_views(tasks@)),
            old(self)@.wf() && (forall|i: int|
                0 <= i < tasks@.len() ==> (#[trigger] box_views(tasks@)[i]).wf())
                ==> final(self)@.wf(),
    {
        self.root.add_subtasks_vec(tasks)
    }
}

} // verus!
