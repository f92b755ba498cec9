//! The kernel's process bookkeeping: which pids are in use, and which
//! threads are ready to run.
use vstd::prelude::*;
use crate::process::RecycleAllocator;

verus! {

/// Hands out pids and queues ready threads for the scheduler.
pub struct TaskManager {
    /// The pids in use.
    pub pids: RecycleAllocator,
    /// Threads ready to run, as (pid, tid), the first in line first.
    pub ready_queue: Vec<(usize, usize)>,
}

impl TaskManager {
    /// The manager's invariant.
    pub open spec fn wf(&self) -> bool {
        self.pids.wf()
    }

    /// Another pid can be handed out.
    pub open spec fn can_alloc_pid(&self) -> bool {
        self.pids.recycled@.len() > 0 || self.pids.current < usize::MAX
    }

    /// No pid in use and no thread waiting.
    pub fn new() -> (m: TaskManager)
        ensures
            m.wf(),
            m.can_alloc_pid(),
            m.pids.allocated() == Set::<usize>::empty(),
            m.ready_queue@.len() == 0,
    {
        TaskManager { pids: RecycleAllocator::new(), ready_queue: Vec::new() }
    }

    /// Hands out a pid that is not in use.
    pub fn pid_alloc(&mut self) -> (pid: usize)
        requires
            old(self).wf(),
            old(self).can_alloc_pid(),
        ensures
            final(self).wf(),
            !old(self).pids.allocated().contains(pid),
            final(self).pids.allocated() == old(self).pids.allocated().insert(pid),
            final(self).ready_queue == old(self).ready_queue,
    {
        self.pids.alloc_id()
    }

    /// Puts thread `tid` of process `pid` at the end of the ready queue.
    pub fn add_task(&mut self, pid: usize, tid: usize)
        ensures
            final(self).pids == old(self).pids,
            final(self).ready_queue@ == old(self).ready_queue@.push((pid, tid)),
    {
        self.ready_queue.push((pid, tid));
    }

    /// Takes the first thread off the ready queue, if any.
    pub fn fetch_task(&mut self) -> (t: Option<(usize, usize)>)
        ensures
            final(self).pids == old(self).pids,
            old(self).ready_queue@.len() == 0 ==> t is None && final(self).ready_queue@ == old(
                self,
            ).ready_queue@,
            old(self).ready_queue@.len() > 0 ==> t == Some(old(self).ready_queue@[0])
                && final(self).ready_queue@ == old(self).ready_queue@.drop_first(),
    {
        if self.ready_queue.len() == 0 {
            None
        } else {
            Some(self.ready_queue.remove(0))
        }
    }
}

} // verus!
