//! The queue of compactions that wait for their turn.

use crate::catalog::{ExportId, WalSeq};
use std::collections::VecDeque;
use vstd::prelude::*;

verus! {

/// How many compactions wait at most.
pub const DEFAULT_COMPACTION_QUEUE_CAPACITY: usize = 16;

/// An export whose log is to be compacted up to a record.
#[derive(Debug)]
pub struct CompactionJob {
    export_id: ExportId,
    through_wal_seq: WalSeq,
}

/// What became of a job.
#[derive(Debug, Clone, Copy, PartialEq, Eq, Structural)]
pub enum CompactionEnqueueOutcome {
    Queued,
    DroppedFull,
    ShuttingDown,
}

/// What a shutdown left undone.
#[derive(Debug, Clone, Copy, PartialEq, Eq, Structural)]
pub struct CompactionShutdown {
    dropped_pending_jobs: usize,
}

/// The waiting compactions.
#[derive(Debug)]
pub struct CompactionManager {
    capacity: usize,
    accepting: bool,
    pending: VecDeque<CompactionJob>,
}

/// State of the queue.
pub struct CompactionQueueView {
    pub capacity: int,
    pub accepting: bool,
    pub pending: Seq<CompactionJob>,
}

impl CompactionJob {
    pub closed spec fn export(&self) -> ExportId {
        self.export_id
    }

    pub closed spec fn through(&self) -> WalSeq {
        self.through_wal_seq
    }

    pub fn new(export_id: ExportId, through_wal_seq: WalSeq) -> (job: Self)
        ensures
            job.export() == export_id,
            job.through() == through_wal_seq,
    {
        Self { export_id, through_wal_seq }
    }

    pub fn export_id(&self) -> (id: &ExportId)
        ensures
            *id == self.export(),
    {
        &self.export_id
    }

    pub fn through_wal_seq(&self) -> (seq: WalSeq)
        ensures
            seq == self.through(),
    {
        self.through_wal_seq
    }
}

impl CompactionShutdown {
    pub closed spec fn dropped(&self) -> int {
        self.dropped_pending_jobs as int
    }

    pub fn dropped_pending_jobs(&self) -> (dropped: usize)
        ensures
            dropped == self.dropped(),
    {
        self.dropped_pending_jobs
    }
}

impl View for CompactionManager {
    type V = CompactionQueueView;

    closed spec fn view(&self) -> CompactionQueueView {
        CompactionQueueView {
            capacity: self.capacity as int,
            accepting: self.accepting,
            pending: self.pending@,
        }
    }
}

/// What queueing a job does, and what becomes of the job.
pub open spec fn enqueues(
    before: CompactionQueueView,
    after: CompactionQueueView,
    job: CompactionJob,
    outcome: CompactionEnqueueOutcome,
) -> bool {
    if !before.accepting {
        &&& outcome == CompactionEnqueueOutcome::ShuttingDown
        &&& after == before
    } else if before.pending.len() == before.capacity {
        &&& outcome == CompactionEnqueueOutcome::DroppedFull
        &&& after == before
    } else {
        &&& outcome == CompactionEnqueueOutcome::Queued
        &&& after == (CompactionQueueView { pending: before.pending.push(job), ..before })
    }
}

/// What asking for the next job does, and the job that has its turn.
pub open spec fn hands_out(
    before: CompactionQueueView,
    after: CompactionQueueView,
    job: Option<CompactionJob>,
) -> bool {
    if before.accepting && before.pending.len() > 0 {
        &&& job == Some(before.pending[0])
        &&& after == (CompactionQueueView { pending: before.pending.skip(1), ..before })
    } else {
        &&& job is None
        &&& after == before
    }
}

/// The queue once a shutdown was asked for.
pub open spec fn stopping(view: CompactionQueueView) -> CompactionQueueView {
    CompactionQueueView { accepting: false, ..view }
}

/// The queue once it was shut down.
pub open spec fn stopped(view: CompactionQueueView) -> CompactionQueueView {
    CompactionQueueView { accepting: false, pending: Seq::empty(), ..view }
}

impl CompactionManager {
    /// The queue holds no more than it has room for.
    pub open spec fn wf(&self) -> bool {
        0 < self@.capacity && self@.pending.len() <= self@.capacity
    }

    pub fn new() -> (manager: Self)
        ensures
            manager.wf(),
            manager@ == (CompactionQueueView {
                capacity: DEFAULT_COMPACTION_QUEUE_CAPACITY as int,
                accepting: true,
                pending: Seq::empty(),
            }),
    {
        Self::with_queue_capacity(DEFAULT_COMPACTION_QUEUE_CAPACITY)
    }

    /// A queue with room for a number of jobs, which is not zero.
    pub fn with_queue_capacity(queue_capacity: usize) -> (manager: Self)
        requires
            queue_capacity > 0,
        ensures
            manager.wf(),
            manager@ == (CompactionQueueView {
                capacity: queue_capacity as int,
                accepting: true,
                pending: Seq::empty(),
            }),
    {
        Self { capacity: queue_capacity, accepting: true, pending: VecDeque::new() }
    }

    /// Lets a job wait for its turn, if there is room and no shutdown was asked for.
    pub fn enqueue(&mut self, job: CompactionJob) -> (outcome: CompactionEnqueueOutcome)
        requires
            old(self).wf(),
        ensures
            final(self).wf(),
            enqueues(old(self)@, final(self)@, job, outcome),
    {
        if !self.accepting {
            return CompactionEnqueueOutcome::ShuttingDown;
        }
        if self.pending.len() >= self.capacity {
            return CompactionEnqueueOutcome::DroppedFull;
        }
        self.pending.push_back(job);
        CompactionEnqueueOutcome::Queued
    }

    /// The job whose turn it is. After a shutdown was asked for, no job gets its turn.
    pub fn next_job(&mut self) -> (job: Option<CompactionJob>)
        requires
            old(self).wf(),
        ensures
            final(self).wf(),
            hands_out(old(self)@, final(self)@, job),
    {
        if !self.accepting {
            return None;
        }
        let job = self.pending.pop_front();
        proof {
            if job is Some {
                assert(self.pending@ =~= old(self).pending@.skip(1));
            }
        }
        job
    }

    pub fn request_shutdown(&mut self)
        requires
            old(self).wf(),
        ensures
            final(self).wf(),
            final(self)@ == stopping(old(self)@),
    {
        self.accepting = false;
    }

    /// Shuts down: the waiting jobs are dropped and counted.
    pub fn shutdown(&mut self) -> (shutdown: CompactionShutdown)
        requires
            old(self).wf(),
        ensures
            final(self).wf(),
            shutdown.dropped() == old(self)@.pending.len(),
            final(self)@ == stopped(old(self)@),
    {
        self.request_shutdown();
        let dropped_pending_jobs: usize = self.pending.len();
        self.pending = VecDeque::new();
        CompactionShutdown { dropped_pending_jobs }
    }
}

/// A job is queued exactly when no shutdown was asked for and there is room, behind all that wait.
/// One that is not queued changes nothing, and is told which of the two it was.
pub proof fn law_a_queued_job_waits_behind_the_others(
    before: CompactionQueueView,
    after: CompactionQueueView,
    job: CompactionJob,
    outcome: CompactionEnqueueOutcome,
)
    requires
        enqueues(before, after, job, outcome),
        before.pending.len() <= before.capacity,
    ensures
        outcome == CompactionEnqueueOutcome::Queued <==> before.accepting && before.pending.len()
            < before.capacity,
        outcome == CompactionEnqueueOutcome::ShuttingDown <==> !before.accepting,
        outcome == CompactionEnqueueOutcome::Queued ==> after.pending.len() == before.pending.len()
            + 1 && after.pending.last() == job && after.pending.drop_last() == before.pending,
        outcome != CompactionEnqueueOutcome::Queued ==> after == before,
        after.capacity == before.capacity,
        after.accepting == before.accepting,
        after.pending.len() <= after.capacity,
{
    assert(before.pending.push(job).drop_last() =~= before.pending);
}

/// Jobs get their turn in the order in which they wait, each of them once, until a shutdown is
/// asked for.
pub proof fn law_jobs_get_their_turn_in_order(
    before: CompactionQueueView,
    after: CompactionQueueView,
    job: Option<CompactionJob>,
)
    requires
        hands_out(before, after, job),
    ensures
        job is Some <==> before.accepting && before.pending.len() > 0,
        job is Some ==> seq![job->0] + after.pending == before.pending,
        job is None ==> after == before,
        after.capacity == before.capacity,
        after.accepting == before.accepting,
{
    if job is Some {
        assert(seq![job->0] + after.pending =~= before.pending);
    }
}

/// A job that was queued on an empty queue is the next to get its turn, and then the queue is empty
/// again.
pub proof fn law_a_lone_job_gets_its_turn(
    empty: CompactionQueueView,
    queued: CompactionQueueView,
    after: CompactionQueueView,
    job: CompactionJob,
    outcome: CompactionEnqueueOutcome,
    next: Option<CompactionJob>,
)
    requires
        empty.accepting,
        empty.capacity > 0,
        empty.pending.len() == 0,
        enqueues(empty, queued, job, outcome),
        hands_out(queued, after, next),
    ensures
        outcome == CompactionEnqueueOutcome::Queued,
        next == Some(job),
        after == empty,
{
    assert(after.pending =~= empty.pending);
}

/// Once a shutdown was asked for, no job is queued and none gets its turn; the jobs that wait stay
/// until the queue is shut down, which leaves none.
pub proof fn law_a_stopping_queue_does_nothing(
    view: CompactionQueueView,
    job: CompactionJob,
    queued: CompactionQueueView,
    outcome: CompactionEnqueueOutcome,
    after: CompactionQueueView,
    next: Option<CompactionJob>,
)
    requires
        enqueues(stopping(view), queued, job, outcome),
        hands_out(stopping(view), after, next),
    ensures
        outcome == CompactionEnqueueOutcome::ShuttingDown,
        next is None,
        queued == stopping(view),
        after == stopping(view),
        stopping(view).pending == view.pending,
        stopped(view).pending.len() == 0,
        !stopped(view).accepting,
{
}

} // verus!
