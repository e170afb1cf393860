//! The life of an export's runtime: queue depth, running jobs, and its close.

use crate::admission::{
    admission_error, exclusive, law_no_overtaking, law_only_an_unopposed_request_runs_at_once,
    law_promotion_keeps_what_may_run, promoted, ticketed, tickets_of, AdmissionEntry, AdmissionOp,
    AdmissionTicket, AdmissionView, ExportAdmissionCtl,
};
use crate::error::{ErrorView, Result, ServerError};
use crate::export::{ExportAdmissionPolicy, ExportRequest};
use vstd::prelude::*;

verus! {

/// How many requests an export accepts at a time, unless it is told otherwise.
pub const DEFAULT_EXPORT_QUEUE_CAPACITY: usize = 128;

/// How an export runs its accepted requests.
#[derive(Debug, Clone, Copy, PartialEq, Eq, Structural)]
pub enum ExportRuntimeKind {
    /// One at a time.
    Serial,
    /// Compatible ones together.
    Concurrent,
}

impl ExportRuntimeKind {
    /// The word for the kind.
    pub open spec fn word(self) -> Seq<char> {
        match self {
            ExportRuntimeKind::Serial => "serial"@,
            ExportRuntimeKind::Concurrent => "concurrent"@,
        }
    }

    pub fn name(self) -> (name: &'static str)
        ensures
            name@ == self.word(),
    {
        match self {
            ExportRuntimeKind::Serial => "serial",
            ExportRuntimeKind::Concurrent => "concurrent",
        }
    }

    /// What is closed when the runtime is.
    pub open spec fn closed_error(self) -> ErrorView {
        match self {
            ExportRuntimeKind::Serial => ErrorView::RuntimeClosed {
                resource: "serial export runtime"@,
            },
            ExportRuntimeKind::Concurrent => ErrorView::RuntimeClosed {
                resource: "concurrent export runtime"@,
            },
        }
    }

    fn closed(self) -> (error: ServerError)
        ensures
            error@ == self.closed_error(),
    {
        match self {
            ExportRuntimeKind::Serial => ServerError::RuntimeClosed {
                resource: "serial export runtime",
            },
            ExportRuntimeKind::Concurrent => ServerError::RuntimeClosed {
                resource: "concurrent export runtime",
            },
        }
    }
}

/// Queue-depth reservation for one accepted request. It is held until the reply was written or
/// dropped.
#[derive(Debug)]
pub struct ExportQueueSlot {
    reserved: bool,
}

/// The state of a runtime.
#[derive(Debug)]
pub struct RuntimeLifecycle {
    kind: ExportRuntimeKind,
    capacity: usize,
    reserved: usize,
    closed: bool,
    active_jobs: usize,
    engine_close: Option<Result<()>>,
}

/// The state of a runtime: its queue depth, how many slots are reserved, whether it is closed, how
/// many jobs run, and how its engine was closed.
pub struct RuntimeView {
    pub kind: ExportRuntimeKind,
    pub capacity: int,
    pub reserved: int,
    pub closed: bool,
    pub active: int,
    pub engine_close: Option<Option<ErrorView>>,
}

/// What became of closing an engine.
pub open spec fn close_view(result: Option<Result<()>>) -> Option<Option<ErrorView>> {
    match result {
        None => None,
        Some(Ok(_)) => Some(None),
        Some(Err(error)) => Some(Some(error@)),
    }
}

impl View for RuntimeLifecycle {
    type V = RuntimeView;

    closed spec fn view(&self) -> RuntimeView {
        RuntimeView {
            kind: self.kind,
            capacity: self.capacity as int,
            reserved: self.reserved as int,
            closed: self.closed,
            active: self.active_jobs as int,
            engine_close: close_view(self.engine_close),
        }
    }
}

/// What closing a runtime waits for.
#[derive(Debug)]
pub enum CloseStep {
    /// Jobs still run.
    WaitForJobs,
    /// The engine has to be closed.
    CloseEngine,
    /// The engine was closed, with this result.
    Done(Result<()>),
}

/// What reserving a slot does, and what it gives.
pub open spec fn reserves(
    before: RuntimeView,
    after: RuntimeView,
    result: Result<Option<ExportQueueSlot>>,
) -> bool {
    if before.closed {
        &&& result matches Err(error) && error@ == before.kind.closed_error()
        &&& after == before
    } else if before.reserved < before.capacity {
        &&& result matches Ok(Some(_))
        &&& after == (RuntimeView { reserved: before.reserved + 1, ..before })
    } else {
        &&& result matches Ok(None)
        &&& after == before
    }
}

/// What accepting a job does, and whether it is accepted.
pub open spec fn submits(before: RuntimeView, after: RuntimeView, result: Result<()>) -> bool {
    if before.closed {
        &&& result matches Err(error) && error@ == before.kind.closed_error()
        &&& after == before
    } else {
        &&& result is Ok
        &&& after == (RuntimeView { active: before.active + 1, ..before })
    }
}

/// The runtime once a slot was given back.
pub open spec fn with_slot_released(view: RuntimeView) -> RuntimeView {
    RuntimeView { reserved: view.reserved - 1, ..view }
}

/// The runtime once a job was done.
pub open spec fn with_job_finished(view: RuntimeView) -> RuntimeView {
    RuntimeView { active: view.active - 1, ..view }
}

/// The runtime once it was closed.
pub open spec fn with_close(view: RuntimeView) -> RuntimeView {
    RuntimeView { closed: true, ..view }
}

/// What closing a runtime waits for.
pub open spec fn closes_by(view: RuntimeView, step: CloseStep) -> bool {
    if view.active > 0 {
        step is WaitForJobs
    } else {
        match view.engine_close {
            None => step is CloseEngine,
            Some(None) => step matches CloseStep::Done(Ok(_)),
            Some(Some(failure)) => step matches CloseStep::Done(Err(error)) && error@ == failure,
        }
    }
}

/// The runtime once its engine was closed. How it was closed first stays.
pub open spec fn with_engine_closed(view: RuntimeView, result: Result<()>) -> RuntimeView {
    RuntimeView {
        engine_close: if view.engine_close is None {
            close_view(Some(result))
        } else {
            view.engine_close
        },
        ..view
    }
}

impl RuntimeLifecycle {
    /// No more slots are reserved than the queue is deep, and the engine is closed only after the
    /// runtime is, when no job runs.
    pub open spec fn wf(&self) -> bool {
        &&& 0 <= self@.reserved <= self@.capacity <= usize::MAX
        &&& 0 <= self@.active <= usize::MAX
        &&& self@.engine_close is Some ==> self@.closed && self@.active == 0
    }

    pub fn new(kind: ExportRuntimeKind) -> (lifecycle: Self)
        ensures
            lifecycle.wf(),
            lifecycle@ == (RuntimeView {
                kind,
                capacity: DEFAULT_EXPORT_QUEUE_CAPACITY as int,
                reserved: 0,
                closed: false,
                active: 0,
                engine_close: None,
            }),
    {
        Self::with_capacity(kind, DEFAULT_EXPORT_QUEUE_CAPACITY)
    }

    pub fn with_capacity(kind: ExportRuntimeKind, capacity: usize) -> (lifecycle: Self)
        ensures
            lifecycle.wf(),
            lifecycle@ == (RuntimeView {
                kind,
                capacity: capacity as int,
                reserved: 0,
                closed: false,
                active: 0,
                engine_close: None,
            }),
    {
        Self { kind, capacity, reserved: 0, closed: false, active_jobs: 0, engine_close: None }
    }

    pub fn kind(&self) -> (kind: ExportRuntimeKind)
        ensures
            kind == self@.kind,
    {
        self.kind
    }

    /// Refuses what comes after the close.
    pub fn ensure_open(&self) -> (result: Result<()>)
        ensures
            match result {
                Ok(_) => !self@.closed,
                Err(error) => self@.closed && error@ == self@.kind.closed_error(),
            },
    {
        if self.closed {
            return Err(self.kind.closed());
        }
        Ok(())
    }

    /// Reserves a slot, if one is free. Where none is, the request waits.
    pub fn reserve(&mut self) -> (result: Result<Option<ExportQueueSlot>>)
        requires
            old(self).wf(),
        ensures
            final(self).wf(),
            reserves(old(self)@, final(self)@, result),
    {
        if self.closed {
            return Err(self.kind.closed());
        }
        if self.reserved >= self.capacity {
            return Ok(None);
        }
        self.reserved = self.reserved + 1;
        Ok(Some(ExportQueueSlot { reserved: true }))
    }

    /// Gives a slot back, once the reply was written or dropped.
    pub fn release(&mut self, slot: ExportQueueSlot)
        requires
            old(self).wf(),
            old(self)@.reserved > 0,
        ensures
            final(self).wf(),
            final(self)@ == with_slot_released(old(self)@),
    {
        self.reserved = self.reserved - 1;
    }

    /// Whether another job can be counted.
    pub fn has_room(&self) -> (room: bool)
        ensures
            room == (self@.active < usize::MAX),
    {
        self.active_jobs < usize::MAX
    }

    /// Accepts a job.
    pub fn begin_submit(&mut self) -> (result: Result<()>)
        requires
            old(self).wf(),
            old(self)@.active < usize::MAX,
        ensures
            final(self).wf(),
            submits(old(self)@, final(self)@, result),
    {
        if self.closed {
            return Err(self.kind.closed());
        }
        self.active_jobs = self.active_jobs + 1;
        Ok(())
    }

    /// A job is done. Says whether it was the last one.
    pub fn finish_job(&mut self) -> (empty: bool)
        requires
            old(self).wf(),
            old(self)@.active > 0,
        ensures
            final(self).wf(),
            final(self)@ == with_job_finished(old(self)@),
            empty == (final(self)@.active == 0),
    {
        self.active_jobs = self.active_jobs - 1;
        self.active_jobs == 0
    }

    /// Closes the runtime: from now on it accepts nothing.
    pub fn close(&mut self)
        requires
            old(self).wf(),
        ensures
            final(self).wf(),
            final(self)@ == with_close(old(self)@),
    {
        self.closed = true;
    }

    /// What closing the runtime waits for.
    pub fn close_step(&self) -> (step: CloseStep)
        requires
            self.wf(),
            self@.closed,
        ensures
            closes_by(self@, step),
    {
        if self.active_jobs > 0 {
            return CloseStep::WaitForJobs;
        }
        match &self.engine_close {
            None => CloseStep::CloseEngine,
            Some(Ok(_)) => CloseStep::Done(Ok(())),
            Some(Err(error)) => CloseStep::Done(Err(error.clone())),
        }
    }

    /// Remembers how the engine was closed. It is closed once.
    pub fn engine_closed(&mut self, result: Result<()>)
        requires
            old(self).wf(),
            old(self)@.closed,
            old(self)@.active == 0,
        ensures
            final(self).wf(),
            final(self)@ == with_engine_closed(old(self)@, result),
    {
        if self.engine_close.is_none() {
            self.engine_close = Some(result);
        }
    }
}

/// A job before it runs: registered with admission, or refused.
#[derive(Debug)]
pub enum PreparedExportJob {
    /// The ticket of the job, its operation, and the tickets that may run now.
    Registered { ticket: AdmissionTicket, op: AdmissionOp, granted: Vec<AdmissionTicket> },
    Rejected { error: ServerError },
}

/// What preparing a request does to admission, and what becomes of the request.
pub open spec fn prepares<P: ExportAdmissionPolicy>(
    policy: &P,
    before: AdmissionView,
    after: AdmissionView,
    request: ExportRequest,
    prepared: PreparedExportJob,
) -> bool {
    match prepared {
        PreparedExportJob::Registered { ticket, op, granted } => {
            &&& policy.maps(request, Ok(op))
            &&& admission_error(before.extent_bytes, op) is None
            &&& ticket.number() == before.next_ticket
            &&& after == promoted(
                AdmissionView {
                    next_ticket: before.next_ticket + 1,
                    waiting: before.waiting.push(AdmissionEntry { ticket, op }),
                    ..before
                },
            )
            &&& granted@ == tickets_of(
                after.active.skip(before.active.len() as int),
            )
        },
        PreparedExportJob::Rejected { error } => {
            &&& after == before
            &&& policy.maps(request, Err(error)) || exists|op: AdmissionOp|
                #[trigger] policy.maps(request, Ok(op)) && admission_error(
                    before.extent_bytes,
                    op,
                ) == Some(error@)
        },
    }
}

/// Registers the operation of a request with admission.
pub fn prepare_admitted_job<P: ExportAdmissionPolicy>(
    admission_policy: &P,
    admission: &mut ExportAdmissionCtl,
    request: &ExportRequest,
) -> (prepared: PreparedExportJob)
    requires
        old(admission).wf(),
        old(admission)@.next_ticket < u64::MAX,
    ensures
        final(admission).wf(),
        prepares(admission_policy, old(admission)@, final(admission)@, *request, prepared),
{
    let op = match admission_policy.operation_for(request) {
        Ok(op) => op,
        Err(error) => {
            return PreparedExportJob::Rejected { error };
        },
    };
    match admission.register(op) {
        Ok((ticket, granted)) => PreparedExportJob::Registered { ticket, op, granted },
        Err(error) => PreparedExportJob::Rejected { error },
    }
}

/// The requests were registered with operations of an admission policy.
pub open spec fn registered_by<P: ExportAdmissionPolicy>(
    policy: &P,
    entries: Seq<AdmissionEntry>,
) -> bool {
    forall|i: int|
        0 <= i < entries.len() ==> exists|request: ExportRequest| #[trigger]
            policy.maps(request, Ok((#[trigger] entries[i]).op))
}

/// Whatever the admission policy, a flush that is registered while a request runs or waits is not
/// let run: it waits behind it.
pub proof fn law_flush_waits_for_earlier_requests<P: ExportAdmissionPolicy>(
    policy: &P,
    before: AdmissionView,
    after: AdmissionView,
    ticket: AdmissionTicket,
    op: AdmissionOp,
)
    requires
        before.wf(),
        registered_by(policy, before.active),
        registered_by(policy, before.waiting),
        before.active.len() + before.waiting.len() > 0,
        policy.maps(ExportRequest::Flush, Ok(op)),
        after == promoted(
            AdmissionView {
                next_ticket: before.next_ticket + 1,
                waiting: before.waiting.push(AdmissionEntry { ticket, op }),
                ..before
            },
        ),
    ensures
        after.active == before.active,
        after.waiting == before.waiting.push(AdmissionEntry { ticket, op }),
{
    let entry = AdmissionEntry { ticket, op };
    law_only_an_unopposed_request_runs_at_once(before, after, entry);
    let earlier = if before.active.len() > 0 {
        before.active[0]
    } else {
        before.waiting[0]
    };
    let request = choose|request: ExportRequest| #[trigger] policy.maps(request, Ok(earlier.op));
    policy.law_flush_is_apart(Ok(op), request, earlier.op);
}

/// Whatever the admission policy, a flush that waited is let run only once no request runs and no
/// request waits that came before it: each of them was released or cancelled.
pub proof fn law_flush_outwaits_earlier_requests<P: ExportAdmissionPolicy>(
    policy: &P,
    view: AdmissionView,
    granted: int,
)
    requires
        exclusive(view.active),
        ticketed(view.waiting, view.next_ticket),
        registered_by(policy, promoted(view).active),
        registered_by(policy, promoted(view).waiting),
        view.active.len() <= granted < promoted(view).active.len(),
        policy.maps(ExportRequest::Flush, Ok(promoted(view).active[granted].op)),
    ensures
        view.active.len() == 0,
        promoted(view).active.len() == 1,
        forall|i: int|
            0 <= i < promoted(view).waiting.len() ==> (
            #[trigger] promoted(view).waiting[i]).ticket.number() >= promoted(
                view,
            ).active[granted].ticket.number(),
{
    let after = promoted(view);
    let op = after.active[granted].op;
    law_promotion_keeps_what_may_run(view);
    if after.active.len() > 1 {
        let other = if granted == 0 {
            1int
        } else {
            0int
        };
        let request = choose|request: ExportRequest| #[trigger]
            policy.maps(request, Ok(after.active[other].op));
        policy.law_flush_is_apart(Ok(op), request, after.active[other].op);
    }
    assert forall|i: int| 0 <= i < after.waiting.len() implies (
    #[trigger] after.waiting[i]).ticket.number() >= after.active[granted].ticket.number() by {
        if after.waiting[i].ticket.number() < after.active[granted].ticket.number() {
            law_no_overtaking(view, granted, i);
            let request = choose|request: ExportRequest| #[trigger]
                policy.maps(request, Ok(after.waiting[i].op));
            policy.law_flush_is_apart(Ok(op), request, after.waiting[i].op);
        }
    }
}

/// A slot is given exactly when the runtime is open and one is free, and never more of them than
/// the queue is deep. Where none is free the request waits, and a closed runtime refuses it; then
/// nothing changes.
pub proof fn law_no_more_slots_than_the_queue_is_deep(
    before: RuntimeView,
    after: RuntimeView,
    result: Result<Option<ExportQueueSlot>>,
)
    requires
        reserves(before, after, result),
        0 <= before.reserved <= before.capacity,
    ensures
        after.reserved <= after.capacity,
        result is Err <==> before.closed,
        result is Ok && result->Ok_0 is Some <==> !before.closed && before.reserved
            < before.capacity,
        result is Ok && result->Ok_0 is Some ==> after.reserved == before.reserved + 1,
        result is Err || result->Ok_0 is None ==> after == before,
        result matches Err(error) ==> error@ is RuntimeClosed,
        after.active == before.active,
        after.closed == before.closed,
        after.capacity == before.capacity,
        after.kind == before.kind,
        after.engine_close == before.engine_close,
{
}

/// A job is accepted exactly when the runtime is open, and is then one more that runs.
pub proof fn law_a_closed_runtime_accepts_no_job(
    before: RuntimeView,
    after: RuntimeView,
    result: Result<()>,
)
    requires
        submits(before, after, result),
    ensures
        result is Ok <==> !before.closed,
        result is Ok ==> after.active == before.active + 1,
        result matches Err(error) ==> error@ is RuntimeClosed && after == before,
        after.reserved == before.reserved,
        after.closed == before.closed,
        after.capacity == before.capacity,
        after.kind == before.kind,
        after.engine_close == before.engine_close,
{
}

/// The engine of a closed runtime is closed when the last job is done and not before, and just
/// once: whoever closes the runtime later is told how that went.
pub proof fn law_the_engine_is_closed_once_after_all_jobs(
    view: RuntimeView,
    step: CloseStep,
    first: Result<()>,
    second: Result<()>,
    told: CloseStep,
)
    requires
        closes_by(view, step),
        0 <= view.active,
        closes_by(with_engine_closed(with_engine_closed(view, first), second), told),
    ensures
        step is WaitForJobs <==> view.active > 0,
        step is CloseEngine <==> view.active == 0 && view.engine_close is None,
        view.active == 0 && view.engine_close is None ==> match first {
            Ok(_) => told matches CloseStep::Done(Ok(_)),
            Err(error) => told matches CloseStep::Done(Err(failure)) && failure@ == error@,
        },
        with_engine_closed(view, first).active == view.active,
        with_engine_closed(view, first).closed == view.closed,
        with_engine_closed(view, first).reserved == view.reserved,
{
}

/// A request whose operation lies in the export is registered, under the next ticket, whatever runs
/// or waits; one that is rejected leaves admission as it was.
pub proof fn law_a_proper_request_is_registered<P: ExportAdmissionPolicy>(
    policy: &P,
    before: AdmissionView,
    after: AdmissionView,
    request: ExportRequest,
    prepared: PreparedExportJob,
)
    requires
        prepares(policy, before, after, request, prepared),
    ensures
        (forall|error: ServerError| !#[trigger] policy.maps(request, Err(error))) && (forall|
            op: AdmissionOp,
        | #[trigger]
            policy.maps(request, Ok(op)) ==> (op.span() matches Some(range) ==> range.limit()
                <= before.extent_bytes)) ==> prepared is Registered,
        prepared is Rejected ==> after == before,
        prepared matches PreparedExportJob::Registered { ticket, op, .. } ==> {
            &&& ticket.number() == before.next_ticket
            &&& after.next_ticket == before.next_ticket + 1
            &&& policy.maps(request, Ok(op))
            &&& op.span() matches Some(range) ==> range.limit() <= before.extent_bytes
        },
{
}

/// A request that was registered runs or waits afterwards, and it is told that it may run exactly
/// when it runs.
pub proof fn law_a_registered_request_runs_or_waits<P: ExportAdmissionPolicy>(
    policy: &P,
    before: AdmissionView,
    after: AdmissionView,
    request: ExportRequest,
    ticket: AdmissionTicket,
    op: AdmissionOp,
    granted: Vec<AdmissionTicket>,
)
    requires
        before.wf(),
        prepares(
            policy,
            before,
            after,
            request,
            PreparedExportJob::Registered { ticket, op, granted },
        ),
    ensures
        ({
            let entry = AdmissionEntry { ticket, op };
            if granted@.len() == 0 {
                after.active == before.active && after.waiting == before.waiting.push(entry)
            } else {
                granted@ == seq![ticket] && after.active == before.active.push(entry)
                    && after.waiting == before.waiting
            }
        }),
{
    let entry = AdmissionEntry { ticket, op };
    law_only_an_unopposed_request_runs_at_once(before, after, entry);
    let fresh = after.active.skip(before.active.len() as int);
    if after.active == before.active {
        assert(fresh =~= Seq::empty());
    } else {
        assert(fresh =~= seq![entry]);
        assert(tickets_of(fresh) =~= seq![ticket]);
    }
}

/// A slot that is given back after it was reserved, and a job that is done after it was accepted,
/// leave the runtime as it was.
pub proof fn law_what_was_taken_is_given_back(
    before: RuntimeView,
    reserved: RuntimeView,
    slot: Result<Option<ExportQueueSlot>>,
    running: RuntimeView,
    job: Result<()>,
)
    requires
        reserves(before, reserved, slot),
        submits(before, running, job),
        !before.closed,
    ensures
        slot is Ok && slot->Ok_0 is Some ==> with_slot_released(reserved) == before,
        job is Ok && with_job_finished(running) == before,
{
}

/// A full queue has a slot again once one was given back, unless the runtime was closed.
pub proof fn law_a_slot_given_back_can_be_reserved(
    full: RuntimeView,
    after: RuntimeView,
    slot: Result<Option<ExportQueueSlot>>,
)
    requires
        full.reserved == full.capacity,
        full.capacity > 0,
        !full.closed,
        reserves(with_slot_released(full), after, slot),
    ensures
        slot is Ok,
        slot->Ok_0 is Some,
        after == full,
{
}

/// A runtime that was closed stays closed, and takes neither requests nor jobs; what runs goes on.
pub proof fn law_a_closed_runtime_takes_nothing(
    view: RuntimeView,
    after: RuntimeView,
    slot: Result<Option<ExportQueueSlot>>,
    later: RuntimeView,
    job: Result<()>,
)
    requires
        reserves(with_close(view), after, slot),
        submits(with_close(view), later, job),
    ensures
        slot is Err,
        job is Err,
        after == with_close(view),
        later == with_close(view),
        with_close(view).active == view.active,
        with_close(view).reserved == view.reserved,
        with_close(view).engine_close == view.engine_close,
{
}

} // verus!
