//! Order in which requests of one export may run: reads beside each other, writes apart from
//! whatever they overlap, flushes alone, and nothing past an earlier request it conflicts with.

use crate::error::{ErrorView, Result};
use crate::range::ByteRange;
use crate::root::{out_of_bounds, validate_range};
use vstd::prelude::*;

verus! {

/// Operation shape used by admission to decide read/write/flush ordering.
#[derive(Debug, Clone, Copy, PartialEq, Eq, Structural)]
pub enum AdmissionOp {
    Read(ByteRange),
    Write(ByteRange),
    Flush,
}

impl AdmissionOp {
    /// The word for the operation.
    pub open spec fn word(self) -> Seq<char> {
        match self {
            AdmissionOp::Read(_) => "read"@,
            AdmissionOp::Write(_) => "write"@,
            AdmissionOp::Flush => "flush"@,
        }
    }

    /// The positions that the operation touches. A flush touches no particular ones.
    pub open spec fn span(self) -> Option<ByteRange> {
        match self {
            AdmissionOp::Read(range) => Some(range),
            AdmissionOp::Write(range) => Some(range),
            AdmissionOp::Flush => None,
        }
    }

    /// Whether the operations must not run beside each other.
    pub open spec fn clashes(self, other: Self) -> bool {
        match (self, other) {
            (AdmissionOp::Flush, _) => true,
            (_, AdmissionOp::Flush) => true,
            (AdmissionOp::Read(_), AdmissionOp::Read(_)) => false,
            (AdmissionOp::Read(left), AdmissionOp::Write(right)) => left.meets(right),
            (AdmissionOp::Write(left), AdmissionOp::Read(right)) => left.meets(right),
            (AdmissionOp::Write(left), AdmissionOp::Write(right)) => left.meets(right),
        }
    }

    pub fn kind(self) -> (kind: &'static str)
        ensures
            kind@ == self.word(),
    {
        match self {
            AdmissionOp::Read(_) => "read",
            AdmissionOp::Write(_) => "write",
            AdmissionOp::Flush => "flush",
        }
    }

    pub fn range(self) -> (range: Option<ByteRange>)
        ensures
            range == self.span(),
    {
        match self {
            AdmissionOp::Read(range) => Some(range),
            AdmissionOp::Write(range) => Some(range),
            AdmissionOp::Flush => None,
        }
    }

    pub fn conflicts(self, other: Self) -> (conflicts: bool)
        ensures
            conflicts == self.clashes(other),
    {
        match (self, other) {
            (AdmissionOp::Flush, _) => true,
            (_, AdmissionOp::Flush) => true,
            (AdmissionOp::Read(_), AdmissionOp::Read(_)) => false,
            (AdmissionOp::Read(left), AdmissionOp::Write(right)) => left.overlaps(right),
            (AdmissionOp::Write(left), AdmissionOp::Read(right)) => left.overlaps(right),
            (AdmissionOp::Write(left), AdmissionOp::Write(right)) => left.overlaps(right),
        }
    }
}

/// Volatile accepted-order ticket for an admission request.
#[derive(Debug, Clone, Copy, PartialEq, Eq, Structural, Hash)]
pub struct AdmissionTicket(u64);

impl AdmissionTicket {
    pub closed spec fn number(self) -> int {
        self.0 as int
    }

    pub fn as_u64(self) -> (number: u64)
        ensures
            number == self.number(),
    {
        self.0
    }

    /// Two tickets with one number are one ticket.
    pub proof fn same_number(self, other: Self)
        ensures
            self.number() == other.number() ==> self == other,
            0 <= self.number() <= u64::MAX,
    {
    }
}

/// A request that was registered.
#[derive(Debug, Clone, Copy, PartialEq, Eq, Structural)]
pub struct AdmissionEntry {
    pub ticket: AdmissionTicket,
    pub op: AdmissionOp,
}

/// Per-export semantic admission controller.
#[derive(Debug)]
pub struct ExportAdmissionCtl {
    extent_bytes: u64,
    next_ticket: u64,
    waiting: Vec<AdmissionEntry>,
    active: Vec<AdmissionEntry>,
}

/// State of admission: requests that wait, in the order they came, and requests that run.
pub struct AdmissionView {
    pub extent_bytes: int,
    pub next_ticket: int,
    pub waiting: Seq<AdmissionEntry>,
    pub active: Seq<AdmissionEntry>,
}

impl View for ExportAdmissionCtl {
    type V = AdmissionView;

    closed spec fn view(&self) -> AdmissionView {
        AdmissionView {
            extent_bytes: self.extent_bytes as int,
            next_ticket: self.next_ticket as int,
            waiting: self.waiting@,
            active: self.active@,
        }
    }
}

/// Whether an operation clashes with one of the requests.
pub open spec fn clashes_with_any(op: AdmissionOp, entries: Seq<AdmissionEntry>) -> bool {
    exists|i: int| 0 <= i < entries.len() && (#[trigger] entries[i]).op.clashes(op)
}

/// Requests that still wait and requests that run once every request of `rest` was looked at, in
/// order: one that clashes with a running request or an earlier waiting one keeps waiting.
pub open spec fn settled(
    kept: Seq<AdmissionEntry>,
    rest: Seq<AdmissionEntry>,
    active: Seq<AdmissionEntry>,
) -> (Seq<AdmissionEntry>, Seq<AdmissionEntry>)
    decreases rest.len(),
{
    if rest.len() == 0 {
        (kept, active)
    } else if clashes_with_any(rest[0].op, active) || clashes_with_any(rest[0].op, kept) {
        settled(kept.push(rest[0]), rest.drop_first(), active)
    } else {
        settled(kept, rest.drop_first(), active.push(rest[0]))
    }
}

/// The requests without the one that holds a ticket.
pub open spec fn without_ticket(
    entries: Seq<AdmissionEntry>,
    ticket: AdmissionTicket,
) -> Seq<AdmissionEntry>
    decreases entries.len(),
{
    if entries.len() == 0 {
        Seq::empty()
    } else if entries.last().ticket == ticket {
        without_ticket(entries.drop_last(), ticket)
    } else {
        without_ticket(entries.drop_last(), ticket).push(entries.last())
    }
}

/// Requests that run do not clash.
pub open spec fn exclusive(active: Seq<AdmissionEntry>) -> bool {
    forall|i: int, j: int|
        0 <= i < j < active.len() ==> !(#[trigger] active[i]).op.clashes(
            (#[trigger] active[j]).op,
        )
}

/// Every request that waits has a reason to: it clashes with a running request or an earlier
/// waiting one.
pub open spec fn justified(
    waiting: Seq<AdmissionEntry>,
    active: Seq<AdmissionEntry>,
) -> bool {
    forall|i: int|
        0 <= i < waiting.len() ==> clashes_with_any((#[trigger] waiting[i]).op, active)
            || clashes_with_any(waiting[i].op, waiting.take(i))
}

/// Tickets ascend and are below `limit`.
pub open spec fn ticketed(entries: Seq<AdmissionEntry>, limit: int) -> bool {
    &&& forall|i: int| 0 <= i < entries.len() ==> (#[trigger] entries[i]).ticket.number() < limit
    &&& forall|i: int, j: int|
        0 <= i < j < entries.len() ==> (#[trigger] entries[i]).ticket.number() < (
        #[trigger] entries[j]).ticket.number()
}

impl AdmissionView {
    /// Running requests do not clash, waiting ones have a reason to wait, and waiting ones stand
    /// in the order they came.
    pub open spec fn wf(self) -> bool {
        &&& 0 <= self.next_ticket <= u64::MAX
        &&& 0 <= self.extent_bytes <= u64::MAX
        &&& exclusive(self.active)
        &&& justified(self.waiting, self.active)
        &&& ticketed(self.waiting, self.next_ticket)
    }
}

/// The state once everything that may run does.
pub open spec fn promoted(view: AdmissionView) -> AdmissionView {
    let (waiting, active) = settled(Seq::empty(), view.waiting, view.active);
    AdmissionView { waiting, active, ..view }
}

/// The state after a request was registered.
pub open spec fn registered(view: AdmissionView, entry: AdmissionEntry) -> AdmissionView {
    promoted(
        AdmissionView {
            next_ticket: view.next_ticket + 1,
            waiting: view.waiting.push(entry),
            ..view
        },
    )
}

/// The state after a request that waited was cancelled.
pub open spec fn cancelled(view: AdmissionView, ticket: AdmissionTicket) -> AdmissionView {
    promoted(AdmissionView { waiting: without_ticket(view.waiting, ticket), ..view })
}

/// The state after a request that ran was released.
pub open spec fn released(view: AdmissionView, ticket: AdmissionTicket) -> AdmissionView {
    promoted(AdmissionView { active: without_ticket(view.active, ticket), ..view })
}

/// Why an operation is refused.
pub open spec fn admission_error(extent_bytes: int, op: AdmissionOp) -> Option<ErrorView> {
    match op {
        AdmissionOp::Flush => None,
        AdmissionOp::Read(range) => if range.limit() > extent_bytes {
            Some(out_of_bounds("read"@, range.first(), range.size(), extent_bytes))
        } else {
            None
        },
        AdmissionOp::Write(range) => if range.limit() > extent_bytes {
            Some(out_of_bounds("write"@, range.first(), range.size(), extent_bytes))
        } else {
            None
        },
    }
}

/// The tickets of requests.
pub open spec fn tickets_of(entries: Seq<AdmissionEntry>) -> Seq<AdmissionTicket> {
    entries.map_values(|entry: AdmissionEntry| entry.ticket)
}

// ---------------------------------------------------------------------------
// What settling keeps
// ---------------------------------------------------------------------------

proof fn lemma_clash_symmetric(left: AdmissionOp, right: AdmissionOp)
    ensures
        left.clashes(right) == right.clashes(left),
{
}

/// Settling keeps running requests apart, leaves nothing waiting that may run, only adds to the
/// running requests, and keeps the order of the waiting ones.
proof fn lemma_settled(
    kept: Seq<AdmissionEntry>,
    rest: Seq<AdmissionEntry>,
    active: Seq<AdmissionEntry>,
    limit: int,
)
    requires
        exclusive(active),
        justified(kept, active),
        ticketed(kept + rest, limit),
    ensures
        ({
            let (waiting, running) = settled(kept, rest, active);
            &&& exclusive(running)
            &&& justified(waiting, running)
            &&& ticketed(waiting, limit)
            &&& running.len() >= active.len()
            &&& running.take(active.len() as int) == active
            &&& waiting.len() >= kept.len()
            &&& waiting.take(kept.len() as int) == kept
            &&& waiting.len() + running.len() == kept.len() + rest.len() + active.len()
        }),
    decreases rest.len(),
{
    if rest.len() == 0 {
        assert(active.take(active.len() as int) =~= active);
        assert(kept.take(kept.len() as int) =~= kept);
        assert(kept + rest =~= kept);
    } else {
        let head = rest[0];
        let tail = rest.drop_first();
        let (waiting, running) = settled(kept, rest, active);
        if clashes_with_any(head.op, active) || clashes_with_any(head.op, kept) {
            let longer = kept.push(head);
            assert(longer + tail =~= kept + rest);
            assert forall|i: int| 0 <= i < longer.len() implies clashes_with_any(
                (#[trigger] longer[i]).op,
                active,
            ) || clashes_with_any(longer[i].op, longer.take(i)) by {
                if i < kept.len() {
                    assert(longer[i] == kept[i]);
                    assert(longer.take(i) =~= kept.take(i));
                } else {
                    assert(longer.take(i) =~= kept);
                }
            }
            lemma_settled(longer, tail, active, limit);
            assert(waiting.take(kept.len() as int) =~= waiting.take(longer.len() as int).take(
                kept.len() as int,
            ));
            assert(longer.take(kept.len() as int) =~= kept);
        } else {
            let more = active.push(head);
            assert forall|i: int, j: int| 0 <= i < j < more.len() implies !(
            #[trigger] more[i]).op.clashes((#[trigger] more[j]).op) by {
                if j == active.len() {
                    assert(more[i] == active[i]);
                    assert(!active[i].op.clashes(head.op));
                }
            }
            assert forall|i: int| 0 <= i < kept.len() implies clashes_with_any(
                (#[trigger] kept[i]).op,
                more,
            ) || clashes_with_any(kept[i].op, kept.take(i)) by {
                if clashes_with_any(kept[i].op, active) {
                    let k = choose|k: int|
                        0 <= k < active.len() && (#[trigger] active[k]).op.clashes(kept[i].op);
                    assert(more[k] == active[k]);
                }
            }
            assert forall|i: int, j: int| 0 <= i < j < (kept + tail).len() implies (
            #[trigger] (kept + tail)[i]).ticket.number() < (
            #[trigger] (kept + tail)[j]).ticket.number() by {
                let all = kept + rest;
                let from = if i < kept.len() {
                    i
                } else {
                    i + 1
                };
                let to = if j < kept.len() {
                    j
                } else {
                    j + 1
                };
                assert((kept + tail)[i] == all[from] && (kept + tail)[j] == all[to]);
            }
            assert forall|i: int| 0 <= i < (kept + tail).len() implies (
            #[trigger] (kept + tail)[i]).ticket.number() < limit by {
                let all = kept + rest;
                let from = if i < kept.len() {
                    i
                } else {
                    i + 1
                };
                assert((kept + tail)[i] == all[from]);
            }
            lemma_settled(kept, tail, more, limit);
            assert(running.take(active.len() as int) =~= running.take(more.len() as int).take(
                active.len() as int,
            ));
            assert(more.take(active.len() as int) =~= active);
        }
    }
}

/// A request that is let run clashes with none that came before it and still waits.
proof fn lemma_no_overtaking(
    kept: Seq<AdmissionEntry>,
    rest: Seq<AdmissionEntry>,
    active: Seq<AdmissionEntry>,
    limit: int,
    granted: int,
    blocked: int,
)
    requires
        exclusive(active),
        justified(kept, active),
        ticketed(kept + rest, limit),
        active.len() <= granted < settled(kept, rest, active).1.len(),
        0 <= blocked < settled(kept, rest, active).0.len(),
        settled(kept, rest, active).0[blocked].ticket.number() < settled(
            kept,
            rest,
            active,
        ).1[granted].ticket.number(),
    ensures
        !settled(kept, rest, active).0[blocked].op.clashes(
            settled(kept, rest, active).1[granted].op,
        ),
    decreases rest.len(),
{
    let (waiting, running) = settled(kept, rest, active);
    lemma_settled(kept, rest, active, limit);
    if rest.len() > 0 {
        let head = rest[0];
        let tail = rest.drop_first();
        if clashes_with_any(head.op, active) || clashes_with_any(head.op, kept) {
            let longer = kept.push(head);
            assert(longer + tail =~= kept + rest);
            lemma_push_justified(kept, active, head);
            lemma_no_overtaking(longer, tail, active, limit, granted, blocked);
        } else {
            let more = active.push(head);
            lemma_more_running(kept, rest, active, limit);
            lemma_settled(kept, tail, more, limit);
            if granted >= more.len() {
                lemma_no_overtaking(kept, tail, more, limit, granted, blocked);
            } else {
                assert(running.take(more.len() as int)[granted] == running[granted]);
                assert(running[granted] == head);
                if blocked < kept.len() {
                    assert(waiting.take(kept.len() as int)[blocked] == waiting[blocked]);
                    assert(kept[blocked] == waiting[blocked]);
                    assert(!kept[blocked].op.clashes(head.op));
                } else {
                    let all = kept + rest;
                    assert forall|i: int| 0 <= i < tail.len() implies (
                    #[trigger] tail[i]).ticket.number() > head.ticket.number() by {
                        assert(tail[i] == all[kept.len() + 1 + i]);
                        assert(head == all[kept.len() as int]);
                    }
                    lemma_later_tickets(kept, tail, more, limit, head.ticket.number(), blocked);
                }
            }
        }
    }
}

proof fn lemma_push_justified(
    kept: Seq<AdmissionEntry>,
    active: Seq<AdmissionEntry>,
    head: AdmissionEntry,
)
    requires
        justified(kept, active),
        clashes_with_any(head.op, active) || clashes_with_any(head.op, kept),
    ensures
        justified(kept.push(head), active),
{
    let longer = kept.push(head);
    assert forall|i: int| 0 <= i < longer.len() implies clashes_with_any(
        (#[trigger] longer[i]).op,
        active,
    ) || clashes_with_any(longer[i].op, longer.take(i)) by {
        if i < kept.len() {
            assert(longer[i] == kept[i]);
            assert(longer.take(i) =~= kept.take(i));
        } else {
            assert(longer.take(i) =~= kept);
        }
    }
}

proof fn lemma_more_running(
    kept: Seq<AdmissionEntry>,
    rest: Seq<AdmissionEntry>,
    active: Seq<AdmissionEntry>,
    limit: int,
)
    requires
        rest.len() > 0,
        exclusive(active),
        justified(kept, active),
        ticketed(kept + rest, limit),
        !clashes_with_any(rest[0].op, active),
    ensures
        exclusive(active.push(rest[0])),
        justified(kept, active.push(rest[0])),
        ticketed(kept + rest.drop_first(), limit),
{
    let head = rest[0];
    let tail = rest.drop_first();
    let more = active.push(head);
    let all = kept + rest;
    let fewer = kept + tail;
    assert forall|i: int, j: int| 0 <= i < j < more.len() implies !(
    #[trigger] more[i]).op.clashes((#[trigger] more[j]).op) by {
        if j == active.len() {
            assert(more[i] == active[i]);
            assert(!active[i].op.clashes(head.op));
        }
    }
    assert forall|i: int| 0 <= i < kept.len() implies clashes_with_any(
        (#[trigger] kept[i]).op,
        more,
    ) || clashes_with_any(kept[i].op, kept.take(i)) by {
        if clashes_with_any(kept[i].op, active) {
            let k = choose|k: int|
                0 <= k < active.len() && (#[trigger] active[k]).op.clashes(kept[i].op);
            assert(more[k] == active[k]);
        }
    }
    assert(forall|i: int|
        0 <= i < fewer.len() ==> #[trigger] fewer[i] == all[if i < kept.len() {
            i
        } else {
            i + 1
        }]);
}

/// Requests that are added to the waiting ones come from those that were looked at.
proof fn lemma_later_tickets(
    kept: Seq<AdmissionEntry>,
    rest: Seq<AdmissionEntry>,
    active: Seq<AdmissionEntry>,
    limit: int,
    floor: int,
    index: int,
)
    requires
        exclusive(active),
        justified(kept, active),
        ticketed(kept + rest, limit),
        forall|i: int| 0 <= i < rest.len() ==> (#[trigger] rest[i]).ticket.number() > floor,
        kept.len() <= index < settled(kept, rest, active).0.len(),
    ensures
        settled(kept, rest, active).0[index].ticket.number() > floor,
    decreases rest.len(),
{
    if rest.len() > 0 {
        let head = rest[0];
        let tail = rest.drop_first();
        if clashes_with_any(head.op, active) || clashes_with_any(head.op, kept) {
            let longer = kept.push(head);
            assert(longer + tail =~= kept + rest);
            lemma_push_justified(kept, active, head);
            lemma_settled(longer, tail, active, limit);
            if index == kept.len() {
                let waiting = settled(kept, rest, active).0;
                assert(waiting.take(longer.len() as int)[index] == waiting[index]);
            } else {
                lemma_later_tickets(longer, tail, active, limit, floor, index);
            }
        } else {
            lemma_more_running(kept, rest, active, limit);
            lemma_later_tickets(kept, tail, active.push(head), limit, floor, index);
        }
    }
}

// ---------------------------------------------------------------------------
// Laws
// ---------------------------------------------------------------------------

/// A flush that runs, runs alone.
pub proof fn law_flush_runs_alone(view: AdmissionView, index: int)
    requires
        view.wf(),
        0 <= index < view.active.len(),
        view.active[index].op is Flush,
    ensures
        view.active.len() == 1,
{
    if view.active.len() > 1 {
        let other = if index == 0 {
            1int
        } else {
            0int
        };
        if index < other {
            assert(!view.active[index].op.clashes(view.active[other].op));
        } else {
            assert(!view.active[other].op.clashes(view.active[index].op));
        }
    }
}

/// Running requests that share a position only read.
pub proof fn law_running_requests_share_only_reads(
    view: AdmissionView,
    first: int,
    second: int,
    position: int,
)
    requires
        view.wf(),
        0 <= first < view.active.len(),
        0 <= second < view.active.len(),
        first != second,
        view.active[first].op.span() matches Some(left) && left.first() <= position
            < left.saturated_limit(),
        view.active[second].op.span() matches Some(right) && right.first() <= position
            < right.saturated_limit(),
    ensures
        view.active[first].op is Read,
        view.active[second].op is Read,
{
    let left = view.active[first].op;
    let right = view.active[second].op;
    lemma_clash_symmetric(left, right);
    if first < second {
        assert(!left.clashes(right));
    } else {
        assert(!right.clashes(left));
    }
}

/// While nothing runs, nothing waits.
pub proof fn law_idle_admission_keeps_nobody_waiting(view: AdmissionView)
    requires
        view.wf(),
        view.active.len() == 0,
    ensures
        view.waiting.len() == 0,
{
    if view.waiting.len() > 0 {
        let first = view.waiting[0];
        assert(view.waiting.take(0) =~= Seq::<AdmissionEntry>::empty());
        assert(clashes_with_any(first.op, view.active) || clashes_with_any(
            first.op,
            view.waiting.take(0),
        ));
    }
}

/// A request that is let run overtakes no earlier request that it clashes with.
pub proof fn law_no_overtaking(view: AdmissionView, granted: int, blocked: int)
    requires
        exclusive(view.active),
        ticketed(view.waiting, view.next_ticket),
        view.active.len() <= granted < promoted(view).active.len(),
        0 <= blocked < promoted(view).waiting.len(),
        promoted(view).waiting[blocked].ticket.number() < promoted(
            view,
        ).active[granted].ticket.number(),
    ensures
        !promoted(view).waiting[blocked].op.clashes(promoted(view).active[granted].op),
{
    assert(Seq::<AdmissionEntry>::empty() + view.waiting =~= view.waiting);
    lemma_no_overtaking(
        Seq::empty(),
        view.waiting,
        view.active,
        view.next_ticket,
        granted,
        blocked,
    );
}

/// Operations are kept apart exactly when one of them is a flush, or one of them writes and they
/// share a byte.
pub proof fn law_clash_is_a_shared_written_byte(left: AdmissionOp, right: AdmissionOp)
    requires
        left.span() matches Some(range) ==> range.size() > 0 && range.limit() <= u64::MAX,
        right.span() matches Some(range) ==> range.size() > 0 && range.limit() <= u64::MAX,
    ensures
        left.clashes(right) == right.clashes(left),
        match (left, right) {
            (AdmissionOp::Flush, _) => left.clashes(right),
            (_, AdmissionOp::Flush) => left.clashes(right),
            (AdmissionOp::Read(_), AdmissionOp::Read(_)) => !left.clashes(right),
            _ => left.clashes(right) == (exists|position: int|
                left.span()->0.covers(position) && #[trigger] right.span()->0.covers(position)),
        },
{
    if left.span() is Some && right.span() is Some {
        left.span()->0.law_overlap_is_a_shared_byte(right.span()->0);
    }
}

/// An operation is refused exactly when it reaches beyond the end of the export. A flush never is.
pub proof fn law_only_what_lies_outside_is_refused(extent_bytes: int, op: AdmissionOp)
    ensures
        op is Flush ==> admission_error(extent_bytes, op) is None,
        op.span() matches Some(range) ==> (admission_error(extent_bytes, op) is None <==> range.first()
            + range.size() <= extent_bytes),
        admission_error(extent_bytes, op) matches Some(error) ==> error is OutOfBounds,
{
}

proof fn lemma_settled_keeps_every_request(
    kept: Seq<AdmissionEntry>,
    rest: Seq<AdmissionEntry>,
    active: Seq<AdmissionEntry>,
)
    ensures
        ({
            let (waiting, running) = settled(kept, rest, active);
            &&& waiting.to_multiset().add(running.to_multiset()) =~= kept.to_multiset().add(
                rest.to_multiset(),
            ).add(active.to_multiset())
            &&& running.len() >= active.len()
            &&& running.take(active.len() as int) =~= active
        }),
    decreases rest.len(),
{
    broadcast use vstd::seq_lib::group_to_multiset_ensures;

    if rest.len() == 0 {
        assert(rest =~= Seq::empty());
        assert(active.take(active.len() as int) =~= active);
    } else {
        let head = rest[0];
        let tail = rest.drop_first();
        let (waiting, running) = settled(kept, rest, active);
        assert(rest =~= seq![head] + tail);
        assert(seq![head] =~= Seq::<AdmissionEntry>::empty().push(head));
        vstd::seq_lib::lemma_multiset_commutative(seq![head], tail);
        if clashes_with_any(head.op, active) || clashes_with_any(head.op, kept) {
            lemma_settled_keeps_every_request(kept.push(head), tail, active);
        } else {
            lemma_settled_keeps_every_request(kept, tail, active.push(head));
            assert(running.take(active.len() as int) =~= running.take(
                (active.len() + 1) as int,
            ).take(
                active.len() as int,
            ));
        }
    }
}

/// Letting requests run loses none of them and makes up none, and those that ran go on running.
pub proof fn law_promotion_keeps_every_request(view: AdmissionView)
    ensures
        ({
            let after = promoted(view);
            &&& after.waiting.to_multiset().add(after.active.to_multiset())
                == view.waiting.to_multiset().add(view.active.to_multiset())
            &&& after.active.len() >= view.active.len()
            &&& after.active.take(view.active.len() as int) == view.active
            &&& after.next_ticket == view.next_ticket
            &&& after.extent_bytes == view.extent_bytes
        }),
{
    broadcast use vstd::seq_lib::group_to_multiset_ensures;

    lemma_settled_keeps_every_request(Seq::empty(), view.waiting, view.active);
    assert(Seq::<AdmissionEntry>::empty().to_multiset().add(view.waiting.to_multiset())
        =~= view.waiting.to_multiset());
}

proof fn lemma_settled_one_more(
    kept: Seq<AdmissionEntry>,
    rest: Seq<AdmissionEntry>,
    active: Seq<AdmissionEntry>,
    entry: AdmissionEntry,
)
    requires
        forall|i: int|
            0 <= i < rest.len() ==> clashes_with_any((#[trigger] rest[i]).op, active)
                || clashes_with_any(rest[i].op, kept + rest.take(i)),
    ensures
        settled(kept, rest.push(entry), active) == (if clashes_with_any(entry.op, active)
            || clashes_with_any(entry.op, kept + rest) {
            (kept + rest.push(entry), active)
        } else {
            (kept + rest, active.push(entry))
        }),
    decreases rest.len(),
{
    let all = rest.push(entry);
    if rest.len() == 0 {
        assert(all.drop_first() =~= Seq::empty());
        assert(kept + rest =~= kept);
        assert(kept + all =~= kept.push(entry));
        reveal_with_fuel(settled, 2);
    } else {
        let head = rest[0];
        let tail = rest.drop_first();
        let longer = kept.push(head);
        assert(kept + rest.take(0) =~= kept);
        assert(all[0] == head);
        assert(all.drop_first() =~= tail.push(entry));
        assert forall|i: int| 0 <= i < tail.len() implies clashes_with_any(
            (#[trigger] tail[i]).op,
            active,
        ) || clashes_with_any(tail[i].op, longer + tail.take(i)) by {
            assert(tail[i] == rest[i + 1]);
            assert(longer + tail.take(i) =~= kept + rest.take(i + 1));
        }
        lemma_settled_one_more(longer, tail, active, entry);
        assert(longer + tail =~= kept + rest);
        assert(longer + tail.push(entry) =~= kept + all);
    }
}

/// A request that is registered runs at once exactly when it clashes with no request that runs or
/// waits; otherwise it waits behind them, and no other request is let run.
pub proof fn law_only_an_unopposed_request_runs_at_once(
    before: AdmissionView,
    after: AdmissionView,
    entry: AdmissionEntry,
)
    requires
        before.wf(),
        after == promoted(
            AdmissionView {
                next_ticket: before.next_ticket + 1,
                waiting: before.waiting.push(entry),
                ..before
            },
        ),
    ensures
        ({
            let opposed = (exists|i: int|
                0 <= i < before.active.len() && (#[trigger] before.active[i]).op.clashes(entry.op))
                || (exists|i: int|
                0 <= i < before.waiting.len() && (#[trigger] before.waiting[i]).op.clashes(
                    entry.op,
                ));
            if opposed {
                after.waiting == before.waiting.push(entry) && after.active == before.active
            } else {
                after.waiting == before.waiting && after.active == before.active.push(entry)
            }
        }),
{
    let none = Seq::<AdmissionEntry>::empty();
    assert forall|i: int| 0 <= i < before.waiting.len() implies clashes_with_any(
        (#[trigger] before.waiting[i]).op,
        before.active,
    ) || clashes_with_any(before.waiting[i].op, none + before.waiting.take(i)) by {
        assert(none + before.waiting.take(i) =~= before.waiting.take(i));
    }
    lemma_settled_one_more(none, before.waiting, before.active, entry);
    assert(none + before.waiting =~= before.waiting);
    assert(none + before.waiting.push(entry) =~= before.waiting.push(entry));
}

/// A request that still waits after requests were let run clashes with one that runs, or with one
/// that waits and came before it.
pub proof fn law_nobody_waits_without_a_reason(view: AdmissionView, index: int)
    requires
        exclusive(view.active),
        ticketed(view.waiting, view.next_ticket),
        0 <= index < promoted(view).waiting.len(),
    ensures
        ({
            let after = promoted(view);
            let op = after.waiting[index].op;
            ||| exists|i: int|
                0 <= i < after.active.len() && (#[trigger] after.active[i]).op.clashes(op)
            ||| exists|i: int|
                0 <= i < index && (#[trigger] after.waiting[i]).op.clashes(op)
                    && after.waiting[i].ticket.number() < after.waiting[index].ticket.number()
        }),
{
    let none = Seq::<AdmissionEntry>::empty();
    let after = promoted(view);
    let op = after.waiting[index].op;
    assert(none + view.waiting =~= view.waiting);
    lemma_settled(none, view.waiting, view.active, view.next_ticket);
    if !clashes_with_any(op, after.active) {
        let earlier = after.waiting.take(index);
        assert(clashes_with_any(op, earlier));
        let i = choose|i: int| 0 <= i < earlier.len() && (#[trigger] earlier[i]).op.clashes(op);
        assert(after.waiting[i] == earlier[i]);
    }
}

/// Requests that run after others were let run do not clash, whichever two of them are taken.
pub proof fn law_promotion_keeps_what_may_run(view: AdmissionView)
    requires
        exclusive(view.active),
        ticketed(view.waiting, view.next_ticket),
    ensures
        forall|i: int, j: int|
            0 <= i < promoted(view).active.len() && 0 <= j < promoted(view).active.len() && i != j
                ==> !(#[trigger] promoted(view).active[i]).op.clashes(
                (#[trigger] promoted(view).active[j]).op,
            ),
{
    let none = Seq::<AdmissionEntry>::empty();
    let after = promoted(view);
    assert(none + view.waiting =~= view.waiting);
    lemma_settled(none, view.waiting, view.active, view.next_ticket);
    assert forall|i: int, j: int|
        0 <= i < after.active.len() && 0 <= j < after.active.len() && i != j implies !(
    #[trigger] after.active[i]).op.clashes((#[trigger] after.active[j]).op) by {
        lemma_clash_symmetric(after.active[i].op, after.active[j].op);
        if i < j {
            assert(!after.active[i].op.clashes(after.active[j].op));
        } else {
            assert(!after.active[j].op.clashes(after.active[i].op));
        }
    }
}

/// A flush is let run only when no request runs and no request waits that came before it, and
/// nothing is let run beside it.
pub proof fn law_flush_is_granted_last(view: AdmissionView, granted: int)
    requires
        exclusive(view.active),
        ticketed(view.waiting, view.next_ticket),
        view.active.len() <= granted < promoted(view).active.len(),
        promoted(view).active[granted].op is Flush,
    ensures
        view.active.len() == 0,
        promoted(view).active.len() == 1,
        forall|i: int|
            0 <= i < promoted(view).waiting.len() ==> (
            #[trigger] promoted(view).waiting[i]).ticket.number() >= promoted(
                view,
            ).active[granted].ticket.number(),
{
    let none = Seq::<AdmissionEntry>::empty();
    let after = promoted(view);
    assert(none + view.waiting =~= view.waiting);
    lemma_settled(none, view.waiting, view.active, view.next_ticket);
    if after.active.len() > 1 {
        let other = if granted == 0 {
            1int
        } else {
            0int
        };
        if granted < other {
            assert(!after.active[granted].op.clashes(after.active[other].op));
        } else {
            assert(!after.active[other].op.clashes(after.active[granted].op));
        }
    }
    assert forall|i: int| 0 <= i < after.waiting.len() implies (
    #[trigger] after.waiting[i]).ticket.number() >= after.active[granted].ticket.number() by {
        if after.waiting[i].ticket.number() < after.active[granted].ticket.number() {
            law_no_overtaking(view, granted, i);
        }
    }
}

/// Taking out a ticket takes out the requests that hold it and no other.
pub proof fn law_only_the_ticket_is_taken_out(
    entries: Seq<AdmissionEntry>,
    ticket: AdmissionTicket,
    entry: AdmissionEntry,
)
    ensures
        without_ticket(entries, ticket).contains(entry) <==> entries.contains(entry)
            && entry.ticket != ticket,
        !(exists|i: int| 0 <= i < entries.len() && (#[trigger] entries[i]).ticket == ticket)
            ==> without_ticket(entries, ticket) == entries,
    decreases entries.len(),
{
    if entries.len() > 0 {
        let front = entries.drop_last();
        let rest = without_ticket(front, ticket);
        let last = entries.last();
        law_only_the_ticket_is_taken_out(front, ticket, entry);
        assert(entries =~= front.push(last));
        if front.contains(entry) {
            let i = choose|i: int| 0 <= i < front.len() && front[i] == entry;
            assert(entries[i] == entry);
        }
        if entries.contains(entry) && !front.contains(entry) {
            let i = choose|i: int| 0 <= i < entries.len() && entries[i] == entry;
            assert(i == front.len());
        }
        if entry == last {
            assert(entries[entries.len() - 1] == entry);
        }
        if last.ticket != ticket {
            let after = rest.push(last);
            if rest.contains(entry) {
                let i = choose|i: int| 0 <= i < rest.len() && rest[i] == entry;
                assert(after[i] == entry);
            }
            assert(after[rest.len() as int] == last);
            if after.contains(entry) && entry != last {
                let i = choose|i: int| 0 <= i < after.len() && after[i] == entry;
                assert(rest[i] == entry);
            }
        }
        if !(exists|i: int| 0 <= i < entries.len() && (#[trigger] entries[i]).ticket == ticket) {
            assert(entries[entries.len() - 1].ticket != ticket);
            assert forall|i: int| 0 <= i < front.len() implies (#[trigger] front[i]).ticket
                != ticket by {
                assert(entries[i].ticket != ticket);
            }
        }
    }
}

/// A request that is registered is one more, that runs or waits, and no other is lost; it runs at
/// once exactly when it clashes with none.
pub proof fn law_a_registered_request_is_one_more(view: AdmissionView, entry: AdmissionEntry)
    requires
        view.wf(),
    ensures
        ({
            let after = registered(view, entry);
            &&& after.next_ticket == view.next_ticket + 1
            &&& if clashes_with_any(entry.op, view.active) || clashes_with_any(
                entry.op,
                view.waiting,
            ) {
                after.waiting == view.waiting.push(entry) && after.active == view.active
            } else {
                after.waiting == view.waiting && after.active == view.active.push(entry)
            }
        }),
{
    law_only_an_unopposed_request_runs_at_once(view, registered(view, entry), entry);
}

/// A request that is released runs no more, every other that ran goes on running, none that waited
/// is lost, and whoever waits then clashes with one that runs or that came before it.
pub proof fn law_a_released_request_makes_room(
    view: AdmissionView,
    ticket: AdmissionTicket,
    entry: AdmissionEntry,
    index: int,
)
    requires
        view.wf(),
    ensures
        ({
            let after = released(view, ticket);
            let still = without_ticket(view.active, ticket);
            &&& after.active.len() >= still.len()
            &&& after.active.take(still.len() as int) == still
            &&& still.contains(entry) <==> view.active.contains(entry) && entry.ticket != ticket
            &&& after.waiting.to_multiset().add(after.active.to_multiset())
                == view.waiting.to_multiset().add(still.to_multiset())
            &&& after.next_ticket == view.next_ticket
            &&& 0 <= index < after.waiting.len() ==> clashes_with_any(
                after.waiting[index].op,
                after.active,
            ) || clashes_with_any(after.waiting[index].op, after.waiting.take(index))
        }),
{
    let less = AdmissionView { active: without_ticket(view.active, ticket), ..view };
    let none = Seq::<AdmissionEntry>::empty();
    law_only_the_ticket_is_taken_out(view.active, ticket, entry);
    law_promotion_keeps_every_request(less);
    lemma_without_ticket_keeps(view.active, ticket, view.next_ticket);
    assert(none + view.waiting =~= view.waiting);
    lemma_settled(none, less.waiting, less.active, less.next_ticket);
}

/// A request that is cancelled waits no more, every request that ran goes on running, and no other
/// that waited is lost.
pub proof fn law_a_cancelled_request_waits_no_more(
    view: AdmissionView,
    ticket: AdmissionTicket,
    entry: AdmissionEntry,
    index: int,
)
    requires
        view.wf(),
    ensures
        ({
            let after = cancelled(view, ticket);
            let still = without_ticket(view.waiting, ticket);
            &&& after.active.len() >= view.active.len()
            &&& after.active.take(view.active.len() as int) == view.active
            &&& still.contains(entry) <==> view.waiting.contains(entry) && entry.ticket != ticket
            &&& after.waiting.to_multiset().add(after.active.to_multiset())
                == still.to_multiset().add(view.active.to_multiset())
            &&& after.next_ticket == view.next_ticket
            &&& 0 <= index < after.waiting.len() ==> clashes_with_any(
                after.waiting[index].op,
                after.active,
            ) || clashes_with_any(after.waiting[index].op, after.waiting.take(index))
        }),
{
    let less = AdmissionView { waiting: without_ticket(view.waiting, ticket), ..view };
    let none = Seq::<AdmissionEntry>::empty();
    law_only_the_ticket_is_taken_out(view.waiting, ticket, entry);
    law_promotion_keeps_every_request(less);
    lemma_without_ticket_keeps(view.waiting, ticket, view.next_ticket);
    assert(none + less.waiting =~= less.waiting);
    lemma_settled(none, less.waiting, less.active, less.next_ticket);
}

// ---------------------------------------------------------------------------
// The controller
// ---------------------------------------------------------------------------

proof fn lemma_without_ticket_source(
    entries: Seq<AdmissionEntry>,
    ticket: AdmissionTicket,
    i: int,
) -> (j: int)
    requires
        0 <= i < without_ticket(entries, ticket).len(),
    ensures
        i <= j < entries.len(),
        without_ticket(entries, ticket)[i] == entries[j],
    decreases entries.len(),
{
    let front = entries.drop_last();
    lemma_without_ticket_length(front, ticket);
    if entries.last().ticket != ticket && i == without_ticket(front, ticket).len() {
        entries.len() - 1
    } else {
        lemma_without_ticket_source(front, ticket, i)
    }
}

proof fn lemma_without_ticket_length(entries: Seq<AdmissionEntry>, ticket: AdmissionTicket)
    ensures
        without_ticket(entries, ticket).len() <= entries.len(),
    decreases entries.len(),
{
    if entries.len() > 0 {
        lemma_without_ticket_length(entries.drop_last(), ticket);
    }
}

proof fn lemma_without_ticket_keeps(
    entries: Seq<AdmissionEntry>,
    ticket: AdmissionTicket,
    limit: int,
)
    ensures
        exclusive(entries) ==> exclusive(without_ticket(entries, ticket)),
        ticketed(entries, limit) ==> ticketed(without_ticket(entries, ticket), limit),
    decreases entries.len(),
{
    if entries.len() > 0 {
        let front = entries.drop_last();
        let rest = without_ticket(front, ticket);
        let after = without_ticket(entries, ticket);
        let last = entries.len() - 1;
        assert(forall|i: int| 0 <= i < front.len() ==> front[i] == entries[i]);
        lemma_without_ticket_keeps(front, ticket, limit);
        if entries.last().ticket != ticket {
            if exclusive(entries) {
                assert forall|i: int, j: int| 0 <= i < j < after.len() implies !(
                #[trigger] after[i]).op.clashes((#[trigger] after[j]).op) by {
                    if j == rest.len() {
                        let k = lemma_without_ticket_source(front, ticket, i);
                        assert(!entries[k].op.clashes(entries[last].op));
                    } else {
                        assert(!rest[i].op.clashes(rest[j].op));
                    }
                }
            }
            if ticketed(entries, limit) {
                assert forall|i: int, j: int| 0 <= i < j < after.len() implies (
                #[trigger] after[i]).ticket.number() < (#[trigger] after[j]).ticket.number() by {
                    if j == rest.len() {
                        let k = lemma_without_ticket_source(front, ticket, i);
                        assert(entries[k].ticket.number() < entries[last].ticket.number());
                    } else {
                        assert(rest[i].ticket.number() < rest[j].ticket.number());
                    }
                }
                assert forall|i: int| 0 <= i < after.len() implies (
                #[trigger] after[i]).ticket.number() < limit by {
                    if i < rest.len() {
                        assert(rest[i].ticket.number() < limit);
                    } else {
                        assert(entries[last].ticket.number() < limit);
                    }
                }
            }
        }
    }
}

/// Whether an operation clashes with one of the requests.
fn clashes(op: AdmissionOp, entries: &Vec<AdmissionEntry>, count: usize) -> (found: bool)
    requires
        count <= entries@.len(),
    ensures
        found == clashes_with_any(op, entries@.take(count as int)),
{
    let mut index: usize = 0;
    while index < count
        invariant
            index <= count <= entries@.len(),
            forall|i: int| 0 <= i < index ==> !(#[trigger] entries@[i]).op.clashes(op),
        decreases count - index,
    {
        if entries[index].op.conflicts(op) {
            proof {
                assert(entries@.take(count as int)[index as int].op.clashes(op));
            }
            return true;
        }
        index = index + 1;
    }
    proof {
        assert forall|i: int| 0 <= i < entries@.take(count as int).len() implies !(
        #[trigger] entries@.take(count as int)[i]).op.clashes(op) by {
            assert(!entries@[i].op.clashes(op));
        }
    }
    false
}

/// Takes out the request that holds a ticket.
fn remove_ticket(entries: &mut Vec<AdmissionEntry>, ticket: AdmissionTicket)
    ensures
        final(entries)@ == without_ticket(old(entries)@, ticket),
{
    let ghost before = entries@;
    let count: usize = entries.len();
    let mut kept: usize = 0;
    let mut seen: usize = 0;
    proof {
        assert(before.take(0) =~= Seq::<AdmissionEntry>::empty());
        assert(before =~= without_ticket(before.take(0), ticket) + before.skip(0));
    }
    while seen < count
        invariant
            kept <= seen <= count,
            count == before.len(),
            kept == without_ticket(before.take(seen as int), ticket).len(),
            entries@ == without_ticket(before.take(seen as int), ticket) + before.skip(
                seen as int,
            ),
        decreases count - seen,
    {
        let ghost now = entries@;
        proof {
            assert(before.take(seen + 1).drop_last() =~= before.take(seen as int));
            assert(before.take(seen + 1).last() == before[seen as int]);
            assert(now[kept as int] == before[seen as int]);
        }
        if entries[kept].ticket == ticket {
            let removed = entries.remove(kept);
            proof {
                assert(entries@ =~= without_ticket(before.take(seen + 1), ticket) + before.skip(
                    seen + 1,
                ));
            }
        } else {
            kept = kept + 1;
            proof {
                assert(now =~= without_ticket(before.take(seen + 1), ticket) + before.skip(
                    seen + 1,
                ));
            }
        }
        seen = seen + 1;
    }
    proof {
        assert(before.take(count as int) =~= before);
        assert(entries@ =~= without_ticket(before, ticket));
    }
}

impl ExportAdmissionCtl {
    /// Running requests do not clash, waiting ones have a reason to wait, and waiting ones stand
    /// in the order they came.
    pub open spec fn wf(self) -> bool {
        self@.wf()
    }

    pub fn new(extent_bytes: u64) -> (ctl: Self)
        ensures
            ctl.wf(),
            ctl@.extent_bytes == extent_bytes,
            ctl@.next_ticket == 0,
            ctl@.waiting.len() == 0,
            ctl@.active.len() == 0,
    {
        Self { extent_bytes, next_ticket: 0, waiting: Vec::new(), active: Vec::new() }
    }

    /// The running requests.
    pub fn active(&self) -> (active: &Vec<AdmissionEntry>)
        ensures
            active@ == self@.active,
    {
        &self.active
    }

    /// The waiting requests, in the order they came.
    pub fn waiting(&self) -> (waiting: &Vec<AdmissionEntry>)
        ensures
            waiting@ == self@.waiting,
    {
        &self.waiting
    }

    /// Whether another request can get a ticket.
    pub fn has_tickets(&self) -> (has: bool)
        ensures
            has == (self@.next_ticket < u64::MAX),
    {
        self.next_ticket < u64::MAX
    }

    fn validate(&self, op: AdmissionOp) -> (result: Result<()>)
        ensures
            match result {
                Ok(_) => admission_error(self@.extent_bytes, op) is None,
                Err(error) => admission_error(self@.extent_bytes, op) == Some(error@),
            },
    {
        match op {
            AdmissionOp::Read(range) => validate_range("read", range, self.extent_bytes),
            AdmissionOp::Write(range) => validate_range("write", range, self.extent_bytes),
            AdmissionOp::Flush => Ok(()),
        }
    }

    /// Registers a request. Gives its ticket, and the tickets of the requests that may run now.
    pub fn register(&mut self, op: AdmissionOp) -> (result: Result<
        (AdmissionTicket, Vec<AdmissionTicket>),
    >)
        requires
            old(self).wf(),
            old(self)@.next_ticket < u64::MAX,
        ensures
            final(self).wf(),
            match result {
                Ok((ticket, granted)) => {
                    &&& admission_error(old(self)@.extent_bytes, op) is None
                    &&& ticket.number() == old(self)@.next_ticket
                    &&& final(self)@ == registered(old(self)@, AdmissionEntry { ticket, op })
                    &&& granted@ == tickets_of(
                        final(self)@.active.skip(old(self)@.active.len() as int),
                    )
                },
                Err(error) => {
                    &&& admission_error(old(self)@.extent_bytes, op) == Some(error@)
                    &&& final(self)@ == old(self)@
                },
            },
    {
        match self.validate(op) {
            Ok(_) => {},
            Err(error) => {
                return Err(error);
            },
        }
        let ticket = AdmissionTicket(self.next_ticket);
        self.next_ticket = self.next_ticket + 1;
        self.waiting.push(AdmissionEntry { ticket, op });
        let granted = self.promote();
        Ok((ticket, granted))
    }

    /// Takes out a request that waits. Gives the tickets of the requests that may run now.
    pub fn cancel(&mut self, ticket: AdmissionTicket) -> (granted: Vec<AdmissionTicket>)
        requires
            old(self).wf(),
        ensures
            final(self).wf(),
            final(self)@ == cancelled(old(self)@, ticket),
            granted@ == tickets_of(final(self)@.active.skip(old(self)@.active.len() as int)),
    {
        proof {
            lemma_without_ticket_keeps(self.waiting@, ticket, self.next_ticket as int);
        }
        remove_ticket(&mut self.waiting, ticket);
        self.promote()
    }

    /// Takes out a request that runs. Gives the tickets of the requests that may run now.
    pub fn release(&mut self, ticket: AdmissionTicket) -> (granted: Vec<AdmissionTicket>)
        requires
            old(self).wf(),
        ensures
            final(self).wf(),
            final(self)@ == released(old(self)@, ticket),
            granted@ == tickets_of(
                final(self)@.active.skip(without_ticket(old(self)@.active, ticket).len() as int),
            ),
    {
        proof {
            lemma_without_ticket_keeps(self.active@, ticket, self.next_ticket as int);
        }
        remove_ticket(&mut self.active, ticket);
        self.promote()
    }

    /// Lets every request run that may.
    fn promote(&mut self) -> (granted: Vec<AdmissionTicket>)
        requires
            exclusive(old(self)@.active),
            ticketed(old(self)@.waiting, old(self)@.next_ticket),
        ensures
            final(self).wf(),
            final(self)@ == promoted(old(self)@),
            granted@ == tickets_of(final(self)@.active.skip(old(self)@.active.len() as int)),
    {
        let ghost before = self@;
        let ghost (waiting, running) = settled(Seq::empty(), before.waiting, before.active);
        proof {
            assert(Seq::<AdmissionEntry>::empty() + before.waiting =~= before.waiting);
            lemma_settled(Seq::empty(), before.waiting, before.active, before.next_ticket);
            assert(before.waiting.take(0) =~= Seq::<AdmissionEntry>::empty());
            assert(before.waiting.skip(0) =~= before.waiting);
        }
        let mut granted: Vec<AdmissionTicket> = Vec::new();
        let mut index: usize = 0;
        while index < self.waiting.len()
            invariant
                index <= self.waiting@.len(),
                self.extent_bytes == before.extent_bytes,
                self.next_ticket == before.next_ticket,
                settled(
                    self.waiting@.take(index as int),
                    self.waiting@.skip(index as int),
                    self.active@,
                ) == (waiting, running),
                self.active@.len() >= before.active.len(),
                granted@ == tickets_of(self.active@.skip(before.active.len() as int)),
            decreases self.waiting@.len() - index,
        {
            let entry = self.waiting[index];
            let ghost kept = self.waiting@.take(index as int);
            let ghost rest = self.waiting@.skip(index as int);
            let count: usize = self.active.len();
            proof {
                assert(rest[0] == entry);
                assert(self.active@.take(count as int) =~= self.active@);
            }
            if clashes(entry.op, &self.active, count) || clashes(entry.op, &self.waiting, index) {
                proof {
                    assert(self.waiting@.take(index + 1) =~= kept.push(entry));
                    assert(self.waiting@.skip(index + 1) =~= rest.drop_first());
                }
                index = index + 1;
            } else {
                let ghost earlier = self.active@;
                let entry = self.waiting.remove(index);
                self.active.push(entry);
                granted.push(entry.ticket);
                proof {
                    assert(self.waiting@.take(index as int) =~= kept);
                    assert(self.waiting@.skip(index as int) =~= rest.drop_first());
                    assert(self.active@.skip(before.active.len() as int) =~= earlier.skip(
                        before.active.len() as int,
                    ).push(entry));
                    assert(granted@ =~= tickets_of(
                        self.active@.skip(before.active.len() as int),
                    ));
                }
            }
        }
        proof {
            assert(self.waiting@.take(index as int) =~= self.waiting@);
            assert(self.waiting@.skip(index as int) =~= Seq::<AdmissionEntry>::empty());
        }
        granted
    }
}

} // verus!
