//! Write-ahead log requests, records and replay.

use crate::catalog::{ExportId, WalSeq};
use crate::error::{ErrorView, Result, ServerError};
use crate::range::ByteRange;
use crate::text::{owned, text_with_two_numbers, with_two_numbers};
use std::collections::VecDeque;
use vstd::prelude::*;

verus! {

/// The log of one export.
#[derive(Debug, PartialEq, Eq, Hash)]
pub struct WalDomain {
    export_id: ExportId,
}

/// Request to open the log of one export.
#[derive(Debug, PartialEq, Eq)]
pub struct OpenWal {
    domain: WalDomain,
}

/// A write that is to be appended to the log: a non-empty payload for its range.
#[derive(Debug, PartialEq, Eq)]
pub struct WalRequest {
    range: ByteRange,
    data: Vec<u8>,
}

/// A write that the log holds under its sequence number.
#[derive(Debug, PartialEq, Eq)]
pub struct WalRecord {
    seq: WalSeq,
    range: ByteRange,
    data: Vec<u8>,
}

/// Which part of the log is there.
#[derive(Debug, Clone, Copy, PartialEq, Eq, Structural)]
pub struct WalBounds {
    pub pruned_through: WalSeq,
    pub last_durable: WalSeq,
}

/// What pruning the log did.
#[derive(Debug, Clone, Copy, PartialEq, Eq, Structural)]
pub struct WalPruneResult {
    pub requested_through: WalSeq,
    pub pruned_through: WalSeq,
    pub removed_segments: u64,
}

/// Records of the log that are handed out in ascending order.
#[derive(Debug)]
pub struct WalReplay {
    records: VecDeque<WalRecord>,
}

impl View for WalDomain {
    type V = Seq<char>;

    closed spec fn view(&self) -> Seq<char> {
        self.export_id@
    }
}

impl WalDomain {
    pub fn for_export_id(export_id: ExportId) -> (domain: Self)
        ensures
            domain@ == export_id@,
    {
        Self { export_id }
    }

    pub fn export_id(&self) -> (export_id: &ExportId)
        ensures
            export_id@ == self@,
    {
        &self.export_id
    }
}

impl View for OpenWal {
    type V = Seq<char>;

    closed spec fn view(&self) -> Seq<char> {
        self.domain@
    }
}

impl OpenWal {
    pub fn new(domain: WalDomain) -> (request: Self)
        ensures
            request@ == domain@,
    {
        Self { domain }
    }

    pub fn domain(&self) -> (domain: &WalDomain)
        ensures
            domain@ == self@,
    {
        &self.domain
    }
}

/// The message for a payload that does not fill its range.
pub open spec fn payload_mismatch_message(payload: nat, range: nat) -> Seq<char> {
    with_two_numbers("payload length "@, payload, " does not match range length "@, range, ""@)
}

/// Why a write cannot go into the log.
pub open spec fn wal_request_error(range: ByteRange, data: Seq<u8>) -> Option<ErrorView> {
    if data.len() == 0 {
        Some(
            ErrorView::Wal {
                context: "create WAL request"@,
                message: "write payload must not be empty"@,
            },
        )
    } else if data.len() != range.size() {
        Some(
            ErrorView::Wal {
                context: "create WAL request"@,
                message: payload_mismatch_message(data.len(), range.size() as nat),
            },
        )
    } else {
        None
    }
}

/// A payload fills its range and is not empty.
pub open spec fn fills(range: ByteRange, data: Seq<u8>) -> bool {
    data.len() > 0 && data.len() == range.size()
}

impl WalRequest {
    /// The range that is written.
    pub closed spec fn span(&self) -> ByteRange {
        self.range
    }

    /// The bytes that are written.
    pub closed spec fn payload(&self) -> Seq<u8> {
        self.data@
    }

    #[verifier::type_invariant]
    spec fn inv(self) -> bool {
        fills(self.range, self.data@)
    }

    pub fn new(range: ByteRange, data: Vec<u8>) -> (result: Result<Self>)
        ensures
            match result {
                Ok(request) => {
                    &&& wal_request_error(range, data@) is None
                    &&& request.span() == range
                    &&& request.payload() == data@
                },
                Err(error) => wal_request_error(range, data@) == Some(error@),
            },
    {
        if data.len() == 0 {
            return Err(
                ServerError::wal("create WAL request", owned("write payload must not be empty")),
            );
        }
        if data.len() as u64 != range.len() {
            return Err(
                ServerError::wal(
                    "create WAL request",
                    text_with_two_numbers(
                        "payload length ",
                        data.len() as u64,
                        " does not match range length ",
                        range.len(),
                        "",
                    ),
                ),
            );
        }
        Ok(Self { range, data })
    }

    pub fn range(&self) -> (range: ByteRange)
        ensures
            range == self.span(),
            fills(self.span(), self.payload()),
    {
        proof {
            use_type_invariant(self);
        }
        self.range
    }

    pub fn data(&self) -> (data: &[u8])
        ensures
            data@ == self.payload(),
            fills(self.span(), self.payload()),
    {
        proof {
            use_type_invariant(self);
        }
        self.data.as_slice()
    }

    pub fn into_parts(self) -> (parts: (ByteRange, Vec<u8>))
        ensures
            parts.0 == self.span(),
            parts.1@ == self.payload(),
            fills(self.span(), self.payload()),
    {
        proof {
            use_type_invariant(&self);
        }
        (self.range, self.data)
    }
}

/// How a record is made.
pub open spec fn makes_record(
    seq: WalSeq,
    range: ByteRange,
    data: Seq<u8>,
    result: Result<WalRecord>,
) -> bool {
    match result {
        Ok(record) => {
            &&& seq@ != 0
            &&& wal_request_error(range, data) is None
            &&& record.number() == seq@
            &&& record.span() == range
            &&& record.payload() == data
            &&& record.wf()
        },
        Err(error) => if seq@ == 0 {
            error@ == (ErrorView::Wal {
                context: "create WAL record"@,
                message: "record sequence must be nonzero"@,
            })
        } else {
            wal_request_error(range, data) == Some(error@)
        },
    }
}

impl WalRecord {
    /// The record's place in the log.
    pub closed spec fn sequence(&self) -> WalSeq {
        self.seq
    }

    /// The number of the record's place in the log.
    pub open spec fn number(&self) -> int {
        self.sequence()@
    }

    /// The range that was written.
    pub closed spec fn span(&self) -> ByteRange {
        self.range
    }

    /// The bytes that were written.
    pub closed spec fn payload(&self) -> Seq<u8> {
        self.data@
    }

    /// The payload fills the range and is not empty. Every record has this.
    pub open spec fn wf(self) -> bool {
        fills(self.span(), self.payload())
    }

    #[verifier::type_invariant]
    spec fn inv(self) -> bool {
        fills(self.range, self.data@)
    }

    pub fn new(seq: WalSeq, range: ByteRange, data: Vec<u8>) -> (result: Result<Self>)
        ensures
            makes_record(seq, range, data@, result),
    {
        if seq.get() == 0 {
            return Err(
                ServerError::wal("create WAL record", owned("record sequence must be nonzero")),
            );
        }
        match WalRequest::new(range, data) {
            Ok(request) => Ok(Self::from_request(seq, request)),
            Err(error) => Err(error),
        }
    }

    pub fn from_request(seq: WalSeq, request: WalRequest) -> (record: Self)
        ensures
            record.number() == seq@,
            record.span() == request.span(),
            record.payload() == request.payload(),
            record.wf(),
    {
        let (range, data) = request.into_parts();
        Self { seq, range, data }
    }

    pub fn seq(&self) -> (seq: WalSeq)
        ensures
            seq == self.sequence(),
            self.wf(),
    {
        proof {
            use_type_invariant(self);
        }
        self.seq
    }

    pub fn range(&self) -> (range: ByteRange)
        ensures
            range == self.span(),
            self.wf(),
    {
        proof {
            use_type_invariant(self);
        }
        self.range
    }

    pub fn data(&self) -> (data: &[u8])
        ensures
            data@ == self.payload(),
            self.wf(),
    {
        proof {
            use_type_invariant(self);
        }
        self.data.as_slice()
    }

    pub fn into_parts(self) -> (parts: (WalSeq, ByteRange, Vec<u8>))
        ensures
            parts.0@ == self.number(),
            parts.1 == self.span(),
            parts.2@ == self.payload(),
            self.wf(),
    {
        proof {
            use_type_invariant(&self);
        }
        (self.seq, self.range, self.data)
    }
}

/// The message for a log position that lies after its limit.
pub open spec fn beyond_message(
    first: Seq<char>,
    pruned_through: int,
    limit_name: Seq<char>,
    limit: int,
) -> Seq<char> {
    with_two_numbers(first, pruned_through as nat, limit_name, limit as nat, ""@)
}

/// How bounds are made.
pub open spec fn makes_bounds(
    pruned_through: WalSeq,
    last_durable: WalSeq,
    result: Result<WalBounds>,
) -> bool {
    match result {
        Ok(bounds) => {
            &&& pruned_through@ <= last_durable@
            &&& bounds == (WalBounds { pruned_through, last_durable })
        },
        Err(error) => {
            &&& pruned_through@ > last_durable@
            &&& error@ == (ErrorView::Wal {
                context: "create WAL bounds"@,
                message: beyond_message(
                    "pruned_through "@,
                    pruned_through@,
                    " is greater than last_durable "@,
                    last_durable@,
                ),
            })
        },
    }
}

impl WalBounds {
    pub fn new(pruned_through: WalSeq, last_durable: WalSeq) -> (result: Result<Self>)
        ensures
            makes_bounds(pruned_through, last_durable, result),
    {
        if pruned_through.get() > last_durable.get() {
            return Err(
                ServerError::wal(
                    "create WAL bounds",
                    text_with_two_numbers(
                        "pruned_through ",
                        pruned_through.get(),
                        " is greater than last_durable ",
                        last_durable.get(),
                        "",
                    ),
                ),
            );
        }
        Ok(Self { pruned_through, last_durable })
    }

    pub fn empty() -> (bounds: Self)
        ensures
            bounds.pruned_through@ == 0,
            bounds.last_durable@ == 0,
    {
        Self { pruned_through: WalSeq::zero(), last_durable: WalSeq::zero() }
    }
}

/// How the result of pruning is made.
pub open spec fn makes_prune_result(
    requested_through: WalSeq,
    pruned_through: WalSeq,
    removed_segments: u64,
    result: Result<WalPruneResult>,
) -> bool {
    match result {
        Ok(pruned) => {
            &&& pruned_through@ <= requested_through@
            &&& pruned == (WalPruneResult {
                requested_through,
                pruned_through,
                removed_segments,
            })
        },
        Err(error) => {
            &&& pruned_through@ > requested_through@
            &&& error@ == (ErrorView::Wal {
                context: "create WAL prune result"@,
                message: beyond_message(
                    "pruned_through "@,
                    pruned_through@,
                    " is greater than requested_through "@,
                    requested_through@,
                ),
            })
        },
    }
}

impl WalPruneResult {
    pub fn new(
        requested_through: WalSeq,
        pruned_through: WalSeq,
        removed_segments: u64,
    ) -> (result: Result<Self>)
        ensures
            makes_prune_result(requested_through, pruned_through, removed_segments, result),
    {
        if pruned_through.get() > requested_through.get() {
            return Err(
                ServerError::wal(
                    "create WAL prune result",
                    text_with_two_numbers(
                        "pruned_through ",
                        pruned_through.get(),
                        " is greater than requested_through ",
                        requested_through.get(),
                        "",
                    ),
                ),
            );
        }
        Ok(Self { requested_through, pruned_through, removed_segments })
    }
}

/// Sequence numbers start above zero and ascend strictly.
pub open spec fn ascending(records: Seq<WalRecord>) -> bool {
    &&& forall|i: int| 0 <= i < records.len() ==> (#[trigger] records[i]).number() > 0
    &&& forall|i: int, j: int|
        0 <= i < j < records.len() ==> (#[trigger] records[i]).number() < (
        #[trigger] records[j]).number()
}

impl View for WalReplay {
    type V = Seq<WalRecord>;

    closed spec fn view(&self) -> Seq<WalRecord> {
        self.records@
    }
}

/// How a replay hands out its next record.
pub open spec fn yields(
    before: Seq<WalRecord>,
    after: Seq<WalRecord>,
    result: Result<Option<WalRecord>>,
) -> bool {
    match result {
        Ok(Some(record)) => {
            &&& before.len() > 0
            &&& record == before[0]
            &&& after == before.skip(1)
        },
        Ok(None) => before.len() == 0 && after == before,
        Err(_) => false,
    }}

impl WalReplay {
    pub open spec fn wf(self) -> bool {
        ascending(self@)
    }

    pub fn empty() -> (replay: Self)
        ensures
            replay.wf(),
            replay@.len() == 0,
    {
        Self { records: VecDeque::new() }
    }

    pub fn from_records(records: Vec<WalRecord>) -> (result: Result<Self>)
        ensures
            match result {
                Ok(replay) => replay.wf() && replay@ == records@,
                Err(error) => {
                    &&& !ascending(records@)
                    &&& error@ == (ErrorView::Wal {
                        context: "create WAL replay"@,
                        message: "records must be strictly ordered by sequence"@,
                    })
                },
            },
    {
        let mut previous: u64 = 0;
        let mut index: usize = 0;
        while index < records.len()
            invariant
                index <= records@.len(),
                ascending(records@.take(index as int)),
                index == 0 ==> previous == 0,
                index > 0 ==> previous == records@[index - 1].number(),
            decreases records@.len() - index,
        {
            let seq: u64 = records[index].seq().get();
            if seq <= previous {
                proof {
                    if index > 0 {
                        assert(records@[index - 1].number() >= records@[index as int].number());
                    }
                }
                return Err(
                    ServerError::wal(
                        "create WAL replay",
                        owned("records must be strictly ordered by sequence"),
                    ),
                );
            }
            proof {
                let shorter = records@.take(index as int);
                let longer = records@.take(index + 1);
                assert forall|i: int, j: int| 0 <= i < j < longer.len() implies (
                #[trigger] longer[i]).number() < (#[trigger] longer[j]).number() by {
                    if j < index {
                        assert(shorter[i] == longer[i] && shorter[j] == longer[j]);
                    } else {
                        assert(longer[index - 1] == records@[index - 1]);
                        if i < index - 1 {
                            assert(shorter[i] == longer[i]);
                            assert(shorter[index - 1] == longer[index - 1]);
                        }
                    }
                }
                assert forall|i: int| 0 <= i < longer.len() implies (
                #[trigger] longer[i]).number() > 0 by {
                    if i < index {
                        assert(shorter[i] == longer[i]);
                    }
                }
            }
            previous = seq;
            index = index + 1;
        }
        proof {
            assert(records@.take(index as int) =~= records@);
        }
        let ghost all = records@;
        let mut rest = records;
        let mut queue: VecDeque<WalRecord> = VecDeque::new();
        while rest.len() > 0
            invariant
                rest@ + queue@ == all,
            decreases rest@.len(),
        {
            let ghost rest_before = rest@;
            let ghost queue_before = queue@;
            match rest.pop() {
                Some(record) => {
                    queue.push_front(record);
                    proof {
                        assert(rest@ + queue@ =~= rest_before + queue_before);
                    }
                },
                None => {},
            }
        }
        proof {
            assert(queue@ =~= all);
        }
        Ok(Self { records: queue })
    }

    /// Hands out the first record that is left.
    pub fn next_record(&mut self) -> (result: Result<Option<WalRecord>>)
        requires
            old(self).wf(),
        ensures
            final(self).wf(),
            yields(old(self)@, final(self)@, result),
    {
        let ghost before = self@;
        let next = self.records.pop_front();
        proof {
            if before.len() > 0 {
                assert(self@ =~= before.skip(1));
                assert(forall|i: int| 0 <= i < self@.len() ==> self@[i] == before[i + 1]);
            }
        }
        Ok(next)
    }
}

/// A payload is taken for a range exactly when it is not empty and has a byte for each position.
pub proof fn law_payload_fills_its_range(range: ByteRange, data: Seq<u8>)
    ensures
        wal_request_error(range, data) is None <==> data.len() > 0 && data.len() == range.size(),
        fills(range, data) <==> data.len() > 0 && data.len() == range.size(),
        wal_request_error(range, data) matches Some(error) ==> error is Wal,
{
}

/// Records are in order exactly when the first has a number above zero and each a greater one than
/// the record before it.
pub proof fn law_ascending_records_are_ordered_one_by_one(records: Seq<WalRecord>)
    ensures
        ascending(records) <==> forall|i: int|
            0 <= i < records.len() ==> (#[trigger] records[i]).number() > (if i == 0 {
                0
            } else {
                records[i - 1].number()
            }),
{
    if forall|i: int|
        0 <= i < records.len() ==> (#[trigger] records[i]).number() > (if i == 0 {
            0
        } else {
            records[i - 1].number()
        }) {
        assert forall|i: int, j: int| 0 <= i < j < records.len() implies (
        #[trigger] records[i]).number() < (#[trigger] records[j]).number() by {
            lemma_numbers_grow(records, i, j);
        }
        assert forall|i: int| 0 <= i < records.len() implies (#[trigger] records[i]).number()
            > 0 by {
            if i > 0 {
                lemma_numbers_grow(records, 0, i);
            }
        }
    }
}

proof fn lemma_numbers_grow(records: Seq<WalRecord>, from: int, to: int)
    requires
        0 <= from < to < records.len(),
        forall|i: int|
            0 <= i < records.len() ==> (#[trigger] records[i]).number() > (if i == 0 {
                0
            } else {
                records[i - 1].number()
            }),
    ensures
        records[from].number() < records[to].number(),
        0 < records[0].number(),
    decreases to - from,
{
    assert(records[to].number() > records[to - 1].number());
    if from < to - 1 {
        lemma_numbers_grow(records, from, to - 1);
    }
}

/// A replay hands out its records in order, each once and none left out, and ends when it has none.
pub proof fn law_a_replay_hands_out_each_record_once(
    before: Seq<WalRecord>,
    after: Seq<WalRecord>,
    result: Result<Option<WalRecord>>,
)
    requires
        yields(before, after, result),
    ensures
        result is Ok,
        result->Ok_0 is None <==> before.len() == 0,
        result->Ok_0 matches Some(record) ==> before == seq![record] + after,
        result->Ok_0 is None ==> after == before,
{
}

/// A record is made of every number but zero and of every payload that fills its range, and holds
/// what it was made of.
pub proof fn law_a_record_holds_what_it_was_made_of(
    seq: WalSeq,
    range: ByteRange,
    data: Seq<u8>,
    result: Result<WalRecord>,
)
    requires
        makes_record(seq, range, data, result),
    ensures
        result is Ok <==> seq@ != 0 && data.len() > 0 && data.len() == range.size(),
        result matches Ok(record) ==> {
            &&& record.number() == seq@
            &&& record.span() == range
            &&& record.payload() == data
        },
{
}

/// A log is pruned no further than it is durable, and no further than was asked.
pub proof fn law_nothing_is_pruned_too_far(
    requested_through: WalSeq,
    pruned_through: WalSeq,
    last_durable: WalSeq,
    removed_segments: u64,
    bounds: Result<WalBounds>,
    pruned: Result<WalPruneResult>,
)
    requires
        makes_bounds(pruned_through, last_durable, bounds),
        makes_prune_result(requested_through, pruned_through, removed_segments, pruned),
    ensures
        bounds is Ok <==> pruned_through@ <= last_durable@,
        bounds matches Ok(bounds) ==> bounds.pruned_through@ == pruned_through@
            && bounds.last_durable@ == last_durable@,
        pruned is Ok <==> pruned_through@ <= requested_through@,
        pruned matches Ok(pruned) ==> pruned.pruned_through@ == pruned_through@
            && pruned.requested_through@ == requested_through@ && pruned.removed_segments
            == removed_segments,
{
}

} // verus!
