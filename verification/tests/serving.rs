use nbd_server::admission::{AdmissionOp, ExportAdmissionCtl};
use nbd_server::catalog::{
    ExportDescriptor, ExportEngineKind, ExportHead, ExportId, ExportLayoutKind, ExportName,
    ExportRecord, WalSeq,
};
use nbd_server::compaction_queue::{
    CompactionEnqueueOutcome, CompactionJob, CompactionManager, DEFAULT_COMPACTION_QUEUE_CAPACITY,
};
use nbd_server::error::ServerError;
use nbd_server::export::{
    AdmissionPermit, AdmittedExportRequest, ConnectionId, ConnectionIds, ExportAdmissionPolicy,
    ExportJobContext, ExportReply, ExportRequest, RequestCookie,
};
use nbd_server::memory::{MemoryAdmissionPolicy, MemoryExportEngine, MAX_MEMORY_EXPORT_BYTES};
use nbd_server::range::ByteRange;
use nbd_server::registry::{
    ActiveExportState, CloseDecision, ExportOwner, ExportOwnerIds, LocalExportRegistry,
    OpenDecision,
};
use nbd_server::runtime::{
    prepare_admitted_job, CloseStep, ExportRuntimeKind, PreparedExportJob, RuntimeLifecycle,
};

fn export_record(name: &str, size_bytes: u64) -> ExportRecord {
    ExportRecord {
        descriptor: ExportDescriptor {
            id: ExportId::new(format!("export-{name}")),
            name: ExportName::new(name.to_string()),
            block_size: 4096,
            engine_kind: ExportEngineKind::Memory,
        },
        head: ExportHead {
            layout_kind: ExportLayoutKind::MemoryEmpty,
            root_node_id: None,
            size_bytes,
            base_wal_seq: WalSeq::zero(),
            tree_format: None,
        },
    }
}

fn take_turn(
    admission: &mut ExportAdmissionCtl,
    policy: &MemoryAdmissionPolicy,
    request: ExportRequest,
) -> Option<AdmittedExportRequest> {
    let op = policy.operation_for(&request).expect("admission op");
    let (ticket, granted) = admission.register(op).expect("admission");
    if !granted.contains(&ticket) {
        return None;
    }
    let context = ExportJobContext::internal(RequestCookie::new(0), request.command_name());
    Some(AdmittedExportRequest::new(
        request,
        AdmissionPermit::new(ticket, op),
        context,
    ))
}

#[test]
fn admitted_non_overlapping_writes_can_share_storage() {
    let meta = export_record("disk-a", 4096);
    let mut engine = MemoryExportEngine::new(&meta).expect("memory export");
    let mut admission = ExportAdmissionCtl::new(4096);
    let policy = engine.admission_policy();

    let left = take_turn(
        &mut admission,
        &policy,
        ExportRequest::Write {
            offset: 0,
            data: b"aaaa".to_vec(),
        },
    )
    .expect("left permit");
    let right = take_turn(
        &mut admission,
        &policy,
        ExportRequest::Write {
            offset: 4,
            data: b"bbbb".to_vec(),
        },
    )
    .expect("right permit");

    assert_eq!(
        engine.execute_admitted(&left).expect("left write"),
        ExportReply::Done
    );
    assert_eq!(
        engine.execute_admitted(&right).expect("right write"),
        ExportReply::Done,
    );
    admission.release(left.into_permit().ticket());
    admission.release(right.into_permit().ticket());

    let read = take_turn(
        &mut admission,
        &policy,
        ExportRequest::Read { offset: 0, len: 8 },
    )
    .expect("read permit");
    assert_eq!(
        engine.execute_admitted(&read).expect("read"),
        ExportReply::Read {
            data: b"aaaabbbb".to_vec(),
        },
    );
}

#[test]
fn memory_policy_blocks_overlapping_requests_in_admission() {
    let meta = export_record("disk-a", 4096);
    let engine = MemoryExportEngine::new(&meta).expect("memory export");
    let mut admission = ExportAdmissionCtl::new(4096);
    let policy = engine.admission_policy();

    let write = take_turn(
        &mut admission,
        &policy,
        ExportRequest::Write {
            offset: 0,
            data: b"aaaa".to_vec(),
        },
    )
    .expect("write permit");
    assert!(
        take_turn(
            &mut admission,
            &policy,
            ExportRequest::Read { offset: 1, len: 2 },
        )
        .is_none(),
        "overlapping read should wait for the active write permit",
    );
    let waiting = admission.waiting()[0].ticket;

    let granted = admission.release(write.into_permit().ticket());
    assert_eq!(granted, vec![waiting]);
}

#[test]
fn owned_admitted_request_keeps_permit_after_payload_take() {
    let mut admission = ExportAdmissionCtl::new(4096);
    let op = AdmissionOp::Write(ByteRange::new(0, 4));
    let (first, granted) = admission.register(op).expect("register first");
    assert_eq!(granted, vec![first]);
    let (second, granted) = admission.register(op).expect("register second");
    assert!(granted.is_empty());
    let context = ExportJobContext::internal(RequestCookie::new(7), "write");
    let admitted = AdmittedExportRequest::new(
        ExportRequest::Write {
            offset: 0,
            data: b"test".to_vec(),
        },
        AdmissionPermit::new(first, op),
        context,
    );
    let mut owned = admitted.into_owned();
    assert_eq!(admission.waiting().len(), 1);

    let request = owned.take_request();
    assert_eq!(
        request,
        ExportRequest::Write {
            offset: 0,
            data: b"test".to_vec(),
        }
    );
    assert_eq!(
        admission.waiting().len(),
        1,
        "taking the payload must not release admission",
    );

    assert_eq!(
        admission.release(owned.into_permit().ticket()),
        vec![second]
    );
}

#[test]
fn a_flush_runs_alone_and_nobody_overtakes_it() {
    let mut admission = ExportAdmissionCtl::new(4096);
    let (read, granted) = admission
        .register(AdmissionOp::Read(ByteRange::new(0, 4)))
        .unwrap();
    assert_eq!(granted, vec![read]);
    let (flush, granted) = admission.register(AdmissionOp::Flush).unwrap();
    assert!(granted.is_empty());
    let (late, granted) = admission
        .register(AdmissionOp::Read(ByteRange::new(8, 4)))
        .unwrap();
    assert!(granted.is_empty());
    assert_eq!(admission.release(read), vec![flush]);
    assert_eq!(admission.active().len(), 1);
    assert_eq!(admission.release(flush), vec![late]);
}

#[test]
fn a_cancelled_request_lets_others_in() {
    let mut admission = ExportAdmissionCtl::new(4096);
    let op = |start| AdmissionOp::Write(ByteRange::new(start, 4));
    let (first, _) = admission.register(op(0)).unwrap();
    let (flush, _) = admission.register(AdmissionOp::Flush).unwrap();
    let (other, granted) = admission.register(op(8)).unwrap();
    assert!(granted.is_empty());
    assert_eq!(admission.cancel(flush), vec![other]);
    assert_eq!(admission.active().len(), 2);
    assert!(admission.release(first).is_empty());
    assert_eq!(admission.active()[0].ticket, other);
}

#[test]
fn requests_outside_the_export_are_not_admitted() {
    let mut admission = ExportAdmissionCtl::new(4096);
    assert!(admission
        .register(AdmissionOp::Read(ByteRange::new(4095, 2)))
        .is_err());
    let policy = MemoryAdmissionPolicy::new(4096);
    assert!(matches!(
        prepare_admitted_job(
            &policy,
            &mut admission,
            &ExportRequest::Read {
                offset: 4095,
                len: 2
            }
        ),
        PreparedExportJob::Rejected {
            error: ServerError::OutOfBounds { .. }
        }
    ));
    assert!(matches!(
        prepare_admitted_job(
            &policy,
            &mut admission,
            &ExportRequest::Read {
                offset: 4094,
                len: 2
            }
        ),
        PreparedExportJob::Registered { .. }
    ));
}

#[test]
fn memory_exports_are_bounded() {
    assert!(MemoryExportEngine::new(&export_record("disk", MAX_MEMORY_EXPORT_BYTES)).is_ok());
    assert!(matches!(
        MemoryExportEngine::new(&export_record("disk", MAX_MEMORY_EXPORT_BYTES + 1)),
        Err(ServerError::ExportTooLarge { .. })
    ));
}

#[test]
fn owners_are_told_apart() {
    let mut ids = ExportOwnerIds::new();
    let first = ExportOwner::unique_connection(&mut ids);
    let second = ExportOwner::unique_connection(&mut ids);
    assert_ne!(first.id().raw(), second.id().raw());
}

#[test]
fn final_owner_close_error_removes_closing_entry() {
    let mut ids = ExportOwnerIds::new();
    let owner = ExportOwner::unique_connection(&mut ids);
    let name = ExportName::new("disk-a".to_string());
    let mut registry = LocalExportRegistry::new();
    assert_eq!(
        registry.begin_open(&name, owner).expect("open"),
        OpenDecision::Create
    );
    registry.opened(&name, owner);

    assert_eq!(
        registry.begin_close(&name, owner).expect("close"),
        CloseDecision::CloseRuntime
    );
    assert_eq!(
        registry.state(&name),
        Some(ActiveExportState::Closing { owner })
    );
    registry.closed(&name, owner);
    assert_eq!(
        registry.state(&name),
        None,
        "failed final close should not leave a stale Closing entry",
    );
    assert_eq!(
        registry
            .begin_close(&name, owner)
            .expect("close is idempotent after cleanup"),
        CloseDecision::Keep
    );
}

#[test]
fn exports_belong_to_one_owner_at_a_time() {
    let mut ids = ExportOwnerIds::new();
    let owner = ExportOwner::unique_connection(&mut ids);
    let other = ExportOwner::unique_connection(&mut ids);
    let name = ExportName::new("disk-a".to_string());
    let mut registry = LocalExportRegistry::new();

    registry.begin_open(&name, owner).expect("open");
    assert!(matches!(
        registry.begin_open(&name, other),
        Err(ServerError::ExportBusy { .. })
    ));
    registry.open_failed(&name, owner);
    assert_eq!(registry.state(&name), None);

    registry.begin_open(&name, owner).expect("open again");
    registry.opened(&name, owner);
    assert_eq!(
        registry.begin_open(&name, owner).expect("share"),
        OpenDecision::Share
    );
    assert_eq!(
        registry.state(&name),
        Some(ActiveExportState::Open {
            owner,
            connections: 2
        })
    );
    assert!(matches!(
        registry.begin_close(&name, other),
        Err(ServerError::ExportOwnerMismatch { .. })
    ));
    assert_eq!(
        registry.begin_close(&name, owner).expect("first close"),
        CloseDecision::Keep
    );
    assert_eq!(
        registry.begin_close(&name, owner).expect("last close"),
        CloseDecision::CloseRuntime
    );
}

#[test]
fn a_runtime_hands_out_as_many_slots_as_it_has() {
    let mut runtime = RuntimeLifecycle::with_capacity(ExportRuntimeKind::Serial, 1);
    assert_eq!(runtime.kind().name(), "serial");
    let slot = runtime.reserve().expect("open").expect("slot");
    assert!(runtime.reserve().expect("open").is_none());
    runtime.release(slot);
    assert!(runtime.reserve().expect("open").is_some());
}

#[test]
fn a_runtime_closes_its_engine_after_its_jobs() {
    let mut runtime = RuntimeLifecycle::new(ExportRuntimeKind::Concurrent);
    assert_eq!(runtime.kind().name(), "concurrent");
    runtime.begin_submit().expect("submit");
    runtime.close();
    assert!(runtime.ensure_open().is_err());
    assert!(runtime.begin_submit().is_err());
    assert!(matches!(
        runtime.reserve(),
        Err(ServerError::RuntimeClosed { .. })
    ));
    assert!(matches!(runtime.close_step(), CloseStep::WaitForJobs));
    assert!(runtime.finish_job());
    assert!(matches!(runtime.close_step(), CloseStep::CloseEngine));
    runtime.engine_closed(Err(ServerError::io("close engine", "gone".to_string())));
    assert!(matches!(runtime.close_step(), CloseStep::Done(Err(_))));
}

fn job(export: &str, seq: u64) -> CompactionJob {
    CompactionJob::new(ExportId::new(export.to_string()), WalSeq::new(seq))
}

#[test]
fn compaction_jobs_wait_in_a_bounded_queue() {
    let mut manager = CompactionManager::with_queue_capacity(2);
    assert_eq!(manager.enqueue(job("a", 1)), CompactionEnqueueOutcome::Queued);
    assert_eq!(manager.enqueue(job("b", 2)), CompactionEnqueueOutcome::Queued);
    assert_eq!(
        manager.enqueue(job("c", 3)),
        CompactionEnqueueOutcome::DroppedFull
    );
    let first = manager.next_job().expect("job");
    assert_eq!(first.export_id().as_str(), "a");
    assert_eq!(first.through_wal_seq(), WalSeq::new(1));

    manager.request_shutdown();
    assert_eq!(
        manager.enqueue(job("d", 4)),
        CompactionEnqueueOutcome::ShuttingDown
    );
    assert_eq!(manager.shutdown().dropped_pending_jobs(), 1);
}

#[test]
fn the_usual_queue_has_its_usual_size() {
    let mut manager = CompactionManager::new();
    for seq in 0..DEFAULT_COMPACTION_QUEUE_CAPACITY {
        assert_eq!(
            manager.enqueue(job("a", seq as u64 + 1)),
            CompactionEnqueueOutcome::Queued
        );
    }
    assert_eq!(
        manager.enqueue(job("a", 100)),
        CompactionEnqueueOutcome::DroppedFull
    );
}

#[test]
fn connections_are_numbered_from_one_on() {
    let mut ids = ConnectionIds::new();
    assert!(ids.has_next());
    assert_eq!(ConnectionId::next(&mut ids).raw(), 1);
    assert_eq!(ConnectionId::next(&mut ids).raw(), 2);
    assert_ne!(ConnectionId::next(&mut ids), ConnectionId::internal());
}
