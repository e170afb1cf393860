use bytes::Bytes;
use nbd_server::cache_model::{CacheInsertPlacement, CACHE_BLOCK_BYTES};
use nbd_server::catalog::WalSeq;
use nbd_server::range::ByteRange;
use nbd_server::read_cache::ReadCache;
use nbd_server::wal::WalRecord;
use std::sync::Arc;

fn read_all(cache: &ReadCache, range: ByteRange) -> Vec<u8> {
    let mut data = vec![0; range.len() as usize];
    for slice in cache.read_slices(range).expect("cache read") {
        slice.copy_to(range, &mut data).expect("copy cache slice");
    }
    data
}

#[test]
fn adjacent_same_window_fills_merge_and_inherit_lru_position() {
    let mut cache = ReadCache::new(1024);
    cache
        .insert_bytes(
            ByteRange::new(0, 4),
            Bytes::from_static(b"left"),
            CacheInsertPlacement::Hot,
        )
        .expect("insert left");
    let left_id = cache.debug_extents()[0].2;
    cache
        .insert_bytes(
            ByteRange::new(64, 4),
            Bytes::from_static(b"hot!"),
            CacheInsertPlacement::Hot,
        )
        .expect("insert unrelated");

    cache
        .insert_bytes(
            ByteRange::new(4, 5),
            Bytes::from_static(b"right"),
            CacheInsertPlacement::Hot,
        )
        .expect("insert adjacent");

    let extents = cache.debug_extents();
    assert_eq!(extents.len(), 2);
    assert_eq!((extents[0].0, extents[0].1), (0, 9));
    assert_ne!(extents[0].2, left_id);
    assert_eq!(read_all(&cache, ByteRange::new(0, 9)), b"leftright");
    assert_eq!(cache.debug_lru().len(), 2);
    assert_eq!(cache.debug_lru()[1], extents[0].2);
}

#[test]
fn same_window_gap_does_not_merge() {
    let mut cache = ReadCache::new(1024);
    cache
        .insert_bytes(
            ByteRange::new(0, 4),
            Bytes::from_static(b"left"),
            CacheInsertPlacement::Hot,
        )
        .expect("insert left");
    cache
        .insert_bytes(
            ByteRange::new(8, 5),
            Bytes::from_static(b"right"),
            CacheInsertPlacement::Hot,
        )
        .expect("insert right");

    let extents = cache.debug_extents();
    assert_eq!(extents.len(), 2);
    assert_eq!((extents[0].0, extents[0].1), (0, 4));
    assert_eq!((extents[1].0, extents[1].1), (8, 13));
}

#[test]
fn cache_objects_do_not_cross_aligned_cache_blocks() {
    let mut cache = ReadCache::new((CACHE_BLOCK_BYTES * 2) as usize);
    cache
        .insert_bytes(
            ByteRange::new(CACHE_BLOCK_BYTES - 2, 4),
            Bytes::from_static(b"span"),
            CacheInsertPlacement::Hot,
        )
        .expect("insert crossing bytes");

    let extents = cache.debug_extents();
    assert_eq!(extents.len(), 2);
    assert_eq!(
        (extents[0].0, extents[0].1),
        (CACHE_BLOCK_BYTES - 2, CACHE_BLOCK_BYTES)
    );
    assert_eq!(
        (extents[1].0, extents[1].1),
        (CACHE_BLOCK_BYTES, CACHE_BLOCK_BYTES + 2)
    );
}

#[test]
fn eviction_uses_charged_bytes_and_exact_lru() {
    let mut cache = ReadCache::new(8);
    cache
        .insert_bytes(
            ByteRange::new(0, 8),
            Bytes::from_static(b"aaaaaaaa"),
            CacheInsertPlacement::Hot,
        )
        .expect("insert first");
    cache
        .insert_bytes(
            ByteRange::new(16, 8),
            Bytes::from_static(b"bbbbbbbb"),
            CacheInsertPlacement::Hot,
        )
        .expect("insert second");

    assert_eq!(cache.charged_bytes(), 8);
    assert_eq!(cache.debug_extents().len(), 1);
    assert_eq!(
        (cache.debug_extents()[0].0, cache.debug_extents()[0].1),
        (16, 24)
    );
    assert_eq!(cache.debug_lru().len(), 1);
}

#[test]
fn trim_splits_extents_and_drops_empty_objects() {
    let mut cache = ReadCache::new(1024);
    cache
        .insert_bytes(
            ByteRange::new(0, 16),
            Bytes::from_static(b"0123456789abcdef"),
            CacheInsertPlacement::Hot,
        )
        .expect("insert object");

    cache.trim_range(ByteRange::new(4, 8)).expect("trim middle");

    let extents = cache.debug_extents();
    assert_eq!(extents.len(), 2);
    assert_eq!((extents[0].0, extents[0].1, extents[0].3), (0, 4, 0));
    assert_eq!((extents[1].0, extents[1].1, extents[1].3), (12, 16, 12));
    assert_eq!(read_all(&cache, ByteRange::new(0, 4)), b"0123");
    assert_eq!(read_all(&cache, ByteRange::new(12, 4)), b"cdef");

    cache.trim_range(ByteRange::new(0, 16)).expect("trim all");
    assert_eq!(cache.charged_bytes(), 0);
    assert!(cache.debug_extents().is_empty());
    assert!(cache.debug_lru().is_empty());
}

#[test]
fn wal_record_payload_charges_full_record_when_kept() {
    let mut cache = ReadCache::new(1024);
    let record = Arc::new(
        WalRecord::new(WalSeq::new(7), ByteRange::new(0, 4), b"wal!".to_vec())
            .expect("WAL record"),
    );

    cache
        .insert_wal_record_slice(ByteRange::new(0, 4), record, 0, CacheInsertPlacement::Cold)
        .expect("insert WAL cache object");

    assert_eq!(cache.charged_bytes(), 4);
    assert_eq!(cache.debug_wal_seqs(), vec![7]);
    assert_eq!(read_all(&cache, ByteRange::new(0, 4)), b"wal!");
    assert_eq!(cache.debug_lru().len(), 1);
}

#[test]
fn promotion_saves_an_object_from_eviction() {
    let mut cache = ReadCache::new(8);
    cache
        .insert_bytes(
            ByteRange::new(0, 4),
            Bytes::from_static(b"aaaa"),
            CacheInsertPlacement::Hot,
        )
        .expect("insert first");
    let first = cache.debug_extents()[0].2;
    cache
        .insert_bytes(
            ByteRange::new(64, 4),
            Bytes::from_static(b"bbbb"),
            CacheInsertPlacement::Hot,
        )
        .expect("insert second");
    cache.promote_hits(&vec![first]);
    cache
        .insert_bytes(
            ByteRange::new(128, 4),
            Bytes::from_static(b"cccc"),
            CacheInsertPlacement::Hot,
        )
        .expect("insert third");

    assert_eq!(read_all(&cache, ByteRange::new(0, 4)), b"aaaa");
    assert!(cache
        .read_slices(ByteRange::new(64, 4))
        .expect("read")
        .is_empty());
    assert_eq!(read_all(&cache, ByteRange::new(128, 4)), b"cccc");
}

#[test]
fn insertion_replaces_what_was_cached() {
    let mut cache = ReadCache::new(1024);
    cache
        .insert_bytes(
            ByteRange::new(4, 4),
            Bytes::from_static(b"gone"),
            CacheInsertPlacement::Hot,
        )
        .expect("insert first");
    cache
        .insert_bytes(
            ByteRange::new(0, 12),
            Bytes::from_static(b"aaaabbbbcccc"),
            CacheInsertPlacement::Hot,
        )
        .expect("insert around");
    assert_eq!(cache.charged_bytes(), 12);
    assert_eq!(read_all(&cache, ByteRange::new(0, 12)), b"aaaabbbbcccc");
}
