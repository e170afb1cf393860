use nbd_server::error::ServerError;
use nbd_server::extent_map::{ExtentEntry, ExtentMap};
use nbd_server::gaps::gaps_in_range;
use nbd_server::range::ByteRange;

#[derive(Debug, Clone, PartialEq, Eq)]
struct Payload {
    id: &'static str,
    offset: u64,
}

fn payload(id: &'static str, offset: u64) -> Payload {
    Payload { id, offset }
}

fn split(payload: &Payload, delta: u64) -> Payload {
    Payload {
        id: payload.id,
        offset: payload.offset + delta,
    }
}

fn entries(map: &ExtentMap<Payload>) -> Vec<(u64, u64, Payload)> {
    map.iter()
        .into_iter()
        .map(|extent| (extent.start(), extent.end(), extent.value().clone()))
        .collect()
}

#[test]
fn overwrite_middle_preserves_left_and_right_tails() {
    let mut map = ExtentMap::new();
    map.insert_exact(0, 8, payload("A", 0)).expect("insert A");

    map.insert_overwrite_with_split(4, 6, payload("B", 0), split)
        .expect("overwrite middle");

    assert_eq!(
        entries(&map),
        vec![
            (0, 4, payload("A", 0)),
            (4, 6, payload("B", 0)),
            (6, 8, payload("A", 6)),
        ],
    );
}

#[test]
fn overwrite_same_range_replaces_existing_extent() {
    let mut map = ExtentMap::new();
    map.insert_exact(0, 4, payload("A", 0)).expect("insert A");

    let removed = map
        .insert_overwrite_with_split(0, 4, payload("B", 0), split)
        .expect("overwrite");

    assert_eq!(
        removed
            .into_iter()
            .map(ExtentEntry::into_parts)
            .collect::<Vec<_>>(),
        vec![(0, 4, payload("A", 0))],
    );
    assert_eq!(entries(&map), vec![(0, 4, payload("B", 0))]);
}

#[test]
fn remove_range_splits_existing_extent() {
    let mut map = ExtentMap::new();
    map.insert_exact(0, 8, payload("A", 0)).expect("insert A");

    map.remove_range_with_split(2, 6, split)
        .expect("remove middle");

    assert_eq!(
        entries(&map),
        vec![(0, 2, payload("A", 0)), (6, 8, payload("A", 6))],
    );
}

#[test]
fn overlapping_includes_extent_that_starts_before_query() {
    let mut map = ExtentMap::new();
    map.insert_exact(0, 8, payload("A", 0)).expect("insert A");
    map.insert_exact(12, 16, payload("B", 0)).expect("insert B");

    let overlapping = map
        .overlapping(6, 14)
        .expect("overlap")
        .into_iter()
        .map(|extent| (extent.start(), extent.end(), extent.value().clone()))
        .collect::<Vec<_>>();

    assert_eq!(
        overlapping,
        vec![(0, 8, payload("A", 0)), (12, 16, payload("B", 0))],
    );
}

#[test]
fn insert_exact_rejects_overlap() {
    let mut map = ExtentMap::new();
    map.insert_exact(4, 8, payload("A", 0)).expect("insert A");

    assert!(map.insert_exact(0, 5, payload("B", 0)).is_err());
    assert!(map.insert_exact(7, 10, payload("B", 0)).is_err());
}

#[test]
fn unordered_extents_are_refused() {
    let mut map: ExtentMap<Payload> = ExtentMap::new();
    assert!(map.insert_exact(4, 4, payload("A", 0)).is_err());
    assert!(map.overlapping(9, 3).is_err());
    assert!(ExtentEntry::new(5, 2, payload("A", 0)).is_err());
    assert!(map.is_empty());
}

#[test]
fn validation_names_the_first_fault() {
    let entry = |start: u64, end: u64| ExtentEntry {
        start,
        end,
        value: payload("A", 0),
    };
    let message = |entries: Vec<ExtentEntry<Payload>>| match ExtentMap::from_entries(entries)
        .validate()
    {
        Ok(()) => String::new(),
        Err(ServerError::Wal { context, message }) => format!("{context}: {message}"),
        Err(other) => panic!("{other:?}"),
    };
    assert_eq!(message(vec![entry(0, 4), entry(4, 6)]), "");
    assert_eq!(
        message(vec![entry(0, 4), entry(3, 6), entry(9, 9)]),
        "extent map: extent map contains overlapping entries"
    );
    assert_eq!(
        message(vec![entry(0, 4), entry(9, 9), entry(3, 6)]),
        "extent map: extent start 9 must be before end 9"
    );
}

#[test]
fn gaps_are_what_no_span_covers() {
    let gaps = |spans: Vec<(u64, u64)>| {
        gaps_in_range(ByteRange::new(10, 10), &spans).map(|gaps| {
            gaps.iter()
                .map(|gap| (gap.start(), gap.end()))
                .collect::<Vec<(u64, u64)>>()
        })
    };
    assert_eq!(gaps(vec![]).unwrap(), vec![(10, 20)]);
    assert_eq!(
        gaps(vec![(14, 16), (12, 13)]).unwrap(),
        vec![(10, 12), (13, 14), (16, 20)]
    );
    assert_eq!(gaps(vec![(0, 5)]).unwrap(), vec![(10, 20)]);
    assert_eq!(gaps(vec![(5, 12), (18, 40)]).unwrap(), vec![(12, 18)]);
    assert_eq!(gaps(vec![(12, 30), (40, 50)]).unwrap(), vec![(10, 12)]);
    assert_eq!(
        gaps(vec![(12, 14), (40, 50), (30, 35)]).unwrap(),
        vec![(10, 12), (14, 30)]
    );
    assert!(gaps(vec![(1 << 40, 1 << 41)]).is_err());
}
