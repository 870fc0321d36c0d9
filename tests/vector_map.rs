use cw_snapshot_vector_map::{
    BlockInfo, Duration, Expiration, LoadedItem, SnapshotVectorMap, VectorMapError,
};

fn at(height: u64) -> BlockInfo {
    BlockInfo { height, time: 1_571_797_419_879_305_533 + height * 5_000_000_000 }
}

fn ids(items: &[LoadedItem<&'static str>]) -> Vec<u64> {
    items.iter().map(|i| i.id).collect()
}

const K1: &[u8] = b"k1";
const K2: &[u8] = b"k2";

#[test]
fn example_scenario() {
    let mut m: SnapshotVectorMap<&'static str> = SnapshotVectorMap::new();
    assert_eq!(m.push(K1, "a", &at(100), None), 0);
    assert_eq!(m.push(K1, "b", &at(105), Some(Duration::Height(10))), 1);

    let both = vec![
        LoadedItem { id: 0, item: "a", expiration: None },
        LoadedItem { id: 1, item: "b", expiration: Some(Expiration::AtHeight(115)) },
    ];
    assert_eq!(m.load(K1, &at(110), None, None), both);
    assert_eq!(
        m.load(K1, &at(120), None, None),
        vec![LoadedItem { id: 0, item: "a", expiration: None }]
    );

    m.remove(K1, 0, &at(120));
    assert_eq!(m.load(K1, &at(120), None, None), vec![]);
    assert_eq!(m.load(K1, &at(110), None, None), both);
}

#[test]
fn ids_are_sequential_and_never_reused() {
    let mut m: SnapshotVectorMap<&'static str> = SnapshotVectorMap::new();
    assert_eq!(m.next_id(K1), 0);
    assert_eq!(m.push(K1, "a", &at(1), None), 0);
    assert_eq!(m.push(K1, "b", &at(2), None), 1);
    m.remove(K1, 1, &at(3));
    m.remove(K1, 0, &at(3));
    assert_eq!(m.push(K1, "c", &at(4), None), 2);
    assert_eq!(m.next_id(K1), 3);
    assert_eq!(m.load_item(K1, 2), Ok("c"));
    // another key counts from zero
    assert_eq!(m.push(K2, "x", &at(4), None), 0);
}

#[test]
fn active_set_follows_pushes_removes_and_expirations() {
    let mut m: SnapshotVectorMap<&'static str> = SnapshotVectorMap::new();
    m.push(K1, "a", &at(10), None);
    m.push(K1, "b", &at(10), Some(Duration::Height(5)));
    m.push(K1, "c", &at(12), None);
    m.remove(K1, 0, &at(13));
    m.push(K1, "d", &at(20), None);

    assert_eq!(ids(&m.load(K1, &at(9), None, None)), Vec::<u64>::new());
    assert_eq!(ids(&m.load(K1, &at(10), None, None)), vec![0, 1]);
    assert_eq!(ids(&m.load(K1, &at(12), None, None)), vec![0, 1, 2]);
    assert_eq!(ids(&m.load(K1, &at(13), None, None)), vec![1, 2]);
    assert_eq!(ids(&m.load(K1, &at(14), None, None)), vec![1, 2]);
    assert_eq!(ids(&m.load(K1, &at(15), None, None)), vec![2]);
    assert_eq!(ids(&m.load(K1, &at(20), None, None)), vec![2, 3]);
    assert_eq!(ids(&m.load(K2, &at(20), None, None)), Vec::<u64>::new());
}

#[test]
fn history_is_fixed_once_written() {
    let mut m: SnapshotVectorMap<&'static str> = SnapshotVectorMap::new();
    m.push(K1, "a", &at(5), None);
    m.push(K1, "b", &at(5), None);
    let before = m.load(K1, &at(5), None, None);
    m.remove(K1, 0, &at(6));
    m.push(K1, "c", &at(7), None);
    m.remove(K1, 1, &at(8));
    assert_eq!(m.load(K1, &at(5), None, None), before);
    assert_eq!(ids(&before), vec![0, 1]);
    assert_eq!(ids(&m.load(K1, &at(8), None, None)), vec![2]);
}

#[test]
fn expired_entry_leaves_loads_but_stays_readable() {
    let mut m: SnapshotVectorMap<&'static str> = SnapshotVectorMap::new();
    m.push(K1, "a", &at(100), Some(Duration::Height(3)));
    assert_eq!(ids(&m.load(K1, &at(102), None, None)), vec![0]);
    assert_eq!(ids(&m.load(K1, &at(103), None, None)), Vec::<u64>::new());
    // no later write has dropped it, yet it is gone from loads
    assert_eq!(ids(&m.load(K1, &at(1000), None, None)), Vec::<u64>::new());
    m.push(K1, "b", &at(200), None);
    assert_eq!(ids(&m.load(K1, &at(200), None, None)), vec![1]);
    assert_eq!(m.load_item(K1, 0), Ok("a"));
    assert_eq!(m.may_load_item(K1, 0), Some("a"));
}

#[test]
fn time_expiration_is_measured_in_seconds() {
    let mut m: SnapshotVectorMap<&'static str> = SnapshotVectorMap::new();
    let start = BlockInfo { height: 1, time: 1_000_000_000 };
    m.push(K1, "a", &start, Some(Duration::Time(30)));
    let loaded = m.load(K1, &start, None, None);
    assert_eq!(loaded[0].expiration, Some(Expiration::AtTime(31_000_000_000)));
    let before = BlockInfo { height: 2, time: 30_999_999_999 };
    let after = BlockInfo { height: 2, time: 31_000_000_000 };
    assert_eq!(ids(&m.load(K1, &before, None, None)), vec![0]);
    assert_eq!(ids(&m.load(K1, &after, None, None)), Vec::<u64>::new());
}

#[test]
fn remove_twice_is_remove_once() {
    let mut once: SnapshotVectorMap<&'static str> = SnapshotVectorMap::new();
    let mut twice: SnapshotVectorMap<&'static str> = SnapshotVectorMap::new();
    for m in [&mut once, &mut twice] {
        m.push(K1, "a", &at(1), None);
        m.push(K1, "b", &at(1), None);
        m.remove(K1, 0, &at(2));
    }
    twice.remove(K1, 0, &at(3));
    assert_eq!(once.load(K1, &at(3), None, None), twice.load(K1, &at(3), None, None));
    assert_eq!(ids(&twice.load(K1, &at(3), None, None)), vec![1]);
}

#[test]
fn remove_of_absent_id_changes_nothing() {
    let mut m: SnapshotVectorMap<&'static str> = SnapshotVectorMap::new();
    m.push(K1, "a", &at(1), None);
    m.remove(K1, 7, &at(2));
    assert_eq!(ids(&m.load(K1, &at(2), None, None)), vec![0]);
    m.remove(K2, 0, &at(2));
    assert_eq!(ids(&m.load(K2, &at(2), None, None)), Vec::<u64>::new());
}

#[test]
fn pages_tile_the_full_result() {
    let mut m: SnapshotVectorMap<&'static str> = SnapshotVectorMap::new();
    for item in ["a", "b", "c", "d", "e", "f", "g"] {
        m.push(K1, item, &at(1), None);
    }
    let full = m.load(K1, &at(1), None, None);
    assert_eq!(full.len(), 7);
    let mut joined: Vec<LoadedItem<&'static str>> = Vec::new();
    let mut offset: u64 = 0;
    loop {
        let page = m.load(K1, &at(1), Some(3), Some(offset));
        if page.is_empty() {
            break;
        }
        joined.extend(page);
        offset += 3;
    }
    assert_eq!(joined, full);
    assert_eq!(ids(&m.load(K1, &at(1), Some(2), Some(5))), vec![5, 6]);
    assert_eq!(ids(&m.load(K1, &at(1), Some(0), None)), Vec::<u64>::new());
    assert_eq!(ids(&m.load(K1, &at(1), None, Some(9))), Vec::<u64>::new());
    assert_eq!(ids(&m.load(K1, &at(1), Some(u64::MAX), Some(6))), vec![6]);
}

#[test]
fn paging_skips_expired_entries() {
    let mut m: SnapshotVectorMap<&'static str> = SnapshotVectorMap::new();
    m.push(K1, "a", &at(1), Some(Duration::Height(1)));
    m.push(K1, "b", &at(1), None);
    m.push(K1, "c", &at(1), None);
    assert_eq!(ids(&m.load(K1, &at(5), Some(1), Some(1))), vec![2]);
}

#[test]
fn missing_item_is_not_found() {
    let mut m: SnapshotVectorMap<&'static str> = SnapshotVectorMap::new();
    assert_eq!(m.load_item(K1, 0), Err(VectorMapError::NotFound));
    assert_eq!(m.may_load_item(K1, 0), None);
    m.push(K1, "a", &at(1), None);
    assert_eq!(m.load_item(K1, 1), Err(VectorMapError::NotFound));
    assert_eq!(m.load_item(K2, 0), Err(VectorMapError::NotFound));
    assert_eq!(m.load_item(K1, 0), Ok("a"));
}

#[test]
fn expiration_and_duration_arithmetic() {
    let b = BlockInfo { height: 50, time: 7_000_000_000 };
    assert_eq!(Duration::Height(5).after(&b), Expiration::AtHeight(55));
    assert_eq!(Duration::Time(2).after(&b), Expiration::AtTime(9_000_000_000));
    assert!(Expiration::AtHeight(50).is_expired(&b));
    assert!(!Expiration::AtHeight(51).is_expired(&b));
    assert!(Expiration::AtTime(7_000_000_000).is_expired(&b));
    assert!(!Expiration::AtTime(7_000_000_001).is_expired(&b));
    assert!(!Expiration::Never.is_expired(&b));
}
