use process_hits::hits::Hit;
use process_hits::tally::{ResultRecord, Tally};
use process_hits::target_map::TargetMap;

#[test]
fn new_tally_is_empty() {
    let tally = Tally::new(3);
    assert_eq!(tally.len(), 0);
    assert_eq!(tally.query_id(), 4);
    assert_eq!(tally.records(), vec![]);
}

#[test]
fn merge_inserts_then_appends() {
    let mut tally = Tally::new(0);
    tally.merge(5, 10);
    assert_eq!(tally.len(), 1);
    assert_eq!(tally.addends(0), &vec![10]);
    tally.merge(5, 20);
    assert_eq!(tally.len(), 1);
    assert_eq!(tally.addends(0), &vec![10, 20]);
    tally.merge(2, 30);
    assert_eq!(tally.len(), 2);
    assert_eq!(tally.target_id(0), 3);
    assert_eq!(tally.target_id(1), 6);
    assert_eq!(tally.addends(0), &vec![30]);
    assert_eq!(tally.addends(1), &vec![10, 20]);
}

#[test]
fn merge_all_merges_in_order() {
    let mut tally = Tally::new(1);
    tally.merge(4, 1);
    let hits = vec![
        Hit { target: 9, score: 2 },
        Hit { target: 4, score: 3 },
        Hit { target: 0, score: 4 },
        Hit { target: 9, score: 5 },
    ];
    tally.merge_all(&hits);
    assert_eq!(
        tally.records(),
        vec![
            ResultRecord { query_id: 2, target_id: 1, addends: vec![4] },
            ResultRecord { query_id: 2, target_id: 5, addends: vec![1, 3] },
            ResultRecord { query_id: 2, target_id: 10, addends: vec![2, 5] },
        ]
    );
    tally.merge_all(&Vec::new());
    assert_eq!(tally.len(), 3);
}

#[test]
fn target_map_finds_entries_and_gaps() {
    let mut map: TargetMap<u32> = TargetMap::new();
    assert_eq!(map.len(), 0);
    assert_eq!(map.find(7), Err(0));
    map.insert_at(0, 7, 70);
    assert_eq!(map.find(7), Ok(0));
    assert_eq!(map.find(3), Err(0));
    assert_eq!(map.find(9), Err(1));
    map.insert_at(1, 9, 90);
    map.insert_at(0, 3, 30);
    assert_eq!(map.len(), 3);
    assert_eq!(map.find(3), Ok(0));
    assert_eq!(map.find(7), Ok(1));
    assert_eq!(map.find(9), Ok(2));
    assert_eq!(map.find(8), Err(2));
    assert_eq!(map.find(0), Err(0));
    assert_eq!(map.find(usize::MAX), Err(3));
    assert_eq!((map.target(1), *map.value(1)), (7, 70));
}

#[test]
fn target_map_replaces_values() {
    let mut map: TargetMap<u32> = TargetMap::new();
    map.insert_at(0, 2, 20);
    map.insert_at(1, 4, 40);
    assert_eq!(map.replace(1, 41), 40);
    assert_eq!(*map.value(1), 41);
    assert_eq!(map.target(1), 4);
    assert_eq!(*map.value(0), 20);
}

#[test]
fn target_map_finds_every_key_of_a_long_list() {
    let mut map: TargetMap<usize> = TargetMap::new();
    for k in 0..100usize {
        let at = map.find(3 * k + 1).unwrap_err();
        map.insert_at(at, 3 * k + 1, k);
    }
    for k in 0..100usize {
        assert_eq!(map.find(3 * k + 1), Ok(k));
        assert_eq!(map.find(3 * k), Err(k));
        assert_eq!(map.find(3 * k + 2), Err(k + 1));
    }
}
