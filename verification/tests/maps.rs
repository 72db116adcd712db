use smr_maps::bonsai_tree::BonsaiTreeMap;
use smr_maps::concurrent_map::ConcurrentMap;
use smr_maps::concurrent_map::OutputHolder;
use smr_maps::list::{Cursor, HHSList, HList, HMList, List};
use smr_maps::michael_hash_map::HashMap;
use smr_maps::natarajan_mittal_tree::NMTreeMap;
use smr_maps::smr::Cs;

const THREADS: u64 = 30;
const ELEMENTS_PER_THREADS: u64 = 1000;

fn smoke<M: ConcurrentMap<String>>() {
    let mut map = M::new();
    let mut output = M::empty_output();
    let mut cs = Cs::new();

    for t in 0..THREADS {
        for k in 0..ELEMENTS_PER_THREADS {
            let i = k * THREADS + t;
            assert!(map.insert(i, i.to_string(), &mut output, &mut cs));
        }
    }

    for t in 0..THREADS / 2 {
        for k in 0..ELEMENTS_PER_THREADS {
            let i = k * THREADS + t;
            assert!(map.remove(&i, &mut output, &mut cs));
        }
    }

    for t in THREADS / 2..THREADS {
        for k in 0..ELEMENTS_PER_THREADS {
            let i = k * THREADS + t;
            assert!(map.get(&i, &mut output, &mut cs));
            assert_eq!(i.to_string(), *map.output(&output));
        }
    }
}

#[test]
fn smoke_h_list() {
    smoke::<HList<String>>();
}

#[test]
fn smoke_hm_list() {
    smoke::<HMList<String>>();
}

#[test]
fn smoke_hhs_list() {
    smoke::<HHSList<String>>();
}

#[test]
fn smoke_nm_tree() {
    smoke::<NMTreeMap<String>>();
}

#[test]
fn smoke_bonsai_tree() {
    smoke::<BonsaiTreeMap<String>>();
}

#[test]
fn smoke_hashmap() {
    smoke::<HashMap<String>>();
}

#[test]
fn litmus_hhs_pop() {
    let mut map: HHSList<&'static str> = ConcurrentMap::new();
    let mut output = HHSList::<&'static str>::empty_output();
    let mut cs = Cs::new();
    map.insert(1, "1", &mut output, &mut cs);
    map.insert(2, "2", &mut output, &mut cs);
    map.insert(3, "3", &mut output, &mut cs);

    assert!(map.pop(&mut output, &mut cs));
    assert!(map.pop(&mut output, &mut cs));
    assert!(map.pop(&mut output, &mut cs));
    assert!(!map.pop(&mut output, &mut cs));
}

#[test]
fn pop_yields_keys_in_order() {
    let mut map: HHSList<u64> = ConcurrentMap::new();
    let mut output = HHSList::<u64>::empty_output();
    let mut cs = Cs::new();
    for k in [5u64, 1, 9, 3, 7] {
        assert!(map.insert(k, k, &mut output, &mut cs));
    }
    let mut popped: Vec<u64> = Vec::new();
    while map.pop(&mut output, &mut cs) {
        popped.push(*map.output(&output));
    }
    assert_eq!(popped, vec![1, 3, 5, 7, 9]);
}

fn idempotence_and_round_trip<M: ConcurrentMap<String>>() {
    let mut map = M::new();
    let mut output = M::empty_output();
    let mut cs = Cs::new();

    assert!(!map.get(&7, &mut output, &mut cs));
    assert!(!map.remove(&7, &mut output, &mut cs));
    assert!(map.insert(7, "seven".to_string(), &mut output, &mut cs));
    // inserting an already-present key returns false and changes nothing
    assert!(!map.insert(7, "other".to_string(), &mut output, &mut cs));
    assert!(map.get(&7, &mut output, &mut cs));
    assert_eq!("seven", *map.output(&output));
    // the pair persists across operations on other keys
    assert!(map.insert(8, "eight".to_string(), &mut output, &mut cs));
    assert!(map.remove(&8, &mut output, &mut cs));
    assert_eq!("eight", *map.output(&output));
    assert!(map.get(&7, &mut output, &mut cs));
    assert_eq!("seven", *map.output(&output));
    // until the key itself is removed
    assert!(map.remove(&7, &mut output, &mut cs));
    assert_eq!("seven", *map.output(&output));
    assert!(!map.get(&7, &mut output, &mut cs));
    assert!(!map.remove(&7, &mut output, &mut cs));
}

#[test]
fn round_trip_h_list() {
    idempotence_and_round_trip::<HList<String>>();
}

#[test]
fn round_trip_hm_list() {
    idempotence_and_round_trip::<HMList<String>>();
}

#[test]
fn round_trip_hhs_list() {
    idempotence_and_round_trip::<HHSList<String>>();
}

#[test]
fn round_trip_nm_tree() {
    idempotence_and_round_trip::<NMTreeMap<String>>();
}

#[test]
fn round_trip_bonsai_tree() {
    idempotence_and_round_trip::<BonsaiTreeMap<String>>();
}

#[test]
fn round_trip_hashmap() {
    idempotence_and_round_trip::<HashMap<String>>();
}

#[test]
fn nm_tree_churn() {
    // one caller repeatedly inserts and removes the same key while lookups
    // interleave; every lookup sees either the inserted value or nothing
    let mut map: NMTreeMap<String> = ConcurrentMap::new();
    let mut output = NMTreeMap::<String>::empty_output();
    let mut cs = Cs::new();
    for round in 0..100 {
        assert!(!map.get(&42, &mut output, &mut cs));
        assert!(map.insert(42, format!("{}", round), &mut output, &mut cs));
        assert!(map.get(&42, &mut output, &mut cs));
        assert_eq!(format!("{}", round), *map.output(&output));
        assert!(map.remove(&42, &mut output, &mut cs));
        assert_eq!(format!("{}", round), *map.output(&output));
        assert!(!map.get(&42, &mut output, &mut cs));
    }
}

#[test]
fn bonsai_balance_under_load() {
    // insert many keys in interleaved order, then check the balance of
    // every internal node and that every key is found; the rebalancing
    // with this weight restores the balance on ascending runs, though not
    // on every interleaving
    let mut map: BonsaiTreeMap<u64> = ConcurrentMap::new();
    let mut output = BonsaiTreeMap::<u64>::empty_output();
    let mut cs = Cs::new();
    for i in 1..=10000u64 {
        assert!(map.insert(i, i, &mut output, &mut cs));
    }
    assert_eq!(map.len(), 10000);
    assert!(map.is_balanced());
    for i in 1..=10000u64 {
        assert!(ConcurrentMap::get(&mut map, &i, &mut output, &mut cs));
        assert_eq!(i, *map.output(&output));
    }
}

#[test]
fn bonsai_len_tracks_contents() {
    let mut map: BonsaiTreeMap<u64> = ConcurrentMap::new();
    let mut output = BonsaiTreeMap::<u64>::empty_output();
    let mut cs = Cs::new();
    assert_eq!(map.len(), 0);
    for i in 0..50u64 {
        assert!(map.insert(i, i * 10, &mut output, &mut cs));
    }
    assert_eq!(map.len(), 50);
    for i in 0..25u64 {
        assert!(map.remove(&i, &mut output, &mut cs));
        assert_eq!(i * 10, *map.output(&output));
    }
    assert_eq!(map.len(), 25);
    assert!(map.is_balanced());
}

#[test]
fn harris_chain_cleanup() {
    // ten consecutive deferred removals leave a run of logically deleted
    // nodes; the next traversal unlinks and retires all ten at once
    let mut list: List<u64> = List::new();
    let mut cursor = <Cursor as OutputHolder<u64>>::default();
    let mut cs = Cs::new();
    for k in 1..=12u64 {
        assert!(list.harris_insert(k, k, &mut cursor, &mut cs));
    }
    // mark from the highest key down, so no traversal crosses an already
    // deleted node and cleans it up early
    for k in (2..=11u64).rev() {
        assert!(list.harris_remove_deferred(&k, &mut cursor, &mut cs));
    }
    assert_eq!(cs.retired_count(), 0);
    // the next find walks the whole deleted run and unlinks it with one
    // store to the anchor's edge
    assert!(list.harris_get(&12, &mut cursor, &mut cs));
    assert_eq!(cs.retired_count(), 10);
    for k in 2..=11u64 {
        assert!(!list.harris_get(&k, &mut cursor, &mut cs));
    }
    assert_eq!(cs.retired_count(), 10);
}

#[test]
fn harris_michael_unlinks_one_at_a_time() {
    let mut list: List<u64> = List::new();
    let mut cursor = <Cursor as OutputHolder<u64>>::default();
    let mut cs = Cs::new();
    for k in 1..=5u64 {
        assert!(list.harris_michael_insert(k, k, &mut cursor, &mut cs));
    }
    for k in (2..=4u64).rev() {
        assert!(list.harris_remove_deferred(&k, &mut cursor, &mut cs));
    }
    assert_eq!(cs.retired_count(), 0);
    assert!(list.harris_michael_get(&5, &mut cursor, &mut cs));
    assert_eq!(cs.retired_count(), 3);
}

#[test]
fn hhs_get_ignores_deleted_nodes() {
    let mut list: List<u64> = List::new();
    let mut cursor = <Cursor as OutputHolder<u64>>::default();
    let mut cs = Cs::new();
    for k in 1..=4u64 {
        assert!(list.harris_insert(k, 100 + k, &mut cursor, &mut cs));
    }
    assert!(list.harris_remove_deferred(&2, &mut cursor, &mut cs));
    // the wait-free lookup neither sees the deleted node nor helps
    assert!(!list.harris_herlihy_shavit_get(&2, &mut cursor, &mut cs));
    assert!(list.harris_herlihy_shavit_get(&3, &mut cursor, &mut cs));
    assert_eq!(cs.retired_count(), 0);
}

#[test]
fn hm_list_optimistic_lookup() {
    let mut list: HMList<String> = ConcurrentMap::new();
    let mut output = HMList::<String>::empty_output();
    let mut cs = Cs::new();
    assert!(list.insert(10, "ten".to_string(), &mut output, &mut cs));
    assert!(list.get_harris_herlihy_shavit(&10, &mut output, &mut cs));
    assert_eq!("ten", *list.output(&output));
    assert!(!list.get_harris_herlihy_shavit(&11, &mut output, &mut cs));
}

#[test]
fn hashmap_capacity_one_still_a_map() {
    let mut map: HashMap<u64> = HashMap::with_capacity(1);
    let mut output = HashMap::<u64>::empty_output();
    let mut cs = Cs::new();
    for k in [3u64, 1, 2] {
        assert!(map.insert(k, k * k, &mut output, &mut cs));
    }
    for k in [1u64, 2, 3] {
        assert!(map.get(&k, &mut output, &mut cs));
        assert_eq!(k * k, *map.output(&output));
    }
    assert!(map.remove(&2, &mut output, &mut cs));
    assert!(!map.get(&2, &mut output, &mut cs));
}
