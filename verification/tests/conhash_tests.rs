use conhash::assign::{assign, place_item};
use conhash::item::Item;
use conhash::position_of;
use conhash::rebalance::{compute_moves, rebalance};
use conhash::ring::{Ring, ShardInfo, ShardLabel};
use conhash::store::ShardStore;

fn label(position: u64, shard: usize) -> ShardLabel {
    ShardLabel { position, shard }
}

/// Ring with shard 0 ("A") labelled at 10 and shard 1 ("B") at 200.
fn two_shard_ring() -> Ring {
    let mut ring = Ring::new(label(10, 0));
    ring.insert_label(label(200, 1));
    ring
}

/// The two-shard ring, a four-slot store, and items with ids 1, 2, 3 at
/// positions 5, 50, 250 placed on it.
fn scenario() -> (Ring, ShardStore) {
    let ring = two_shard_ring();
    let mut store = ShardStore::new(4);
    place_item(&ring, &mut store, Item::at_position(1, 5, String::from("five")));
    place_item(&ring, &mut store, Item::at_position(2, 50, String::from("fifty")));
    place_item(
        &ring,
        &mut store,
        Item::at_position(3, 250, String::from("two-fifty")),
    );
    (ring, store)
}

fn owner_count(store: &ShardStore, id: u128) -> usize {
    let mut count = 0;
    for s in 0..store.num_shards() {
        let bucket = store.items_of(s);
        for i in 0..bucket.len() {
            if bucket[i].id == id {
                count += 1;
            }
        }
    }
    count
}

#[test]
fn position_is_deterministic() {
    let a = position_of("alpha");
    let b = position_of("alpha");
    assert_eq!(a, b);
    assert_eq!(position_of(""), position_of(""));
}

#[test]
fn item_position_comes_from_content() {
    let item = Item::new(7, String::from("alpha"));
    assert_eq!(item.position, position_of("alpha"));
    assert_eq!(item.id, 7);
    assert_eq!(item.content, "alpha");
    let again = Item::new(8, String::from("alpha"));
    assert_eq!(item.position, again.position);
}

#[test]
fn duplicate_preserves_item() {
    let item = Item::at_position(9, 42, String::from("payload"));
    let copy = item.duplicate();
    assert_eq!(copy.id, 9);
    assert_eq!(copy.position, 42);
    assert_eq!(copy.content, "payload");
}

#[test]
fn assign_is_deterministic() {
    let ring = two_shard_ring();
    assert_eq!(assign(&ring, 123), assign(&ring, 123));
    assert_eq!(assign(&ring, 5), assign(&ring, 5));
}

#[test]
fn assign_always_names_a_ring_shard() {
    let mut ring = two_shard_ring();
    ring.insert_label(label(100, 2));
    ring.insert_label(label(30, 3));
    for q in [0u64, 9, 10, 11, 29, 30, 150, 200, 300, u64::MAX] {
        let s = assign(&ring, q);
        let mut found = false;
        for i in 0..ring.len() {
            if ring.label_at(i).shard == s {
                found = true;
            }
        }
        assert!(found);
    }
}

#[test]
fn wrap_resolves_to_smallest_label() {
    let ring = two_shard_ring();
    // 5 lies below every label, so it wraps to the smallest label, at 10.
    assert_eq!(assign(&ring, 5), 0);
    let got = ring.predecessor_or_wrap(5);
    assert_eq!(got.position, 10);
    assert_eq!(got.shard, 0);
}

#[test]
fn predecessor_resolves_to_lower_neighbor() {
    let ring = two_shard_ring();
    // 50 lies strictly between 10 and 200 with nothing in between.
    assert_eq!(assign(&ring, 50), 0);
    // 250 lies above the greatest label, 200.
    assert_eq!(assign(&ring, 250), 1);
}

#[test]
fn query_on_exact_label_position_resolves_to_it() {
    let ring = two_shard_ring();
    let got = ring.predecessor_or_wrap(200);
    assert_eq!(got.position, 200);
    assert_eq!(got.shard, 1);
    let got = ring.predecessor_or_wrap(10);
    assert_eq!(got.position, 10);
    assert_eq!(got.shard, 0);
}

#[test]
fn linear_and_binary_search_agree() {
    let mut ring = two_shard_ring();
    ring.insert_label(label(100, 2));
    ring.insert_label(label(30, 3));
    for q in [
        0u64,
        9,
        10,
        11,
        29,
        30,
        31,
        99,
        100,
        101,
        199,
        200,
        201,
        100_000,
        u64::MAX,
    ] {
        let fast = ring.predecessor_or_wrap(q);
        let slow = ring.predecessor_linear(q);
        assert_eq!(fast.position, slow.position);
        assert_eq!(fast.shard, slow.shard);
    }
}

#[test]
fn insert_replaces_label_at_equal_position() {
    let mut ring = Ring::new(label(100, 0));
    ring.insert_label(label(100, 2));
    assert_eq!(ring.len(), 1);
    let only = ring.label_at(0);
    assert_eq!(only.position, 100);
    assert_eq!(only.shard, 2);
}

#[test]
fn snapshot_is_unaffected_by_later_inserts() {
    let ring = two_shard_ring();
    let snap = ring.snapshot();
    let mut live = ring;
    live.insert_label(label(100, 2));
    assert_eq!(snap.len(), 2);
    assert_eq!(live.len(), 3);
    assert_eq!(snap.label_at(0).position, 10);
    assert_eq!(snap.label_at(1).position, 200);
}

#[test]
fn placement_follows_assignment() {
    let (ring, store) = scenario();
    assert_eq!(assign(&ring, 5), 0);
    assert_eq!(assign(&ring, 50), 0);
    assert_eq!(assign(&ring, 250), 1);
    let shard0 = store.items_of(0);
    assert_eq!(shard0.len(), 2);
    assert_eq!(shard0[0].id, 1);
    assert_eq!(shard0[1].id, 2);
    let shard1 = store.items_of(1);
    assert_eq!(shard1.len(), 1);
    assert_eq!(shard1[0].id, 3);
}

#[test]
fn items_enumerate_in_position_order() {
    let mut store = ShardStore::new(1);
    store.add(0, Item::at_position(1, 50, String::from("c")));
    store.add(0, Item::at_position(2, 10, String::from("a")));
    store.add(0, Item::at_position(3, 30, String::from("b")));
    let bucket = store.items_of(0);
    assert_eq!(bucket.len(), 3);
    assert_eq!(bucket[0].position, 10);
    assert_eq!(bucket[1].position, 30);
    assert_eq!(bucket[2].position, 50);
}

#[test]
fn remove_reports_presence() {
    let mut store = ShardStore::new(2);
    store.add(0, Item::at_position(1, 10, String::from("a")));
    assert!(!store.remove(1, 1));
    assert!(!store.remove(0, 2));
    assert!(store.remove(0, 1));
    assert_eq!(store.items_of(0).len(), 0);
    assert!(!store.remove(0, 1));
}

#[test]
fn growth_that_captures_nothing_moves_nothing() {
    let (mut ring, mut store) = scenario();
    // Shard 2 ("C") gets a label at 100: no item's predecessor changes.
    let plan = rebalance(&mut ring, &mut store, &vec![label(100, 2)]);
    assert_eq!(plan.len(), 0);
    assert_eq!(store.items_of(0).len(), 2);
    assert_eq!(store.items_of(1).len(), 1);
    assert_eq!(store.items_of(2).len(), 0);
}

#[test]
fn growth_that_captures_an_arc_moves_exactly_its_items() {
    let (mut ring, mut store) = scenario();
    // Shard 3 ("D") gets a label at 30: the item at 50 now has predecessor
    // 30 and relocates from shard 0 to shard 3; 5 and 250 are unaffected.
    let plan = rebalance(&mut ring, &mut store, &vec![label(30, 3)]);
    assert_eq!(plan.len(), 1);
    let m = plan.get(0);
    assert_eq!(m.item.id, 2);
    assert_eq!(m.from, 0);
    assert_eq!(m.to, 3);
    let shard0 = store.items_of(0);
    assert_eq!(shard0.len(), 1);
    assert_eq!(shard0[0].id, 1);
    let shard3 = store.items_of(3);
    assert_eq!(shard3.len(), 1);
    assert_eq!(shard3[0].id, 2);
    assert_eq!(shard3[0].content, "fifty");
    assert_eq!(store.items_of(1).len(), 1);
}

#[test]
fn relocated_iff_assignment_changed() {
    let (mut ring, mut store) = scenario();
    let old_ring = ring.snapshot();
    let plan = rebalance(&mut ring, &mut store, &vec![label(30, 3)]);
    for (id, pos) in [(1u128, 5u64), (2, 50), (3, 250)] {
        let changed = assign(&ring, pos) != assign(&old_ring, pos);
        assert_eq!(plan.contains_id(id), changed);
    }
    assert!(plan.contains_id(2));
    assert!(!plan.contains_id(1));
    assert!(!plan.contains_id(3));
}

#[test]
fn every_item_has_exactly_one_owner() {
    let (mut ring, mut store) = scenario();
    for id in 1u128..=3 {
        assert_eq!(owner_count(&store, id), 1);
    }
    rebalance(&mut ring, &mut store, &vec![label(100, 2)]);
    rebalance(&mut ring, &mut store, &vec![label(30, 3)]);
    for id in 1u128..=3 {
        assert_eq!(owner_count(&store, id), 1);
    }
}

#[test]
fn adding_zero_shards_is_a_no_op() {
    let (mut ring, mut store) = scenario();
    let none: Vec<ShardLabel> = Vec::new();
    let plan = rebalance(&mut ring, &mut store, &none);
    assert_eq!(plan.len(), 0);
    assert_eq!(ring.len(), 2);
    let shard0 = store.items_of(0);
    assert_eq!(shard0.len(), 2);
    assert_eq!(shard0[0].id, 1);
    assert_eq!(shard0[1].id, 2);
    assert_eq!(store.items_of(1).len(), 1);
}

#[test]
fn compute_moves_records_origin_and_destination() {
    let (mut ring, store) = scenario();
    ring.insert_label(label(30, 3));
    let plan = compute_moves(&ring, &store);
    assert_eq!(plan.len(), 1);
    let m = plan.get(0);
    assert_eq!((m.from, m.to, m.item.id, m.item.position), (0, 3, 2, 50));
}

#[test]
fn shard_info_pairs_name_and_key() {
    let info = ShardInfo {
        shard_name: String::from("shard_0"),
        shard_key: 10,
    };
    assert_eq!(info.shard_name, "shard_0");
    assert_eq!(info.shard_key, 10);
}

#[test]
fn items_at_equal_positions_coexist_and_move_together() {
    let mut ring = two_shard_ring();
    let mut store = ShardStore::new(3);
    place_item(&ring, &mut store, Item::at_position(1, 50, String::from("a")));
    place_item(&ring, &mut store, Item::at_position(2, 50, String::from("b")));
    assert_eq!(store.items_of(0).len(), 2);
    // A new label at 40 captures position 50: both colliding items relocate.
    let plan = rebalance(&mut ring, &mut store, &vec![label(40, 2)]);
    assert_eq!(plan.len(), 2);
    assert!(plan.contains_id(1));
    assert!(plan.contains_id(2));
    assert_eq!(store.items_of(0).len(), 0);
    assert_eq!(store.items_of(2).len(), 2);
    assert_eq!(owner_count(&store, 1), 1);
    assert_eq!(owner_count(&store, 2), 1);
}

#[test]
fn label_at_zero_leaves_nothing_to_wrap() {
    let mut ring = Ring::new(label(0, 0));
    ring.insert_label(label(100, 1));
    assert_eq!(assign(&ring, 0), 0);
    assert_eq!(assign(&ring, 5), 0);
    assert_eq!(assign(&ring, 100), 1);
    assert_eq!(assign(&ring, u64::MAX), 1);
}

#[test]
fn empty_content_hashes_like_any_other() {
    let item = Item::new(1, String::new());
    assert_eq!(item.position, position_of(""));
    let ring = two_shard_ring();
    let mut store = ShardStore::new(2);
    let s = place_item(&ring, &mut store, item);
    assert_eq!(s, assign(&ring, position_of("")));
}

#[test]
fn hashed_items_distribute_and_stay_owned_once() {
    // End-to-end with real hashed positions: build a ring, place hashed
    // items, grow the ring, and check one-owner throughout.
    let mut ring = Ring::new(label(0, 0));
    ring.insert_label(label(u64::MAX / 3, 1));
    ring.insert_label(label(u64::MAX / 3 * 2, 2));
    let mut store = ShardStore::new(4);
    let names = ["ada", "grace", "edsger", "barbara", "donald", "tony"];
    for (i, name) in names.iter().enumerate() {
        let item = Item::new(i as u128, String::from(*name));
        let s = place_item(&ring, &mut store, item);
        assert!(s < 4);
    }
    let plan = rebalance(&mut ring, &mut store, &vec![label(u64::MAX / 2, 3)]);
    assert!(plan.len() <= names.len());
    let mut total = 0;
    for i in 0..names.len() {
        assert_eq!(owner_count(&store, i as u128), 1);
        total += 1;
    }
    assert_eq!(total, names.len());
}
