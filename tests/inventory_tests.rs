use rummikub::inventory::Inventory;
use rummikub::tile::{Meld, Tile};

fn signature(inv: &Inventory) -> Vec<u8> {
    let mut v = Vec::new();
    for number in 1..=13u8 {
        for color in 0..4u8 {
            v.push(inv.count(number, color));
        }
    }
    v.push(inv.jokers());
    v
}

#[test]
fn new_fills_every_cell() {
    let inv = Inventory::new(2);
    assert_eq!(inv.total_tile_count(), 106);
    assert_eq!(inv.jokers(), 2);
    assert_eq!(inv.count(13, 3), 2);
    assert!(!inv.is_empty());
    assert_eq!(inv.available_tiles().len(), 52);
}

#[test]
fn jokers_alone_leave_the_hand_empty() {
    let mut inv = Inventory::new(0);
    assert!(inv.is_empty());
    inv.add_joker();
    assert!(inv.is_empty());
    assert_eq!(inv.total_tile_count(), 1);
    inv.add_tile(4, 2);
    assert!(!inv.is_empty());
    assert_eq!(inv.total_tile_count(), 2);
}

#[test]
fn available_tiles_in_cell_order() {
    let mut inv = Inventory::new(0);
    inv.add_tile(9, 0);
    inv.add_tile(1, 3);
    inv.add_tile(1, 3);
    inv.add_tile(1, 1);
    assert_eq!(inv.available_tiles(), vec![(0, 1), (0, 3), (8, 0)]);
}

#[test]
fn remove_tiles_takes_real_tiles_and_jokers() {
    let mut inv = Inventory::new(0);
    inv.add_tile(7, 0);
    inv.add_tile(9, 0);
    inv.add_joker();
    inv.add_joker();
    let meld = Meld {
        tiles: vec![
            Tile { color: 0, number: 7, is_joker: false },
            Tile { color: 0, number: 8, is_joker: true },
            Tile { color: 0, number: 9, is_joker: false },
        ],
    };
    inv.remove_tiles(&meld);
    assert!(inv.is_empty());
    assert_eq!(inv.jokers(), 1);
    assert_eq!(inv.count(8, 0), 0);
}

#[test]
fn hash_values() {
    let mut inv = Inventory::new(0);
    assert_eq!(inv.hash(), 0);
    inv.add_joker();
    assert_eq!(inv.hash(), 1);
    inv.add_tile(13, 3);
    assert_eq!(inv.hash(), 6);
    let mut first = Inventory::new(0);
    first.add_tile(1, 0);
    assert_eq!(first.hash(), 5u128.pow(52));
    assert_eq!(Inventory::new(4).hash(), 5u128.pow(53) - 1);
}

#[test]
fn distinct_inventories_have_distinct_keys() {
    let mut seed: u64 = 0x2545_f491_4f6c_dd1d;
    let mut next = move || {
        seed = seed.wrapping_mul(6364136223846793005).wrapping_add(1442695040888963407);
        (seed >> 33) as u32
    };
    let mut seen: std::collections::HashMap<u128, Vec<u8>> = std::collections::HashMap::new();
    for _ in 0..5000 {
        let mut inv = Inventory::new(0);
        let size = next() % 57;
        for _ in 0..size {
            let number = (next() % 13 + 1) as u8;
            let color = (next() % 4) as u8;
            if inv.count(number, color) < 2 {
                inv.add_tile(number, color);
            }
        }
        for _ in 0..(next() % 3) {
            inv.add_joker();
        }
        let sig = signature(&inv);
        if let Some(other) = seen.insert(inv.hash(), sig.clone()) {
            assert_eq!(other, sig);
        }
    }
    // Neighbours that differ in one cell or in the jokers.
    let base = Inventory::new(1);
    let mut keys = std::collections::HashSet::new();
    keys.insert(base.hash());
    for number in 1..=13u8 {
        for color in 0..4u8 {
            let mut inv = base;
            inv.add_tile(number, color);
            assert!(keys.insert(inv.hash()));
        }
    }
    let mut inv = base;
    inv.add_joker();
    assert!(keys.insert(inv.hash()));
}
