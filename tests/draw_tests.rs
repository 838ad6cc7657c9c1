use rummikub::draw::{grab_tile, DrawError};
use rummikub::inventory::Inventory;

#[test]
fn empty_supply_is_refused() {
    let mut bag = Inventory::new(0);
    let mut hand = Inventory::new(0);
    assert_eq!(grab_tile(&mut bag, &mut hand), Err(DrawError::EmptySupply));
    assert_eq!(hand.total_tile_count(), 0);
}

#[test]
fn only_jokers_left_draws_a_joker() {
    let mut bag = Inventory::new(0);
    bag.add_joker();
    bag.add_joker();
    let mut hand = Inventory::new(0);
    assert_eq!(grab_tile(&mut bag, &mut hand), Ok(()));
    assert_eq!(bag.jokers(), 1);
    assert_eq!(hand.jokers(), 1);
}

#[test]
fn single_tile_is_drawn() {
    let mut bag = Inventory::new(0);
    bag.add_tile(10, 2);
    let mut hand = Inventory::new(0);
    assert_eq!(grab_tile(&mut bag, &mut hand), Ok(()));
    assert_eq!(hand.count(10, 2), 1);
    assert!(bag.is_empty());
    assert_eq!(grab_tile(&mut bag, &mut hand), Err(DrawError::EmptySupply));
}

#[test]
fn drawing_moves_one_unit_at_a_time() {
    let mut bag = Inventory::new(2);
    let mut hand = Inventory::new(0);
    for drawn in 1..=106u32 {
        assert_eq!(grab_tile(&mut bag, &mut hand), Ok(()));
        assert_eq!(hand.total_tile_count(), drawn);
        assert_eq!(bag.total_tile_count(), 106 - drawn);
    }
    assert_eq!(hand.jokers(), 2);
    for number in 1..=13u8 {
        for color in 0..4u8 {
            assert_eq!(hand.count(number, color), 2);
        }
    }
    assert_eq!(grab_tile(&mut bag, &mut hand), Err(DrawError::EmptySupply));
}
