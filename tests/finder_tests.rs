use rummikub::finder::{try_form_run, try_form_run_incl_jokers, try_form_set, try_form_set_incl_jokers};
use rummikub::inventory::Inventory;
use rummikub::tile::Tile;

fn plain(number: u8, color: u8) -> Tile {
    Tile { color, number, is_joker: false }
}

fn joker(number: u8, color: u8) -> Tile {
    Tile { color, number, is_joker: true }
}

#[test]
fn group_stops_at_three_tiles() {
    let mut inv = Inventory::new(0);
    for color in 0..4 {
        inv.add_tile(6, color);
    }
    let g = try_form_set_incl_jokers(&inv, 6).expect("a group");
    assert_eq!(g.tiles, vec![plain(6, 0), plain(6, 1), plain(6, 2)]);
    let all = try_form_set(&inv, 6).expect("a group");
    assert_eq!(all.tiles, vec![plain(6, 0), plain(6, 1), plain(6, 2), plain(6, 3)]);
}

#[test]
fn group_uses_jokers_for_missing_colors() {
    let mut inv = Inventory::new(0);
    inv.add_tile(2, 1);
    inv.add_tile(2, 3);
    inv.add_joker();
    let g = try_form_set_incl_jokers(&inv, 2).expect("a group");
    assert_eq!(g.tiles, vec![joker(2, 0), plain(2, 1), plain(2, 3)]);
    assert!(try_form_set(&inv, 2).is_none());
}

#[test]
fn group_needs_three_tiles() {
    let mut inv = Inventory::new(0);
    inv.add_tile(3, 0);
    inv.add_tile(3, 2);
    assert!(try_form_set_incl_jokers(&inv, 3).is_none());
    assert!(try_form_set(&inv, 3).is_none());
}

#[test]
fn run_extends_to_first_unfilled_gap() {
    let mut inv = Inventory::new(0);
    for number in [4, 5, 6, 8, 9] {
        inv.add_tile(number, 2);
    }
    let r = try_form_run(&inv, 4, 2).expect("a run");
    assert_eq!(r.tiles, vec![plain(4, 2), plain(5, 2), plain(6, 2)]);
    inv.add_joker();
    let r = try_form_run_incl_jokers(&inv, 4, 2).expect("a run");
    assert_eq!(
        r.tiles,
        vec![plain(4, 2), plain(5, 2), plain(6, 2), joker(7, 2), plain(8, 2), plain(9, 2)]
    );
    assert!(try_form_run(&inv, 8, 2).is_none());
    assert!(try_form_run_incl_jokers(&inv, 9, 2).is_none());
}

#[test]
fn run_stops_at_thirteen() {
    let mut inv = Inventory::new(0);
    inv.add_tile(12, 1);
    inv.add_tile(13, 1);
    inv.add_joker();
    inv.add_joker();
    assert!(try_form_run(&inv, 12, 1).is_none());
    assert!(try_form_run_incl_jokers(&inv, 12, 1).is_none());
    let r = try_form_run_incl_jokers(&inv, 11, 1).expect("a run");
    assert_eq!(r.tiles, vec![joker(11, 1), plain(12, 1), plain(13, 1)]);
}
