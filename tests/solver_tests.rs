use rummikub::inventory::Inventory;
use rummikub::solver::{solve_rummikub, Memo};
use rummikub::tile::{Meld, Tile};

const RED: u8 = 0;
const BLUE: u8 = 1;
const YELLOW: u8 = 2;
const BLACK: u8 = 3;

fn hand(tiles: &[(u8, u8)], jokers: u8) -> Inventory {
    let mut inv = Inventory::new(0);
    for &(number, color) in tiles {
        inv.add_tile(number, color);
    }
    for _ in 0..jokers {
        inv.add_joker();
    }
    inv
}

fn plain(number: u8, color: u8) -> Tile {
    Tile { color, number, is_joker: false }
}

fn joker(number: u8, color: u8) -> Tile {
    Tile { color, number, is_joker: true }
}

fn is_group(tiles: &[Tile]) -> bool {
    if tiles.len() < 3 || tiles.len() > 4 {
        return false;
    }
    for i in 0..tiles.len() {
        if tiles[i].number != tiles[0].number {
            return false;
        }
        for j in 0..i {
            if tiles[i].color == tiles[j].color {
                return false;
            }
        }
    }
    true
}

fn is_run(tiles: &[Tile]) -> bool {
    tiles.len() >= 3
        && tiles
            .iter()
            .enumerate()
            .all(|(i, t)| t.color == tiles[0].color && t.number as usize == tiles[0].number as usize + i)
}

/// Checks that the melds are valid and use every real tile of `inv` once.
fn assert_partition(inv: &Inventory, melds: &[Meld]) {
    let mut used = [[0u8; 4]; 13];
    let mut jokers = 0u8;
    for meld in melds {
        assert!(is_group(&meld.tiles) || is_run(&meld.tiles), "invalid meld {:?}", meld);
        for t in &meld.tiles {
            if t.is_joker {
                jokers += 1;
            } else {
                used[t.number as usize - 1][t.color as usize] += 1;
            }
        }
    }
    for number in 1..=13u8 {
        for color in 0..4u8 {
            assert_eq!(used[number as usize - 1][color as usize], inv.count(number, color));
        }
    }
    assert!(jokers <= inv.jokers());
}

#[test]
fn group_of_three_colors() {
    let inv = hand(&[(5, RED), (5, BLUE), (5, YELLOW)], 0);
    let mut memo = Memo::new();
    let melds = solve_rummikub(&inv, &mut memo).expect("a partition");
    assert_eq!(melds.len(), 1);
    assert_eq!(melds[0].tiles, vec![plain(5, RED), plain(5, BLUE), plain(5, YELLOW)]);
    assert!(!melds[0].is_run());
}

#[test]
fn run_of_three_numbers() {
    let inv = hand(&[(7, RED), (8, RED), (9, RED)], 0);
    let mut memo = Memo::new();
    let melds = solve_rummikub(&inv, &mut memo).expect("a partition");
    assert_eq!(melds.len(), 1);
    assert_eq!(melds[0].tiles, vec![plain(7, RED), plain(8, RED), plain(9, RED)]);
    assert!(melds[0].is_run());
}

#[test]
fn joker_fills_gap_in_run() {
    let inv = hand(&[(7, RED), (9, RED)], 1);
    let mut memo = Memo::new();
    let melds = solve_rummikub(&inv, &mut memo).expect("a partition");
    assert_eq!(melds.len(), 1);
    assert_eq!(melds[0].tiles, vec![plain(7, RED), joker(8, RED), plain(9, RED)]);
}

#[test]
fn two_unrelated_tiles_have_no_partition() {
    let inv = hand(&[(1, RED), (2, BLUE)], 0);
    let mut memo = Memo::new();
    assert!(solve_rummikub(&inv, &mut memo).is_none());
}

#[test]
fn group_and_run_together() {
    let inv = hand(&[(5, RED), (5, BLUE), (5, YELLOW), (7, RED), (8, RED), (9, RED)], 0);
    let mut memo = Memo::new();
    let melds = solve_rummikub(&inv, &mut memo).expect("a partition");
    assert_eq!(melds.len(), 2);
    assert_partition(&inv, &melds);
    // The meld found first comes last.
    assert_eq!(melds[1].tiles, vec![plain(5, RED), plain(5, BLUE), plain(5, YELLOW)]);
    assert_eq!(melds[0].tiles, vec![plain(7, RED), plain(8, RED), plain(9, RED)]);
}

#[test]
fn empty_hand_is_solved_by_no_meld() {
    for jokers in 0..=4u8 {
        let inv = hand(&[], jokers);
        let mut memo = Memo::new();
        let melds = solve_rummikub(&inv, &mut memo).expect("empty partition");
        assert!(melds.is_empty());
    }
}

#[test]
fn second_call_reuses_memo() {
    let a = hand(&[(5, RED), (5, BLUE), (5, YELLOW), (7, RED), (8, RED), (9, RED)], 0);
    let b = hand(&[(7, RED), (8, RED), (9, RED), (5, YELLOW), (5, BLUE), (5, RED)], 0);
    let mut memo = Memo::new();
    let first = solve_rummikub(&a, &mut memo).expect("a partition");
    let size = memo.len();
    assert!(memo.contains_key(&a.hash()));
    let second = solve_rummikub(&b, &mut memo).expect("a partition");
    assert_eq!(memo.len(), size);
    assert_eq!(first.len(), second.len());
    for (x, y) in first.iter().zip(second.iter()) {
        assert_eq!(x.tiles, y.tiles);
    }
}

#[test]
fn memo_keeps_failures() {
    let inv = hand(&[(1, RED), (2, BLUE)], 0);
    let mut memo = Memo::new();
    assert!(solve_rummikub(&inv, &mut memo).is_none());
    assert_eq!(memo.get(&inv.hash()).map(|r| r.is_none()), Some(true));
    let size = memo.len();
    assert!(solve_rummikub(&inv, &mut memo).is_none());
    assert_eq!(memo.len(), size);
}

#[test]
fn partitions_found_are_exact() {
    // Whether the greedy search finds a partition; the second, third and
    // fourth hands can be partitioned, but not by the first meld the finder
    // builds at any cell.
    let hands: Vec<(Vec<(u8, u8)>, u8, bool)> = vec![
        (vec![(1, RED), (2, RED), (3, RED), (4, RED), (10, BLACK), (10, BLUE)], 1, true),
        (vec![(13, BLACK), (12, BLACK)], 1, false),
        (vec![(11, RED), (11, BLUE), (11, YELLOW), (11, BLACK), (2, BLUE), (3, BLUE), (4, BLUE)], 0, false),
        (vec![(6, YELLOW), (6, BLACK), (1, BLUE), (2, BLUE), (3, BLUE)], 2, false),
        (vec![(9, RED), (9, RED), (9, BLUE), (9, BLUE), (9, YELLOW), (9, YELLOW)], 0, true),
    ];
    let mut memo = Memo::new();
    for (tiles, jokers, expected) in &hands {
        let inv = hand(tiles, *jokers);
        let result = solve_rummikub(&inv, &mut memo);
        assert_eq!(result.is_some(), *expected, "hand {:?}", tiles);
        if let Some(melds) = result {
            assert_partition(&inv, &melds);
            assert!(melds.len() <= tiles.len());
        }
    }
}

#[test]
fn group_is_tried_before_run() {
    let inv = hand(&[(11, BLACK)], 2);
    let mut memo = Memo::new();
    let melds = solve_rummikub(&inv, &mut memo).expect("a partition");
    assert_eq!(melds.len(), 1);
    assert_eq!(melds[0].tiles, vec![joker(11, RED), joker(11, BLUE), plain(11, BLACK)]);
}
