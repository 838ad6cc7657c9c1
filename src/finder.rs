use vstd::prelude::*;
use crate::inventory::{
    cell_index, count_in_cell, count_jokers, count_real, lemma_count_prefix, lemma_counts_concat,
    Inventory, InventoryModel, NUM_CELLS,
};
use crate::tile::{is_group, is_run, tile_in_range, Meld, Tile};

verus! {

/// A tile as the meld finder places it.
pub open spec fn placed(number: int, color: int, is_joker: bool) -> Tile {
    Tile { color: color as u8, number: number as u8, is_joker }
}

/// Scan of the colors from `color` up to 3 for one number: a real tile where the
/// inventory has one, else a joker while `budget` lasts, else nothing.
pub open spec fn group_from(m: InventoryModel, number: int, color: int, budget: nat) -> Seq<Tile>
    decreases 4 - color,
{
    if !(0 <= color < 4) {
        Seq::empty()
    } else if m.count(number, color) > 0 {
        seq![placed(number, color, false)] + group_from(m, number, color + 1, budget)
    } else if budget > 0 {
        seq![placed(number, color, true)] + group_from(m, number, color + 1, (budget - 1) as nat)
    } else {
        group_from(m, number, color + 1, budget)
    }
}

/// Scan of the numbers from `number` up to 13 in one color: a real tile where
/// the inventory has one, else a joker while `budget` lasts; the scan ends at
/// the first gap that no joker fills.
pub open spec fn run_from(m: InventoryModel, number: int, color: int, budget: nat) -> Seq<Tile>
    decreases 14 - number,
{
    if !(1 <= number <= 13) {
        Seq::empty()
    } else if m.count(number, color) > 0 {
        seq![placed(number, color, false)] + run_from(m, number + 1, color, budget)
    } else if budget > 0 {
        seq![placed(number, color, true)] + run_from(m, number + 1, color, (budget - 1) as nat)
    } else {
        Seq::empty()
    }
}

/// The group that the finder builds for `number`: the first three tiles of
/// the color scan with the inventory's jokers, if it yields three.
pub open spec fn find_group(m: InventoryModel, number: int) -> Option<Seq<Tile>> {
    let s = group_from(m, number, 0, m.jokers);
    if s.len() >= 3 {
        Some(s.take(3))
    } else {
        None
    }
}

/// The run that the finder builds from `number` in `color`: the whole number
/// scan with the inventory's jokers, if it holds three tiles or more.
pub open spec fn find_run(m: InventoryModel, number: int, color: int) -> Option<Seq<Tile>> {
    let s = run_from(m, number, color, m.jokers);
    if s.len() >= 3 {
        Some(s)
    } else {
        None
    }
}

/// Every real tile of `number`, in color order, if there are three or more.
pub open spec fn find_real_group(m: InventoryModel, number: int) -> Option<Seq<Tile>> {
    let s = group_from(m, number, 0, 0);
    if s.len() >= 3 {
        Some(s)
    } else {
        None
    }
}

/// The real tiles of `color` from `number` on, up to the first gap, if there
/// are three or more.
pub open spec fn find_real_run(m: InventoryModel, number: int, color: int) -> Option<Seq<Tile>> {
    let s = run_from(m, number, color, 0);
    if s.len() >= 3 {
        Some(s)
    } else {
        None
    }
}

/// The tiles of a found meld, if any.
pub open spec fn meld_opt_view(r: Option<Meld>) -> Option<Seq<Tile>> {
    match r {
        Some(x) => Some(x@),
        None => None,
    }
}

/// Finds a group of `number`: over the colors in order, a real tile where
/// the inventory has one, else a joker while jokers last; done at three tiles.
pub fn try_form_set_incl_jokers(inventory: &Inventory, number: u8) -> (r: Option<Meld>)
    requires
        inventory.wf(),
        1 <= number <= 13,
    ensures
        meld_opt_view(r) == find_group(inventory@, number as int),
{
    let ghost m = inventory@;
    let ghost full = group_from(m, number as int, 0, m.jokers);
    let mut tiles: Vec<Tile> = Vec::new();
    let mut used: u8 = 0;
    let mut color: u8 = 0;
    while color < 4
        invariant
            color <= 4,
            m == inventory@,
            1 <= number <= 13,
            used <= m.jokers,
            tiles@.len() < 3,
            full == group_from(m, number as int, 0, m.jokers),
            tiles@ + group_from(m, number as int, color as int, (m.jokers - used) as nat) == full,
        decreases 4 - color,
    {
        let ghost before = tiles@;
        let ghost left = (m.jokers - used) as nat;
        if inventory.count(number, color) > 0 {
            tiles.push(Tile { color, number, is_joker: false });
            assert(before + group_from(m, number as int, color as int, left) =~= tiles@
                + group_from(m, number as int, color + 1, left));
        } else if (used as u32) < inventory.jokers() as u32 {
            tiles.push(Tile { color, number, is_joker: true });
            used = used + 1;
            assert(before + group_from(m, number as int, color as int, left) =~= tiles@
                + group_from(m, number as int, color + 1, (left - 1) as nat));
        }
        if tiles.len() == 3 {
            assert(full.take(3) =~= tiles@);
            return Some(Meld { tiles });
        }
        color = color + 1;
    }
    assert(tiles@ =~= full);
    None
}

/// Finds a run of `color` from `start_number` on: a real tile where the
/// inventory has one, else a joker while jokers last, up to the first gap.
pub fn try_form_run_incl_jokers(inventory: &Inventory, start_number: u8, color: u8) -> (r: Option<
    Meld,
>)
    requires
        inventory.wf(),
        1 <= start_number <= 13,
        color < 4,
    ensures
        meld_opt_view(r) == find_run(inventory@, start_number as int, color as int),
{
    let ghost m = inventory@;
    let ghost full = run_from(m, start_number as int, color as int, m.jokers);
    let mut tiles: Vec<Tile> = Vec::new();
    let mut used: u8 = 0;
    let mut number: u8 = start_number;
    while number <= 13
        invariant
            1 <= start_number <= number <= 14,
            m == inventory@,
            color < 4,
            used <= m.jokers,
            full == run_from(m, start_number as int, color as int, m.jokers),
            tiles@ + run_from(m, number as int, color as int, (m.jokers - used) as nat) == full,
        ensures
            tiles@ == full,
        decreases 14 - number,
    {
        let ghost before = tiles@;
        let ghost left = (m.jokers - used) as nat;
        if inventory.count(number, color) > 0 {
            tiles.push(Tile { color, number, is_joker: false });
            assert(before + run_from(m, number as int, color as int, left) =~= tiles@ + run_from(
                m,
                number + 1,
                color as int,
                left,
            ));
        } else if (used as u32) < inventory.jokers() as u32 {
            tiles.push(Tile { color, number, is_joker: true });
            used = used + 1;
            assert(before + run_from(m, number as int, color as int, left) =~= tiles@ + run_from(
                m,
                number + 1,
                color as int,
                (left - 1) as nat,
            ));
        } else {
            assert(tiles@ =~= full);
            break;
        }
        number = number + 1;
    }
    if tiles.len() >= 3 {
        Some(Meld { tiles })
    } else {
        None
    }
}

/// Every real tile of `number`, in color order, if there are three or more.
pub fn try_form_set(inventory: &Inventory, number: u8) -> (r: Option<Meld>)
    requires
        inventory.wf(),
        1 <= number <= 13,
    ensures
        meld_opt_view(r) == find_real_group(inventory@, number as int),
{
    let ghost m = inventory@;
    let ghost full = group_from(m, number as int, 0, 0);
    let mut tiles: Vec<Tile> = Vec::new();
    let mut color: u8 = 0;
    while color < 4
        invariant
            color <= 4,
            m == inventory@,
            1 <= number <= 13,
            full == group_from(m, number as int, 0, 0),
            tiles@ + group_from(m, number as int, color as int, 0) == full,
        decreases 4 - color,
    {
        let ghost before = tiles@;
        if inventory.count(number, color) > 0 {
            tiles.push(Tile { color, number, is_joker: false });
            assert(before + group_from(m, number as int, color as int, 0) =~= tiles@
                + group_from(m, number as int, color + 1, 0));
        }
        color = color + 1;
    }
    assert(tiles@ =~= full);
    if tiles.len() >= 3 {
        Some(Meld { tiles })
    } else {
        None
    }
}

/// The real tiles of `color` from `start_number` on, up to the first gap, if
/// there are three or more.
pub fn try_form_run(inventory: &Inventory, start_number: u8, color: u8) -> (r: Option<Meld>)
    requires
        inventory.wf(),
        1 <= start_number <= 13,
        color < 4,
    ensures
        meld_opt_view(r) == find_real_run(inventory@, start_number as int, color as int),
{
    let ghost m = inventory@;
    let ghost full = run_from(m, start_number as int, color as int, 0);
    let mut tiles: Vec<Tile> = Vec::new();
    let mut number: u8 = start_number;
    while number <= 13 && inventory.count(number, color) > 0
        invariant
            1 <= start_number <= number <= 14,
            m == inventory@,
            color < 4,
            full == run_from(m, start_number as int, color as int, 0),
            tiles@ + run_from(m, number as int, color as int, 0) == full,
        decreases 14 - number,
    {
        let ghost before = tiles@;
        tiles.push(Tile { color, number, is_joker: false });
        assert(before + run_from(m, number as int, color as int, 0) =~= tiles@ + run_from(
            m,
            number + 1,
            color as int,
            0,
        ));
        number = number + 1;
    }
    assert(tiles@ =~= full);
    if tiles.len() >= 3 {
        Some(Meld { tiles })
    } else {
        None
    }
}

proof fn lemma_placed_counts(number: int, color: int, is_joker: bool)
    requires
        1 <= number <= 13,
        0 <= color < 4,
    ensures
        ({
            let x = placed(number, color, is_joker);
            &&& x.number == number && x.color == color && x.is_joker == is_joker
            &&& tile_in_range(x)
            &&& count_jokers(seq![x]) == if is_joker { 1nat } else { 0nat }
            &&& forall|i: int|
                #[trigger] count_in_cell(seq![x], i) == if !is_joker && i == cell_index(
                    number,
                    color,
                ) {
                    1nat
                } else {
                    0nat
                }
        }),
{
    let x = placed(number, color, is_joker);
    assert(x.number == number);
    assert(x.color == color);
    assert(tile_in_range(x));
    assert(seq![x].drop_last() =~= Seq::<Tile>::empty());
    assert(seq![x].last() == x);
    assert(count_jokers(seq![x]) == count_jokers(Seq::<Tile>::empty()) + if is_joker { 1nat } else { 0nat });
    assert forall|i: int|
        #[trigger] count_in_cell(seq![x], i) == if !is_joker && i == cell_index(number, color) {
            1nat
        } else {
            0nat
        } by {
        assert(count_in_cell(Seq::<Tile>::empty(), i) == 0);
    }
}

proof fn lemma_group_from(m: InventoryModel, number: int, color: int, budget: nat)
    requires
        m.cells.len() == NUM_CELLS,
        1 <= number <= 13,
        0 <= color <= 4,
    ensures
        ({
            let s = group_from(m, number, color, budget);
            &&& s.len() <= 4 - color
            &&& forall|k: int|
                #![trigger s[k]] 0 <= k < s.len() ==> s[k].number == number && color <= s[k].color < 4
                    && tile_in_range(s[k])
            &&& forall|k: int, l: int|
                0 <= k < l < s.len() ==> (#[trigger] s[k]).color < (#[trigger] s[l]).color
            &&& count_jokers(s) <= budget
            &&& forall|i: int|
                #[trigger] count_in_cell(s, i) == if cell_index(number, color) <= i < cell_index(
                    number,
                    4,
                ) && m.cells[i] > 0 {
                    1nat
                } else {
                    0nat
                }
        }),
    decreases 4 - color,
{
    let s = group_from(m, number, color, budget);
    if color == 4 {
        assert forall|i: int| #[trigger] count_in_cell(s, i) == 0nat by {}
    } else {
        let present = m.count(number, color) > 0;
        let nb = if present || budget == 0 { budget } else { (budget - 1) as nat };
        let rest = group_from(m, number, color + 1, nb);
        lemma_group_from(m, number, color + 1, nb);
        if present || budget > 0 {
            let x = placed(number, color, !present);
            lemma_placed_counts(number, color, !present);
            assert(s == seq![x] + rest);
            lemma_counts_concat(seq![x], rest);
            assert forall|k: int| #![trigger s[k]] 0 <= k < s.len() implies s[k].number == number && color
                <= s[k].color < 4 && tile_in_range(s[k]) by {
                if k > 0 {
                    assert(s[k] == rest[k - 1]);
                } else {
                    assert(s[k] == x);
                }
            }
            assert forall|k: int, l: int| 0 <= k < l < s.len() implies (#[trigger] s[k]).color
                < (#[trigger] s[l]).color by {
                assert(s[l] == rest[l - 1]);
                assert(color + 1 <= rest[l - 1].color);
                if k > 0 {
                    assert(s[k] == rest[k - 1]);
                } else {
                    assert(s[k] == x);
                }
            }
            assert forall|i: int| #[trigger] count_in_cell(s, i) == if cell_index(number, color) <= i
                < cell_index(number, 4) && m.cells[i] > 0 {
                1nat
            } else {
                0nat
            } by {
                assert(count_in_cell(s, i) == count_in_cell(seq![x], i) + count_in_cell(rest, i));
            }
        } else {
            assert(s == rest);
            assert(m.cells[cell_index(number, color)] == 0);
        }
    }
}

proof fn lemma_run_from(m: InventoryModel, number: int, color: int, budget: nat)
    requires
        m.cells.len() == NUM_CELLS,
        1 <= number <= 14,
        0 <= color < 4,
    ensures
        ({
            let s = run_from(m, number, color, budget);
            &&& forall|k: int|
                #![trigger s[k]] 0 <= k < s.len() ==> s[k].color == color && s[k].number == number + k
                    && tile_in_range(s[k])
            &&& count_jokers(s) <= budget
            &&& forall|i: int|
                0 <= i < NUM_CELLS ==> #[trigger] count_in_cell(s, i) <= if cell_index(number, color)
                    <= i && m.cells[i] > 0 {
                    1nat
                } else {
                    0nat
                }
        }),
    decreases 14 - number,
{
    let s = run_from(m, number, color, budget);
    if number == 14 || (m.count(number, color) == 0 && budget == 0) {
        assert forall|i: int| #[trigger] count_in_cell(s, i) == 0nat by {}
    } else {
        let present = m.count(number, color) > 0;
        let nb = if present { budget } else { (budget - 1) as nat };
        let rest = run_from(m, number + 1, color, nb);
        lemma_run_from(m, number + 1, color, nb);
        let x = placed(number, color, !present);
        lemma_placed_counts(number, color, !present);
        assert(s == seq![x] + rest);
        lemma_counts_concat(seq![x], rest);
        assert forall|k: int| #![trigger s[k]] 0 <= k < s.len() implies s[k].color == color && s[k].number
            == number + k && tile_in_range(s[k]) by {
            if k > 0 {
                assert(s[k] == rest[k - 1]);
            } else {
                assert(s[k] == x);
            }
        }
        assert forall|i: int| 0 <= i < NUM_CELLS implies #[trigger] count_in_cell(s, i) <= if cell_index(
            number,
            color,
        ) <= i && m.cells[i] > 0 {
            1nat
        } else {
            0nat
        } by {
            assert(count_in_cell(s, i) == count_in_cell(seq![x], i) + count_in_cell(rest, i));
        }
    }
}

/// A group that the finder builds is a group, and the inventory holds it.
pub proof fn lemma_find_group_valid(m: InventoryModel, number: int)
    requires
        m.cells.len() == NUM_CELLS,
        1 <= number <= 13,
    ensures
        find_group(m, number) matches Some(g) ==> is_group(g) && m.holds(g),
{
    let full = group_from(m, number, 0, m.jokers);
    lemma_group_from(m, number, 0, m.jokers);
    if full.len() >= 3 {
        let g = full.take(3);
        lemma_count_prefix(full, 3);
        assert forall|k: int| 0 <= k < g.len() implies tile_in_range(#[trigger] g[k]) by {
            assert(g[k] == full[k]);
        }
        assert forall|k: int| 0 <= k < g.len() implies (#[trigger] g[k]).number == g[0].number by {
            assert(g[k] == full[k]);
            assert(g[0] == full[0]);
        }
        assert forall|k: int, l: int| 0 <= k < l < g.len() implies (#[trigger] g[k]).color
            != (#[trigger] g[l]).color by {
            assert(g[k] == full[k]);
            assert(g[l] == full[l]);
        }
        assert forall|i: int| 0 <= i < NUM_CELLS implies #[trigger] count_in_cell(g, i)
            <= m.cells[i] by {
            assert(count_in_cell(g, i) <= count_in_cell(full, i));
        }
    }
}

/// A run that the finder builds is a run, and the inventory holds it.
pub proof fn lemma_find_run_valid(m: InventoryModel, number: int, color: int)
    requires
        m.cells.len() == NUM_CELLS,
        1 <= number <= 13,
        0 <= color < 4,
    ensures
        find_run(m, number, color) matches Some(r) ==> is_run(r) && m.holds(r),
{
    let full = run_from(m, number, color, m.jokers);
    lemma_run_from(m, number, color, m.jokers);
    if full.len() >= 3 {
        assert forall|k: int| 0 <= k < full.len() implies (#[trigger] full[k]).color == full[0].color
            && full[k].number == full[0].number + k by {}
        assert forall|i: int| 0 <= i < NUM_CELLS implies #[trigger] count_in_cell(full, i)
            <= m.cells[i] by {
            assert(count_in_cell(full, i) <= if cell_index(number, color) <= i && m.cells[i] > 0 {
                1nat
            } else {
                0nat
            });
        }
    }
}

} // verus!
