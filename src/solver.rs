use vstd::prelude::*;
use std::collections::HashMap;
use crate::finder::{
    find_group, find_run, lemma_find_group_valid, lemma_find_run_valid, try_form_run_incl_jokers,
    try_form_set_incl_jokers,
};
use crate::inventory::{
    count_in_cell, count_jokers, count_real, key_of, lemma_count_split, lemma_key_bound, lemma_key_injective,
    lemma_remove_meld, lemma_seq_sum_zero, Inventory, InventoryModel, NUM_CELLS,
};
use crate::tile::{is_valid_meld, Meld, Tile};

verus! {

/// Search results by inventory key; kept across calls.
pub type Memo = HashMap<u128, Option<Vec<Meld>>>;

/// Real tiles plus jokers: every meld taken out lowers it by three or more.
pub open spec fn measure(m: InventoryModel) -> nat {
    m.real_count() + m.jokers
}

/// The memo key of an inventory, as stored.
pub open spec fn memo_key(m: InventoryModel) -> u128 {
    key_of(m) as u128
}

/// What the search finds for an inventory: with no real tile left, no meld;
/// else the first cell, in order of number then color, from which a group
/// or else a run leads to a solved remainder.
pub open spec fn solution(m: InventoryModel) -> Option<Seq<Seq<Tile>>>
    decreases measure(m), 53nat,
{
    if m.real_count() == 0 {
        Some(Seq::empty())
    } else {
        search(m, 0)
    }
}

/// The search from cell `c` on: the meld is added after the melds of the
/// remainder. A table of another size than 52 cells has no solution.
pub open spec fn search(m: InventoryModel, c: nat) -> Option<Seq<Seq<Tile>>>
    decreases measure(m), 52 - c,
    via search_decreases
{
    if c >= NUM_CELLS || m.cells.len() != NUM_CELLS {
        None
    } else if m.cells[c as int] > 0 {
        let number = c / 4 + 1;
        let color = c % 4;
        let by_group = match find_group(m, number as int) {
            Some(g) => match solution(m.remove_meld(g)) {
                Some(rest) => Some(rest.push(g)),
                None => None,
            },
            None => None,
        };
        let by_run = match find_run(m, number as int, color as int) {
            Some(r) => match solution(m.remove_meld(r)) {
                Some(rest) => Some(rest.push(r)),
                None => None,
            },
            None => None,
        };
        if by_group is Some {
            by_group
        } else if by_run is Some {
            by_run
        } else {
            search(m, c + 1)
        }
    } else {
        search(m, c + 1)
    }
}

#[via_fn]
proof fn search_decreases(m: InventoryModel, c: nat) {
    if c < NUM_CELLS && m.cells.len() == NUM_CELLS && m.cells[c as int] > 0 {
        let number = c / 4 + 1;
        let color = c % 4;
        lemma_find_group_valid(m, number as int);
        lemma_find_run_valid(m, number as int, color as int);
        if let Some(g) = find_group(m, number as int) {
            lemma_remove_meld(m, g);
        }
        if let Some(r) = find_run(m, number as int, color as int) {
            lemma_remove_meld(m, r);
        }
    }
}

/// The tiles of each meld, in order.
pub open spec fn melds_view(v: Seq<Meld>) -> Seq<Seq<Tile>> {
    v.map_values(|x: Meld| x@)
}

/// The tiles of each meld of a search result, if one was found.
pub open spec fn result_view(r: Option<Vec<Meld>>) -> Option<Seq<Seq<Tile>>> {
    match r {
        Some(v) => Some(melds_view(v@)),
        None => None,
    }
}

/// Every entry of the memo is the search result for the inventory whose key it has.
pub open spec fn memo_wf(memo: Map<u128, Option<Vec<Meld>>>) -> bool {
    forall|m: InventoryModel|
        #![trigger key_of(m)]
        m.wf() && memo.contains_key(memo_key(m)) ==> result_view(memo[memo_key(m)]) == solution(m)
}

proof fn lemma_memo_insert(memo: Map<u128, Option<Vec<Meld>>>, m: InventoryModel, v: Option<Vec<Meld>>)
    requires
        memo_wf(memo),
        m.wf(),
        result_view(v) == solution(m),
    ensures
        memo_wf(memo.insert(memo_key(m), v)),
{
    let memo2 = memo.insert(memo_key(m), v);
    assert forall|m2: InventoryModel|
        #![trigger key_of(m2)]
        m2.wf() && memo2.contains_key(memo_key(m2)) implies result_view(memo2[memo_key(m2)])
        == solution(m2) by {
        lemma_key_bound(m);
        lemma_key_bound(m2);
        lemma_key_injective(m, m2);
        if memo_key(m2) != memo_key(m) {
            assert(memo.contains_key(memo_key(m2)));
        }
    }
}

fn clone_melds(v: &Vec<Meld>) -> (r: Vec<Meld>)
    ensures
        melds_view(r@) == melds_view(v@),
{
    let mut r: Vec<Meld> = Vec::new();
    let mut i: usize = 0;
    while i < v.len()
        invariant
            i <= v@.len(),
            melds_view(r@) == melds_view(v@.take(i as int)),
        decreases v@.len() - i,
    {
        let ghost before = r@;
        let x = v[i].duplicate();
        r.push(x);
        assert(v@.take(i + 1) =~= v@.take(i as int).push(v@[i as int]));
        assert(melds_view(r@) =~= melds_view(before).push(x@));
        assert(melds_view(v@.take(i + 1)) =~= melds_view(v@.take(i as int)).push(v@[i as int]@));
        i = i + 1;
    }
    assert(v@.take(v@.len() as int) =~= v@);
    r
}

fn clone_result(r: &Option<Vec<Meld>>) -> (c: Option<Vec<Meld>>)
    ensures
        result_view(c) == result_view(*r),
{
    match r {
        Some(v) => Some(clone_melds(v)),
        None => None,
    }
}

/// Searches for an exact partition of the inventory into melds, caching each
/// result in `memo` under the inventory's key. The result is `solution`: a
/// cached entry is returned as it is, and a stored one is never recomputed.
pub fn solve_rummikub(inventory: &Inventory, memo: &mut Memo) -> (r: Option<Vec<Meld>>)
    requires
        inventory.wf(),
        memo_wf(old(memo)@),
    ensures
        result_view(r) == solution(inventory@),
        memo_wf(final(memo)@),
        old(memo)@.contains_key(memo_key(inventory@)) ==> final(memo)@ == old(memo)@,
        inventory@.real_count() > 0 ==> final(memo)@.contains_key(memo_key(inventory@)),
    decreases measure(inventory@),
{
    let ghost m = inventory@;
    let key = inventory.hash();
    proof {
        lemma_key_bound(m);
    }
    match memo.get(&key) {
        Some(cached) => {
            return clone_result(cached);
        },
        None => {},
    }
    if inventory.is_empty() {
        return Some(Vec::new());
    }
    let ghost start = memo@;
    let mut idx: usize = 0;
    while idx < NUM_CELLS
        invariant
            idx <= NUM_CELLS,
            inventory.wf(),
            m == inventory@,
            key == memo_key(m),
            m.real_count() > 0,
            memo_wf(memo@),
            solution(m) == search(m, idx as nat),
            start == old(memo)@,
            !start.contains_key(key),
        decreases NUM_CELLS - idx,
    {
        if inventory.count_at(idx) > 0 {
            let number = (idx / 4 + 1) as u8;
            let color = (idx % 4) as u8;
            proof {
                lemma_find_group_valid(m, number as int);
                lemma_find_run_valid(m, number as int, color as int);
            }
            if let Some(group) = try_form_set_incl_jokers(inventory, number) {
                let mut next = *inventory;
                next.remove_tiles(&group);
                proof {
                    lemma_remove_meld(m, group@);
                }
                if let Some(mut melds) = solve_rummikub(&next, memo) {
                    let ghost rest = melds@;
                    melds.push(group);
                    assert(melds_view(melds@) =~= melds_view(rest).push(melds@.last()@));
                    let stored = clone_melds(&melds);
                    proof {
                        lemma_memo_insert(memo@, m, Some(stored));
                    }
                    memo.insert(key, Some(stored));
                    return Some(melds);
                }
            }
            if let Some(run) = try_form_run_incl_jokers(inventory, number, color) {
                let mut next = *inventory;
                next.remove_tiles(&run);
                proof {
                    lemma_remove_meld(m, run@);
                }
                if let Some(mut melds) = solve_rummikub(&next, memo) {
                    let ghost rest = melds@;
                    melds.push(run);
                    assert(melds_view(melds@) =~= melds_view(rest).push(melds@.last()@));
                    let stored = clone_melds(&melds);
                    proof {
                        lemma_memo_insert(memo@, m, Some(stored));
                    }
                    memo.insert(key, Some(stored));
                    return Some(melds);
                }
            }
        }
        idx = idx + 1;
    }
    proof {
        lemma_memo_insert(memo@, m, None);
    }
    memo.insert(key, None);
    None
}

/// Copies of the real tile of cell `i` across all melds.
pub open spec fn melds_count_in_cell(ms: Seq<Seq<Tile>>, i: int) -> nat
    decreases ms.len(),
{
    if ms.len() == 0 {
        0
    } else {
        melds_count_in_cell(ms.drop_last(), i) + count_in_cell(ms.last(), i)
    }
}

/// Jokers placed across all melds.
pub open spec fn melds_jokers(ms: Seq<Seq<Tile>>) -> nat
    decreases ms.len(),
{
    if ms.len() == 0 {
        0
    } else {
        melds_jokers(ms.drop_last()) + count_jokers(ms.last())
    }
}

/// The melds are valid and use every real tile of the inventory exactly
/// once, with no more jokers than it holds.
pub open spec fn is_partition(m: InventoryModel, ms: Seq<Seq<Tile>>) -> bool {
    &&& forall|k: int| 0 <= k < ms.len() ==> is_valid_meld(#[trigger] ms[k])
    &&& forall|i: int| 0 <= i < NUM_CELLS ==> #[trigger] melds_count_in_cell(ms, i) == m.cells[i]
    &&& melds_jokers(ms) <= m.jokers
}

proof fn lemma_remove_keeps_wf(m: InventoryModel, s: Seq<Tile>)
    requires
        m.wf(),
        m.holds(s),
    ensures
        m.remove_meld(s).wf(),
        measure(m.remove_meld(s)) + s.len() == measure(m),
        m.remove_meld(s).real_count() + count_real(s) == m.real_count(),
        m.remove_meld(s).jokers <= m.jokers,
{
    lemma_remove_meld(m, s);
    let r = m.remove_meld(s);
    assert forall|i: int| 0 <= i < NUM_CELLS implies #[trigger] r.cells[i] <= 4 by {
        assert(r.cells[i] + count_in_cell(s, i) == m.cells[i]);
    }
}

proof fn lemma_extend_partition(m: InventoryModel, s: Seq<Tile>, rest: Seq<Seq<Tile>>)
    requires
        m.wf(),
        m.holds(s),
        is_valid_meld(s),
        is_partition(m.remove_meld(s), rest),
    ensures
        is_partition(m, rest.push(s)),
{
    lemma_remove_meld(m, s);
    let ms = rest.push(s);
    assert(ms.drop_last() =~= rest);
    assert forall|k: int| 0 <= k < ms.len() implies is_valid_meld(#[trigger] ms[k]) by {
        if k < rest.len() {
            assert(ms[k] == rest[k]);
        }
    }
    assert forall|i: int| 0 <= i < NUM_CELLS implies #[trigger] melds_count_in_cell(ms, i)
        == m.cells[i] by {
        assert(melds_count_in_cell(rest, i) == m.remove_meld(s).cells[i]);
    }
}

/// Every found meld holds a real tile when there are at most two jokers.
proof fn lemma_meld_has_real_tile(s: Seq<Tile>, jokers: nat)
    requires
        s.len() >= 3,
        count_jokers(s) <= jokers <= 2,
    ensures
        count_real(s) >= 1,
{
    lemma_count_split(s);
}

proof fn lemma_search_sound(m: InventoryModel, c: nat)
    requires
        m.wf(),
    ensures
        search(m, c) matches Some(ms) ==> is_partition(m, ms) && (m.jokers <= 2 ==> ms.len()
            <= m.real_count()),
    decreases measure(m), 52 - c,
{
    if c < NUM_CELLS && m.cells[c as int] > 0 {
        let number = c / 4 + 1;
        let color = c % 4;
        lemma_find_group_valid(m, number as int);
        lemma_find_run_valid(m, number as int, color as int);
        let mut found = false;
        if let Some(g) = find_group(m, number as int) {
            lemma_remove_keeps_wf(m, g);
            lemma_solution_sound(m.remove_meld(g));
            if let Some(rest) = solution(m.remove_meld(g)) {
                lemma_extend_partition(m, g, rest);
                if m.jokers <= 2 {
                    lemma_meld_has_real_tile(g, m.jokers);
                }
                found = true;
            }
        }
        if !found {
            if let Some(r) = find_run(m, number as int, color as int) {
                lemma_remove_keeps_wf(m, r);
                lemma_solution_sound(m.remove_meld(r));
                if let Some(rest) = solution(m.remove_meld(r)) {
                    lemma_extend_partition(m, r, rest);
                    if m.jokers <= 2 {
                        lemma_meld_has_real_tile(r, m.jokers);
                    }
                }
            }
            lemma_search_sound(m, c + 1);
        }
    } else if c < NUM_CELLS {
        lemma_search_sound(m, c + 1);
    }
}

proof fn lemma_solution_sound(m: InventoryModel)
    requires
        m.wf(),
    ensures
        solution(m) matches Some(ms) ==> is_partition(m, ms) && (m.jokers <= 2 ==> ms.len()
            <= m.real_count()),
    decreases measure(m), 53nat,
{
    if m.real_count() == 0 {
        lemma_seq_sum_zero(m.cells);
        let ms = Seq::<Seq<Tile>>::empty();
        assert forall|i: int| 0 <= i < NUM_CELLS implies #[trigger] melds_count_in_cell(ms, i)
            == m.cells[i] by {}
    } else {
        lemma_search_sound(m, 0);
    }
}

/// Every meld of a found partition is a group or a run, the melds use each
/// real tile of the inventory exactly once, and they place no more jokers
/// than the inventory holds.
pub proof fn lemma_solution_is_partition(m: InventoryModel)
    requires
        m.wf(),
    ensures
        solution(m) matches Some(ms) ==> is_partition(m, ms),
{
    lemma_solution_sound(m);
}

/// With at most two jokers, every meld the search commits to takes at least
/// one real tile, so the search never goes deeper than the number of real
/// tiles, and a found partition has at most that many melds.
pub proof fn lemma_depth_bound(m: InventoryModel, number: int, color: int)
    requires
        m.wf(),
        m.jokers <= 2,
        1 <= number <= 13,
        0 <= color < 4,
    ensures
        find_group(m, number) matches Some(g) ==> m.remove_meld(g).real_count() < m.real_count(),
        find_run(m, number, color) matches Some(r) ==> m.remove_meld(r).real_count()
            < m.real_count(),
        solution(m) matches Some(ms) ==> ms.len() <= m.real_count(),
{
    lemma_solution_sound(m);
    lemma_find_group_valid(m, number);
    lemma_find_run_valid(m, number, color);
    if let Some(g) = find_group(m, number) {
        lemma_remove_keeps_wf(m, g);
        lemma_meld_has_real_tile(g, m.jokers);
    }
    if let Some(r) = find_run(m, number, color) {
        lemma_remove_keeps_wf(m, r);
        lemma_meld_has_real_tile(r, m.jokers);
    }
}

/// An inventory without real tiles, whatever its jokers, is solved by no meld.
pub proof fn lemma_empty_hand(m: InventoryModel)
    requires
        m.real_count() == 0,
    ensures
        solution(m) == Some(Seq::<Seq<Tile>>::empty()),
{
}

/// What the memo holds for an inventory is what a fresh search returns: a
/// second call on an equal inventory gives the same result and changes nothing.
pub proof fn lemma_memo_transparent(memo: Map<u128, Option<Vec<Meld>>>, m: InventoryModel)
    requires
        memo_wf(memo),
        m.wf(),
        memo.contains_key(memo_key(m)),
    ensures
        result_view(memo[memo_key(m)]) == solution(m),
{
}

} // verus!
