use vstd::prelude::*;
use rand::seq::SliceRandom;
use rand::Rng;
use crate::inventory::{cell_index, lemma_seq_sum_zero, Inventory, InventoryModel, MAX_COUNT, NUM_CELLS};

verus! {

/// Why no tile could be drawn.
#[derive(Debug, Clone, Copy, PartialEq, Eq, Structural)]
pub enum DrawError {
    /// The supply holds neither a tile nor a joker.
    EmptySupply,
}

/// Relies on rand's `thread_rng` and `Rng::gen_ratio`: `true` with probability
/// `numerator / denominator`, so never for a zero numerator and always when
/// the numerator equals the denominator. It panics on a zero denominator or
/// a numerator above it.
#[verifier::external_body]
fn random_ratio(numerator: u32, denominator: u32) -> (r: bool)
    requires
        0 < denominator,
        numerator <= denominator,
    ensures
        numerator == 0 ==> !r,
        numerator == denominator ==> r,
{
    rand::thread_rng().gen_ratio(numerator, denominator)
}

/// Relies on rand's `SliceRandom::choose` with `thread_rng`: `None` for an
/// empty slice, else one of its elements.
#[verifier::external_body]
fn random_choice(items: &Vec<(usize, usize)>) -> (r: Option<(usize, usize)>)
    ensures
        r is None <==> items@.len() == 0,
        r matches Some(x) ==> items@.contains(x),
{
    items.choose(&mut rand::thread_rng()).copied()
}

/// No cell, and not the jokers, would exceed `MAX_COUNT` if the two
/// inventories were put together.
pub open spec fn fits_together(a: InventoryModel, b: InventoryModel) -> bool {
    &&& forall|i: int| 0 <= i < NUM_CELLS ==> #[trigger] a.cells[i] + b.cells[i] <= MAX_COUNT
    &&& a.jokers + b.jokers <= MAX_COUNT
}

/// One joker went from `src` to `dst`.
pub open spec fn moved_joker(
    src: InventoryModel,
    dst: InventoryModel,
    src2: InventoryModel,
    dst2: InventoryModel,
) -> bool {
    &&& src.jokers > 0
    &&& src2 == InventoryModel { cells: src.cells, jokers: (src.jokers - 1) as nat }
    &&& dst2 == InventoryModel { cells: dst.cells, jokers: dst.jokers + 1 }
}

/// One copy of the tile of cell `i` went from `src` to `dst`.
pub open spec fn moved_tile(
    src: InventoryModel,
    dst: InventoryModel,
    src2: InventoryModel,
    dst2: InventoryModel,
    i: int,
) -> bool {
    &&& 0 <= i < NUM_CELLS
    &&& src.cells[i] > 0
    &&& src2 == InventoryModel { cells: src.cells.update(i, (src.cells[i] - 1) as nat), jokers: src.jokers }
    &&& dst2 == InventoryModel { cells: dst.cells.update(i, dst.cells[i] + 1), jokers: dst.jokers }
}

/// Moves one unit from `source` into `destination`: a joker with probability
/// jokers / (tiles + jokers), else a tile of a cell chosen uniformly among
/// those that hold one. An empty supply is refused and nothing moves.
pub fn grab_tile(source: &mut Inventory, destination: &mut Inventory) -> (r: Result<(), DrawError>)
    requires
        old(source).wf(),
        old(destination).wf(),
        fits_together(old(source)@, old(destination)@),
    ensures
        final(source).wf(),
        final(destination).wf(),
        fits_together(final(source)@, final(destination)@),
        r is Err <==> old(source)@.real_count() + old(source)@.jokers == 0,
        r is Err ==> *final(source) == *old(source) && *final(destination) == *old(destination),
        r is Ok ==> {
            ||| moved_joker(old(source)@, old(destination)@, final(source)@, final(destination)@)
            ||| exists|i: int|
                moved_tile(old(source)@, old(destination)@, final(source)@, final(destination)@, i)
        },
        r is Ok && old(source)@.jokers == 0 ==> !moved_joker(
            old(source)@,
            old(destination)@,
            final(source)@,
            final(destination)@,
        ),
        r is Ok && old(source)@.real_count() == 0 ==> moved_joker(
            old(source)@,
            old(destination)@,
            final(source)@,
            final(destination)@,
        ),
{
    let total = source.total_tile_count();
    if total == 0 {
        return Err(DrawError::EmptySupply);
    }
    let jokers = source.jokers();
    let grab_joker = jokers > 0 && random_ratio(jokers as u32, total);
    if grab_joker {
        assert(old(destination)@.jokers + old(source)@.jokers <= MAX_COUNT);
        source.take_joker();
        destination.add_joker();
        return Ok(());
    }
    let cells = source.available_tiles();
    match random_choice(&cells) {
        Some((row, color)) => {
            let ghost k = cells@.index_of((row, color));
            assert(cells@[k] == (row, color));
            let number = (row + 1) as u8;
            let color = color as u8;
            let ghost i = cell_index(number as int, color as int);
            assert(old(source)@.cells[i] + old(destination)@.cells[i] <= MAX_COUNT);
            source.take_tile(number, color);
            destination.add_tile(number, color);
            assert(moved_tile(old(source)@, old(destination)@, source@, destination@, i));
            proof {
                assert forall|j: int| 0 <= j < NUM_CELLS implies #[trigger] source@.cells[j]
                    + destination@.cells[j] <= MAX_COUNT by {
                    assert(old(source)@.cells[j] + old(destination)@.cells[j] <= MAX_COUNT);
                }
            }
            Ok(())
        },
        None => {
            proof {
                lemma_seq_sum_zero(source@.cells);
                if source@.real_count() > 0 {
                    let j = choose|j: int| 0 <= j < NUM_CELLS && source@.cells[j] != 0;
                    assert(source@.cells[j] > 0);
                    assert(cells@.contains(((j / 4) as usize, (j % 4) as usize)));
                }
            }
            Err(DrawError::EmptySupply)
        },
    }
}

} // verus!
