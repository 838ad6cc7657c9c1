use vstd::prelude::*;
use crate::tile::{tile_in_range, Meld, Tile};

verus! {

/// Number of cells of the count table: one per (number, color).
pub const NUM_CELLS: usize = 52;

/// Most copies of one tile, and most jokers, that an inventory holds.
pub const MAX_COUNT: u8 = 4;

/// Radix of the packed key: one more than `MAX_COUNT`, so every count is one digit.
pub const KEY_BASE: u128 = 5;

/// The cell of the count table that holds the tile of `number` (1-based) and `color`.
pub open spec fn cell_index(number: int, color: int) -> int {
    (number - 1) * 4 + color
}

/// Sum of a sequence of counts.
pub open spec fn seq_sum(s: Seq<nat>) -> nat
    decreases s.len(),
{
    if s.len() == 0 {
        0
    } else {
        seq_sum(s.drop_last()) + s.last()
    }
}

/// Number of jokers among `s`.
pub open spec fn count_jokers(s: Seq<Tile>) -> nat
    decreases s.len(),
{
    if s.len() == 0 {
        0
    } else {
        count_jokers(s.drop_last()) + if s.last().is_joker { 1nat } else { 0nat }
    }
}

/// Number of real (non-joker) tiles among `s` that belong to cell `i`.
pub open spec fn count_in_cell(s: Seq<Tile>, i: int) -> nat
    decreases s.len(),
{
    if s.len() == 0 {
        0
    } else {
        count_in_cell(s.drop_last(), i) + if !s.last().is_joker && cell_index(
            s.last().number as int,
            s.last().color as int,
        ) == i {
            1nat
        } else {
            0nat
        }
    }
}

/// What an inventory holds: a count per cell and a number of jokers.
pub struct InventoryModel {
    pub cells: Seq<nat>,
    pub jokers: nat,
}

impl InventoryModel {
    /// 52 cells, and no count (jokers included) above `MAX_COUNT`.
    pub open spec fn wf(self) -> bool {
        &&& self.cells.len() == NUM_CELLS
        &&& forall|i: int| 0 <= i < NUM_CELLS ==> #[trigger] self.cells[i] <= MAX_COUNT
        &&& self.jokers <= MAX_COUNT
    }

    /// Copies of the tile of `number` and `color`.
    pub open spec fn count(self, number: int, color: int) -> nat {
        self.cells[cell_index(number, color)]
    }

    /// Number of real tiles, jokers left out.
    pub open spec fn real_count(self) -> nat {
        seq_sum(self.cells)
    }

    /// The inventory without one tile: a joker, or one copy of a real tile.
    pub open spec fn remove_tile(self, t: Tile) -> InventoryModel {
        if t.is_joker {
            InventoryModel { cells: self.cells, jokers: (self.jokers - 1) as nat }
        } else {
            let i = cell_index(t.number as int, t.color as int);
            InventoryModel { cells: self.cells.update(i, (self.cells[i] - 1) as nat), jokers: self.jokers }
        }
    }

    /// The inventory without the tiles of `s`, one by one.
    pub open spec fn remove_meld(self, s: Seq<Tile>) -> InventoryModel
        decreases s.len(),
    {
        if s.len() == 0 {
            self
        } else {
            self.remove_meld(s.drop_last()).remove_tile(s.last())
        }
    }

    /// The inventory has every tile of `s`: each real tile in its cell, as
    /// many times as it occurs, and a joker for each joker of `s`.
    pub open spec fn holds(self, s: Seq<Tile>) -> bool {
        &&& forall|k: int| 0 <= k < s.len() ==> tile_in_range(#[trigger] s[k])
        &&& count_jokers(s) <= self.jokers
        &&& forall|i: int| 0 <= i < NUM_CELLS ==> #[trigger] count_in_cell(s, i) <= self.cells[i]
    }
}

/// `5^n`.
pub open spec fn pow5(n: nat) -> nat
    decreases n,
{
    if n == 0 {
        1
    } else {
        5 * pow5((n - 1) as nat)
    }
}

/// The digits read as a number in base 5, the first digit the most significant.
pub open spec fn pack(digits: Seq<nat>) -> nat
    decreases digits.len(),
{
    if digits.len() == 0 {
        0
    } else {
        pack(digits.drop_last()) * 5 + digits.last()
    }
}

/// The 53 digits of an inventory's key: its cells in order, then its jokers.
pub open spec fn key_digits(m: InventoryModel) -> Seq<nat> {
    m.cells.push(m.jokers)
}

/// The memo key of an inventory.
pub open spec fn key_of(m: InventoryModel) -> nat {
    pack(key_digits(m))
}

/// Every digit is a base-5 digit.
pub open spec fn digits_below_base(d: Seq<nat>) -> bool {
    forall|i: int| 0 <= i < d.len() ==> #[trigger] d[i] < 5
}

proof fn lemma_pack_bound(d: Seq<nat>)
    requires
        digits_below_base(d),
    ensures
        pack(d) < pow5(d.len()),
    decreases d.len(),
{
    if d.len() > 0 {
        let p = d.drop_last();
        assert(digits_below_base(p)) by {
            assert forall|i: int| 0 <= i < p.len() implies #[trigger] p[i] < 5 by {
                assert(p[i] == d[i]);
            }
        }
        lemma_pack_bound(p);
        assert(d.last() < 5);
    }
}

proof fn lemma_pow5_monotone(a: nat, b: nat)
    requires
        a <= b,
    ensures
        pow5(a) <= pow5(b),
    decreases b - a,
{
    if a < b {
        lemma_pow5_monotone(a, (b - 1) as nat);
    }
}

proof fn lemma_pow5_fits_u128()
    ensures
        pow5(53) <= u128::MAX,
{
    reveal_with_fuel(pow5, 54);
}

proof fn lemma_pack_injective(a: Seq<nat>, b: Seq<nat>)
    requires
        a.len() == b.len(),
        digits_below_base(a),
        digits_below_base(b),
        pack(a) == pack(b),
    ensures
        a == b,
    decreases a.len(),
{
    if a.len() > 0 {
        let pa = a.drop_last();
        let pb = b.drop_last();
        let x = pack(pa);
        let y = pack(pb);
        let la = a.last();
        let lb = b.last();
        assert(la < 5 && lb < 5);
        assert(x * 5 + la == y * 5 + lb);
        assert(x == y && la == lb) by (nonlinear_arith)
            requires
                x * 5 + la == y * 5 + lb,
                0 <= la < 5,
                0 <= lb < 5,
        ;
        assert(digits_below_base(pa)) by {
            assert forall|i: int| 0 <= i < pa.len() implies #[trigger] pa[i] < 5 by {
                assert(pa[i] == a[i]);
            }
        }
        assert(digits_below_base(pb)) by {
            assert forall|i: int| 0 <= i < pb.len() implies #[trigger] pb[i] < 5 by {
                assert(pb[i] == b[i]);
            }
        }
        lemma_pack_injective(pa, pb);
        assert(a =~= pa.push(la));
        assert(b =~= pb.push(lb));
    } else {
        assert(a =~= b);
    }
}

proof fn lemma_key_digits_below_base(m: InventoryModel)
    requires
        m.wf(),
    ensures
        digits_below_base(key_digits(m)),
{
    assert forall|i: int| 0 <= i < key_digits(m).len() implies #[trigger] key_digits(m)[i] < 5 by {
        if i < NUM_CELLS {
            assert(key_digits(m)[i] == m.cells[i]);
        }
    }
}

/// Two well-formed inventories share a key exactly when they are the same
/// inventory: the key never confuses two different hands.
pub proof fn lemma_key_injective(a: InventoryModel, b: InventoryModel)
    requires
        a.wf(),
        b.wf(),
    ensures
        key_of(a) == key_of(b) <==> a == b,
{
    if key_of(a) == key_of(b) {
        lemma_key_digits_below_base(a);
        lemma_key_digits_below_base(b);
        lemma_pack_injective(key_digits(a), key_digits(b));
        assert(a.cells =~= key_digits(a).drop_last());
        assert(b.cells =~= key_digits(b).drop_last());
        assert(a.jokers == key_digits(a).last());
        assert(b.jokers == key_digits(b).last());
    }
}

/// The key of a well-formed inventory fits in 128 bits.
pub proof fn lemma_key_bound(m: InventoryModel)
    requires
        m.wf(),
    ensures
        key_of(m) <= u128::MAX,
{
    lemma_key_digits_below_base(m);
    lemma_pack_bound(key_digits(m));
    lemma_pow5_fits_u128();
}

proof fn lemma_seq_sum_update(s: Seq<nat>, i: int, v: nat)
    requires
        0 <= i < s.len(),
    ensures
        seq_sum(s.update(i, v)) + s[i] == seq_sum(s) + v,
    decreases s.len(),
{
    let u = s.update(i, v);
    if i < s.len() - 1 {
        lemma_seq_sum_update(s.drop_last(), i, v);
        assert(u.drop_last() =~= s.drop_last().update(i, v));
    } else {
        assert(u.drop_last() =~= s.drop_last());
    }
}

/// A sequence of counts sums to zero exactly when every count is zero.
pub proof fn lemma_seq_sum_zero(s: Seq<nat>)
    ensures
        seq_sum(s) == 0 <==> forall|i: int| 0 <= i < s.len() ==> #[trigger] s[i] == 0,
    decreases s.len(),
{
    if s.len() > 0 {
        lemma_seq_sum_zero(s.drop_last());
        if seq_sum(s) == 0 {
            assert forall|i: int| 0 <= i < s.len() implies #[trigger] s[i] == 0 by {
                if i < s.len() - 1 {
                    assert(s[i] == s.drop_last()[i]);
                }
            }
        }
        if forall|i: int| 0 <= i < s.len() ==> #[trigger] s[i] == 0 {
            assert forall|i: int| 0 <= i < s.drop_last().len() implies #[trigger] s.drop_last()[i]
                == 0 by {
                assert(s[i] == 0);
            }
            assert(s[s.len() - 1] == 0);
        }
    }
}

/// Number of real tiles among `s`.
pub open spec fn count_real(s: Seq<Tile>) -> nat
    decreases s.len(),
{
    if s.len() == 0 {
        0
    } else {
        count_real(s.drop_last()) + if s.last().is_joker { 0nat } else { 1nat }
    }
}

pub proof fn lemma_count_split(s: Seq<Tile>)
    ensures
        count_real(s) + count_jokers(s) == s.len(),
    decreases s.len(),
{
    if s.len() > 0 {
        lemma_count_split(s.drop_last());
    }
}

/// Taking the tiles of `s` out of an inventory that holds them lowers each
/// cell by the copies of its tile in `s`, the jokers by the jokers of `s`,
/// and the real tiles by the real tiles of `s`.
pub proof fn lemma_remove_meld(m: InventoryModel, s: Seq<Tile>)
    requires
        m.cells.len() == NUM_CELLS,
        m.holds(s),
    ensures
        m.remove_meld(s).cells.len() == NUM_CELLS,
        forall|i: int|
            0 <= i < NUM_CELLS ==> #[trigger] m.remove_meld(s).cells[i] + count_in_cell(s, i)
                == m.cells[i],
        m.remove_meld(s).jokers + count_jokers(s) == m.jokers,
        m.remove_meld(s).real_count() + count_real(s) == m.real_count(),
        m.remove_meld(s).real_count() + m.remove_meld(s).jokers + s.len() == m.real_count()
            + m.jokers,
    decreases s.len(),
{
    lemma_count_split(s);
    if s.len() > 0 {
        let p = s.drop_last();
        let t = s.last();
        assert(m.holds(p)) by {
            assert forall|k: int| 0 <= k < p.len() implies tile_in_range(#[trigger] p[k]) by {
                assert(p[k] == s[k]);
            }
            assert forall|i: int| 0 <= i < NUM_CELLS implies #[trigger] count_in_cell(p, i)
                <= m.cells[i] by {
                assert(count_in_cell(s, i) <= m.cells[i]);
            }
        }
        lemma_remove_meld(m, p);
        let q = m.remove_meld(p);
        assert(tile_in_range(s[s.len() - 1]));
        if !t.is_joker {
            let j = cell_index(t.number as int, t.color as int);
            assert(0 <= j < NUM_CELLS);
            assert(count_in_cell(s, j) <= m.cells[j]);
            assert(q.cells[j] >= 1);
            lemma_seq_sum_update(q.cells, j, (q.cells[j] - 1) as nat);
        }
    }
}

/// A hand or a supply of tiles: a count per (number, color) and a number of jokers.
#[derive(Clone, Copy, Debug)]
pub struct Inventory {
    grid: [u8; 52],
    jokers: u8,
}

impl View for Inventory {
    type V = InventoryModel;

    closed spec fn view(&self) -> InventoryModel {
        InventoryModel { cells: self.grid@.map_values(|c: u8| c as nat), jokers: self.jokers as nat }
    }
}

impl Inventory {
    pub open spec fn wf(&self) -> bool {
        self@.wf()
    }

    proof fn lemma_view(&self)
        ensures
            self@.cells.len() == NUM_CELLS,
            forall|i: int| 0 <= i < NUM_CELLS ==> #[trigger] self@.cells[i] == self.grid@[i] as nat,
            self@.jokers == self.jokers as nat,
    {
    }

    /// An inventory with `num` copies of every tile and `num` jokers.
    pub fn new(num: u8) -> (r: Inventory)
        requires
            num <= MAX_COUNT,
        ensures
            r.wf(),
            forall|i: int| 0 <= i < NUM_CELLS ==> #[trigger] r@.cells[i] == num as nat,
            r@.jokers == num as nat,
    {
        let r = Inventory { grid: [num; 52], jokers: num };
        proof {
            r.lemma_view();
        }
        r
    }

    /// Copies of the tile of `number` and `color`.
    pub fn count(&self, number: u8, color: u8) -> (r: u8)
        requires
            1 <= number <= 13,
            color < 4,
        ensures
            r as nat == self@.count(number as int, color as int),
    {
        proof {
            self.lemma_view();
        }
        self.grid[(number as usize - 1) * 4 + color as usize]
    }

    /// Copies held in cell `i`.
    pub fn count_at(&self, i: usize) -> (r: u8)
        requires
            i < NUM_CELLS,
        ensures
            r as nat == self@.cells[i as int],
    {
        proof {
            self.lemma_view();
        }
        self.grid[i]
    }

    /// Number of jokers.
    pub fn jokers(&self) -> (r: u8)
        ensures
            r as nat == self@.jokers,
    {
        self.jokers
    }

    /// Whether the inventory holds no real tile (jokers are not counted).
    pub fn is_empty(&self) -> (r: bool)
        ensures
            r == (self@.real_count() == 0),
    {
        proof {
            self.lemma_view();
            lemma_seq_sum_zero(self@.cells);
        }
        let mut i: usize = 0;
        while i < NUM_CELLS
            invariant
                i <= NUM_CELLS,
                self@.cells.len() == NUM_CELLS,
                forall|k: int| 0 <= k < NUM_CELLS ==> #[trigger] self@.cells[k] == self.grid@[k] as nat,
                forall|k: int| 0 <= k < i ==> #[trigger] self@.cells[k] == 0,
            decreases NUM_CELLS - i,
        {
            if self.grid[i] != 0 {
                proof {
                    lemma_seq_sum_zero(self@.cells);
                    assert(self@.cells[i as int] != 0);
                }
                return false;
            }
            i = i + 1;
        }
        true
    }

    /// Number of real tiles plus number of jokers.
    pub fn total_tile_count(&self) -> (r: u32)
        ensures
            r as nat == self@.real_count() + self@.jokers,
    {
        proof {
            self.lemma_view();
        }
        let mut total: u32 = 0;
        let mut i: usize = 0;
        while i < NUM_CELLS
            invariant
                i <= NUM_CELLS,
                self@.cells.len() == NUM_CELLS,
                forall|k: int| 0 <= k < NUM_CELLS ==> #[trigger] self@.cells[k] == self.grid@[k] as nat,
                total as nat == seq_sum(self@.cells.take(i as int)),
                total <= 255 * i,
            decreases NUM_CELLS - i,
        {
            assert(self@.cells.take(i + 1).drop_last() =~= self@.cells.take(i as int));
            total = total + self.grid[i] as u32;
            i = i + 1;
        }
        assert(self@.cells.take(NUM_CELLS as int) =~= self@.cells);
        total + self.jokers as u32
    }

    /// The cells that hold at least one tile, as (number - 1, color), in
    /// the order of numbers and, within a number, of colors.
    pub fn available_tiles(&self) -> (r: Vec<(usize, usize)>)
        ensures
            forall|k: int|
                0 <= k < r@.len() ==> {
                    let (n, c) = #[trigger] r@[k];
                    n < 13 && c < 4 && self@.count(n + 1, c as int) > 0
                },
            forall|k: int, l: int|
                0 <= k < l < r@.len() ==> cell_index(r@[k].0 + 1, r@[k].1 as int) < cell_index(
                    r@[l].0 + 1,
                    r@[l].1 as int,
                ),
            forall|i: int|
                0 <= i < NUM_CELLS && #[trigger] self@.cells[i] > 0 ==> r@.contains(
                    ((i / 4) as usize, (i % 4) as usize),
                ),
    {
        proof {
            self.lemma_view();
        }
        let mut r: Vec<(usize, usize)> = Vec::new();
        let mut i: usize = 0;
        while i < NUM_CELLS
            invariant
                i <= NUM_CELLS,
                self@.cells.len() == NUM_CELLS,
                forall|k: int| 0 <= k < NUM_CELLS ==> #[trigger] self@.cells[k] == self.grid@[k] as nat,
                forall|k: int|
                    0 <= k < r@.len() ==> {
                        let (n, c) = #[trigger] r@[k];
                        n < 13 && c < 4 && self@.count(n + 1, c as int) > 0 && cell_index(
                            n + 1,
                            c as int,
                        ) < i
                    },
                forall|k: int, l: int|
                    0 <= k < l < r@.len() ==> cell_index(r@[k].0 + 1, r@[k].1 as int)
                        < cell_index(r@[l].0 + 1, r@[l].1 as int),
                forall|j: int|
                    0 <= j < i && #[trigger] self@.cells[j] > 0 ==> r@.contains(
                        ((j / 4) as usize, (j % 4) as usize),
                    ),
            decreases NUM_CELLS - i,
        {
            if self.grid[i] > 0 {
                let ghost before = r@;
                r.push((i / 4, i % 4));
                proof {
                    assert(r@[r@.len() - 1] == (i / 4, i % 4));
                    assert forall|j: int|
                        0 <= j < i + 1 && #[trigger] self@.cells[j] > 0 implies r@.contains(
                            ((j / 4) as usize, (j % 4) as usize),
                        ) by {
                        if j < i {
                            let k = choose|k: int|
                                0 <= k < before.len() && before[k] == (
                                    (j / 4) as usize,
                                    (j % 4) as usize,
                                );
                            assert(r@[k] == before[k]);
                        } else {
                            assert(r@[r@.len() - 1] == ((j / 4) as usize, (j % 4) as usize));
                        }
                    }
                }
            }
            i = i + 1;
        }
        r
    }

    /// Takes the tiles of `set` out: each real tile from its cell, each joker
    /// from the jokers.
    pub fn remove_tiles(&mut self, set: &Meld)
        requires
            old(self).wf(),
            old(self)@.holds(set@),
        ensures
            final(self)@ == old(self)@.remove_meld(set@),
            final(self).wf(),
    {
        let ghost start = self@;
        proof {
            lemma_remove_meld(start, set@);
        }
        let mut k: usize = 0;
        while k < set.tiles.len()
            invariant
                k <= set@.len(),
                start.cells.len() == NUM_CELLS,
                start.holds(set@),
                self@ == start.remove_meld(set@.take(k as int)),
            decreases set@.len() - k,
        {
            let ghost prefix = set@.take(k as int);
            let ghost next = set@.take(k + 1);
            assert(next.drop_last() =~= prefix);
            proof {
                lemma_holds_prefix(start, set@, k as int);
                lemma_holds_prefix(start, set@, k + 1);
            }
            proof {
                lemma_remove_meld(start, next);
                lemma_remove_meld(start, prefix);
                self.lemma_view();
            }
            let t = set.tiles[k];
            assert(t == next.last());
            if t.is_joker {
                self.jokers = self.jokers - 1;
            } else {
                let i = (t.number as usize - 1) * 4 + t.color as usize;
                assert(count_in_cell(next, i as int) == count_in_cell(prefix, i as int) + 1);
                self.grid[i] = self.grid[i] - 1;
            }
            proof {
                assert(self@.cells =~= start.remove_meld(next).cells);
            }
            k = k + 1;
        }
        assert(set@.take(set@.len() as int) =~= set@);
        proof {
            assert(self@.wf()) by {
                assert forall|i: int| 0 <= i < NUM_CELLS implies #[trigger] self@.cells[i]
                    <= MAX_COUNT by {
                    assert(start.cells[i] <= MAX_COUNT);
                }
            }
        }
    }

    /// Packs the inventory into one number: each count a base-5 digit, cells
    /// in order, then the jokers. Distinct inventories get distinct keys.
    pub fn hash(&self) -> (r: u128)
        requires
            self.wf(),
        ensures
            r as nat == key_of(self@),
    {
        proof {
            self.lemma_view();
            lemma_key_digits_below_base(self@);
            lemma_pow5_fits_u128();
        }
        let ghost digits = key_digits(self@);
        let mut key: u128 = 0;
        let mut i: usize = 0;
        while i < NUM_CELLS + 1
            invariant
                i <= NUM_CELLS + 1,
                self@.wf(),
                digits == key_digits(self@),
                digits_below_base(digits),
                forall|k: int| 0 <= k < NUM_CELLS ==> #[trigger] self@.cells[k] == self.grid@[k] as nat,
                self@.jokers == self.jokers as nat,
                key as nat == pack(digits.take(i as int)),
                pow5(53) <= u128::MAX,
            decreases NUM_CELLS + 1 - i,
        {
            assert(digits.take(i + 1).drop_last() =~= digits.take(i as int));
            proof {
                assert(digits_below_base(digits.take(i as int))) by {
                    assert forall|j: int| 0 <= j < i implies #[trigger] digits.take(i as int)[j]
                        < 5 by {
                        assert(digits.take(i as int)[j] == digits[j]);
                    }
                }
                lemma_pack_bound(digits.take(i as int));
                lemma_pow5_monotone((i + 1) as nat, 53);
            }
            let d: u8 = if i < NUM_CELLS { self.grid[i] } else { self.jokers };
            assert(d as nat == digits[i as int]);
            assert(key * 5 + d < pow5((i + 1) as nat));
            key = key * KEY_BASE + d as u128;
            i = i + 1;
        }
        assert(digits.take(53) =~= digits);
        key
    }

    /// Adds one copy of the tile of `number` and `color`.
    pub fn add_tile(&mut self, number: u8, color: u8)
        requires
            1 <= number <= 13,
            color < 4,
            old(self)@.count(number as int, color as int) < MAX_COUNT,
        ensures
            final(self)@.cells == old(self)@.cells.update(
                cell_index(number as int, color as int),
                old(self)@.count(number as int, color as int) + 1,
            ),
            final(self)@.jokers == old(self)@.jokers,
            old(self).wf() ==> final(self).wf(),
    {
        proof {
            self.lemma_view();
        }
        let i = (number as usize - 1) * 4 + color as usize;
        self.grid[i] = self.grid[i] + 1;
        proof {
            self.lemma_view();
        }
        assert(self@.cells =~= old(self)@.cells.update(i as int, old(self)@.cells[i as int] + 1));
    }

    /// Takes one copy of the tile of `number` and `color` out.
    pub fn take_tile(&mut self, number: u8, color: u8)
        requires
            1 <= number <= 13,
            color < 4,
            old(self)@.count(number as int, color as int) > 0,
        ensures
            final(self)@.cells == old(self)@.cells.update(
                cell_index(number as int, color as int),
                (old(self)@.count(number as int, color as int) - 1) as nat,
            ),
            final(self)@.jokers == old(self)@.jokers,
            old(self).wf() ==> final(self).wf(),
    {
        proof {
            self.lemma_view();
        }
        let i = (number as usize - 1) * 4 + color as usize;
        self.grid[i] = self.grid[i] - 1;
        proof {
            self.lemma_view();
        }
        assert(self@.cells =~= old(self)@.cells.update(
            i as int,
            (old(self)@.cells[i as int] - 1) as nat,
        ));
    }

    /// Takes one joker out.
    pub fn take_joker(&mut self)
        requires
            old(self)@.jokers > 0,
        ensures
            final(self)@.cells == old(self)@.cells,
            final(self)@.jokers == old(self)@.jokers - 1,
            old(self).wf() ==> final(self).wf(),
    {
        self.jokers = self.jokers - 1;
    }

    /// Adds one joker.
    pub fn add_joker(&mut self)
        requires
            old(self)@.jokers < MAX_COUNT,
        ensures
            final(self)@.cells == old(self)@.cells,
            final(self)@.jokers == old(self)@.jokers + 1,
            old(self).wf() ==> final(self).wf(),
    {
        self.jokers = self.jokers + 1;
    }
}

pub proof fn lemma_count_prefix(s: Seq<Tile>, k: int)
    requires
        0 <= k <= s.len(),
    ensures
        forall|i: int| #[trigger] count_in_cell(s.take(k), i) <= count_in_cell(s, i),
        count_jokers(s.take(k)) <= count_jokers(s),
    decreases s.len() - k,
{
    if k < s.len() {
        lemma_count_prefix(s, k + 1);
        assert(s.take(k + 1).drop_last() =~= s.take(k));
        assert forall|i: int| #[trigger] count_in_cell(s.take(k), i) <= count_in_cell(s, i) by {
            assert(count_in_cell(s.take(k), i) <= count_in_cell(s.take(k + 1), i));
        }
    } else {
        assert(s.take(k) =~= s);
    }
}

proof fn lemma_holds_prefix(m: InventoryModel, s: Seq<Tile>, k: int)
    requires
        m.holds(s),
        0 <= k <= s.len(),
    ensures
        m.holds(s.take(k)),
{
    lemma_count_prefix(s, k);
    assert forall|j: int| 0 <= j < s.take(k).len() implies tile_in_range(#[trigger] s.take(k)[j]) by {
        assert(s.take(k)[j] == s[j]);
    }
    assert forall|i: int| 0 <= i < NUM_CELLS implies #[trigger] count_in_cell(s.take(k), i)
        <= m.cells[i] by {
        assert(count_in_cell(s, i) <= m.cells[i]);
    }
}

/// The tile counts of two sequences put end to end add up.
pub proof fn lemma_counts_concat(a: Seq<Tile>, b: Seq<Tile>)
    ensures
        forall|i: int| #[trigger] count_in_cell(a + b, i) == count_in_cell(a, i) + count_in_cell(b, i),
        count_jokers(a + b) == count_jokers(a) + count_jokers(b),
        count_real(a + b) == count_real(a) + count_real(b),
    decreases b.len(),
{
    if b.len() == 0 {
        assert(a + b =~= a);
    } else {
        lemma_counts_concat(a, b.drop_last());
        assert((a + b).drop_last() =~= a + b.drop_last());
        assert((a + b).last() == b.last());
        assert forall|i: int| #[trigger] count_in_cell(a + b, i) == count_in_cell(a, i)
            + count_in_cell(b, i) by {
            assert(count_in_cell(a + b.drop_last(), i) == count_in_cell(a, i) + count_in_cell(
                b.drop_last(),
                i,
            ));
        }
    }
}

} // verus!
