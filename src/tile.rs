use vstd::prelude::*;

verus! {

/// Number of tile numbers (1 through 13).
pub const NUM_NUMBERS: u8 = 13;

/// Number of tile colors (0 through 3).
pub const NUM_COLORS: u8 = 4;

/// One tile of a meld. A tile with `is_joker` set is a joker standing in for
/// the tile with this color and number.
#[derive(Clone, Copy, PartialEq, Eq, Structural, Debug, Hash)]
pub struct Tile {
    pub color: u8,
    pub number: u8,
    pub is_joker: bool,
}

/// A color and a number that name a tile of the game.
pub open spec fn tile_in_range(t: Tile) -> bool {
    1 <= t.number <= NUM_NUMBERS && t.color < NUM_COLORS
}

/// Three or four tiles of one number, each of a different color.
pub open spec fn is_group(s: Seq<Tile>) -> bool {
    &&& 3 <= s.len() <= 4
    &&& forall|i: int| 0 <= i < s.len() ==> tile_in_range(#[trigger] s[i])
    &&& forall|i: int| 0 <= i < s.len() ==> (#[trigger] s[i]).number == s[0].number
    &&& forall|i: int, j: int| 0 <= i < j < s.len() ==> (#[trigger] s[i]).color != (#[trigger] s[j]).color
}

/// Three or more tiles of one color with consecutive numbers.
pub open spec fn is_run(s: Seq<Tile>) -> bool {
    &&& 3 <= s.len()
    &&& forall|i: int| 0 <= i < s.len() ==> tile_in_range(#[trigger] s[i])
    &&& forall|i: int|
        0 <= i < s.len() ==> (#[trigger] s[i]).color == s[0].color && s[i].number == s[0].number + i
}

/// A group or a run.
pub open spec fn is_valid_meld(s: Seq<Tile>) -> bool {
    is_group(s) || is_run(s)
}

/// Every tile has the color of the first one.
pub open spec fn all_same_color(s: Seq<Tile>) -> bool {
    forall|i: int| 0 <= i < s.len() ==> (#[trigger] s[i]).color == s[0].color
}

/// Of a valid meld, sharing one color is what makes it a run.
pub proof fn lemma_classification(s: Seq<Tile>)
    requires
        is_valid_meld(s),
    ensures
        all_same_color(s) <==> is_run(s),
{
    if all_same_color(s) && is_group(s) {
        assert(s[0].color != s[1].color);
        assert(s[1].color == s[0].color);
    }
}

/// A sequence of tiles placed together: a group or a run.
#[derive(Debug)]
pub struct Meld {
    pub tiles: Vec<Tile>,
}

impl View for Meld {
    type V = Seq<Tile>;

    open spec fn view(&self) -> Seq<Tile> {
        self.tiles@
    }
}

impl Meld {
    /// Whether all tiles share one color: for a valid meld, whether it is a run.
    pub fn is_run(&self) -> (r: bool)
        ensures
            r == all_same_color(self@),
    {
        let n = self.tiles.len();
        if n == 0 {
            return true;
        }
        let first = self.tiles[0].color;
        let mut i: usize = 1;
        while i < n
            invariant
                1 <= i <= n,
                n == self@.len(),
                first == self@[0].color,
                forall|k: int| 0 <= k < i ==> (#[trigger] self@[k]).color == first,
            decreases n - i,
        {
            if self.tiles[i].color != first {
                return false;
            }
            i = i + 1;
        }
        true
    }

    /// A copy of this meld, tile for tile.
    pub fn duplicate(&self) -> (r: Meld)
        ensures
            r@ == self@,
    {
        let mut tiles: Vec<Tile> = Vec::new();
        let mut i: usize = 0;
        while i < self.tiles.len()
            invariant
                i <= self@.len(),
                tiles@ == self@.subrange(0, i as int),
            decreases self@.len() - i,
        {
            tiles.push(self.tiles[i]);
            i = i + 1;
            assert(tiles@ =~= self@.subrange(0, i as int));
        }
        assert(tiles@ =~= self@);
        Meld { tiles }
    }
}

} // verus!
