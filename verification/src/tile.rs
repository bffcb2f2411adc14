//! A domino tile, identified by its ordinal.

use crate::rules::{
    lemma_triangle_monotonic, lemma_tuple_of,
    matches_tuples, matches_tuples_spec, ordinal_of, ordinal_to_tuple,
    set_size, set_size_spec, triangle, tuple_of, tuple_to_ordinal,
};
use crate::text::{append_decimal, decimal};
use vstd::prelude::*;
use vstd::string::StringExecFns;

verus! {

/// A domino tile represented by its ordinal value.
#[derive(Debug, Clone, Copy, PartialEq, Eq, Hash, PartialOrd, Ord, Structural)]
pub struct Tile {
    /// The ordinal value of this tile.
    pub ordinal: u8,
}

impl Tile {
    /// The smaller number of pips on the tile.
    pub open spec fn lo(self) -> int {
        tuple_of(self.ordinal as int).0
    }

    /// The larger number of pips on the tile.
    pub open spec fn hi(self) -> int {
        tuple_of(self.ordinal as int).1
    }

    /// The canonical pair of the tile.
    pub open spec fn pips(self) -> (u8, u8) {
        (self.lo() as u8, self.hi() as u8)
    }

    /// Both sides of the tile carry the same value.
    pub open spec fn is_double_spec(self) -> bool {
        self.lo() == self.hi()
    }

    /// The value occurs on the tile.
    pub open spec fn has(self, value: int) -> bool {
        self.lo() == value || self.hi() == value
    }

    /// The tile's text: its two values with a bar between them.
    pub open spec fn text(self) -> Seq<char> {
        decimal(self.lo() as nat) + seq!['|'] + decimal(self.hi() as nat)
    }

    /// The canonical pair of a tile is ordered, small, and yields the tile's ordinal.
    pub proof fn lemma_pips(self)
        ensures
            0 <= self.lo() <= self.hi() <= 22,
            ordinal_of(self.lo(), self.hi()) == self.ordinal,
            self.pips().0 == self.lo(),
            self.pips().1 == self.hi(),
    {
        lemma_tuple_of(self.ordinal as int);
        if self.hi() > 22 {
            lemma_triangle_monotonic(22, self.hi());
            assert(triangle(22) == 253) by (nonlinear_arith);
        }
    }

    /// Tiles with the same canonical pair are the same tile.
    pub proof fn lemma_same_pips(self, other: Tile)
        requires
            self.lo() == other.lo(),
            self.hi() == other.hi(),
        ensures
            self == other,
    {
        self.lemma_pips();
        other.lemma_pips();
    }

    /// Creates a new tile from an ordinal value.
    pub fn new(ordinal: u8) -> (tile: Tile)
        ensures
            tile.ordinal == ordinal,
    {
        Tile { ordinal }
    }

    /// Creates the tile with the given two values, in either order.
    pub fn from(values: (u8, u8)) -> (tile: Tile)
        requires
            values.0 <= values.1 ==> ordinal_of(values.0 as int, values.1 as int) <= u8::MAX,
            values.1 <= values.0 ==> ordinal_of(values.1 as int, values.0 as int) <= u8::MAX,
        ensures
            values.0 <= values.1 ==> tile.lo() == values.0 && tile.hi() == values.1,
            values.1 <= values.0 ==> tile.lo() == values.1 && tile.hi() == values.0,
            values.0 <= values.1 ==> tile.pips() == values,
            values.1 <= values.0 ==> tile.pips() == (values.1, values.0),
            tile.has(values.0 as int),
            tile.has(values.1 as int),
            tile.is_double_spec() <==> values.0 == values.1,
    {
        if values.0 <= values.1 {
            Tile { ordinal: tuple_to_ordinal(values) }
        } else {
            Tile { ordinal: tuple_to_ordinal((values.1, values.0)) }
        }
    }

    /// Returns `true` if this tile is a double.
    pub fn is_double(self) -> (double: bool)
        ensures
            double == self.is_double_spec(),
    {
        let (a, b) = ordinal_to_tuple(self.ordinal);
        a == b
    }

    /// Returns the tile as its canonical pair.
    pub fn as_tuple(&self) -> (pips: (u8, u8))
        ensures
            pips == self.pips(),
            pips.0 <= pips.1 <= 22,
            pips.0 == self.lo(),
            pips.1 == self.hi(),
    {
        ordinal_to_tuple(self.ordinal)
    }

    /// Returns which value on this tile matches the given tile and which is
    /// the other value of this tile, or `None` if the tiles share no value.
    pub fn matches(&self, other: &Tile) -> (matched: Option<(u8, u8)>)
        ensures
            matched == matches_tuples_spec(self.pips(), other.pips()),
    {
        let a = self.as_tuple();
        let b = other.as_tuple();
        matches_tuples(a, b)
    }

    /// Returns the score of the tile: the pips on both sides added up.
    pub fn score(self) -> (score: u8)
        ensures
            score == self.lo() + self.hi(),
    {
        let (a, b) = self.as_tuple();
        a + b
    }

    /// Returns the tile's text, such as `3|5`.
    pub fn to_string(&self) -> (text: String)
        ensures
            text@ == self.text(),
    {
        let (a, b) = self.as_tuple();
        let mut out = String::from_str("");
        append_decimal(&mut out, a as usize);
        out.append("|");
        append_decimal(&mut out, b as usize);
        proof {
            reveal_strlit("");
            reveal_strlit("|");
            assert(out@ =~= self.text());
        }
        out
    }
}

/// Returns all tiles of a set, in the order of their ordinals. The size of the
/// set counts as a `u8`, as ordinals do.
pub fn all_tiles_as_tiles(set_id: u8) -> (tiles: Vec<Tile>)
    ensures
        tiles@.len() == set_size_spec(set_id as int) % 256,
        forall|i: int| 0 <= i < tiles@.len() ==> #[trigger] tiles@[i].ordinal == i,
{
    let size: usize = set_size(set_id);
    let count: u8 = #[verifier::truncate] (size as u8);
    assert(count == size % 256) by (bit_vector)
        requires
            count == size as u8,
    ;
    let mut tiles: Vec<Tile> = Vec::new();
    let mut i: u8 = 0;
    while i < count
        invariant
            i <= count,
            tiles@.len() == i,
            forall|k: int| 0 <= k < tiles@.len() ==> #[trigger] tiles@[k].ordinal == k,
        decreases count - i,
    {
        tiles.push(Tile { ordinal: i });
        i = i + 1;
    }
    tiles
}

impl From<u8> for Tile {
    fn from(ordinal: u8) -> (tile: Tile) {
        Tile { ordinal }
    }
}

impl vstd::std_specs::convert::FromSpecImpl<u8> for Tile {
    open spec fn obeys_from_spec() -> bool {
        true
    }

    open spec fn from_spec(ordinal: u8) -> Tile {
        Tile { ordinal }
    }
}

impl From<Tile> for (u8, u8) {
    fn from(tile: Tile) -> (pips: (u8, u8)) {
        tile.as_tuple()
    }
}

impl vstd::std_specs::convert::FromSpecImpl<Tile> for (u8, u8) {
    open spec fn obeys_from_spec() -> bool {
        true
    }

    open spec fn from_spec(tile: Tile) -> (u8, u8) {
        tile.pips()
    }
}

impl From<&Tile> for (u8, u8) {
    fn from(tile: &Tile) -> (pips: (u8, u8)) {
        tile.as_tuple()
    }
}

impl vstd::std_specs::convert::FromSpecImpl<&Tile> for (u8, u8) {
    open spec fn obeys_from_spec() -> bool {
        true
    }

    open spec fn from_spec(tile: &Tile) -> (u8, u8) {
        tile.pips()
    }
}

impl From<Tile> for u8 {
    fn from(tile: Tile) -> (ordinal: u8) {
        tile.ordinal
    }
}

impl vstd::std_specs::convert::FromSpecImpl<Tile> for u8 {
    open spec fn obeys_from_spec() -> bool {
        true
    }

    open spec fn from_spec(tile: Tile) -> u8 {
        tile.ordinal
    }
}

impl From<&Tile> for u8 {
    fn from(tile: &Tile) -> (ordinal: u8) {
        tile.ordinal
    }
}

impl vstd::std_specs::convert::FromSpecImpl<&Tile> for u8 {
    open spec fn obeys_from_spec() -> bool {
        true
    }

    open spec fn from_spec(tile: &Tile) -> u8 {
        tile.ordinal
    }
}

} // verus!
