//! A player's hand of domino tiles.

use crate::tile::Tile;
use vstd::prelude::*;

verus! {

/// The tiles that a player holds, in the order in which they were added.
#[derive(Debug, Clone)]
pub struct Hand {
    tiles: Vec<Tile>,
}

impl View for Hand {
    type V = Seq<Tile>;

    closed spec fn view(&self) -> Seq<Tile> {
        self.tiles@
    }
}

/// The scores of the tiles added up.
pub open spec fn total_score(tiles: Seq<Tile>) -> int
    decreases tiles.len(),
{
    if tiles.len() == 0 {
        0
    } else {
        total_score(tiles.drop_last()) + tiles.last().lo() + tiles.last().hi()
    }
}

/// The first position of a tile in a sequence that holds it.
pub open spec fn position_of(tiles: Seq<Tile>, tile: Tile) -> int
    decreases tiles.len(),
{
    if tiles.len() == 0 || tiles[0] == tile {
        0
    } else {
        1 + position_of(tiles.drop_first(), tile)
    }
}

/// In a sequence that holds a tile, the first position of the tile holds it,
/// and no earlier position does.
pub proof fn lemma_position_of(tiles: Seq<Tile>, tile: Tile)
    requires
        tiles.contains(tile),
    ensures
        0 <= position_of(tiles, tile) < tiles.len(),
        tiles[position_of(tiles, tile)] == tile,
        forall|j: int| 0 <= j < position_of(tiles, tile) ==> tiles[j] != tile,
    decreases tiles.len(),
{
    let i = choose|i: int| 0 <= i < tiles.len() && tiles[i] == tile;
    if tiles[0] != tile {
        let rest = tiles.drop_first();
        assert(rest[i - 1] == tile);
        lemma_position_of(rest, tile);
        assert forall|j: int| 0 <= j < position_of(tiles, tile) implies tiles[j] != tile by {
            if j > 0 {
                assert(rest[j - 1] != tile);
            }
        }
    }
}

/// Returns the first position of a tile among the tiles, if they hold it.
pub fn find_tile(tiles: &Vec<Tile>, tile: Tile) -> (position: Option<usize>)
    ensures
        match position {
            Some(position) => tiles@.contains(tile) && position == position_of(tiles@, tile)
                && position < tiles@.len(),
            None => !tiles@.contains(tile),
        },
{
    let mut i: usize = 0;
    while i < tiles.len()
        invariant
            i <= tiles@.len(),
            forall|j: int| 0 <= j < i ==> tiles@[j] != tile,
        decreases tiles@.len() - i,
    {
        if tiles[i].ordinal == tile.ordinal {
            proof {
                assert(tiles@[i as int] == tile);
                lemma_position_of(tiles@, tile);
            }
            return Some(i);
        }
        i = i + 1;
    }
    None
}

impl Hand {
    /// Creates a new empty hand.
    pub fn new() -> (hand: Hand)
        ensures
            hand@ == Seq::<Tile>::empty(),
    {
        Hand { tiles: Vec::new() }
    }

    /// Returns the tiles in the hand.
    pub fn tiles(&self) -> (tiles: &[Tile])
        ensures
            tiles@ == self@,
    {
        self.tiles.as_slice()
    }

    /// Returns the tile at the specified index, if there is one.
    pub fn get_tile(&self, index: usize) -> (tile: Option<&Tile>)
        ensures
            match tile {
                Some(tile) => index < self@.len() && *tile == self@[index as int],
                None => index >= self@.len(),
            },
    {
        if index < self.tiles.len() {
            Some(&self.tiles[index])
        } else {
            None
        }
    }

    /// Adds a tile to the hand.
    pub fn add_tile(&mut self, tile: Tile)
        ensures
            final(self)@ == old(self)@.push(tile),
    {
        self.tiles.push(tile);
    }

    /// Removes the first occurrence of a tile from the hand.
    pub fn remove_tile(&mut self, tile: &Tile)
        requires
            old(self)@.contains(*tile),
        ensures
            final(self)@ == old(self)@.remove(position_of(old(self)@, *tile)),
    {
        proof {
            lemma_position_of(self@, *tile);
        }
        match find_tile(&self.tiles, *tile) {
            Some(position) => {
                self.tiles.remove(position);
            },
            None => {},
        }
    }

    /// Returns the number of tiles in the hand.
    pub fn len(&self) -> (count: usize)
        ensures
            count == self@.len(),
    {
        self.tiles.len()
    }

    /// Checks if the hand is empty.
    pub fn is_empty(&self) -> (empty: bool)
        ensures
            empty == (self@.len() == 0),
    {
        self.tiles.len() == 0
    }

    /// Checks if the hand contains a specific tile.
    pub fn contains(&self, tile: &Tile) -> (found: bool)
        ensures
            found == self@.contains(*tile),
    {
        find_tile(&self.tiles, *tile).is_some()
    }

    /// Returns the scores of the tiles in the hand added up.
    pub fn score(&self) -> (score: u32)
        requires
            total_score(self@) <= u32::MAX,
        ensures
            score == total_score(self@),
    {
        let mut score: u32 = 0;
        let mut i: usize = 0;
        while i < self.tiles.len()
            invariant
                i <= self.tiles@.len(),
                score == total_score(self.tiles@.take(i as int)),
                total_score(self.tiles@) <= u32::MAX,
            decreases self.tiles@.len() - i,
        {
            proof {
                let next = self.tiles@.take(i + 1);
                assert(next.drop_last() =~= self.tiles@.take(i as int));
                self.tiles@[i as int].lemma_pips();
                lemma_score_prefix(self.tiles@, i + 1);
            }
            score = score + self.tiles[i].score() as u32;
            i = i + 1;
        }
        assert(self.tiles@.take(i as int) =~= self.tiles@);
        score
    }
}

/// The score of the first tiles is at most the score of all, and never negative.
pub proof fn lemma_score_prefix(tiles: Seq<Tile>, n: int)
    requires
        0 <= n <= tiles.len(),
    ensures
        0 <= total_score(tiles.take(n)) <= total_score(tiles),
    decreases tiles.len() - n,
{
    if n < tiles.len() {
        lemma_score_prefix(tiles, n + 1);
        assert(tiles.take(n + 1).drop_last() =~= tiles.take(n));
        tiles[n].lemma_pips();
        lemma_score_not_negative(tiles.take(n));
    } else {
        assert(tiles.take(n) =~= tiles);
        lemma_score_not_negative(tiles);
    }
}

/// A score is never negative.
pub proof fn lemma_score_not_negative(tiles: Seq<Tile>)
    ensures
        0 <= total_score(tiles),
    decreases tiles.len(),
{
    if tiles.len() > 0 {
        lemma_score_not_negative(tiles.drop_last());
        tiles.last().lemma_pips();
    }
}

impl Default for Hand {
    fn default() -> (hand: Hand)
        ensures
            hand@ == Seq::<Tile>::empty(),
    {
        Hand::new()
    }
}

} // verus!
