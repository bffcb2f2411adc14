//! The boneyard: the tiles that can still be drawn.

use crate::configuration::Configuration;
use crate::tile::Tile;
use rand::seq::SliceRandom;
use vstd::prelude::*;

verus! {

/// The tiles of a game in the order in which they will be drawn.
#[derive(Debug, Clone)]
pub struct Boneyard {
    tiles: Vec<Tile>,
    next: usize,
}

impl View for Boneyard {
    type V = Seq<Tile>;

    /// The tiles that are left, the next one to be drawn first.
    closed spec fn view(&self) -> Seq<Tile> {
        self.tiles@.skip(self.next as int)
    }
}

/// `SliceRandom::shuffle` on the tiles from a position on, with the
/// generator of `rand::rng`: the tiles before the position stay, and the
/// others are the same tiles in an order that the generator chooses.
#[verifier::external_body]
fn shuffle_from(tiles: &mut Vec<Tile>, from: usize)
    requires
        from <= old(tiles)@.len(),
    ensures
        final(tiles)@.len() == old(tiles)@.len(),
        final(tiles)@.take(from as int) == old(tiles)@.take(from as int),
        final(tiles)@.skip(from as int).to_multiset() == old(tiles)@.skip(from as int).to_multiset(),
{
    tiles[from..].shuffle(&mut rand::rng());
}

impl Boneyard {
    /// No tile before the first was drawn.
    pub closed spec fn wf(&self) -> bool {
        self.next <= self.tiles@.len()
    }

    /// Creates a boneyard with all tiles of the configuration's set, shuffled.
    pub fn new(configuration: &Configuration) -> (boneyard: Boneyard)
        ensures
            boneyard.wf(),
            boneyard@.to_multiset() == configuration@.tiles.to_multiset(),
    {
        let all = configuration.all_tiles();
        let mut tiles: Vec<Tile> = Vec::new();
        let mut i: usize = 0;
        while i < all.len()
            invariant
                i <= all@.len(),
                tiles@ == all@.take(i as int),
            decreases all@.len() - i,
        {
            tiles.push(all[i]);
            assert(all@.take(i as int).push(all@[i as int]) =~= all@.take(i + 1));
            i = i + 1;
        }
        assert(all@.take(i as int) =~= all@);
        let ghost sorted = tiles@;
        shuffle_from(&mut tiles, 0);
        assert(tiles@.skip(0) =~= tiles@);
        assert(sorted.skip(0) =~= sorted);
        Boneyard { tiles, next: 0 }
    }

    /// Creates a boneyard that holds the given tiles, the first to be drawn first.
    pub fn with(tiles: Vec<Tile>) -> (boneyard: Boneyard)
        ensures
            boneyard.wf(),
            boneyard@ == tiles@,
    {
        assert(tiles@.skip(0) =~= tiles@);
        Boneyard { tiles, next: 0 }
    }

    /// Shuffles the tiles that are left.
    pub fn shuffle(&mut self)
        requires
            old(self).wf(),
        ensures
            final(self).wf(),
            final(self)@.to_multiset() == old(self)@.to_multiset(),
    {
        shuffle_from(&mut self.tiles, self.next);
    }

    /// Draws the next tile, if one is left.
    pub fn draw(&mut self) -> (tile: Option<Tile>)
        requires
            old(self).wf(),
        ensures
            final(self).wf(),
            match tile {
                Some(tile) => old(self)@.len() > 0 && tile == old(self)@[0] && final(self)@ == old(self)@.drop_first(),
                None => old(self)@.len() == 0 && final(self)@ == old(self)@,
            },
    {
        if self.next < self.tiles.len() {
            let tile = self.tiles[self.next];
            assert(self.tiles@.skip(self.next as int).drop_first() =~= self.tiles@.skip(
                self.next as int + 1,
            ));
            self.next = self.next + 1;
            Some(tile)
        } else {
            None
        }
    }

    /// Returns the number of tiles that are left.
    pub fn count(&self) -> (count: usize)
        requires
            self.wf(),
        ensures
            count == self@.len(),
    {
        self.tiles.len() - self.next
    }

    /// Checks if no tile is left.
    pub fn is_empty(&self) -> (empty: bool)
        requires
            self.wf(),
        ensures
            empty == (self@.len() == 0),
    {
        self.next >= self.tiles.len()
    }

    /// Returns the next tile without drawing it, if one is left.
    pub fn peek(&self) -> (tile: Option<&Tile>)
        requires
            self.wf(),
        ensures
            match tile {
                Some(tile) => self@.len() > 0 && *tile == self@[0],
                None => self@.len() == 0,
            },
    {
        if self.next < self.tiles.len() {
            Some(&self.tiles[self.next])
        } else {
            None
        }
    }
}

} // verus!
