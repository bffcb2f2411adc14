//! Zobrist hashing of the game state.
//!
//! A fingerprint combines the tiles in the layout, the number of open ends of
//! each value, and whose turn it is, by XOR of one constant per fact. It can be
//! computed from scratch or updated step by step, in any order.

use crate::layout::{Layout, LayoutNode};
use rand::{RngCore, SeedableRng};
use rand_chacha::ChaCha8Rng;
use vstd::prelude::*;

verus! {

/// The type of a fingerprint's value.
pub type Z = u64;

/// The number of tile constants in the table.
pub const TILE_CONSTANTS: usize = 256;

/// The number of end values, and of counts for each, in the table.
pub const END_CONSTANTS: usize = 22;

/// The seed of the generator that fills the standard table.
pub const TABLE_SEED: u64 = 1;

/// `rand_chacha::ChaCha8Rng`: a generator of pseudo-random words. Nothing of
/// its inside is known but what its functions say.
#[verifier::external_type_specification]
#[verifier::external_body]
pub struct ExChaCha8Rng(ChaCha8Rng);

/// The word that a ChaCha8 generator made by `seed_from_u64(seed)` returns at
/// its call number `index` of `next_u64`, counting from 0.
pub uninterp spec fn chacha8_word(seed: u64, index: nat) -> u64;

/// The word that this generator will return at its call number `index` of
/// `next_u64` from now, counting from 0.
pub uninterp spec fn upcoming_word(rng: ChaCha8Rng, index: nat) -> u64;

/// `ChaCha8Rng::seed_from_u64`: a generator whose words are a function of the
/// seed alone, the same in every run.
#[verifier::external_body]
fn seeded_generator(seed: u64) -> (rng: ChaCha8Rng)
    ensures
        forall|k: nat| #[trigger] upcoming_word(rng, k) == chacha8_word(seed, k),
{
    ChaCha8Rng::seed_from_u64(seed)
}

/// `RngCore::next_u64` of `ChaCha8Rng`: hands out the generator's next word
/// and moves the generator on by one word.
#[verifier::external_body]
fn next_word(rng: &mut ChaCha8Rng) -> (word: u64)
    ensures
        word == upcoming_word(*old(rng), 0),
        forall|k: nat| #[trigger] upcoming_word(*final(rng), k) == upcoming_word(*old(rng), k + 1),
{
    rng.next_u64()
}

/// The table of constants: one per tile, one per end value and count, and one
/// for the turn.
#[derive(Debug, Clone)]
pub struct ZTable {
    tile_hashes: Vec<u64>,
    end_hashes: Vec<Vec<u64>>,
    turn_hash: u64,
}

impl ZTable {
    /// The table has its full size, and a count of zero has the constant 0.
    pub closed spec fn wf(&self) -> bool {
        &&& self.tile_hashes@.len() == TILE_CONSTANTS
        &&& self.end_hashes@.len() == END_CONSTANTS
        &&& forall|v: int|
            0 <= v < END_CONSTANTS ==> (#[trigger] self.end_hashes@[v])@.len() == END_CONSTANTS
                && self.end_hashes@[v]@[0] == 0
    }

    /// The constant of a tile.
    pub closed spec fn tile_constant(&self, tile: int) -> u64 {
        self.tile_hashes@[tile]
    }

    /// The constant of an end value that is open `count` times.
    pub closed spec fn end_constant(&self, value: int, count: int) -> u64 {
        self.end_hashes@[value]@[count]
    }

    /// The constant of the turn.
    pub closed spec fn turn_constant(&self) -> u64 {
        self.turn_hash
    }

    /// The position in the generator's output of the constant of an end value
    /// and a count of at least one.
    pub open spec fn end_word_index(value: int, count: int) -> nat {
        (TILE_CONSTANTS + (END_CONSTANTS - 1) * value + count - 1) as nat
    }

    /// The table holds the words of the generator seeded with `TABLE_SEED`, in
    /// order: the tiles, then the ends by value and count, then the turn.
    pub open spec fn is_standard(&self) -> bool {
        &&& self.wf()
        &&& forall|t: int|
            0 <= t < TILE_CONSTANTS ==> #[trigger] self.tile_constant(t) == chacha8_word(
                TABLE_SEED,
                t as nat,
            )
        &&& forall|v: int, c: int|
            0 <= v < END_CONSTANTS && 1 <= c < END_CONSTANTS ==> #[trigger] self.end_constant(v, c)
                == chacha8_word(TABLE_SEED, Self::end_word_index(v, c))
        &&& self.turn_constant() == chacha8_word(
            TABLE_SEED,
            (TILE_CONSTANTS + (END_CONSTANTS - 1) * END_CONSTANTS) as nat,
        )
    }

    /// In a well-formed table, no open ends of a value means no change.
    pub proof fn lemma_zero_count(&self, value: int)
        requires
            self.wf(),
            0 <= value < END_CONSTANTS,
        ensures
            self.end_constant(value, 0) == 0,
    {
    }

    /// Creates the standard table from a seeded generator.
    pub fn new() -> (table: ZTable)
        ensures
            table.is_standard(),
    {
        let mut rng = seeded_generator(TABLE_SEED);
        let mut tile_hashes: Vec<u64> = Vec::new();
        let mut i: usize = 0;
        while i < TILE_CONSTANTS
            invariant
                i <= TILE_CONSTANTS,
                tile_hashes@.len() == i,
                forall|t: int| 0 <= t < i ==> #[trigger] tile_hashes@[t] == chacha8_word(TABLE_SEED, t as nat),
                forall|k: nat| #[trigger] upcoming_word(rng, k) == chacha8_word(TABLE_SEED, i as nat + k),
            decreases TILE_CONSTANTS - i,
        {
            let word = next_word(&mut rng);
            tile_hashes.push(word);
            i = i + 1;
        }
        let mut end_hashes: Vec<Vec<u64>> = Vec::new();
        let mut v: usize = 0;
        while v < END_CONSTANTS
            invariant
                v <= END_CONSTANTS,
                end_hashes@.len() == v,
                forall|w: int|
                    0 <= w < v ==> (#[trigger] end_hashes@[w])@.len() == END_CONSTANTS
                        && end_hashes@[w]@[0] == 0,
                forall|w: int, c: int|
                    0 <= w < v && 1 <= c < END_CONSTANTS ==> #[trigger] end_hashes@[w]@[c]
                        == chacha8_word(TABLE_SEED, Self::end_word_index(w, c)),
                forall|k: nat| #[trigger] upcoming_word(rng, k) == chacha8_word(
                    TABLE_SEED,
                    Self::end_word_index(v as int, 1) + k,
                ),
            decreases END_CONSTANTS - v,
        {
            let mut row: Vec<u64> = Vec::new();
            row.push(0);
            let mut c: usize = 1;
            while c < END_CONSTANTS
                invariant
                    v < END_CONSTANTS,
                    1 <= c <= END_CONSTANTS,
                    row@.len() == c,
                    row@[0] == 0,
                    forall|d: int|
                        1 <= d < c ==> #[trigger] row@[d] == chacha8_word(
                            TABLE_SEED,
                            Self::end_word_index(v as int, d),
                        ),
                    forall|k: nat| #[trigger] upcoming_word(rng, k) == chacha8_word(
                        TABLE_SEED,
                        Self::end_word_index(v as int, c as int) + k,
                    ),
                decreases END_CONSTANTS - c,
            {
                let word = next_word(&mut rng);
                row.push(word);
                c = c + 1;
            }
            end_hashes.push(row);
            v = v + 1;
        }
        let turn_hash = next_word(&mut rng);
        ZTable { tile_hashes, end_hashes, turn_hash }
    }

    /// Returns the constant of a tile.
    pub fn tile_value(&self, tile: usize) -> (value: u64)
        requires
            self.wf(),
            tile < TILE_CONSTANTS,
        ensures
            value == self.tile_constant(tile as int),
    {
        self.tile_hashes[tile]
    }

    /// Returns the constant of an end value that is open `count` times.
    pub fn end_value(&self, which: usize, count: usize) -> (value: u64)
        requires
            self.wf(),
            which < END_CONSTANTS,
            count < END_CONSTANTS,
        ensures
            value == self.end_constant(which as int, count as int),
    {
        self.end_hashes[which][count]
    }

    /// Returns the constant of the turn.
    pub fn turn_value(&self) -> (value: u64)
        ensures
            value == self.turn_constant(),
    {
        self.turn_hash
    }
}

/// A Zobrist fingerprint: a 64-bit accumulator.
#[derive(Debug, Clone, Copy, PartialEq, Eq, Hash, Ord, PartialOrd, Structural)]
pub struct ZHash {
    value: Z,
}

impl View for ZHash {
    type V = u64;

    closed spec fn view(&self) -> u64 {
        self.value
    }
}

/// One step of updating a fingerprint.
pub enum Update {
    /// A tile was added to the layout.
    AddTile { tile: u8 },
    /// The number of open ends of a value changed.
    ChangeEndCount { value: u8, old_count: u8, new_count: u8 },
    /// The turn passed to the other player.
    Turn,
}

impl Update {
    /// What the step XORs into the accumulator.
    pub open spec fn delta(self, table: &ZTable) -> u64 {
        match self {
            Update::AddTile { tile } => table.tile_constant(tile as int),
            Update::ChangeEndCount { value, old_count, new_count } => table.end_constant(
                value as int,
                old_count as int,
            ) ^ table.end_constant(value as int, new_count as int),
            Update::Turn => table.turn_constant(),
        }
    }

    /// The accumulator after the step.
    pub open spec fn apply(self, table: &ZTable, accumulator: u64) -> u64 {
        accumulator ^ self.delta(table)
    }

    /// The accumulator after all steps, in their order.
    pub open spec fn apply_all(table: &ZTable, accumulator: u64, updates: Seq<Update>) -> u64 {
        updates.fold_left(accumulator, |acc: u64, update: Update| update.apply(table, acc))
    }
}

/// The constants of the tiles XORed together.
pub open spec fn tiles_part(table: &ZTable, ordinals: Seq<u8>) -> u64
    decreases ordinals.len(),
{
    if ordinals.len() == 0 {
        0
    } else {
        tiles_part(table, ordinals.drop_last()) ^ table.tile_constant(ordinals.last() as int)
    }
}

/// The constants of the first `n` values with a nonzero count of open ends,
/// XORed together.
pub open spec fn ends_part(table: &ZTable, counts: Seq<u8>, n: int) -> u64
    decreases n,
{
    if n <= 0 {
        0
    } else {
        ends_part(table, counts, n - 1) ^ if counts[n - 1] > 0 {
            table.end_constant(n - 1, counts[n - 1] as int)
        } else {
            0
        }
    }
}

/// The fingerprint of a state from scratch: the constant of every placed
/// tile, of every value with a nonzero count of open ends, and of the turn
/// if it is not the first player's, XORed together.
pub open spec fn state_value(table: &ZTable, ordinals: Seq<u8>, counts: Seq<u8>, turn: u8) -> u64 {
    (tiles_part(table, ordinals) ^ ends_part(table, counts, counts.len() as int)) ^ if turn != 0 {
        table.turn_constant()
    } else {
        0
    }
}

/// The ordinals of the tiles of the nodes, in their order.
pub open spec fn ordinals_of(nodes: Seq<LayoutNode>) -> Seq<u8> {
    nodes.map_values(|node: LayoutNode| node.tile.ordinal)
}

impl ZHash {
    /// The fingerprint from scratch of a layout and a turn.
    pub open spec fn of_state(table: &ZTable, layout: &Layout, turn: u8) -> u64 {
        state_value(table, ordinals_of(layout.nodes@), layout.end_counts@, turn)
    }

    /// Constructs a fingerprint from the layout and the player who moves
    /// next, for two players.
    pub fn from_state(table: &ZTable, layout: &Layout, turn: u8) -> (hash: ZHash)
        requires
            table.wf(),
            turn < 2,
            layout.end_counts@.len() <= END_CONSTANTS,
            forall|value: int|
                0 <= value < layout.end_counts@.len() ==> layout.end_counts@[value] < END_CONSTANTS,
        ensures
            hash@ == Self::of_state(table, layout, turn),
    {
        let mut value: u64 = Self::START;
        let ghost ordinals = ordinals_of(layout.nodes@);
        // Include tiles in the layout
        let mut i: usize = 0;
        assert(ordinals.take(0) =~= Seq::<u8>::empty());
        while i < layout.nodes.len()
            invariant
                table.wf(),
                i <= layout.nodes@.len(),
                ordinals == ordinals_of(layout.nodes@),
                value == tiles_part(table, ordinals.take(i as int)),
            decreases layout.nodes@.len() - i,
        {
            proof {
                assert(ordinals.take(i + 1).drop_last() =~= ordinals.take(i as int));
            }
            value = value ^ table.tile_value(layout.nodes[i].tile.ordinal as usize);
            i = i + 1;
        }
        assert(ordinals.take(i as int) =~= ordinals);
        // Include open end counts
        let ghost tiles = value;
        let mut end_value: usize = 0;
        proof {
            lemma_xor(tiles, 0, 0);
        }
        while end_value < layout.end_counts.len()
            invariant
                table.wf(),
                end_value <= layout.end_counts@.len() <= END_CONSTANTS,
                forall|v: int|
                    0 <= v < layout.end_counts@.len() ==> layout.end_counts@[v] < END_CONSTANTS,
                value == tiles ^ ends_part(table, layout.end_counts@, end_value as int),
            decreases layout.end_counts@.len() - end_value,
        {
            let count = layout.end_counts[end_value];
            if count > 0 {
                proof {
                    lemma_xor(
                        tiles,
                        ends_part(table, layout.end_counts@, end_value as int),
                        table.end_constant(end_value as int, count as int),
                    );
                }
                value = value ^ table.end_value(end_value, count as usize);
            } else {
                proof {
                    lemma_xor(ends_part(table, layout.end_counts@, end_value as int), 0, 0);
                }
            }
            end_value = end_value + 1;
        }
        // Include turn
        if turn != 0 {
            value = value ^ table.turn_value();
        } else {
            proof {
                lemma_xor(value, 0, 0);
            }
        }
        ZHash { value }
    }

    /// Value representing the starting state.
    pub const START: Z = 0;

    /// Special value indicating an undefined or invalid state: all bits set.
    pub const UNDEFINED: Z = 0xffff_ffff_ffff_ffff;

    /// Creates a fingerprint with the specified value.
    pub fn new(value: Z) -> (hash: ZHash)
        ensures
            hash@ == value,
    {
        ZHash { value }
    }

    /// Updates the value for a tile added to the layout.
    pub fn add_tile(&mut self, table: &ZTable, tile: u8) -> (hash: &mut ZHash)
        requires
            table.wf(),
        ensures
            hash@ == (Update::AddTile { tile }).apply(table, old(self)@),
            *final(self) == *final(hash),
    {
        self.value = self.value ^ table.tile_value(tile as usize);
        self
    }

    /// Updates the value for a change in the number of open ends of a value.
    pub fn change_end_count(&mut self, table: &ZTable, value: u8, old_count: u8, new_count: u8) -> (hash:
        &mut ZHash)
        requires
            table.wf(),
            old_count != new_count,
            value < END_CONSTANTS,
            old_count < END_CONSTANTS,
            new_count < END_CONSTANTS,
        ensures
            hash@ == (Update::ChangeEndCount { value, old_count, new_count }).apply(table, old(self)@),
            *final(self) == *final(hash),
    {
        let undo = table.end_value(value as usize, old_count as usize);
        let redo = table.end_value(value as usize, new_count as usize);
        let start = self.value;
        assert((start ^ undo) ^ redo == start ^ (undo ^ redo)) by (bit_vector);
        self.value = self.value ^ undo;
        self.value = self.value ^ redo;
        self
    }

    /// Updates the value to reflect that the turn passed to the other player.
    pub fn turn(&mut self, table: &ZTable) -> (hash: &mut ZHash)
        ensures
            hash@ == Update::Turn.apply(table, old(self)@),
            *final(self) == *final(hash),
    {
        self.value = self.value ^ table.turn_value();
        self
    }

    /// Checks if this value represents an undefined state.
    pub fn is_undefined(self) -> (undefined: bool)
        ensures
            undefined == (self@ == Self::UNDEFINED),
    {
        self.value == Self::UNDEFINED
    }
}

/// XOR is its own inverse, and the order of two XORs does not matter.
proof fn lemma_xor(x: u64, a: u64, b: u64)
    ensures
        (x ^ a) ^ a == x,
        (x ^ a) ^ b == (x ^ b) ^ a,
        (x ^ a) ^ b == x ^ (a ^ b),
        a ^ b == b ^ a,
        x ^ 0 == x,
{
    assert((x ^ a) ^ a == x) by (bit_vector);
    assert((x ^ a) ^ b == (x ^ b) ^ a) by (bit_vector);
    assert((x ^ a) ^ b == x ^ (a ^ b)) by (bit_vector);
    assert(a ^ b == b ^ a) by (bit_vector);
    assert(x ^ 0 == x) by (bit_vector);
}

/// Self-inverse: any step applied twice returns the accumulator to its prior
/// value. So does a change of an end count followed by the change back.
pub proof fn lemma_self_inverse(table: &ZTable, accumulator: u64, update: Update)
    ensures
        update.apply(table, update.apply(table, accumulator)) == accumulator,
        match update {
            Update::ChangeEndCount { value, old_count, new_count } => (Update::ChangeEndCount {
                value,
                old_count: new_count,
                new_count: old_count,
            }).apply(table, update.apply(table, accumulator)) == accumulator,
            _ => true,
        },
{
    lemma_xor(accumulator, update.delta(table), 0);
    match update {
        Update::ChangeEndCount { value, old_count, new_count } => {
            lemma_xor(
                0,
                table.end_constant(value as int, old_count as int),
                table.end_constant(value as int, new_count as int),
            );
        },
        _ => {},
    }
}

/// Small steps cancel to one combined step: changing an end count from `a` to
/// `b` and then from `b` to `c` is the same as changing it from `a` to `c`.
pub proof fn lemma_changes_compose(table: &ZTable, accumulator: u64, value: u8, a: u8, b: u8, c: u8)
    ensures
        (Update::ChangeEndCount { value, old_count: b, new_count: c }).apply(
            table,
            (Update::ChangeEndCount { value, old_count: a, new_count: b }).apply(table, accumulator),
        ) == (Update::ChangeEndCount { value, old_count: a, new_count: c }).apply(table, accumulator),
{
    let ea = table.end_constant(value as int, a as int);
    let eb = table.end_constant(value as int, b as int);
    let ec = table.end_constant(value as int, c as int);
    assert((accumulator ^ (ea ^ eb)) ^ (eb ^ ec) == accumulator ^ (ea ^ ec)) by (bit_vector);
}

/// Order independence: the same steps in any order yield the same accumulator.
pub proof fn lemma_order_independent(
    table: &ZTable,
    accumulator: u64,
    first: Seq<Update>,
    second: Seq<Update>,
)
    requires
        first.to_multiset() == second.to_multiset(),
    ensures
        Update::apply_all(table, accumulator, first) == Update::apply_all(table, accumulator, second),
{
    let step = |acc: u64, update: Update| update.apply(table, acc);
    assert forall|x: Update, y: Update, v: u64| #[trigger] step(step(v, x), y) == step(step(v, y), x) by {
        lemma_xor(v, x.delta(table), y.delta(table));
    }
    vstd::seq_lib::lemma_fold_left_permutation(first, second, step, accumulator);
}

impl Default for ZHash {
    fn default() -> (hash: ZHash)
        ensures
            hash@ == ZHash::START,
    {
        ZHash { value: Self::START }
    }
}

impl From<Z> for ZHash {
    fn from(value: Z) -> (hash: ZHash) {
        ZHash { value }
    }
}

impl vstd::std_specs::convert::FromSpecImpl<Z> for ZHash {
    open spec fn obeys_from_spec() -> bool {
        true
    }

    closed spec fn from_spec(value: Z) -> ZHash {
        ZHash { value }
    }
}

impl From<ZHash> for Z {
    fn from(hash: ZHash) -> (value: Z) {
        hash.value
    }
}

impl vstd::std_specs::convert::FromSpecImpl<ZHash> for Z {
    open spec fn obeys_from_spec() -> bool {
        true
    }

    open spec fn from_spec(hash: ZHash) -> Z {
        hash@
    }
}

} // verus!
