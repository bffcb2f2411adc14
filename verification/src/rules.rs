//! Fundamental rules of dominoes: variations, tile numbering and set sizes.

use vstd::prelude::*;

verus! {

/// Domino game variations.
#[derive(Debug, Clone, Copy, PartialEq, Eq, Structural)]
pub enum Variation {
    Traditional,
    AllFives,
    AllSevens,
    Bergen,
    Blind,
    FiveUp,
}

impl Variation {
    /// The display name of each variation.
    pub open spec fn name_spec(self) -> Seq<char> {
        match self {
            Variation::Traditional => "Traditional"@,
            Variation::AllFives => "All Fives"@,
            Variation::AllSevens => "All Sevens"@,
            Variation::Bergen => "Bergen"@,
            Variation::Blind => "Blind"@,
            Variation::FiveUp => "Five Up"@,
        }
    }

    /// Returns the name of the variation as a string.
    pub fn name(self) -> (name: &'static str)
        ensures
            name@ == self.name_spec(),
    {
        match self {
            Variation::Traditional => "Traditional",
            Variation::AllFives => "All Fives",
            Variation::AllSevens => "All Sevens",
            Variation::Bergen => "Bergen",
            Variation::Blind => "Blind",
            Variation::FiveUp => "Five Up",
        }
    }
}

/// Maximum number of pips on one side of a tile supported by this library.
pub const MAX_PIPS: u8 = 21;

/// The number of tiles whose larger side has fewer than `b` pips: 0, 1, 3, 6, 10, ...
pub open spec fn triangle(b: int) -> int {
    b * (b + 1) / 2
}

/// The ordinal of the tile `(a, b)`, where `a <= b`.
pub open spec fn ordinal_of(a: int, b: int) -> int {
    triangle(b) + a
}

/// `(a, b)` is the canonical pair of the tile with this ordinal.
pub open spec fn is_tuple_of(ordinal: int, a: int, b: int) -> bool {
    0 <= a <= b && ordinal_of(a, b) == ordinal
}

/// The canonical pair of the tile with this ordinal.
pub open spec fn tuple_of(ordinal: int) -> (int, int) {
    choose|p: (int, int)| is_tuple_of(ordinal, p.0, p.1)
}

/// The number of tiles in a double-`n` set.
pub open spec fn set_size_spec(n: int) -> int {
    triangle(n + 1)
}

/// The product of two neighbouring numbers is even.
proof fn lemma_neighbours_even(b: int)
    requires
        0 <= b,
    ensures
        (b * (b + 1)) % 2 == 0,
        b * (b + 1) >= 0,
    decreases b,
{
    if b > 0 {
        lemma_neighbours_even(b - 1);
        assert(b * (b + 1) == (b - 1) * b + 2 * b) by (nonlinear_arith);
    }
}

/// Each step of the triangular numbers adds the next row's length.
pub proof fn lemma_triangle_step(b: int)
    requires
        0 <= b,
    ensures
        triangle(b + 1) == triangle(b) + b + 1,
        triangle(b) >= 0,
        triangle(0) == 0,
{
    lemma_neighbours_even(b);
    assert(((b + 1) * (b + 1 + 1)) == b * (b + 1) + 2 * (b + 1)) by (nonlinear_arith);
}

/// The triangular numbers grow with their argument.
pub proof fn lemma_triangle_monotonic(b: int, c: int)
    requires
        0 <= b <= c,
    ensures
        triangle(b) <= triangle(c),
        b < c ==> triangle(b) + b + 1 <= triangle(c),
    decreases c - b,
{
    lemma_triangle_step(b);
    if b < c {
        lemma_triangle_monotonic(b + 1, c);
    }
}

/// Ordinals and canonical pairs correspond one to one: two canonical pairs
/// with the same ordinal are the same pair.
pub proof fn lemma_ordinal_injective(a1: int, b1: int, a2: int, b2: int)
    requires
        0 <= a1 <= b1,
        0 <= a2 <= b2,
        ordinal_of(a1, b1) == ordinal_of(a2, b2),
    ensures
        a1 == a2,
        b1 == b2,
{
    if b1 < b2 {
        lemma_triangle_monotonic(b1, b2);
    } else if b2 < b1 {
        lemma_triangle_monotonic(b2, b1);
    }
}

/// The canonical pair of an ordinal is the only pair that yields it.
pub proof fn lemma_tuple_of_unique(ordinal: int, a: int, b: int)
    requires
        is_tuple_of(ordinal, a, b),
    ensures
        tuple_of(ordinal) == (a, b),
{
    let p = tuple_of(ordinal);
    assert(is_tuple_of(ordinal, (a, b).0, (a, b).1));
    lemma_ordinal_injective(a, b, p.0, p.1);
}

/// Converts a canonical pair to its ordinal.
pub fn tuple_to_ordinal(tile: (u8, u8)) -> (ordinal: u8)
    requires
        tile.0 <= tile.1,
        ordinal_of(tile.0 as int, tile.1 as int) <= u8::MAX,
    ensures
        ordinal == ordinal_of(tile.0 as int, tile.1 as int),
        tuple_of(ordinal as int) == (tile.0 as int, tile.1 as int),
{
    let a: usize = tile.0 as usize;
    let b: usize = tile.1 as usize;
    assert(b * (b + 1) <= 255 * 256) by (nonlinear_arith)
        requires
            0 <= b <= 255,
    ;
    let ordinal: usize = b * (b + 1) / 2 + a;
    proof {
        lemma_tuple_of_unique(ordinal as int, a as int, b as int);
    }
    ordinal as u8
}

/// Converts an ordinal to its canonical pair: the inverse of `tuple_to_ordinal`.
pub fn ordinal_to_tuple(ordinal: u8) -> (tile: (u8, u8))
    ensures
        tile.0 <= tile.1 <= 22,
        ordinal_of(tile.0 as int, tile.1 as int) == ordinal,
        tuple_of(ordinal as int) == (tile.0 as int, tile.1 as int),
        ordinal < 253 ==> tile.1 <= MAX_PIPS,
{
    let mut b: u8 = 0;
    let mut start: u8 = 0;
    proof {
        lemma_triangle_step(0);
    }
    while ordinal - start > b
        invariant
            0 <= b <= 22,
            start == triangle(b as int),
            start <= ordinal,
            b == 22 ==> start == 253,
            ordinal < 253 ==> b <= 21,
        decreases ordinal - start,
    {
        proof {
            lemma_triangle_step(b as int);
            assert(triangle(21) == 231 && triangle(22) == 253) by (nonlinear_arith);
            if b < 21 {
                lemma_triangle_monotonic(b as int + 1, 21);
            }
        }
        start = start + b + 1;
        b = b + 1;
    }
    let a: u8 = ordinal - start;
    proof {
        lemma_tuple_of_unique(ordinal as int, a as int, b as int);
    }
    (a, b)
}

/// Every ordinal has a canonical pair.
pub proof fn lemma_tuple_of(ordinal: int)
    requires
        0 <= ordinal,
    ensures
        is_tuple_of(ordinal, tuple_of(ordinal).0, tuple_of(ordinal).1),
    decreases ordinal,
{
    if ordinal == 0 {
        lemma_triangle_step(0);
        assert(is_tuple_of(0, (0int, 0int).0, (0int, 0int).1));
    } else {
        lemma_tuple_of(ordinal - 1);
        let p = tuple_of(ordinal - 1);
        lemma_triangle_step(p.1);
        if p.0 < p.1 {
            assert(is_tuple_of(ordinal, (p.0 + 1, p.1).0, (p.0 + 1, p.1).1));
        } else {
            assert(is_tuple_of(ordinal, (0int, p.1 + 1).0, (0int, p.1 + 1).1));
        }
    }
}

/// Returns `true` if both sides of the pair are equal.
pub fn is_double_tuple(tile: (u8, u8)) -> (double: bool)
    ensures
        double == (tile.0 == tile.1),
{
    tile.0 == tile.1
}

/// Returns `true` if the ordinal is that of a double.
pub fn is_double_ordinal(ordinal: u8) -> (double: bool)
    ensures
        double == (tuple_of(ordinal as int).0 == tuple_of(ordinal as int).1),
{
    let (a, b) = ordinal_to_tuple(ordinal);
    a == b
}

/// The side of `a` that also occurs on `b`, first side first, and the other
/// side of `a`; `None` where the pairs share no value.
pub open spec fn matches_tuples_spec(a: (u8, u8), b: (u8, u8)) -> Option<(u8, u8)> {
    if a.0 == b.0 || a.0 == b.1 {
        Some((a.0, a.1))
    } else if a.1 == b.0 || a.1 == b.1 {
        Some((a.1, a.0))
    } else {
        None
    }
}

/// Checks whether two pairs match on a value: the result is the matching
/// value of `a` and the other value of `a`.
pub fn matches_tuples(a: (u8, u8), b: (u8, u8)) -> (matched: Option<(u8, u8)>)
    ensures
        matched == matches_tuples_spec(a, b),
{
    if a.0 == b.0 || a.0 == b.1 {
        Some((a.0, a.1))
    } else if a.1 == b.0 || a.1 == b.1 {
        Some((a.1, a.0))
    } else {
        None
    }
}

/// Returns the total number of tiles in a double-`n` set.
pub fn set_size(n: u8) -> (size: usize)
    ensures
        size == set_size_spec(n as int),
        1 <= size <= 32896,
{
    let m: usize = n as usize + 1;
    assert(1 * 2 <= m * (m + 1) <= 256 * 257) by (nonlinear_arith)
        requires
            1 <= m <= 256,
    ;
    m * (m + 1) / 2
}

/// Returns all tiles of a set as canonical pairs, in the order of their ordinals.
pub fn all_tiles_as_tuples(set_id: u8) -> (tiles: Vec<(u8, u8)>)
    ensures
        tiles@.len() == set_size_spec(set_id as int),
        forall|i: int|
            0 <= i < tiles@.len() ==> #[trigger] tiles@[i].1 <= set_id && is_tuple_of(
                i,
                tiles@[i].0 as int,
                tiles@[i].1 as int,
            ),
{
    let mut tiles: Vec<(u8, u8)> = Vec::new();
    let mut b: u8 = 0;
    proof {
        lemma_triangle_step(0);
    }
    loop
        invariant_except_break
            tiles@.len() == triangle(b as int),
        invariant
            b <= set_id,
            forall|i: int|
                0 <= i < tiles@.len() ==> #[trigger] tiles@[i].1 <= set_id && is_tuple_of(
                    i,
                    tiles@[i].0 as int,
                    tiles@[i].1 as int,
                ),
        ensures
            b == set_id,
            tiles@.len() == triangle(b as int + 1),
            forall|i: int|
                0 <= i < tiles@.len() ==> #[trigger] tiles@[i].1 <= set_id && is_tuple_of(
                    i,
                    tiles@[i].0 as int,
                    tiles@[i].1 as int,
                ),
        decreases set_id - b,
    {
        let mut a: u8 = 0;
        proof {
            lemma_triangle_step(b as int);
        }
        loop
            invariant_except_break
                tiles@.len() == triangle(b as int) + a,
            invariant
                a <= b <= set_id,
                forall|i: int|
                    0 <= i < tiles@.len() ==> #[trigger] tiles@[i].1 <= set_id && is_tuple_of(
                        i,
                        tiles@[i].0 as int,
                        tiles@[i].1 as int,
                    ),
            ensures
                a == b,
                tiles@.len() == triangle(b as int) + a + 1,
                forall|i: int|
                    0 <= i < tiles@.len() ==> #[trigger] tiles@[i].1 <= set_id && is_tuple_of(
                        i,
                        tiles@[i].0 as int,
                        tiles@[i].1 as int,
                    ),
            decreases b - a,
        {
            tiles.push((a, b));
            if a == b {
                break ;
            }
            a = a + 1;
        }
        if b == set_id {
            break ;
        }
        b = b + 1;
    }
    tiles
}

/// Returns the ordinals of all tiles of a set, in order. The size of the set
/// counts as a `u8`, as ordinals do.
pub fn all_tiles_as_ordinals(set_id: u8) -> (ordinals: Vec<u8>)
    ensures
        ordinals@.len() == set_size_spec(set_id as int) % 256,
        forall|i: int| 0 <= i < ordinals@.len() ==> #[trigger] ordinals@[i] == i,
{
    let size: usize = set_size(set_id);
    let count: u8 = #[verifier::truncate] (size as u8);
    assert(count == size % 256) by (bit_vector)
        requires
            count == size as u8,
    ;
    let mut ordinals: Vec<u8> = Vec::new();
    let mut i: u8 = 0;
    while i < count
        invariant
            i <= count,
            ordinals@.len() == i,
            forall|k: int| 0 <= k < ordinals@.len() ==> #[trigger] ordinals@[k] == k,
        decreases count - i,
    {
        ordinals.push(i);
        i = i + 1;
    }
    ordinals
}

/// The default starting hand size for a number of players and a variation.
pub open spec fn default_starting_hand_size_spec(num_players: usize, variation: Variation) -> usize {
    match variation {
        Variation::Bergen => 6,
        Variation::Blind => if num_players == 2 {
            8
        } else if num_players == 3 {
            7
        } else if num_players == 4 {
            6
        } else {
            5
        },
        _ => if num_players == 2 {
            7
        } else if num_players == 3 || num_players == 4 {
            6
        } else {
            5
        },
    }
}

/// Returns the default starting hand size based on game variation and player count.
pub fn default_starting_hand_size(num_players: usize, variation: Variation) -> (size: usize)
    ensures
        size == default_starting_hand_size_spec(num_players, variation),
{
    match variation {
        Variation::Traditional | Variation::AllFives | Variation::AllSevens | Variation::FiveUp => {
            if num_players == 2 {
                7
            } else if num_players == 3 || num_players == 4 {
                6
            } else {
                5
            }
        },
        Variation::Bergen => 6,
        Variation::Blind => {
            if num_players == 2 {
                8
            } else if num_players == 3 {
                7
            } else if num_players == 4 {
                6
            } else {
                5
            }
        },
    }
}

} // verus!
