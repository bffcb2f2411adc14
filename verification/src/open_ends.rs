//! The index of open ends: a multimap from a node's index to the values that
//! are open at that node.

use multimap::MultiMap;
use vstd::prelude::*;

verus! {

/// `multimap::MultiMap`: a map from a key to the vector of the key's values.
/// Nothing of its inside is known but what its functions say.
#[verifier::external_type_specification]
#[verifier::external_body]
#[verifier::reject_recursive_types(K)]
#[verifier::reject_recursive_types(V)]
#[verifier::reject_recursive_types(S)]
pub struct ExMultiMap<K, V, S>(MultiMap<K, V, S>);

/// `Clone::clone` of `MultiMap`, which the derived `Clone` of a type with
/// such a field calls. Nothing is claimed of the copy.
pub assume_specification<K, V, S>[ <MultiMap<K, V, S> as Clone>::clone ](
    map: &MultiMap<K, V, S>,
) -> MultiMap<K, V, S>
    where K: Clone, S: Clone, V: Clone
;

/// What the multimap holds: for each key that it has, the vector of that key's
/// values, in the order in which they were inserted.
pub uninterp spec fn open_entries(map: MultiMap<usize, u8>) -> Map<usize, Seq<u8>>;

/// A map that holds nothing.
pub open spec fn no_entries() -> Map<usize, Seq<u8>> {
    Map::empty()
}

/// The values at a key; none where the map does not have the key.
pub open spec fn entries_at(map: MultiMap<usize, u8>, key: int) -> Seq<u8> {
    if 0 <= key <= usize::MAX && open_entries(map).dom().contains(key as usize) {
        open_entries(map)[key as usize]
    } else {
        Seq::empty()
    }
}

/// The number of times a value occurs in a sequence.
pub open spec fn occurrences(values: Seq<u8>, value: int) -> nat
    decreases values.len(),
{
    if values.len() == 0 {
        0
    } else {
        occurrences(values.drop_last(), value) + if values.last() == value {
            1nat
        } else {
            0nat
        }
    }
}

/// Adding a value at the end adds one occurrence of that value.
pub proof fn lemma_occurrences_push(values: Seq<u8>, added: u8, value: int)
    ensures
        occurrences(values.push(added), value) == occurrences(values, value) + if added == value {
            1nat
        } else {
            0nat
        },
{
    assert(values.push(added).drop_last() =~= values);
}

/// Taking the value at a position out takes one occurrence of that value away.
pub proof fn lemma_occurrences_remove(values: Seq<u8>, position: int, value: int)
    requires
        0 <= position < values.len(),
    ensures
        occurrences(values.remove(position), value) + if values[position] == value {
            1nat
        } else {
            0nat
        } == occurrences(values, value),
    decreases values.len(),
{
    if position == values.len() - 1 {
        assert(values.remove(position) =~= values.drop_last());
    } else {
        lemma_occurrences_remove(values.drop_last(), position, value);
        assert(values.remove(position).drop_last() =~= values.drop_last().remove(position));
    }
}

/// A value occurs in a sequence as often as it is found there: not at all
/// where no position holds it, at least once where one does.
pub proof fn lemma_occurrences_positive(values: Seq<u8>, value: int)
    ensures
        occurrences(values, value) > 0 <==> exists|i: int| 0 <= i < values.len() && values[i] == value,
        occurrences(values, value) <= values.len(),
    decreases values.len(),
{
    if values.len() > 0 {
        lemma_occurrences_positive(values.drop_last(), value);
        if occurrences(values, value) > 0 {
            if values.last() == value {
                assert(values[values.len() - 1] == value);
            } else {
                let i = choose|i: int| 0 <= i < values.drop_last().len() && values.drop_last()[i] == value;
                assert(values[i] == value);
            }
        }
        if exists|i: int| 0 <= i < values.len() && values[i] == value {
            let i = choose|i: int| 0 <= i < values.len() && values[i] == value;
            if i < values.len() - 1 {
                assert(values.drop_last()[i] == value);
            }
        }
    }
}

/// The first position at which a value occurs in a sequence that holds it.
pub open spec fn first_position(values: Seq<u8>, value: u8) -> int
    decreases values.len(),
{
    if values.len() == 0 || values[0] == value {
        0
    } else {
        1 + first_position(values.drop_first(), value)
    }
}

/// The sequence without the first occurrence of a value.
pub open spec fn remove_first(values: Seq<u8>, value: u8) -> Seq<u8> {
    values.remove(first_position(values, value))
}

/// In a sequence that holds a value, the first position of the value holds
/// it, and no earlier position does.
pub proof fn lemma_first_position(values: Seq<u8>, value: u8)
    requires
        exists|i: int| 0 <= i < values.len() && values[i] == value,
    ensures
        0 <= first_position(values, value) < values.len(),
        values[first_position(values, value)] == value,
        forall|j: int| 0 <= j < first_position(values, value) ==> values[j] != value,
    decreases values.len(),
{
    let i = choose|i: int| 0 <= i < values.len() && values[i] == value;
    if values[0] != value {
        let rest = values.drop_first();
        assert(rest[i - 1] == value);
        lemma_first_position(rest, value);
        assert forall|j: int| 0 <= j < first_position(values, value) implies values[j] != value by {
            if j > 0 {
                assert(rest[j - 1] != value);
            }
        }
    }
}

/// Taking out the first occurrence of a value that a sequence holds takes one
/// occurrence of that value away, and none of another.
pub proof fn lemma_occurrences_remove_first(values: Seq<u8>, removed: u8, value: int)
    requires
        occurrences(values, removed as int) > 0,
    ensures
        occurrences(remove_first(values, removed), value) + if removed == value {
            1nat
        } else {
            0nat
        } == occurrences(values, value),
        remove_first(values, removed).len() + 1 == values.len(),
{
    lemma_occurrences_positive(values, removed as int);
    lemma_first_position(values, removed);
    lemma_occurrences_remove(values, first_position(values, removed), value);
}

/// Returns `true` if the values hold the value.
pub fn values_contain(values: &Vec<u8>, value: u8) -> (found: bool)
    ensures
        found == (occurrences(values@, value as int) > 0),
{
    let mut i: usize = 0;
    while i < values.len()
        invariant
            i <= values@.len(),
            forall|j: int| 0 <= j < i ==> values@[j] != value,
        decreases values@.len() - i,
    {
        if values[i] == value {
            proof {
                lemma_occurrences_positive(values@, value as int);
                assert(0 <= i < values@.len() && values@[i as int] == value);
            }
            return true;
        }
        i = i + 1;
    }
    proof {
        lemma_occurrences_positive(values@, value as int);
    }
    false
}

/// `MultiMap::new`: a map without keys.
#[verifier::external_body]
pub(crate) fn open_new() -> (map: MultiMap<usize, u8>)
    ensures
        open_entries(map) == no_entries(),
{
    MultiMap::new()
}

/// `MultiMap::insert`: the value goes to the end of the key's vector; a key
/// that the map did not have gets a vector of that one value.
#[verifier::external_body]
pub(crate) fn open_insert(map: &mut MultiMap<usize, u8>, key: usize, value: u8)
    ensures
        open_entries(*final(map)) == open_entries(*old(map)).insert(
            key,
            entries_at(*old(map), key as int).push(value),
        ),
{
    map.insert(key, value)
}

/// `MultiMap::get_vec`: the vector of the key's values, where the map has the key.
#[verifier::external_body]
pub(crate) fn open_get_vec(map: &MultiMap<usize, u8>, key: usize) -> (values: Option<&Vec<u8>>)
    ensures
        match values {
            Some(values) => open_entries(*map).dom().contains(key) && values@ == open_entries(
                *map,
            )[key],
            None => !open_entries(*map).dom().contains(key),
        },
{
    map.get_vec(&key)
}

/// `MultiMap::get_vec_mut`: the vector of the key's values, to be changed in
/// place, where the map has the key.
#[verifier::external_body]
pub(crate) fn open_get_vec_mut(map: &mut MultiMap<usize, u8>, key: usize) -> (values: Option<
    &mut Vec<u8>,
>)
    ensures
        match values {
            Some(values) => open_entries(*old(map)).dom().contains(key) && values@ == open_entries(
                *old(map),
            )[key] && open_entries(*final(map)) == open_entries(*old(map)).insert(
                key,
                final(values)@,
            ),
            None => !open_entries(*old(map)).dom().contains(key) && open_entries(*final(map))
                == open_entries(*old(map)),
        },
{
    map.get_vec_mut(&key)
}

/// `MultiMap::remove`: the key leaves the map, and its vector is handed out.
#[verifier::external_body]
pub(crate) fn open_remove(map: &mut MultiMap<usize, u8>, key: usize) -> (values: Option<Vec<u8>>)
    ensures
        open_entries(*final(map)) == open_entries(*old(map)).remove(key),
        match values {
            Some(values) => open_entries(*old(map)).dom().contains(key) && values@ == open_entries(
                *old(map),
            )[key],
            None => !open_entries(*old(map)).dom().contains(key),
        },
{
    map.remove(&key)
}

/// `MultiMap::clear`: the map is left without keys.
#[verifier::external_body]
pub(crate) fn open_clear(map: &mut MultiMap<usize, u8>)
    ensures
        open_entries(*final(map)) == no_entries(),
{
    map.clear()
}

/// `MultiMap::keys`: every key of the map once, in an order that the map chooses.
#[verifier::external_body]
pub(crate) fn open_keys(map: &MultiMap<usize, u8>) -> (keys: Vec<usize>)
    ensures
        keys@.no_duplicates(),
        forall|key: usize| keys@.contains(key) <==> open_entries(*map).dom().contains(key),
{
    map.keys().copied().collect()
}

} // verus!
