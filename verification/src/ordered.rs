//! Walks over the ordered collections of the engine, in ascending order of
//! their cells.

use crate::geometry::{ascending, cell_lt, Cell};
use std::collections::{BTreeMap, BTreeSet};
use vstd::prelude::*;
use vstd::std_specs::btree::increasing_seq;
use vstd::std_specs::cmp::OrdSpec;
use vstd::std_specs::iter::IteratorSpec;

verus! {

/// The cells of a list of entries, in the order of the list.
pub open spec fn cells_of<V>(entries: Seq<(Cell, V)>) -> Seq<Cell> {
    entries.map_values(|e: (Cell, V)| e.0)
}

/// The order in which a `BTreeSet` or `BTreeMap` walks its cells is the
/// order of cells: first by `x`, then by `y`.
proof fn lemma_increasing_is_ascending(s: Seq<&Cell>)
    requires
        increasing_seq(s),
    ensures
        forall|i: int, j: int|
            0 <= i < j < s.len() ==> cell_lt(*#[trigger] s[i], *#[trigger] s[j]),
{
    assert forall|i: int, j: int| 0 <= i < j < s.len() implies cell_lt(
        *#[trigger] s[i],
        *#[trigger] s[j],
    ) by {
        assert(OrdSpec::cmp_spec(&s[i], &s[j]) is Less);
    }
}

/// The first `i + 1` items of a sequence are the first `i` and the item of
/// index `i`, which is none of those where no item occurs twice.
pub proof fn lemma_take_contains<A>(s: Seq<A>, i: int)
    requires
        0 <= i < s.len(),
    ensures
        forall|a: A| s.take(i + 1).contains(a) <==> (s.take(i).contains(a) || a == s[i]),
        s.no_duplicates() ==> !s.take(i).contains(s[i]),
{
    let shorter = s.take(i);
    let longer = s.take(i + 1);
    assert forall|a: A| longer.contains(a) <==> (shorter.contains(a) || a == s[i]) by {
        if shorter.contains(a) {
            let k = choose|k: int| 0 <= k < shorter.len() && shorter[k] == a;
            assert(longer[k] == a);
        }
        if a == s[i] {
            assert(longer[i] == a);
        }
        if longer.contains(a) {
            let k = choose|k: int| 0 <= k < longer.len() && longer[k] == a;
            if k < i {
                assert(shorter[k] == a);
            }
        }
    }
    if s.no_duplicates() && shorter.contains(s[i]) {
        let k = choose|k: int| 0 <= k < shorter.len() && shorter[k] == s[i];
        assert(s[k] == s[i]);
    }
}

/// The value that `map` holds for `cell`, if it holds one.
pub fn lookup<V: Copy>(map: &BTreeMap<Cell, V>, cell: Cell) -> (r: Option<V>)
    ensures
        r == if map@.contains_key(cell) {
            Some(map@[cell])
        } else {
            None
        },
{
    match map.get(&cell) {
        Some(v) => Some(*v),
        None => None,
    }
}

/// The cells of `set`, in ascending order.
pub fn cells_in_order(set: &BTreeSet<Cell>) -> (cells: Vec<Cell>)
    ensures
        ascending(cells@),
        cells@.to_set() == set@,
{
    let mut cells: Vec<Cell> = Vec::new();
    for c in it: set.iter()
        invariant
            cells@.len() == it.index(),
            it.seq() == set.iter().remaining(),
            forall|i: int| 0 <= i < cells@.len() ==> cells@[i] == *set.iter().remaining()[i],
    {
        cells.push(*c);
    }
    proof {
        let s = set.iter().remaining();
        lemma_increasing_is_ascending(s);
        assert(cells@ =~= s.unref());
    }
    cells
}

/// The entries of `map`, in ascending order of their cells.
pub fn entries_in_order<V: Copy>(map: &BTreeMap<Cell, V>) -> (entries: Vec<(Cell, V)>)
    ensures
        ascending(cells_of(entries@)),
        cells_of(entries@).to_set() == map@.dom(),
        forall|i: int|
            0 <= i < entries@.len() ==> map@[(#[trigger] entries@[i]).0] == entries@[i].1,
{
    let mut entries: Vec<(Cell, V)> = Vec::new();
    for c in it: map.keys()
        invariant
            entries@.len() == it.index(),
            it.seq() == map.keys().remaining(),
            forall|i: int|
                0 <= i < entries@.len() ==> (#[trigger] entries@[i]).0
                    == *map.keys().remaining()[i],
            forall|i: int|
                0 <= i < entries@.len() ==> map@[(#[trigger] entries@[i]).0] == entries@[i].1,
    {
        proof {
            let s = map.keys().remaining();
            assert(s.unref()[it.index()] == *c);
            assert(s.unref().to_set().contains(*c));
        }
        match map.get(c) {
            Some(v) => {
                entries.push((*c, *v));
            },
            None => {
                assert(false);
            },
        }
    }
    proof {
        let s = map.keys().remaining();
        lemma_increasing_is_ascending(s);
        assert(cells_of(entries@) =~= s.unref());
    }
    entries
}

} // verus!
