//! Grid coordinates and the eight-cell neighbourhood of a coordinate.

use vstd::prelude::*;

verus! {

/// A grid coordinate as the pair `(x, y)`: the mathematical model of a
/// [`GridPosition`], ordered first by `x`, then by `y`.
pub type Cell = (usize, usize);

/// A coordinate of the grid.
#[derive(Clone, Copy, Default, Debug, PartialEq, PartialOrd, Ord, Eq, Hash, Structural)]
pub struct GridPosition {
    pub x: usize,
    pub y: usize,
}

impl View for GridPosition {
    type V = Cell;

    open spec fn view(&self) -> Cell {
        (self.x, self.y)
    }
}

/// The `i`-th of the eight unit and diagonal offsets, in the order in which
/// the neighbourhood is walked.
pub open spec fn offset(i: int) -> (int, int) {
    if i == 0 {
        (-1, 0)
    } else if i == 1 {
        (1, 0)
    } else if i == 2 {
        (0, -1)
    } else if i == 3 {
        (0, 1)
    } else if i == 4 {
        (-1, -1)
    } else if i == 5 {
        (-1, 1)
    } else if i == 6 {
        (1, 1)
    } else {
        (1, -1)
    }
}

/// One coordinate moved by `d`, if the result is a coordinate at all.
pub open spec fn shifted_coord(v: usize, d: int) -> Option<usize> {
    if 0 <= v + d <= usize::MAX {
        Some((v + d) as usize)
    } else {
        None
    }
}

/// The cell `c` moved by the offset `d`; `None` where a coordinate would be
/// negative or would not fit the machine word.
pub open spec fn shifted(c: Cell, d: (int, int)) -> Option<Cell> {
    match (shifted_coord(c.0, d.0), shifted_coord(c.1, d.1)) {
        (Some(x), Some(y)) => Some((x, y)),
        _ => None,
    }
}

/// The neighbours of `c` that the offsets `i..8` give, in offset order.
pub open spec fn neighbors_from(c: Cell, i: int) -> Seq<Cell>
    decreases 8 - i,
{
    if i < 0 || i >= 8 {
        Seq::empty()
    } else {
        match shifted(c, offset(i)) {
            Some(n) => seq![n] + neighbors_from(c, i + 1),
            None => neighbors_from(c, i + 1),
        }
    }
}

/// The Moore neighbourhood of `c`: its up to eight neighbours, in offset
/// order. Nothing is clipped from above but what the machine word cannot hold.
pub open spec fn moore(c: Cell) -> Seq<Cell> {
    neighbors_from(c, 0)
}

/// Two distinct cells that differ by at most one in each coordinate.
pub open spec fn adjacent(a: Cell, b: Cell) -> bool {
    &&& a != b
    &&& -1 <= a.0 - b.0 <= 1
    &&& -1 <= a.1 - b.1 <= 1
}

/// The order of cells: first by `x`, then by `y`.
pub open spec fn cell_lt(a: Cell, b: Cell) -> bool {
    a.0 < b.0 || (a.0 == b.0 && a.1 < b.1)
}

/// A sequence of cells in strictly ascending order.
pub open spec fn ascending(s: Seq<Cell>) -> bool {
    forall|i: int, j: int| 0 <= i < j < s.len() ==> cell_lt(#[trigger] s[i], #[trigger] s[j])
}

/// No cell occurs twice in an ascending sequence.
pub proof fn lemma_ascending_distinct(s: Seq<Cell>)
    requires
        ascending(s),
    ensures
        s.no_duplicates(),
{
    assert forall|i: int, j: int| 0 <= i < s.len() && 0 <= j < s.len() && i != j implies s[i]
        != s[j] by {
        if i < j {
            assert(cell_lt(s[i], s[j]));
        } else {
            assert(cell_lt(s[j], s[i]));
        }
    }
}

/// A set of cells has at most one ascending enumeration: two ascending
/// sequences with the same cells are the same sequence.
pub proof fn lemma_ascending_unique(a: Seq<Cell>, b: Seq<Cell>)
    requires
        ascending(a),
        ascending(b),
        a.to_set() == b.to_set(),
    ensures
        a == b,
    decreases a.len(),
{
    if a.len() == 0 {
        if b.len() > 0 {
            assert(b.to_set().contains(b[0]));
            assert(a.contains(b[0]));
        }
        assert(a =~= b);
    } else {
        assert(a.to_set().contains(a[0]));
        assert(b.contains(a[0]));
        let i = choose|i: int| 0 <= i < b.len() && b[i] == a[0];
        assert(b.to_set().contains(b[0]));
        assert(a.contains(b[0]));
        let j = choose|j: int| 0 <= j < a.len() && a[j] == b[0];
        if j > 0 {
            assert(cell_lt(a[0], a[j]));
        }
        if i > 0 {
            assert(cell_lt(b[0], b[i]));
        }
        assert(a[0] == b[0]);
        let a1 = a.drop_first();
        let b1 = b.drop_first();
        assert forall|k: int, l: int| 0 <= k < l < a1.len() implies cell_lt(
            #[trigger] a1[k],
            #[trigger] a1[l],
        ) by {
            assert(cell_lt(a[k + 1], a[l + 1]));
        }
        assert forall|k: int, l: int| 0 <= k < l < b1.len() implies cell_lt(
            #[trigger] b1[k],
            #[trigger] b1[l],
        ) by {
            assert(cell_lt(b[k + 1], b[l + 1]));
        }
        assert forall|c: Cell| a1.to_set().contains(c) <==> b1.to_set().contains(c) by {
            lemma_rest_of_ascending(a, c);
            lemma_rest_of_ascending(b, c);
            assert(a.to_set().contains(c) <==> a.contains(c));
            assert(b.to_set().contains(c) <==> b.contains(c));
            assert(a1.to_set().contains(c) <==> a1.contains(c));
            assert(b1.to_set().contains(c) <==> b1.contains(c));
        }
        assert(a1.to_set() =~= b1.to_set());
        lemma_ascending_unique(a1, b1);
        assert forall|k: int| 0 <= k < a.len() implies a[k] == b[k] by {
            if k > 0 {
                assert(a[k] == a1[k - 1]);
                assert(b[k] == b1[k - 1]);
            }
        }
        assert(a.len() == a1.len() + 1);
        assert(b.len() == b1.len() + 1);
        assert(a =~= b);
    }
}

/// The cells behind the first of an ascending sequence are its cells but
/// the first.
proof fn lemma_rest_of_ascending(s: Seq<Cell>, c: Cell)
    requires
        ascending(s),
        s.len() > 0,
    ensures
        s.drop_first().contains(c) <==> (s.contains(c) && c != s[0]),
{
    let rest = s.drop_first();
    if rest.contains(c) {
        let k = choose|k: int| 0 <= k < rest.len() && rest[k] == c;
        assert(s[k + 1] == c);
        assert(cell_lt(s[0], s[k + 1]));
    }
    if s.contains(c) && c != s[0] {
        let k = choose|k: int| 0 <= k < s.len() && s[k] == c;
        assert(rest[k - 1] == c);
    }
}

/// Whether one of the offsets `i..8` leads from `c` to `n`.
pub open spec fn reaches(c: Cell, i: int, n: Cell) -> bool
    decreases 8 - i,
{
    if i < 0 || i >= 8 {
        false
    } else {
        shifted(c, offset(i)) == Some(n) || reaches(c, i + 1, n)
    }
}

proof fn lemma_neighbors_from_contains(c: Cell, i: int, n: Cell)
    requires
        0 <= i <= 8,
    ensures
        neighbors_from(c, i).contains(n) <==> reaches(c, i, n),
        neighbors_from(c, i).len() <= 8 - i,
    decreases 8 - i,
{
    if i < 8 {
        lemma_neighbors_from_contains(c, i + 1, n);
        let rest = neighbors_from(c, i + 1);
        match shifted(c, offset(i)) {
            Some(m) => {
                let all = seq![m] + rest;
                assert(all[0] == m);
                assert forall|k: int| 0 <= k < rest.len() implies all[k + 1] == rest[k] by {}
                if rest.contains(n) {
                    let k = choose|k: int| 0 <= k < rest.len() && rest[k] == n;
                    assert(all[k + 1] == n);
                }
                if all.contains(n) && m != n {
                    let k = choose|k: int| 0 <= k < all.len() && all[k] == n;
                    assert(rest[k - 1] == n);
                }
            },
            None => {},
        }
    }
}

proof fn lemma_neighbors_from_distinct(c: Cell, i: int)
    requires
        0 <= i <= 8,
    ensures
        neighbors_from(c, i).no_duplicates(),
    decreases 8 - i,
{
    if i < 8 {
        lemma_neighbors_from_distinct(c, i + 1);
        let rest = neighbors_from(c, i + 1);
        match shifted(c, offset(i)) {
            Some(m) => {
                lemma_neighbors_from_contains(c, i + 1, m);
                reveal_with_fuel(reaches, 9);
                assert(!rest.contains(m));
                let all = seq![m] + rest;
                assert forall|a: int, b: int| 0 <= a < all.len() && 0 <= b < all.len() && a != b
                    implies all[a] != all[b] by {
                    if a > 0 {
                        assert(all[a] == rest[a - 1]);
                    }
                    if b > 0 {
                        assert(all[b] == rest[b - 1]);
                    }
                }
            },
            None => {},
        }
    }
}

/// The neighbourhood of a cell holds exactly the cells adjacent to it.
pub proof fn lemma_moore_is_adjacency(c: Cell, n: Cell)
    ensures
        moore(c).contains(n) <==> adjacent(c, n),
{
    lemma_neighbors_from_contains(c, 0, n);
    reveal_with_fuel(reaches, 9);
}

/// No cell occurs twice in a neighbourhood, which has at most eight cells.
pub proof fn lemma_moore_distinct(c: Cell)
    ensures
        moore(c).no_duplicates(),
        moore(c).len() <= 8,
{
    lemma_neighbors_from_distinct(c, 0);
    lemma_neighbors_from_contains(c, 0, c);
}

/// Adjacency is symmetric: a cell is a neighbour of each of its neighbours.
pub proof fn lemma_moore_symmetric(a: Cell, b: Cell)
    ensures
        moore(a).contains(b) <==> moore(b).contains(a),
{
    lemma_moore_is_adjacency(a, b);
    lemma_moore_is_adjacency(b, a);
}

/// The walk over the neighbourhood of one position.
pub struct MooreNeighborhood {
    pos: GridPosition,
    next_offset: usize,
}

impl View for MooreNeighborhood {
    type V = Seq<Cell>;

    /// The neighbours that are still to come, in the order in which they come.
    closed spec fn view(&self) -> Seq<Cell> {
        neighbors_from(self.pos@, self.next_offset as int)
    }
}

fn delta(idx: usize) -> (d: (i8, i8))
    requires
        idx < 8,
    ensures
        (d.0 as int, d.1 as int) == offset(idx as int),
{
    if idx == 0 {
        (-1, 0)
    } else if idx == 1 {
        (1, 0)
    } else if idx == 2 {
        (0, -1)
    } else if idx == 3 {
        (0, 1)
    } else if idx == 4 {
        (-1, -1)
    } else if idx == 5 {
        (-1, 1)
    } else if idx == 6 {
        (1, 1)
    } else {
        (1, -1)
    }
}

fn shift_coord(v: usize, d: i8) -> (r: Option<usize>)
    requires
        -1 <= d <= 1,
    ensures
        r == shifted_coord(v, d as int),
{
    if d < 0 {
        v.checked_sub(1)
    } else if d > 0 {
        v.checked_add(1)
    } else {
        Some(v)
    }
}

impl GridPosition {
    pub fn new(x: usize, y: usize) -> (pos: Self)
        ensures
            pos.x == x,
            pos.y == y,
    {
        Self { x, y }
    }

    /// The walk over the Moore neighbourhood of this position.
    pub fn neighbors(&self) -> (walk: MooreNeighborhood)
        ensures
            walk@ == moore(self@),
    {
        MooreNeighborhood::new(*self)
    }

    /// This position moved by the offset of index `idx`.
    fn shift(&self, idx: usize) -> (r: Option<GridPosition>)
        requires
            idx < 8,
        ensures
            match r {
                Some(p) => shifted(self@, offset(idx as int)) == Some(p@),
                None => shifted(self@, offset(idx as int)) is None,
            },
    {
        let d = delta(idx);
        match (shift_coord(self.x, d.0), shift_coord(self.y, d.1)) {
            (Some(x), Some(y)) => Some(GridPosition { x, y }),
            _ => None,
        }
    }
}

impl MooreNeighborhood {
    pub fn new(pos: GridPosition) -> (walk: Self)
        ensures
            walk@ == moore(pos@),
    {
        Self { pos, next_offset: 0 }
    }

    /// The next neighbour of the walk, or `None` once all offsets are used.
    pub fn next(&mut self) -> (r: Option<GridPosition>)
        ensures
            match r {
                Some(p) => {
                    &&& old(self)@.len() > 0
                    &&& p@ == old(self)@[0]
                    &&& final(self)@ == old(self)@.drop_first()
                },
                None => old(self)@.len() == 0 && final(self)@ == old(self)@,
            },
    {
        while self.next_offset < 8
            invariant
                self.pos == old(self).pos,
                self@ == old(self)@,
            decreases 8 - self.next_offset,
        {
            let idx: usize = self.next_offset;
            let ghost before = self@;
            self.next_offset = idx + 1;
            match self.pos.shift(idx) {
                Some(p) => {
                    assert(before == seq![p@] + self@);
                    assert(before.drop_first() =~= self@);
                    return Some(p);
                },
                None => {},
            }
        }
        None
    }
}

} // verus!
