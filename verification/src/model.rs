//! The mathematical model of the forest and of one tick.
//!
//! A forest is a map from cells to tree states, a set of active cells, a
//! clock, a burn duration and a susceptibility. One tick is the function
//! [`ForestModel::step`] of the forest and of the outcomes of the draws.

use crate::geometry::{adjacent, lemma_moore_is_adjacency, moore, Cell};
use crate::probability::{
    complement, lemma_survival_certain, lemma_survival_impossible, survival_after, SCALE,
};
use vstd::prelude::*;
use vstd::set_lib::lemma_set_subset_finite;

verus! {

/// The state of one tree.
#[derive(Copy, Clone, Debug, Default, PartialEq, Eq, Structural)]
pub enum TreeState {
    /// Not on fire yet.
    #[default]
    Uncaught,
    /// Caught fire in the last tick; burns from the next one.
    Catching,
    /// On fire, until the tick whose clock reads the given number.
    Burning(usize),
    /// Burnt down.
    Burnt,
}

impl TreeState {
    /// A tree that is on fire: catching or burning.
    pub open spec fn is_active(self) -> bool {
        self is Catching || self is Burning
    }

    /// What one tick can make of a tree in this state: the tree keeps its
    /// state or moves one step on, and a burning tree keeps its last tick.
    pub open spec fn may_become(self, next: TreeState) -> bool {
        match self {
            TreeState::Uncaught => next is Uncaught || next is Catching,
            TreeState::Catching => next is Catching || next is Burning,
            TreeState::Burning(until) => next == TreeState::Burning(until) || next is Burnt,
            TreeState::Burnt => next is Burnt,
        }
    }

    /// The place of the state in the life of a tree.
    pub open spec fn rank(self) -> nat {
        match self {
            TreeState::Uncaught => 0,
            TreeState::Catching => 1,
            TreeState::Burning(_) => 2,
            TreeState::Burnt => 3,
        }
    }
}

/// The outcome of the draws of one tick: for each threatened cell, whether
/// its tree remains uncaught.
pub type Outcomes = Map<Cell, bool>;

/// The forest as a mathematical value.
pub struct ForestModel {
    /// The state of each cell that holds a tree.
    pub trees: Map<Cell, TreeState>,
    /// The cells that the engine tracks as on fire.
    pub active: Set<Cell>,
    /// The number of ticks made.
    pub clock: nat,
    /// The number of ticks for which a tree burns.
    pub burn_duration: nat,
    /// The probability, in parts of `SCALE`, that a burning tree sets one
    /// uncaught neighbour on fire in one tick.
    pub susceptibility: nat,
}

impl ForestModel {
    /// The forest before its first tick: a tree on each cell of `trees` and
    /// of `ignitions`, those of `ignitions` catching fire.
    pub open spec fn initial(
        trees: Set<Cell>,
        ignitions: Set<Cell>,
        burn_duration: nat,
        susceptibility: nat,
    ) -> ForestModel {
        ForestModel {
            trees: Map::new(
                |c: Cell| trees.contains(c) || ignitions.contains(c),
                |c: Cell|
                    if ignitions.contains(c) {
                        TreeState::Catching
                    } else {
                        TreeState::Uncaught
                    },
            ),
            active: ignitions,
            clock: 0,
            burn_duration,
            susceptibility,
        }
    }

    /// The cell holds a burning tree.
    pub open spec fn burning(self, c: Cell) -> bool {
        self.trees.contains_key(c) && self.trees[c] is Burning
    }

    /// The cells whose trees are catching or burning.
    pub open spec fn lit(self) -> Set<Cell> {
        Set::new(|c: Cell| self.trees.contains_key(c) && self.trees[c].is_active())
    }

    /// The burning trees next to `c`.
    pub open spec fn burning_neighbors(self, c: Cell) -> Set<Cell> {
        Set::new(|b: Cell| adjacent(c, b) && self.burning(b))
    }

    /// The number of burning trees next to `c`.
    pub open spec fn threats(self, c: Cell) -> nat {
        self.burning_neighbors(c).len()
    }

    /// An uncaught tree with a burning neighbour: one draw decides in this
    /// tick whether it catches fire.
    pub open spec fn in_jeopardy(self, c: Cell) -> bool {
        &&& self.trees.contains_key(c)
        &&& self.trees[c] is Uncaught
        &&& self.threats(c) > 0
    }

    /// The cells for which this tick draws.
    pub open spec fn jeopardy(self) -> Set<Cell> {
        Set::new(|c: Cell| self.in_jeopardy(c))
    }

    /// The probability, in parts of `SCALE`, that the tree on `c` remains
    /// uncaught in this tick: that of escaping each burning neighbour.
    pub open spec fn survival(self, c: Cell) -> nat {
        survival_after(complement(self.susceptibility), self.threats(c))
    }

    /// Outcomes that the draws of this tick can have: one for each
    /// threatened cell, `true` where the tree is certain to remain uncaught
    /// and `false` where it cannot.
    pub open spec fn admissible(self, outcomes: Outcomes) -> bool {
        forall|c: Cell| #[trigger]
            self.in_jeopardy(c) ==> {
                &&& outcomes.contains_key(c)
                &&& self.survival(c) == SCALE ==> outcomes[c]
                &&& self.survival(c) == 0 ==> !outcomes[c]
            }
    }

    /// The outcomes of a tick in which, of the trees in jeopardy, exactly
    /// those on the cells of `caught` catch fire.
    pub open spec fn settled(self, caught: Set<Cell>) -> Outcomes {
        Map::new(|c: Cell| self.in_jeopardy(c), |c: Cell| !caught.contains(c))
    }

    /// The state of the tree on `c` after this tick.
    pub open spec fn next_state(self, c: Cell, outcomes: Outcomes) -> TreeState {
        match self.trees[c] {
            TreeState::Uncaught => if self.in_jeopardy(c) && !outcomes[c] {
                TreeState::Catching
            } else {
                TreeState::Uncaught
            },
            TreeState::Catching => TreeState::Burning((self.clock + self.burn_duration) as usize),
            TreeState::Burning(until) => if self.clock >= until {
                TreeState::Burnt
            } else {
                TreeState::Burning(until)
            },
            TreeState::Burnt => TreeState::Burnt,
        }
    }

    /// The tree on `c` catches fire in this tick.
    pub open spec fn ignites(self, c: Cell, outcomes: Outcomes) -> bool {
        &&& self.trees.contains_key(c)
        &&& self.trees[c] is Uncaught
        &&& self.next_state(c, outcomes) is Catching
    }

    /// The tree on `c` burns down in this tick.
    pub open spec fn burns_out(self, c: Cell) -> bool {
        &&& self.trees.contains_key(c)
        &&& self.trees[c] matches TreeState::Burning(until)
        &&& self.clock >= until
    }

    /// The forest after one tick whose draws came out as `outcomes`. Every
    /// tree moves on from its state before the tick; a cell joins the active
    /// set when its tree catches fire and leaves it when its tree burns down.
    pub open spec fn step(self, outcomes: Outcomes) -> ForestModel {
        ForestModel {
            trees: Map::new(
                |c: Cell| self.trees.contains_key(c),
                |c: Cell| self.next_state(c, outcomes),
            ),
            active: Set::new(
                |c: Cell|
                    (self.active.contains(c) || self.ignites(c, outcomes)) && !self.burns_out(c),
            ),
            clock: self.clock + 1,
            burn_duration: self.burn_duration,
            susceptibility: self.susceptibility,
        }
    }

    /// The forest after one tick for each element of `draws`, in turn.
    pub open spec fn run(self, draws: Seq<Outcomes>) -> ForestModel
        decreases draws.len(),
    {
        if draws.len() == 0 {
            self
        } else {
            self.run(draws.drop_last()).step(draws.last())
        }
    }

    /// Each element of `draws` is admissible in the forest that it meets.
    pub open spec fn admissible_run(self, draws: Seq<Outcomes>) -> bool
        decreases draws.len(),
    {
        draws.len() > 0 ==> {
            &&& self.admissible_run(draws.drop_last())
            &&& self.run(draws.drop_last()).admissible(draws.last())
        }
    }

    /// The active set holds exactly the cells whose trees are catching or
    /// burning.
    pub open spec fn consistent(self) -> bool {
        self.active == self.lit()
    }

    /// Every burning tree burns down within the burn duration, and not
    /// before the clock has reached its last tick.
    pub open spec fn timely(self) -> bool {
        forall|c: Cell| #[trigger]
            self.trees.contains_key(c) ==> (self.trees[c] matches TreeState::Burning(until)
                ==> self.clock <= until < self.clock + self.burn_duration)
    }

    /// What holds of the forest between any two ticks.
    pub open spec fn inv(self) -> bool {
        &&& self.consistent()
        &&& self.timely()
        &&& self.burn_duration >= 1
        &&& self.susceptibility <= SCALE
    }

    /// The number of ticks after which the tree on `c` is no longer on
    /// fire, if no tree catches fire.
    pub open spec fn fuel(self, c: Cell) -> nat {
        if !self.trees.contains_key(c) {
            0
        } else {
            match self.trees[c] {
                TreeState::Catching => self.burn_duration + 1,
                TreeState::Burning(until) => if until >= self.clock {
                    (until - self.clock + 1) as nat
                } else {
                    1
                },
                _ => 0,
            }
        }
    }
}

/// The burning neighbours of a cell are finitely many, at most eight.
pub proof fn lemma_threats_finite(m: ForestModel, c: Cell)
    ensures
        m.burning_neighbors(c).finite(),
        m.threats(c) <= 8,
{
    let around = moore(c).to_set();
    assert forall|b: Cell| m.burning_neighbors(c).contains(b) implies around.contains(b) by {
        lemma_moore_is_adjacency(c, b);
    }
    vstd::seq_lib::seq_to_set_is_finite(moore(c));
    lemma_set_subset_finite(around, m.burning_neighbors(c));
    vstd::set_lib::lemma_len_subset(m.burning_neighbors(c), around);
    crate::geometry::lemma_moore_distinct(c);
    moore(c).unique_seq_to_set();
}

/// A forest before its first tick is in order.
pub proof fn lemma_initial_inv(
    trees: Set<Cell>,
    ignitions: Set<Cell>,
    burn_duration: nat,
    susceptibility: nat,
)
    requires
        burn_duration >= 1,
        susceptibility <= SCALE,
    ensures
        ForestModel::initial(trees, ignitions, burn_duration, susceptibility).inv(),
{
    let m = ForestModel::initial(trees, ignitions, burn_duration, susceptibility);
    assert(m.active =~= m.lit());
}

/// One tick keeps the forest in order: above all, the active set is again
/// exactly the set of cells whose trees are catching or burning.
pub proof fn lemma_step_inv(m: ForestModel, outcomes: Outcomes)
    requires
        m.inv(),
        m.clock + m.burn_duration <= usize::MAX,
    ensures
        m.step(outcomes).inv(),
        m.step(outcomes).active == m.step(outcomes).lit(),
{
    let n = m.step(outcomes);
    assert forall|c: Cell| n.active.contains(c) <==> n.lit().contains(c) by {
        if m.trees.contains_key(c) {
            assert(m.active.contains(c) <==> m.lit().contains(c));
        } else {
            assert(!m.lit().contains(c));
        }
    }
    assert(n.active =~= n.lit());
    assert forall|c: Cell| #[trigger] n.trees.contains_key(c) implies (n.trees[c] matches TreeState::Burning(
        until,
    ) ==> n.clock <= until < n.clock + n.burn_duration) by {
        assert(m.trees.contains_key(c));
    }
}

/// No tick moves a tree back: its state keeps its place in the life of a
/// tree or moves on, and a burning tree keeps its last tick.
pub proof fn lemma_step_monotonic(m: ForestModel, outcomes: Outcomes, c: Cell)
    requires
        m.trees.contains_key(c),
    ensures
        m.step(outcomes).trees.contains_key(c),
        m.trees[c].rank() <= m.step(outcomes).trees[c].rank(),
        m.trees[c] is Burning && m.step(outcomes).trees[c] is Burning ==> m.trees[c] == m.step(
            outcomes,
        ).trees[c],
        m.trees[c] is Burnt ==> m.step(outcomes).trees[c] is Burnt,
{
}

/// One tick plants and removes no tree, and moves each tree at most one
/// step on in its life, never back.
pub proof fn lemma_step_moves_on(m: ForestModel, outcomes: Outcomes)
    ensures
        m.step(outcomes).trees.dom() == m.trees.dom(),
        forall|c: Cell| #[trigger]
            m.trees.contains_key(c) ==> m.trees[c].may_become(m.step(outcomes).trees[c]),
        forall|c: Cell|
            !m.trees.contains_key(c) && !m.active.contains(c) ==> !m.step(
                outcomes,
            ).active.contains(c),
{
    assert(m.step(outcomes).trees.dom() =~= m.trees.dom());
}

/// One tick at the ends of the susceptibility: with susceptibility zero
/// every uncaught tree remains uncaught, and with susceptibility one every
/// uncaught tree next to a burning tree catches fire.
pub proof fn lemma_step_certain(m: ForestModel, outcomes: Outcomes)
    requires
        m.admissible(outcomes),
    ensures
        m.susceptibility == 0 ==> forall|c: Cell|
            m.trees.contains_key(c) && m.trees[c] is Uncaught ==> (#[trigger] m.step(
                outcomes,
            ).trees[c]) is Uncaught,
        m.susceptibility == SCALE ==> forall|b: Cell, c: Cell|
            #![trigger m.burning(b), m.step(outcomes).trees[c]]
            m.burning(b) && adjacent(c, b) && m.trees.contains_key(c) && m.trees[c] is Uncaught
                ==> m.step(outcomes).trees[c] is Catching,
{
    if m.susceptibility == 0 {
        assert forall|c: Cell| m.trees.contains_key(c) && m.trees[c] is Uncaught implies (
        #[trigger] m.step(outcomes).trees[c]) is Uncaught by {
            lemma_zero_susceptibility(m, outcomes, c);
        }
    }
    if m.susceptibility == SCALE {
        assert forall|b: Cell, c: Cell|
            #![trigger m.burning(b), m.step(outcomes).trees[c]]
            m.burning(b) && adjacent(c, b) && m.trees.contains_key(c)
                && m.trees[c] is Uncaught implies m.step(outcomes).trees[c] is Catching by {
            lemma_full_susceptibility(m, outcomes, b, c);
        }
    }
}

/// A run of ticks leaves the clock advanced by their number, and the burn
/// duration, the susceptibility and the set of cells with a tree as they
/// were: no tick plants or removes a tree.
pub proof fn lemma_run_frame(m: ForestModel, draws: Seq<Outcomes>)
    ensures
        m.run(draws).clock == m.clock + draws.len(),
        m.run(draws).burn_duration == m.burn_duration,
        m.run(draws).susceptibility == m.susceptibility,
        m.run(draws).trees.dom() == m.trees.dom(),
    decreases draws.len(),
{
    if draws.len() > 0 {
        lemma_run_frame(m, draws.drop_last());
        let before = m.run(draws.drop_last());
        assert(before.step(draws.last()).trees.dom() =~= before.trees.dom());
    }
}

/// A run of ticks keeps the forest in order.
pub proof fn lemma_run_inv(m: ForestModel, draws: Seq<Outcomes>)
    requires
        m.inv(),
        m.clock + draws.len() + m.burn_duration <= usize::MAX + 1,
    ensures
        m.run(draws).inv(),
    decreases draws.len(),
{
    if draws.len() > 0 {
        lemma_run_inv(m, draws.drop_last());
        lemma_run_frame(m, draws.drop_last());
        lemma_step_inv(m.run(draws.drop_last()), draws.last());
    }
}

/// A cell on which no tree was planted never holds a tree and is never
/// active, whatever burns next to it.
pub proof fn lemma_never_planted(m: ForestModel, draws: Seq<Outcomes>, c: Cell)
    requires
        m.inv(),
        m.clock + draws.len() + m.burn_duration <= usize::MAX + 1,
        !m.trees.contains_key(c),
    ensures
        !m.run(draws).trees.contains_key(c),
        !m.run(draws).active.contains(c),
{
    lemma_run_frame(m, draws);
    lemma_run_inv(m, draws);
    assert(!m.run(draws).lit().contains(c));
}

/// Along a run of ticks the states of one tree are met in the order
/// `Uncaught`, `Catching`, `Burning`, `Burnt`: after `i` ticks the tree is
/// no further in its life than after `j >= i` ticks.
pub proof fn lemma_run_monotonic(m: ForestModel, draws: Seq<Outcomes>, i: int, j: int, c: Cell)
    requires
        m.trees.contains_key(c),
        0 <= i <= j <= draws.len(),
    ensures
        m.run(draws.take(i)).trees.contains_key(c),
        m.run(draws.take(j)).trees.contains_key(c),
        m.run(draws.take(i)).trees[c].rank() <= m.run(draws.take(j)).trees[c].rank(),
    decreases j - i,
{
    lemma_run_frame(m, draws.take(i));
    lemma_run_frame(m, draws.take(j));
    if i < j {
        lemma_run_monotonic(m, draws, i, j - 1, c);
        assert(draws.take(j).drop_last() =~= draws.take(j - 1));
        lemma_run_frame(m, draws.take(j - 1));
        lemma_step_monotonic(m.run(draws.take(j - 1)), draws.take(j).last(), c);
    }
}

/// Two forests that are equal are still equal after the same run of draws:
/// the forest after any number of ticks depends on nothing but the forest
/// before them and the outcomes of the draws.
pub proof fn lemma_run_deterministic(a: ForestModel, b: ForestModel, draws: Seq<Outcomes>)
    requires
        a.trees =~= b.trees,
        a.active =~= b.active,
        a.clock == b.clock,
        a.burn_duration == b.burn_duration,
        a.susceptibility == b.susceptibility,
    ensures
        a.run(draws) == b.run(draws),
        a.jeopardy() == b.jeopardy(),
        forall|c: Cell| a.survival(c) == b.survival(c),
{
}

/// A burning tree keeps burning as long as the clock has not reached its
/// last tick.
pub proof fn lemma_keeps_burning(m: ForestModel, draws: Seq<Outcomes>, c: Cell, until: usize)
    requires
        m.trees.contains_key(c),
        m.trees[c] == TreeState::Burning(until),
        m.clock + draws.len() <= until,
    ensures
        m.run(draws).trees.contains_key(c),
        m.run(draws).trees[c] == TreeState::Burning(until),
    decreases draws.len(),
{
    if draws.len() > 0 {
        lemma_keeps_burning(m, draws.drop_last(), c, until);
        lemma_run_frame(m, draws.drop_last());
    }
}

/// A tree that is catching fire when the clock reads `T` burns from the
/// next tick on, through the tick at which the clock reads `T + D - 1` for
/// the burn duration `D`, and is burnt down by the tick at which the clock
/// reads `T + D`: not by an earlier one, and by no later one.
pub proof fn lemma_burn_duration(m: ForestModel, draws: Seq<Outcomes>, c: Cell)
    requires
        m.trees.contains_key(c),
        m.trees[c] is Catching,
        m.burn_duration >= 1,
        m.clock + m.burn_duration <= usize::MAX,
        draws.len() == m.burn_duration + 1,
    ensures
        forall|k: int|
            1 <= k <= m.burn_duration ==> (#[trigger] m.run(draws.take(k))).trees[c]
                == TreeState::Burning((m.clock + m.burn_duration) as usize),
        m.run(draws).trees[c] is Burnt,
{
    let until = (m.clock + m.burn_duration) as usize;
    let first = m.run(draws.take(1));
    assert(draws.take(1).drop_last() =~= Seq::<Outcomes>::empty());
    assert(m.run(draws.take(1).drop_last()) == m);
    assert(first.trees[c] == TreeState::Burning(until));
    assert(first.clock == m.clock + 1);
    assert forall|k: int| 1 <= k <= m.burn_duration implies (#[trigger] m.run(
        draws.take(k),
    )).trees[c] == TreeState::Burning(until) by {
        lemma_run_split(m, draws.take(k), 1);
        assert(draws.take(k).take(1) =~= draws.take(1));
        lemma_keeps_burning(first, draws.take(k).skip(1), c, until);
    }
    let last = m.run(draws.drop_last());
    assert(draws.drop_last() =~= draws.take(m.burn_duration as int));
    assert(last.trees[c] == TreeState::Burning(until));
    lemma_run_frame(m, draws.drop_last());
}

/// A run of ticks is the run of its first `i` ticks followed by the run of
/// the rest.
pub proof fn lemma_run_split(m: ForestModel, draws: Seq<Outcomes>, i: int)
    requires
        0 <= i <= draws.len(),
    ensures
        m.run(draws) == m.run(draws.take(i)).run(draws.skip(i)),
    decreases draws.len(),
{
    if i == draws.len() {
        assert(draws.take(i) =~= draws);
        assert(draws.skip(i) =~= Seq::<Outcomes>::empty());
    } else {
        lemma_run_split(m, draws.drop_last(), i);
        assert(draws.drop_last().take(i) =~= draws.take(i));
        assert(draws.drop_last().skip(i) =~= draws.skip(i).drop_last());
        assert(draws.skip(i).last() == draws.last());
    }
}

/// With susceptibility zero no uncaught tree catches fire, whatever burns
/// next to it.
pub proof fn lemma_zero_susceptibility(m: ForestModel, outcomes: Outcomes, c: Cell)
    requires
        m.susceptibility == 0,
        m.admissible(outcomes),
        m.trees.contains_key(c),
        m.trees[c] is Uncaught,
    ensures
        m.step(outcomes).trees[c] is Uncaught,
{
    lemma_survival_certain(m.threats(c));
}

/// With susceptibility one every uncaught tree next to a burning tree
/// catches fire in the very next tick.
pub proof fn lemma_full_susceptibility(m: ForestModel, outcomes: Outcomes, b: Cell, c: Cell)
    requires
        m.susceptibility == SCALE,
        m.admissible(outcomes),
        m.trees.contains_key(c),
        m.trees[c] is Uncaught,
        adjacent(c, b),
        m.burning(b),
    ensures
        m.step(outcomes).trees[c] is Catching,
{
    lemma_threats_finite(m, c);
    assert(m.burning_neighbors(c).contains(b));
    lemma_survival_impossible(m.threats(c));
    assert(m.in_jeopardy(c));
}

/// With susceptibility zero, one tick brings every tree that is on fire one
/// tick nearer to being burnt down, and sets no tree on fire.
proof fn lemma_step_spends_fuel(m: ForestModel, outcomes: Outcomes, c: Cell)
    requires
        m.inv(),
        m.susceptibility == 0,
        m.admissible(outcomes),
        m.clock + m.burn_duration <= usize::MAX,
    ensures
        m.step(outcomes).fuel(c) == if m.fuel(c) > 0 {
            (m.fuel(c) - 1) as nat
        } else {
            0
        },
        m.fuel(c) <= m.burn_duration + 1,
{
    if m.trees.contains_key(c) {
        if m.trees[c] is Uncaught {
            lemma_zero_susceptibility(m, outcomes, c);
        }
    }
}

proof fn lemma_run_spends_fuel(m: ForestModel, draws: Seq<Outcomes>, c: Cell)
    requires
        m.inv(),
        m.susceptibility == 0,
        m.admissible_run(draws),
        m.clock + draws.len() + m.burn_duration <= usize::MAX + 1,
    ensures
        m.run(draws).fuel(c) == if m.fuel(c) > draws.len() {
            (m.fuel(c) - draws.len()) as nat
        } else {
            0
        },
        m.fuel(c) <= m.burn_duration + 1,
    decreases draws.len(),
{
    if draws.len() > 0 {
        let before = m.run(draws.drop_last());
        lemma_run_spends_fuel(m, draws.drop_last(), c);
        lemma_run_inv(m, draws.drop_last());
        lemma_run_frame(m, draws.drop_last());
        lemma_step_spends_fuel(before, draws.last(), c);
    } else if m.trees.contains_key(c) {
        assert(m.fuel(c) <= m.burn_duration + 1);
    }
}

/// With susceptibility zero the fire dies out by itself: after one tick
/// more than the burn duration no tree is on fire, and every tree that was
/// not on fire is as it was.
pub proof fn lemma_zero_susceptibility_dies_out(m: ForestModel, draws: Seq<Outcomes>)
    requires
        m.inv(),
        m.susceptibility == 0,
        m.admissible_run(draws),
        draws.len() >= m.burn_duration + 1,
        m.clock + draws.len() + m.burn_duration <= usize::MAX + 1,
    ensures
        m.run(draws).active == Set::<Cell>::empty(),
        forall|c: Cell|
            m.trees.contains_key(c) && !m.trees[c].is_active() ==> #[trigger] m.run(
                draws,
            ).trees[c] == m.trees[c],
{
    let end = m.run(draws);
    lemma_run_inv(m, draws);
    assert forall|c: Cell| !end.active.contains(c) by {
        lemma_run_spends_fuel(m, draws, c);
        if end.trees.contains_key(c) && end.trees[c].is_active() {
            assert(end.fuel(c) > 0);
        }
        assert(!end.lit().contains(c));
    }
    assert(end.active =~= Set::<Cell>::empty());
    assert forall|c: Cell| m.trees.contains_key(c) && !m.trees[c].is_active() implies #[trigger] m.run(
        draws,
    ).trees[c] == m.trees[c] by {
        lemma_zero_susceptibility_keeps(m, draws, c);
    }
}

proof fn lemma_zero_susceptibility_keeps(m: ForestModel, draws: Seq<Outcomes>, c: Cell)
    requires
        m.susceptibility == 0,
        m.admissible_run(draws),
        m.trees.contains_key(c),
        !m.trees[c].is_active(),
    ensures
        m.run(draws).trees[c] == m.trees[c],
    decreases draws.len(),
{
    if draws.len() > 0 {
        lemma_zero_susceptibility_keeps(m, draws.drop_last(), c);
        lemma_run_frame(m, draws.drop_last());
        let before = m.run(draws.drop_last());
        assert(before.trees.contains_key(c));
        if before.trees[c] is Uncaught {
            lemma_zero_susceptibility(before, draws.last(), c);
        }
    }
}

} // verus!
