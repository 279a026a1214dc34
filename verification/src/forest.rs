//! The fire simulation engine.

use crate::geometry::{
    adjacent, ascending, lemma_ascending_distinct, lemma_moore_distinct,
    lemma_moore_is_adjacency, moore, Cell, GridPosition,
};
use crate::model::{
    lemma_initial_inv, lemma_step_certain, lemma_step_inv, lemma_step_moves_on,
    lemma_threats_finite, ForestModel, Outcomes, TreeState,
};
use crate::ordered::{cells_in_order, cells_of, entries_in_order, lemma_take_contains, lookup};
use crate::probability::{complement, fixed_mul, survival_after, Probability, SCALE};
use rand::rngs::StdRng;
use rand::Rng;
use std::collections::{BTreeMap, BTreeSet};
use vstd::prelude::*;
use vstd::set_lib::lemma_set_subset_finite;

verus! {

/// `rand::rngs::StdRng`, the random source of the engine. Nothing is known
/// of what it holds.
#[verifier::external_type_specification]
#[verifier::external_body]
pub struct ExStdRng(StdRng);

/// `Clone::clone` of `rand::rngs::StdRng`, which the clone of a forest
/// calls. Nothing is stated of the copy.
pub assume_specification[ <StdRng as Clone>::clone ](rng: &StdRng) -> (copy: StdRng);

/// `rand::Rng::gen_ratio` on a `StdRng`: a draw that is `true` with
/// probability `numerator / denominator`. The call panics on a zero
/// denominator and on a numerator above the denominator, which `requires`
/// leaves out. Of the result only what the method documents for every state
/// of the generator is stated: the draw is `true` where the two numbers are
/// equal and `false` where the numerator is zero.
#[verifier::external_body]
fn gen_ratio(rng: &mut StdRng, numerator: u32, denominator: u32) -> (hit: bool)
    requires
        0 < denominator,
        numerator <= denominator,
    ensures
        numerator == denominator ==> hit,
        numerator == 0 ==> !hit,
{
    rng.gen_ratio(numerator, denominator)
}

/// The list of changes that one tick has scheduled.
type Changes = Seq<(Cell, TreeState)>;

/// The tree on `c` is an uncaught tree next to the cell `source`.
spec fn threatened(trees: Map<Cell, TreeState>, source: Cell, c: Cell) -> bool {
    adjacent(source, c) && trees.contains_key(c) && trees[c] is Uncaught
}

/// The chance to remain uncaught that is on record for `c`: one where none is.
spec fn chance(may_burn: Map<Cell, Probability>, c: Cell) -> nat {
    if may_burn.contains_key(c) {
        may_burn[c]@
    } else {
        SCALE as nat
    }
}

/// The burning neighbours of `c` among the first `i` cells of `act`.
spec fn seen(m: ForestModel, act: Seq<Cell>, i: int, c: Cell) -> Set<Cell> {
    Set::new(|b: Cell| adjacent(c, b) && m.burning(b) && act.take(i).contains(b))
}

proof fn lemma_seen_finite(m: ForestModel, act: Seq<Cell>, i: int, c: Cell)
    ensures
        seen(m, act, i, c).finite(),
{
    lemma_threats_finite(m, c);
    assert(seen(m, act, i, c).subset_of(m.burning_neighbors(c)));
    lemma_set_subset_finite(m.burning_neighbors(c), seen(m, act, i, c));
}

proof fn lemma_seen_none(m: ForestModel, act: Seq<Cell>, c: Cell)
    ensures
        seen(m, act, 0, c).len() == 0,
{
    assert(seen(m, act, 0, c) =~= Set::<Cell>::empty());
}

proof fn lemma_seen_step(m: ForestModel, act: Seq<Cell>, i: int, c: Cell)
    requires
        0 <= i < act.len(),
        act.no_duplicates(),
    ensures
        adjacent(c, act[i]) && m.burning(act[i]) ==> seen(m, act, i + 1, c).len() == seen(
            m,
            act,
            i,
            c,
        ).len() + 1,
        !(adjacent(c, act[i]) && m.burning(act[i])) ==> seen(m, act, i + 1, c) == seen(
            m,
            act,
            i,
            c,
        ),
{
    let s0 = seen(m, act, i, c);
    let s1 = seen(m, act, i + 1, c);
    let b0 = act[i];
    lemma_take_contains(act, i);
    lemma_seen_finite(m, act, i, c);
    if adjacent(c, b0) && m.burning(b0) {
        assert(s1 =~= s0.insert(b0));
    } else {
        assert(s1 =~= s0);
    }
}

proof fn lemma_seen_all(m: ForestModel, act: Seq<Cell>, c: Cell)
    requires
        m.consistent(),
        act.to_set() == m.active,
    ensures
        seen(m, act, act.len() as int, c) == m.burning_neighbors(c),
{
    assert(act.take(act.len() as int) =~= act);
    assert forall|b: Cell| m.burning_neighbors(c).contains(b) implies seen(
        m,
        act,
        act.len() as int,
        c,
    ).contains(b) by {
        assert(m.lit().contains(b));
        assert(act.to_set().contains(b));
    }
    assert(seen(m, act, act.len() as int, c) =~= m.burning_neighbors(c));
}

/// Lets the burning tree on `source` threaten its neighbours: the chance
/// to remain uncaught of each uncaught tree next to it, one where none is on
/// record, is multiplied by `escape`. Nothing else changes.
fn threaten(
    trees: &BTreeMap<Cell, TreeState>,
    source: Cell,
    escape: Probability,
    may_burn: &mut BTreeMap<Cell, Probability>,
)
    ensures
        forall|c: Cell| #[trigger]
            final(may_burn)@.contains_key(c) <==> old(may_burn)@.contains_key(c) || threatened(
                trees@,
                source,
                c,
            ),
        forall|c: Cell|
            threatened(trees@, source, c) ==> (#[trigger] final(may_burn)@[c])@ == fixed_mul(
                chance(old(may_burn)@, c),
                escape@,
            ),
        forall|c: Cell|
            !threatened(trees@, source, c) && old(may_burn)@.contains_key(c)
                ==> #[trigger] final(may_burn)@[c] == old(may_burn)@[c],
{
    let pos = GridPosition::new(source.0, source.1);
    let mut walk = pos.neighbors();
    let ghost around = moore(source);
    let ghost mut done: int = 0;
    proof {
        lemma_moore_distinct(source);
        assert(around.skip(0) =~= around);
    }
    let mut next = walk.next();
    while next.is_some()
        invariant
            around == moore(source),
            around.no_duplicates(),
            0 <= done <= around.len(),
            next matches Some(p) ==> done < around.len() && p@ == around[done] && walk@
                == around.skip(done + 1),
            next is None ==> done == around.len(),
            forall|c: Cell| #[trigger]
                may_burn@.contains_key(c) <==> old(may_burn)@.contains_key(c) || (around.take(
                    done,
                ).contains(c) && threatened(trees@, source, c)),
            forall|c: Cell|
                around.take(done).contains(c) && threatened(trees@, source, c) ==> (
                #[trigger] may_burn@[c])@ == fixed_mul(chance(old(may_burn)@, c), escape@),
            forall|c: Cell|
                !(around.take(done).contains(c) && threatened(trees@, source, c)) && old(
                    may_burn,
                )@.contains_key(c) ==> #[trigger] may_burn@[c] == old(may_burn)@[c],
        decreases around.len() - done,
    {
        let p = next.unwrap();
        let cell: Cell = (p.x, p.y);
        proof {
            lemma_moore_is_adjacency(source, cell);
            assert(around.contains(cell));
            lemma_take_contains(around, done);
        }
        match lookup(trees, cell) {
            Some(TreeState::Uncaught) => {
                let prior = match lookup(may_burn, cell) {
                    Some(known) => known,
                    None => Probability::one(),
                };
                may_burn.insert(cell, prior.times(escape));
            },
            _ => {},
        }
        proof {
            done = done + 1;
            assert(around.skip(done - 1).drop_first() =~= around.skip(done));
        }
        next = walk.next();
    }
    proof {
        assert(around.take(done) =~= around);
        assert forall|c: Cell| around.contains(c) <==> adjacent(source, c) by {
            lemma_moore_is_adjacency(source, c);
        }
    }
}

/// Whether one of the first `k` changes is a change of the tree on `c`.
spec fn recorded(changes: Changes, k: int, c: Cell) -> bool
    decreases k,
{
    if k <= 0 {
        false
    } else {
        changes[k - 1].0 == c || recorded(changes, k - 1, c)
    }
}

proof fn lemma_recorded_prefix(a: Changes, b: Changes, k: int, c: Cell)
    requires
        0 <= k <= a.len(),
        k <= b.len(),
        forall|j: int| 0 <= j < k ==> a[j] == b[j],
    ensures
        recorded(a, k, c) == recorded(b, k, c),
    decreases k,
{
    if k > 0 {
        lemma_recorded_prefix(a, b, k - 1, c);
    }
}

proof fn lemma_recorded_grows(changes: Changes, k: int, n: int, c: Cell)
    requires
        0 <= k <= n,
        recorded(changes, k, c),
    ensures
        recorded(changes, n, c),
    decreases n - k,
{
    if k < n {
        lemma_recorded_grows(changes, k, n - 1, c);
    }
}

proof fn lemma_recorded_witness(changes: Changes, k: int, c: Cell) -> (j: int)
    requires
        recorded(changes, k, c),
    ensures
        0 <= j < k,
        changes[j].0 == c,
    decreases k,
{
    if changes[k - 1].0 == c {
        k - 1
    } else {
        lemma_recorded_witness(changes, k - 1, c)
    }
}

/// What the first pass has scheduled once it has met the first `i` active
/// cells: the change of each of them whose tree moves on in this tick, once,
/// and nothing else.
spec fn progressed(m: ForestModel, act: Seq<Cell>, i: int, changes: Changes) -> bool {
    &&& forall|k: int|
        0 <= k < changes.len() ==> {
            let e = #[trigger] changes[k];
            &&& act.take(i).contains(e.0)
            &&& m.trees.contains_key(e.0)
            &&& m.trees[e.0].is_active()
            &&& e.1 == m.next_state(e.0, Map::empty())
            &&& e.1 != m.trees[e.0]
            &&& !recorded(changes, k, e.0)
        }
    &&& forall|j: int|
        0 <= j < i ==> (m.next_state(#[trigger] act[j], Map::empty()) != m.trees[act[j]]
            ==> recorded(changes, changes.len() as int, act[j]))
}

/// What the first pass has on record once it has met the first `i` active
/// cells: for each uncaught tree with a burning neighbour among them, the
/// chance to escape all of these.
spec fn accumulated(
    m: ForestModel,
    act: Seq<Cell>,
    i: int,
    may_burn: Map<Cell, Probability>,
) -> bool {
    &&& forall|c: Cell| #[trigger]
        may_burn.contains_key(c) <==> (m.trees.contains_key(c) && m.trees[c] is Uncaught && seen(
            m,
            act,
            i,
            c,
        ).len() > 0)
    &&& forall|c: Cell|
        may_burn.contains_key(c) ==> (#[trigger] may_burn[c])@ == survival_after(
            complement(m.susceptibility),
            seen(m, act, i, c).len(),
        )
}

proof fn lemma_progressed_push(
    m: ForestModel,
    act: Seq<Cell>,
    i: int,
    changes: Changes,
    e: (Cell, TreeState),
)
    requires
        0 <= i < act.len(),
        act.no_duplicates(),
        progressed(m, act, i, changes),
        e.0 == act[i],
        m.trees.contains_key(e.0),
        m.trees[e.0].is_active(),
        e.1 == m.next_state(e.0, Map::empty()),
        e.1 != m.trees[e.0],
    ensures
        progressed(m, act, i + 1, changes.push(e)),
{
    let grown = changes.push(e);
    let n = changes.len() as int;
    lemma_take_contains(act, i);
    if recorded(changes, n, e.0) {
        let j = lemma_recorded_witness(changes, n, e.0);
        assert(act.take(i).contains(changes[j].0));
    }
    assert forall|k: int| 0 <= k < grown.len() implies ({
        let g = #[trigger] grown[k];
        &&& act.take(i + 1).contains(g.0)
        &&& m.trees.contains_key(g.0)
        &&& m.trees[g.0].is_active()
        &&& g.1 == m.next_state(g.0, Map::empty())
        &&& g.1 != m.trees[g.0]
        &&& !recorded(grown, k, g.0)
    }) by {
        lemma_recorded_prefix(changes, grown, k, grown[k].0);
        if k < n {
            assert(grown[k] == changes[k]);
        }
    }
    assert forall|j: int|
        0 <= j < i + 1 && m.next_state(#[trigger] act[j], Map::empty())
            != m.trees[act[j]] implies recorded(grown, grown.len() as int, act[j]) by {
        lemma_recorded_prefix(changes, grown, n, act[j]);
    }
}

proof fn lemma_progressed_skip(m: ForestModel, act: Seq<Cell>, i: int, changes: Changes)
    requires
        0 <= i < act.len(),
        progressed(m, act, i, changes),
        m.next_state(act[i], Map::empty()) == m.trees[act[i]],
    ensures
        progressed(m, act, i + 1, changes),
{
    lemma_take_contains(act, i);
}

/// The threats of the `i`-th active cell, added to what is on record of the
/// cells before it, give what is on record of the first `i + 1` active cells.
proof fn lemma_accumulated_step(
    m: ForestModel,
    act: Seq<Cell>,
    i: int,
    before: Map<Cell, Probability>,
    after: Map<Cell, Probability>,
    escape: nat,
)
    requires
        0 <= i < act.len(),
        act.no_duplicates(),
        escape == complement(m.susceptibility),
        accumulated(m, act, i, before),
        !m.burning(act[i]) ==> after == before,
        m.burning(act[i]) ==> {
            &&& forall|c: Cell| #[trigger]
                after.contains_key(c) <==> before.contains_key(c) || threatened(
                    m.trees,
                    act[i],
                    c,
                )
            &&& forall|c: Cell|
                threatened(m.trees, act[i], c) ==> (#[trigger] after[c])@ == fixed_mul(
                    chance(before, c),
                    escape,
                )
            &&& forall|c: Cell|
                !threatened(m.trees, act[i], c) && before.contains_key(c) ==> #[trigger] after[c]
                    == before[c]
        },
    ensures
        accumulated(m, act, i + 1, after),
{
    let source = act[i];
    assert forall|c: Cell| #[trigger]
        after.contains_key(c) <==> (m.trees.contains_key(c) && m.trees[c] is Uncaught && seen(
            m,
            act,
            i + 1,
            c,
        ).len() > 0) by {
        lemma_seen_step(m, act, i, c);
        assert(before.contains_key(c) <==> (m.trees.contains_key(c) && m.trees[c] is Uncaught
            && seen(m, act, i, c).len() > 0));
        if m.burning(source) {
            assert(threatened(m.trees, source, c) <==> (adjacent(c, source) && m.trees.contains_key(
                c,
            ) && m.trees[c] is Uncaught));
        }
    }
    assert forall|c: Cell| after.contains_key(c) implies (#[trigger] after[c])@ == survival_after(
        escape,
        seen(m, act, i + 1, c).len(),
    ) by {
        lemma_seen_step(m, act, i, c);
        let k0 = seen(m, act, i, c).len();
        let k1 = seen(m, act, i + 1, c).len();
        assert(before.contains_key(c) <==> (m.trees.contains_key(c) && m.trees[c] is Uncaught
            && k0 > 0));
        if m.burning(source) && threatened(m.trees, source, c) {
            assert(adjacent(c, source));
            assert(k1 == k0 + 1);
            assert(survival_after(escape, k1) == fixed_mul(survival_after(escape, k0), escape));
            assert(after[c]@ == fixed_mul(chance(before, c), escape));
            if before.contains_key(c) {
                assert(before[c]@ == survival_after(escape, k0));
            } else {
                assert(k0 == 0);
                assert(survival_after(escape, 0) == SCALE);
            }
        } else {
            assert(before.contains_key(c));
            assert(after[c] == before[c]);
            if m.burning(source) {
                assert(!adjacent(c, source));
            }
            assert(k1 == k0);
            assert(before[c]@ == survival_after(escape, k0));
        }
    }
}

/// The first pass of a tick, over the active cells in ascending order. A
/// catching tree is scheduled to burn for the burn duration. A burning tree
/// threatens its uncaught neighbours, and is scheduled to be burnt once the
/// clock has reached its last tick.
fn propagate(
    trees: &BTreeMap<Cell, TreeState>,
    act: &Vec<Cell>,
    clock: usize,
    burn_duration: usize,
    escape: Probability,
    changeset: &mut Vec<(Cell, TreeState)>,
    may_burn: &mut BTreeMap<Cell, Probability>,
    Ghost(m): Ghost<ForestModel>,
)
    requires
        m.inv(),
        m.trees == trees@,
        m.clock == clock,
        m.burn_duration == burn_duration,
        escape@ == complement(m.susceptibility),
        act@.no_duplicates(),
        act@.to_set() == m.active,
        clock + burn_duration <= usize::MAX,
        old(changeset)@.len() == 0,
        old(may_burn)@.dom() == Set::<Cell>::empty(),
    ensures
        progressed(m, act@, act@.len() as int, final(changeset)@),
        final(may_burn)@.dom() == m.jeopardy(),
        forall|c: Cell| m.in_jeopardy(c) ==> (#[trigger] final(may_burn)@[c])@ == m.survival(c),
{
    let mut i: usize = 0;
    proof {
        assert forall|c: Cell| !may_burn@.contains_key(c) by {
            assert(!may_burn@.dom().contains(c));
        }
        assert forall|c: Cell| seen(m, act@, 0, c).len() == 0 by {
            lemma_seen_none(m, act@, c);
        }
    }
    while i < act.len()
        invariant
            0 <= i <= act@.len(),
            m.inv(),
            m.trees == trees@,
            m.clock == clock,
            m.burn_duration == burn_duration,
            escape@ == complement(m.susceptibility),
            act@.no_duplicates(),
            act@.to_set() == m.active,
            clock + burn_duration <= usize::MAX,
            progressed(m, act@, i as int, changeset@),
            accumulated(m, act@, i as int, may_burn@),
        decreases act@.len() - i,
    {
        let cell: Cell = act[i];
        let ghost before = may_burn@;
        proof {
            assert(act@.to_set().contains(cell));
            assert(m.lit().contains(cell));
        }
        match lookup(trees, cell) {
            Some(TreeState::Catching) => {
                proof {
                    lemma_progressed_push(
                        m,
                        act@,
                        i as int,
                        changeset@,
                        (cell, TreeState::Burning((clock + burn_duration) as usize)),
                    );
                }
                changeset.push((cell, TreeState::Burning(clock + burn_duration)));
            },
            Some(TreeState::Burning(until)) => {
                threaten(trees, cell, escape, may_burn);
                if clock >= until {
                    proof {
                        lemma_progressed_push(
                            m,
                            act@,
                            i as int,
                            changeset@,
                            (cell, TreeState::Burnt),
                        );
                    }
                    changeset.push((cell, TreeState::Burnt));
                } else {
                    proof {
                        lemma_progressed_skip(m, act@, i as int, changeset@);
                    }
                }
            },
            _ => {
                // An active cell holds a tree, and the tree is on fire.
                assert(false);
            },
        }
        proof {
            lemma_accumulated_step(m, act@, i as int, before, may_burn@, escape@);
        }
        i = i + 1;
    }
    proof {
        assert forall|c: Cell| seen(m, act@, act@.len() as int, c) == m.burning_neighbors(c) by {
            lemma_seen_all(m, act@, c);
        }
        assert(may_burn@.dom() =~= m.jeopardy());
    }
}

/// The changes of one whole tick: the change of each tree that the tick
/// moves on, once, and nothing else.
spec fn scheduled(m: ForestModel, o: Outcomes, changes: Changes) -> bool {
    &&& forall|k: int|
        0 <= k < changes.len() ==> {
            let e = #[trigger] changes[k];
            &&& m.trees.contains_key(e.0)
            &&& e.1 == m.next_state(e.0, o)
            &&& e.1 != m.trees[e.0]
            &&& !recorded(changes, k, e.0)
        }
    &&& forall|c: Cell|
        m.trees.contains_key(c) && #[trigger] m.next_state(c, o) != m.trees[c] ==> recorded(
            changes,
            changes.len() as int,
            c,
        )
}

/// What the second pass has scheduled after the first `n` trees in
/// jeopardy: behind the changes of the first pass, the ignition of each of
/// these trees whose outcome is not to remain uncaught.
spec fn decided(
    jeopardy: Seq<(Cell, Probability)>,
    n: int,
    first: Changes,
    changes: Changes,
    o: Outcomes,
) -> bool {
    &&& first.len() <= changes.len()
    &&& forall|j: int| 0 <= j < first.len() ==> #[trigger] changes[j] == first[j]
    &&& forall|j: int|
        first.len() <= j < changes.len() ==> {
            let e = #[trigger] changes[j];
            &&& cells_of(jeopardy).take(n).contains(e.0)
            &&& e.1 == TreeState::Catching
            &&& o.contains_key(e.0)
            &&& !o[e.0]
            &&& !recorded(changes, j, e.0)
        }
    &&& forall|t: int|
        0 <= t < n ==> {
            let c = (#[trigger] jeopardy[t]).0;
            &&& o.contains_key(c)
            &&& !o[c] ==> recorded(changes, changes.len() as int, c)
        }
    &&& forall|c: Cell| #[trigger] o.contains_key(c) ==> cells_of(jeopardy).take(n).contains(c)
}

/// The outcomes of the first `n` draws respect what is certain.
spec fn fair(jeopardy: Seq<(Cell, Probability)>, n: int, o: Outcomes) -> bool {
    forall|t: int|
        0 <= t < n ==> {
            let e = #[trigger] jeopardy[t];
            &&& e.1@ == SCALE ==> o[e.0]
            &&& e.1@ == 0 ==> !o[e.0]
        }
}

/// What the walk over the record of the first pass gives.
spec fn listed(m: ForestModel, jeopardy: Seq<(Cell, Probability)>) -> bool {
    &&& cells_of(jeopardy).no_duplicates()
    &&& cells_of(jeopardy).to_set() == m.jeopardy()
    &&& forall|t: int|
        0 <= t < jeopardy.len() ==> (#[trigger] jeopardy[t]).1@ == m.survival(jeopardy[t].0)
}

proof fn lemma_decided_step(
    m: ForestModel,
    act: Seq<Cell>,
    jeopardy: Seq<(Cell, Probability)>,
    n: int,
    first: Changes,
    changes: Changes,
    o: Outcomes,
    remains: bool,
)
    requires
        0 <= n < jeopardy.len(),
        listed(m, jeopardy),
        progressed(m, act, act.len() as int, first),
        decided(jeopardy, n, first, changes, o),
    ensures
        !o.contains_key(jeopardy[n].0),
        decided(
            jeopardy,
            n + 1,
            first,
            if remains {
                changes
            } else {
                changes.push((jeopardy[n].0, TreeState::Catching))
            },
            o.insert(jeopardy[n].0, remains),
        ),
{
    let cells = cells_of(jeopardy);
    let cell = jeopardy[n].0;
    let grown = if remains {
        changes
    } else {
        changes.push((cell, TreeState::Catching))
    };
    let o2 = o.insert(cell, remains);
    let len = changes.len() as int;
    assert(cells[n] == cell);
    lemma_take_contains(cells, n);
    assert(cells.to_set().contains(cell));
    assert(m.in_jeopardy(cell));
    if recorded(changes, len, cell) {
        let j = lemma_recorded_witness(changes, len, cell);
        if j < first.len() {
            assert(changes[j] == first[j]);
        }
    }
    assert forall|j: int| first.len() <= j < grown.len() implies ({
        let e = #[trigger] grown[j];
        &&& cells.take(n + 1).contains(e.0)
        &&& e.1 == TreeState::Catching
        &&& o2.contains_key(e.0)
        &&& !o2[e.0]
        &&& !recorded(grown, j, e.0)
    }) by {
        lemma_recorded_prefix(changes, grown, j, grown[j].0);
        if j < len {
            assert(grown[j] == changes[j]);
        }
    }
    assert forall|t: int| 0 <= t < n + 1 implies ({
        let c = (#[trigger] jeopardy[t]).0;
        &&& o2.contains_key(c)
        &&& !o2[c] ==> recorded(grown, grown.len() as int, c)
    }) by {
        let c = jeopardy[t].0;
        lemma_recorded_prefix(changes, grown, len, c);
        if t < n {
            assert(cells[t] == c);
            assert(cells.take(n)[t] == c);
        }
    }
    assert forall|j: int| 0 <= j < first.len() implies #[trigger] grown[j] == first[j] by {
        assert(grown[j] == changes[j]);
    }
}

/// Once the second pass has met every tree in jeopardy, the changes that
/// the two passes have scheduled are those of the whole tick.
proof fn lemma_scheduled(
    m: ForestModel,
    act: Seq<Cell>,
    jeopardy: Seq<(Cell, Probability)>,
    first: Changes,
    changes: Changes,
    o: Outcomes,
)
    requires
        m.consistent(),
        act.to_set() == m.active,
        listed(m, jeopardy),
        progressed(m, act, act.len() as int, first),
        decided(jeopardy, jeopardy.len() as int, first, changes, o),
    ensures
        scheduled(m, o, changes),
        forall|c: Cell| #[trigger] m.in_jeopardy(c) ==> o.contains_key(c),
        fair(jeopardy, jeopardy.len() as int, o) ==> m.admissible(o),
{
    let cells = cells_of(jeopardy);
    assert(cells.take(cells.len() as int) =~= cells);
    assert(act.take(act.len() as int) =~= act);
    assert forall|k: int| 0 <= k < changes.len() implies ({
        let e = #[trigger] changes[k];
        &&& m.trees.contains_key(e.0)
        &&& e.1 == m.next_state(e.0, o)
        &&& e.1 != m.trees[e.0]
        &&& !recorded(changes, k, e.0)
    }) by {
        let e = changes[k];
        if k < first.len() {
            assert(changes[k] == first[k]);
            lemma_recorded_prefix(first, changes, k, e.0);
        } else {
            assert(cells.to_set().contains(e.0));
            assert(m.in_jeopardy(e.0));
        }
    }
    assert forall|c: Cell|
        m.trees.contains_key(c) && #[trigger] m.next_state(c, o) != m.trees[c] implies recorded(
        changes,
        changes.len() as int,
        c,
    ) by {
        if m.trees[c].is_active() {
            assert(m.lit().contains(c));
            assert(act.to_set().contains(c));
            let j = choose|j: int| 0 <= j < act.len() && act[j] == c;
            assert(m.next_state(act[j], Map::empty()) != m.trees[act[j]]);
            lemma_recorded_prefix(first, changes, first.len() as int, c);
            lemma_recorded_grows(changes, first.len() as int, changes.len() as int, c);
        } else {
            assert(m.in_jeopardy(c));
            assert(cells.to_set().contains(c));
            let t = choose|t: int| 0 <= t < cells.len() && cells[t] == c;
            assert(jeopardy[t].0 == c);
        }
    }
    assert forall|c: Cell| #[trigger] m.in_jeopardy(c) implies o.contains_key(c) by {
        assert(cells.to_set().contains(c));
        let t = choose|t: int| 0 <= t < cells.len() && cells[t] == c;
        assert(jeopardy[t].0 == c);
    }
    if fair(jeopardy, jeopardy.len() as int, o) {
        assert forall|c: Cell| #[trigger] m.in_jeopardy(c) implies ({
            &&& o.contains_key(c)
            &&& m.survival(c) == SCALE ==> o[c]
            &&& m.survival(c) == 0 ==> !o[c]
        }) by {
            assert(cells.to_set().contains(c));
            let t = choose|t: int| 0 <= t < cells.len() && cells[t] == c;
            assert(jeopardy[t].0 == c);
        }
    }
}

/// The first pass of a tick together with the list of what it has put on
/// record: the trees in jeopardy, in ascending order, each with its chance
/// to remain uncaught.
fn survey(
    trees: &BTreeMap<Cell, TreeState>,
    active: &BTreeSet<Cell>,
    clock: usize,
    burn_duration: usize,
    susceptibility: Probability,
    changeset: &mut Vec<(Cell, TreeState)>,
    may_burn: &mut BTreeMap<Cell, Probability>,
    Ghost(m): Ghost<ForestModel>,
) -> (found: (Vec<(Cell, Probability)>, Ghost<Seq<Cell>>))
    requires
        m.inv(),
        m.trees == trees@,
        m.active == active@,
        m.clock == clock,
        m.burn_duration == burn_duration,
        m.susceptibility == susceptibility@,
        clock + burn_duration <= usize::MAX,
        old(changeset)@.len() == 0,
        old(may_burn)@.dom() == Set::<Cell>::empty(),
    ensures
        found.1@.to_set() == m.active,
        progressed(m, found.1@, found.1@.len() as int, final(changeset)@),
        listed(m, found.0@),
        ascending(cells_of(found.0@)),
{
    let act = cells_in_order(active);
    let escape = susceptibility.complement();
    proof {
        lemma_ascending_distinct(act@);
    }
    propagate(trees, &act, clock, burn_duration, escape, changeset, may_burn, Ghost(m));
    let jeopardy = entries_in_order(may_burn);
    proof {
        lemma_ascending_distinct(cells_of(jeopardy@));
        assert forall|t: int| 0 <= t < jeopardy@.len() implies (#[trigger] jeopardy@[t]).1@
            == m.survival(jeopardy@[t].0) by {
            assert(cells_of(jeopardy@)[t] == jeopardy@[t].0);
            assert(cells_of(jeopardy@).to_set().contains(jeopardy@[t].0));
        }
    }
    (jeopardy, Ghost(act@))
}

/// One draw that is `true` with the probability `chance`.
fn draw(rng: &mut StdRng, chance: Probability) -> (hit: bool)
    ensures
        chance@ == SCALE ==> hit,
        chance@ == 0 ==> !hit,
{
    gen_ratio(rng, chance.parts(), SCALE)
}

/// The second pass of a tick, over the trees in jeopardy in ascending
/// order: one draw for each decides whether it remains uncaught, and a tree
/// that does not is scheduled to catch fire.
fn decide(
    rng: &mut StdRng,
    jeopardy: &Vec<(Cell, Probability)>,
    changeset: &mut Vec<(Cell, TreeState)>,
    Ghost(m): Ghost<ForestModel>,
    Ghost(act): Ghost<Seq<Cell>>,
) -> (outcomes: Ghost<Outcomes>)
    requires
        m.consistent(),
        act.to_set() == m.active,
        listed(m, jeopardy@),
        progressed(m, act, act.len() as int, old(changeset)@),
    ensures
        m.admissible(outcomes@),
        outcomes@.dom() == m.jeopardy(),
        scheduled(m, outcomes@, final(changeset)@),
{
    let ghost first = changeset@;
    let ghost mut o: Outcomes = Map::empty();
    let mut n: usize = 0;
    while n < jeopardy.len()
        invariant
            0 <= n <= jeopardy@.len(),
            m.consistent(),
            act.to_set() == m.active,
            listed(m, jeopardy@),
            progressed(m, act, act.len() as int, first),
            decided(jeopardy@, n as int, first, changeset@, o),
            fair(jeopardy@, n as int, o),
        decreases jeopardy@.len() - n,
    {
        let cell: Cell = jeopardy[n].0;
        let remains = draw(rng, jeopardy[n].1);
        proof {
            lemma_decided_step(m, act, jeopardy@, n as int, first, changeset@, o, remains);
            o = o.insert(cell, remains);
        }
        if !remains {
            changeset.push((cell, TreeState::Catching));
        }
        n = n + 1;
    }
    proof {
        lemma_scheduled(m, act, jeopardy@, first, changeset@, o);
        let cells = cells_of(jeopardy@);
        assert(cells.take(cells.len() as int) =~= cells);
        assert forall|c: Cell| o.contains_key(c) implies m.in_jeopardy(c) by {
            assert(cells.to_set().contains(c));
        }
        assert(o.dom() =~= m.jeopardy());
    }
    Ghost(o)
}

/// The third pass of a tick: every scheduled change is made, in the order
/// in which it was scheduled. A cell joins the active set when its tree
/// catches fire and leaves it when its tree is burnt.
fn commit(
    trees: &mut BTreeMap<Cell, TreeState>,
    active: &mut BTreeSet<Cell>,
    changeset: &mut Vec<(Cell, TreeState)>,
    Ghost(m): Ghost<ForestModel>,
    Ghost(o): Ghost<Outcomes>,
)
    requires
        old(trees)@ == m.trees,
        old(active)@ == m.active,
        m.consistent(),
        scheduled(m, o, old(changeset)@),
    ensures
        final(trees)@ == m.step(o).trees,
        final(active)@ == m.step(o).active,
        final(changeset)@.len() == 0,
{
    let ghost changes = changeset@;
    let mut k: usize = 0;
    while k < changeset.len()
        invariant
            changeset@ == changes,
            0 <= k <= changes.len(),
            m.consistent(),
            scheduled(m, o, changes),
            trees@.dom() == m.trees.dom(),
            forall|c: Cell|
                m.trees.contains_key(c) ==> #[trigger] trees@[c] == (if recorded(
                    changes,
                    k as int,
                    c,
                ) {
                    m.next_state(c, o)
                } else {
                    m.trees[c]
                }),
            forall|c: Cell| #[trigger]
                active@.contains(c) <==> (if recorded(changes, k as int, c) {
                    m.step(o).active.contains(c)
                } else {
                    m.active.contains(c)
                }),
        decreases changes.len() - k,
    {
        let cell: Cell = changeset[k].0;
        let state: TreeState = changeset[k].1;
        proof {
            assert(changes[k as int].0 == cell);
            assert(!recorded(changes, k as int, cell));
            assert(m.lit().contains(cell) <==> m.active.contains(cell));
        }
        let ghost active_before = active@;
        trees.insert(cell, state);
        match state {
            TreeState::Catching => {
                active.insert(cell);
            },
            TreeState::Burnt => {
                active.remove(&cell);
            },
            _ => {},
        }
        proof {
            assert(trees@.dom() =~= m.trees.dom());
            assert forall|c: Cell| #[trigger]
                active@.contains(c) <==> (if recorded(changes, k + 1, c) {
                    m.step(o).active.contains(c)
                } else {
                    m.active.contains(c)
                }) by {
                if c != cell {
                    assert(active@.contains(c) == active_before.contains(c));
                }
            }
        }
        k = k + 1;
    }
    changeset.clear();
    proof {
        let len = changes.len() as int;
        assert forall|c: Cell| recorded(changes, len, c) implies m.trees.contains_key(c) by {
            let j = lemma_recorded_witness(changes, len, c);
            assert(m.trees.contains_key(changes[j].0));
        }
        assert forall|c: Cell| m.trees.contains_key(c) implies #[trigger] trees@[c]
            == m.next_state(c, o) by {
            if !recorded(changes, len, c) {
                assert(m.next_state(c, o) == m.trees[c]);
            }
        }
        assert(trees@ =~= m.step(o).trees);
        assert forall|c: Cell| active@.contains(c) <==> m.step(o).active.contains(c) by {
            if !recorded(changes, len, c) {
                if m.trees.contains_key(c) {
                    assert(m.next_state(c, o) == m.trees[c]);
                }
            }
        }
        assert(active@ =~= m.step(o).active);
    }
}

/// The cells of a list of positions.
pub open spec fn cells_at(positions: Seq<GridPosition>) -> Set<Cell> {
    Set::new(
        |c: Cell| exists|i: int| 0 <= i < positions.len() && (#[trigger] positions[i])@ == c,
    )
}

/// The cells of a list of entries by position, in the order of the list.
pub open spec fn positions_of<V>(entries: Seq<(GridPosition, V)>) -> Seq<Cell> {
    entries.map_values(|e: (GridPosition, V)| e.0@)
}

/// A cell of a grid of the given width and height.
pub open spec fn in_grid(c: Cell, width: usize, height: usize) -> bool {
    c.0 < width && c.1 < height
}

proof fn lemma_cells_at_next(positions: Seq<GridPosition>, i: int)
    requires
        0 <= i < positions.len(),
    ensures
        forall|c: Cell|
            cells_at(positions.take(i + 1)).contains(c) <==> (cells_at(positions.take(i)).contains(
                c,
            ) || c == positions[i]@),
{
    let shorter = positions.take(i);
    let longer = positions.take(i + 1);
    assert forall|c: Cell|
        cells_at(longer).contains(c) <==> (cells_at(shorter).contains(c) || c
            == positions[i]@) by {
        if cells_at(shorter).contains(c) {
            let k = choose|k: int| 0 <= k < shorter.len() && (#[trigger] shorter[k])@ == c;
            assert(longer[k]@ == c);
        }
        if c == positions[i]@ {
            assert(longer[i]@ == c);
        }
        if cells_at(longer).contains(c) {
            let k = choose|k: int| 0 <= k < longer.len() && (#[trigger] longer[k])@ == c;
            if k < i {
                assert(shorter[k]@ == c);
            }
        }
    }
}

/// Whether one of `positions` is the cell `cell`.
fn holds(positions: &Vec<GridPosition>, cell: Cell) -> (found: bool)
    ensures
        found == cells_at(positions@).contains(cell),
{
    let mut i: usize = 0;
    while i < positions.len()
        invariant
            0 <= i <= positions@.len(),
            forall|j: int| 0 <= j < i ==> (#[trigger] positions@[j])@ != cell,
        decreases positions@.len() - i,
    {
        if positions[i].x == cell.0 && positions[i].y == cell.1 {
            assert(positions@[i as int]@ == cell);
            return true;
        }
        i = i + 1;
    }
    false
}

/// The second pass of a tick whose draws the caller has settled: of the
/// trees in jeopardy, in ascending order, each one on a cell of `caught` is
/// scheduled to catch fire.
fn settle(
    caught: &Vec<GridPosition>,
    jeopardy: &Vec<(Cell, Probability)>,
    changeset: &mut Vec<(Cell, TreeState)>,
    Ghost(m): Ghost<ForestModel>,
    Ghost(act): Ghost<Seq<Cell>>,
)
    requires
        m.consistent(),
        act.to_set() == m.active,
        listed(m, jeopardy@),
        progressed(m, act, act.len() as int, old(changeset)@),
    ensures
        scheduled(m, m.settled(cells_at(caught@)), final(changeset)@),
{
    let ghost first = changeset@;
    let ghost mut o: Outcomes = Map::empty();
    let mut n: usize = 0;
    while n < jeopardy.len()
        invariant
            0 <= n <= jeopardy@.len(),
            m.consistent(),
            act.to_set() == m.active,
            listed(m, jeopardy@),
            progressed(m, act, act.len() as int, first),
            decided(jeopardy@, n as int, first, changeset@, o),
            forall|c: Cell| #[trigger] o.contains_key(c) ==> o[c] == !cells_at(caught@).contains(c),
        decreases jeopardy@.len() - n,
    {
        let cell: Cell = jeopardy[n].0;
        let remains = !holds(caught, cell);
        proof {
            lemma_decided_step(m, act, jeopardy@, n as int, first, changeset@, o, remains);
            o = o.insert(cell, remains);
        }
        if !remains {
            changeset.push((cell, TreeState::Catching));
        }
        n = n + 1;
    }
    proof {
        lemma_scheduled(m, act, jeopardy@, first, changeset@, o);
        let cells = cells_of(jeopardy@);
        assert(cells.take(cells.len() as int) =~= cells);
        assert forall|c: Cell| o.contains_key(c) implies m.in_jeopardy(c) by {
            assert(cells.to_set().contains(c));
        }
        assert(o =~= m.settled(cells_at(caught@)));
    }
}

/// What the planting has done once it has met every cell before `(x, y)`:
/// an uncaught tree on some of these cells, on all of them where the density
/// is one and on none where it is zero.
spec fn planted(
    trees: Map<Cell, TreeState>,
    height: usize,
    x: usize,
    y: usize,
    density: nat,
) -> bool {
    &&& forall|c: Cell| #[trigger]
        trees.contains_key(c) ==> {
            &&& c.0 < x || (c.0 == x && c.1 < y)
            &&& c.1 < height
            &&& trees[c] is Uncaught
        }
    &&& density == SCALE ==> forall|c: Cell|
        (c.0 < x || (c.0 == x && c.1 < y)) && c.1 < height ==> #[trigger] trees.contains_key(c)
    &&& density == 0 ==> forall|c: Cell| !#[trigger] trees.contains_key(c)
}

/// A forest on fire: the trees of a grid with their states, the random
/// source that decides how the fire spreads, and the clock.
#[derive(Clone)]
pub struct Forest {
    grid_width: usize,
    grid_height: usize,
    susceptibility: Probability,
    burn_duration: usize,
    rng: StdRng,
    trees: BTreeMap<Cell, TreeState>,
    active: BTreeSet<Cell>,
    tick: usize,
    may_burn: BTreeMap<Cell, Probability>,
    changeset: Vec<(Cell, TreeState)>,
}

impl View for Forest {
    type V = ForestModel;

    closed spec fn view(&self) -> ForestModel {
        ForestModel {
            trees: self.trees@,
            active: self.active@,
            clock: self.tick as nat,
            burn_duration: self.burn_duration as nat,
            susceptibility: self.susceptibility@,
        }
    }
}

impl Forest {
    /// Between two ticks nothing is scheduled and no chance is on record.
    pub closed spec fn at_rest(&self) -> bool {
        &&& self.may_burn@.dom() == Set::<Cell>::empty()
        &&& self.changeset@.len() == 0
    }

    /// The forest is in order: its model is, and the engine is at rest.
    pub open spec fn wf(&self) -> bool {
        self@.inv() && self.at_rest()
    }

    /// The width and the height of the grid.
    pub closed spec fn grid(&self) -> (usize, usize) {
        (self.grid_width, self.grid_height)
    }

    /// The random source, as it stands.
    pub closed spec fn source(&self) -> StdRng {
        self.rng
    }

    /// A forest planted at random: each cell of the grid gets a tree with
    /// the probability `tree_density`, by one draw for each cell, column by
    /// column. The tree in the middle of the grid, on
    /// `(grid_width / 2, grid_height / 2)`, is planted in any case and is
    /// catching fire.
    pub fn new(
        grid_width: usize,
        grid_height: usize,
        susceptibility: Probability,
        burn_duration: usize,
        tree_density: Probability,
        rng: StdRng,
    ) -> (forest: Self)
        requires
            burn_duration >= 1,
            grid_width >= 1,
            grid_height >= 1,
        ensures
            forest.wf(),
            forest.grid() == (grid_width, grid_height),
            forest@ == ForestModel::initial(
                forest@.trees.dom(),
                set![(grid_width / 2, grid_height / 2)],
                burn_duration as nat,
                susceptibility@,
            ),
            forall|c: Cell| #[trigger]
                forest@.trees.contains_key(c) ==> in_grid(c, grid_width, grid_height),
            forall|c: Cell| #[trigger]
                forest@.active.contains(c) ==> in_grid(c, grid_width, grid_height),
            tree_density@ == SCALE ==> forall|c: Cell|
                in_grid(c, grid_width, grid_height) ==> #[trigger] forest@.trees.contains_key(c),
            tree_density@ == 0 ==> forest@.trees.dom() == set![(grid_width / 2, grid_height / 2)],
    {
        let mut rng = rng;
        let mut trees: BTreeMap<Cell, TreeState> = BTreeMap::new();
        let mut active: BTreeSet<Cell> = BTreeSet::new();
        let mut x: usize = 0;
        while x < grid_width
            invariant
                x <= grid_width,
                planted(trees@, grid_height, x, 0, tree_density@),
            decreases grid_width - x,
        {
            let mut y: usize = 0;
            while y < grid_height
                invariant
                    x < grid_width,
                    y <= grid_height,
                    planted(trees@, grid_height, x, y, tree_density@),
                decreases grid_height - y,
            {
                if draw(&mut rng, tree_density) {
                    trees.insert((x, y), TreeState::Uncaught);
                }
                y = y + 1;
            }
            x = x + 1;
        }
        let center: Cell = (grid_width / 2, grid_height / 2);
        trees.insert(center, TreeState::Catching);
        active.insert(center);
        let tenth: usize = trees.len() / 10;
        let capacity: usize = if tenth > 1000 {
            tenth
        } else {
            1000
        };
        let forest = Forest {
            grid_width,
            grid_height,
            susceptibility,
            burn_duration,
            rng,
            trees,
            active,
            tick: 0,
            may_burn: BTreeMap::new(),
            changeset: Vec::with_capacity(capacity),
        };
        proof {
            use_type_invariant(&susceptibility);
            susceptibility.lemma_in_range();
            let start = ForestModel::initial(
                forest@.trees.dom(),
                set![center],
                burn_duration as nat,
                susceptibility@,
            );
            lemma_initial_inv(
                forest@.trees.dom(),
                set![center],
                burn_duration as nat,
                susceptibility@,
            );
            assert(in_grid(center, grid_width, grid_height));
            assert(forest@.trees =~= start.trees);
            assert(forest@.active =~= start.active);
            if tree_density@ == 0 {
                assert(forest@.trees.dom() =~= set![center]);
            }
        }
        forest
    }

    /// A forest with a tree on each position of `trees` and of `ignitions`,
    /// those of `ignitions` catching fire, before its first tick.
    pub fn with_placement(
        grid_width: usize,
        grid_height: usize,
        susceptibility: Probability,
        burn_duration: usize,
        trees: &Vec<GridPosition>,
        ignitions: &Vec<GridPosition>,
        rng: StdRng,
    ) -> (forest: Self)
        requires
            burn_duration >= 1,
        ensures
            forest.wf(),
            forest.grid() == (grid_width, grid_height),
            forest@ == ForestModel::initial(
                cells_at(trees@),
                cells_at(ignitions@),
                burn_duration as nat,
                susceptibility@,
            ),
    {
        let mut planted: BTreeMap<Cell, TreeState> = BTreeMap::new();
        let mut active: BTreeSet<Cell> = BTreeSet::new();
        let mut i: usize = 0;
        while i < trees.len()
            invariant
                0 <= i <= trees@.len(),
                forall|c: Cell| #[trigger]
                    planted@.contains_key(c) <==> cells_at(trees@.take(i as int)).contains(c),
                forall|c: Cell| planted@.contains_key(c) ==> #[trigger] planted@[c] is Uncaught,
            decreases trees@.len() - i,
        {
            proof {
                lemma_cells_at_next(trees@, i as int);
            }
            planted.insert((trees[i].x, trees[i].y), TreeState::Uncaught);
            i = i + 1;
        }
        let mut j: usize = 0;
        proof {
            assert(trees@.take(trees@.len() as int) =~= trees@);
            assert(active@ =~= cells_at(ignitions@.take(0)));
        }
        while j < ignitions.len()
            invariant
                0 <= j <= ignitions@.len(),
                forall|c: Cell| #[trigger]
                    planted@.contains_key(c) <==> (cells_at(trees@).contains(c) || cells_at(
                        ignitions@.take(j as int),
                    ).contains(c)),
                forall|c: Cell|
                    planted@.contains_key(c) ==> #[trigger] planted@[c] == (if cells_at(
                        ignitions@.take(j as int),
                    ).contains(c) {
                        TreeState::Catching
                    } else {
                        TreeState::Uncaught
                    }),
                active@ == cells_at(ignitions@.take(j as int)),
            decreases ignitions@.len() - j,
        {
            proof {
                lemma_cells_at_next(ignitions@, j as int);
            }
            let cell: Cell = (ignitions[j].x, ignitions[j].y);
            planted.insert(cell, TreeState::Catching);
            active.insert(cell);
            proof {
                assert(active@ =~= cells_at(ignitions@.take(j + 1)));
            }
            j = j + 1;
        }
        let tenth: usize = planted.len() / 10;
        let capacity: usize = if tenth > 1000 {
            tenth
        } else {
            1000
        };
        let forest = Forest {
            grid_width,
            grid_height,
            susceptibility,
            burn_duration,
            rng,
            trees: planted,
            active,
            tick: 0,
            may_burn: BTreeMap::new(),
            changeset: Vec::with_capacity(capacity),
        };
        proof {
            use_type_invariant(&susceptibility);
            susceptibility.lemma_in_range();
            assert(ignitions@.take(ignitions@.len() as int) =~= ignitions@);
            let start = ForestModel::initial(
                cells_at(trees@),
                cells_at(ignitions@),
                burn_duration as nat,
                susceptibility@,
            );
            lemma_initial_inv(
                cells_at(trees@),
                cells_at(ignitions@),
                burn_duration as nat,
                susceptibility@,
            );
            assert(forest@.trees =~= start.trees);
        }
        forest
    }

    /// Whether the fire has died: no tree is catching or burning.
    pub fn steady_state(&self) -> (steady: bool)
        requires
            self.wf(),
        ensures
            steady == (self@.active == Set::<Cell>::empty()),
            steady == (forall|c: Cell| #[trigger]
                self@.trees.contains_key(c) ==> !self@.trees[c].is_active()),
    {
        proof {
            let lit = self@.active;
            assert(lit == self@.lit());
            assert(lit.subset_of(self.trees@.dom()));
            lemma_set_subset_finite(self.trees@.dom(), lit);
            if lit.len() == 0 {
                lit.lemma_len0_is_empty();
            }
            if forall|c: Cell| #[trigger]
                self@.trees.contains_key(c) ==> !self@.trees[c].is_active() {
                assert(lit =~= Set::<Cell>::empty());
            }
            if lit == Set::<Cell>::empty() {
                assert forall|c: Cell| #[trigger]
                    self@.trees.contains_key(c) implies !self@.trees[c].is_active() by {
                    assert(!lit.contains(c));
                }
            }
        }
        self.active.len() == 0
    }

    /// One tick. Every catching tree starts to burn; every burning tree
    /// threatens its uncaught neighbours and is burnt once its time is up;
    /// one draw for each threatened tree decides whether it catches fire.
    /// All of this is judged on the forest as it was before the tick.
    pub fn tick(&mut self)
        requires
            old(self).wf(),
            old(self)@.clock + old(self)@.burn_duration <= usize::MAX,
        ensures
            final(self).wf(),
            final(self).grid() == old(self).grid(),
            exists|outcomes: Outcomes|
                {
                    &&& #[trigger] old(self)@.admissible(outcomes)
                    &&& outcomes.dom() == old(self)@.jeopardy()
                    &&& final(self)@ == old(self)@.step(outcomes)
                },
            // The active set is again the set of the trees on fire.
            final(self)@.active == final(self)@.lit(),
            // No tree is planted or removed, and no tree moves back.
            final(self)@.trees.dom() == old(self)@.trees.dom(),
            forall|c: Cell| #[trigger]
                old(self)@.trees.contains_key(c) ==> old(self)@.trees[c].may_become(
                    final(self)@.trees[c],
                ),
            forall|c: Cell|
                !old(self)@.trees.contains_key(c) ==> !#[trigger] final(self)@.active.contains(c),
            // With susceptibility zero no tree catches fire.
            old(self)@.susceptibility == 0 ==> forall|c: Cell|
                old(self)@.trees.contains_key(c) && old(self)@.trees[c] is Uncaught ==> (
                #[trigger] final(self)@.trees[c]) is Uncaught,
            // With susceptibility one every uncaught tree next to a burning
            // tree catches fire.
            old(self)@.susceptibility == SCALE ==> forall|b: Cell, c: Cell|
                #![trigger old(self)@.burning(b), final(self)@.trees[c]]
                old(self)@.burning(b) && adjacent(c, b) && old(self)@.trees.contains_key(c) && old(
                    self,
                )@.trees[c] is Uncaught ==> final(self)@.trees[c] is Catching,
    {
        let ghost m = self@;
        let (jeopardy, Ghost(act)) = survey(
            &self.trees,
            &self.active,
            self.tick,
            self.burn_duration,
            self.susceptibility,
            &mut self.changeset,
            &mut self.may_burn,
            Ghost(m),
        );
        let Ghost(outcomes) = decide(
            &mut self.rng,
            &jeopardy,
            &mut self.changeset,
            Ghost(m),
            Ghost(act),
        );
        self.may_burn.clear();
        commit(&mut self.trees, &mut self.active, &mut self.changeset, Ghost(m), Ghost(outcomes));
        self.tick = self.tick + 1;
        proof {
            lemma_step_inv(m, outcomes);
            lemma_step_moves_on(m, outcomes);
            lemma_step_certain(m, outcomes);
            assert(self@ == m.step(outcomes));
            assert forall|c: Cell| !m.trees.contains_key(c) implies !#[trigger] self@.active.contains(
                c,
            ) by {
                assert(!m.lit().contains(c));
            }
        }
    }

    /// One tick whose draws the caller has settled: of the trees in
    /// jeopardy, exactly those on the cells of `caught` catch fire. The random
    /// source is not touched.
    pub fn tick_with(&mut self, caught: &Vec<GridPosition>)
        requires
            old(self).wf(),
            old(self)@.clock + old(self)@.burn_duration <= usize::MAX,
        ensures
            final(self).wf(),
            final(self).grid() == old(self).grid(),
            final(self).source() == old(self).source(),
            final(self)@ == old(self)@.step(old(self)@.settled(cells_at(caught@))),
            final(self)@.active == final(self)@.lit(),
            final(self)@.trees.dom() == old(self)@.trees.dom(),
            forall|c: Cell| #[trigger]
                old(self)@.trees.contains_key(c) ==> old(self)@.trees[c].may_become(
                    final(self)@.trees[c],
                ),
    {
        let ghost m = self@;
        let (jeopardy, Ghost(act)) = survey(
            &self.trees,
            &self.active,
            self.tick,
            self.burn_duration,
            self.susceptibility,
            &mut self.changeset,
            &mut self.may_burn,
            Ghost(m),
        );
        settle(caught, &jeopardy, &mut self.changeset, Ghost(m), Ghost(act));
        self.may_burn.clear();
        let ghost outcomes = m.settled(cells_at(caught@));
        commit(&mut self.trees, &mut self.active, &mut self.changeset, Ghost(m), Ghost(outcomes));
        self.tick = self.tick + 1;
        proof {
            lemma_step_inv(m, outcomes);
            lemma_step_moves_on(m, outcomes);
            assert(self@ == m.step(outcomes));
        }
    }

    /// The trees for which the next tick draws, in ascending order of
    /// their positions, each with its chance to remain uncaught: for a
    /// tree with `k` burning neighbours, one multiplied `k` times by the
    /// complement of the susceptibility.
    pub fn jeopardy(&self) -> (list: Vec<(GridPosition, Probability)>)
        requires
            self.wf(),
            self@.clock + self@.burn_duration <= usize::MAX,
        ensures
            ascending(positions_of(list@)),
            positions_of(list@).to_set() == self@.jeopardy(),
            forall|i: int|
                0 <= i < list@.len() ==> (#[trigger] list@[i]).1@ == self@.survival(list@[i].0@),
    {
        let ghost m = self@;
        let mut changeset: Vec<(Cell, TreeState)> = Vec::new();
        let mut may_burn: BTreeMap<Cell, Probability> = BTreeMap::new();
        let (entries, _) = survey(
            &self.trees,
            &self.active,
            self.tick,
            self.burn_duration,
            self.susceptibility,
            &mut changeset,
            &mut may_burn,
            Ghost(m),
        );
        let mut list: Vec<(GridPosition, Probability)> = Vec::with_capacity(entries.len());
        let mut i: usize = 0;
        while i < entries.len()
            invariant
                0 <= i <= entries@.len(),
                list@.len() == i,
                forall|j: int|
                    0 <= j < i ==> (#[trigger] list@[j]).0@ == entries@[j].0 && list@[j].1
                        == entries@[j].1,
            decreases entries@.len() - i,
        {
            let cell: Cell = entries[i].0;
            list.push((GridPosition::new(cell.0, cell.1), entries[i].1));
            i = i + 1;
        }
        proof {
            assert(positions_of(list@) =~= cells_of(entries@));
        }
        list
    }

    /// Whether the clock leaves room for one more tick.
    pub fn can_tick(&self) -> (room: bool)
        ensures
            room == (self@.clock + self@.burn_duration <= usize::MAX),
    {
        self.tick.checked_add(self.burn_duration).is_some()
    }

    /// The number of ticks made.
    pub fn clock(&self) -> (clock: usize)
        ensures
            clock == self@.clock,
    {
        self.tick
    }

    /// The number of ticks for which a tree burns.
    pub fn burn_duration(&self) -> (ticks: usize)
        ensures
            ticks == self@.burn_duration,
    {
        self.burn_duration
    }

    /// The probability that a burning tree sets one uncaught neighbour on
    /// fire in one tick.
    pub fn susceptibility(&self) -> (p: Probability)
        ensures
            p@ == self@.susceptibility,
    {
        self.susceptibility
    }

    /// The width of the grid.
    pub fn grid_width(&self) -> (width: usize)
        ensures
            width == self.grid().0,
    {
        self.grid_width
    }

    /// The height of the grid.
    pub fn grid_height(&self) -> (height: usize)
        ensures
            height == self.grid().1,
    {
        self.grid_height
    }

    /// The state of the tree on `pos`, if there is a tree.
    pub fn state_at(&self, pos: GridPosition) -> (state: Option<TreeState>)
        ensures
            state == if self@.trees.contains_key(pos@) {
                Some(self@.trees[pos@])
            } else {
                None
            },
    {
        lookup(&self.trees, (pos.x, pos.y))
    }

    /// Every tree with its state, in ascending order of the positions.
    pub fn cells(&self) -> (cells: Vec<(GridPosition, TreeState)>)
        ensures
            ascending(positions_of(cells@)),
            positions_of(cells@).to_set() == self@.trees.dom(),
            forall|i: int|
                0 <= i < cells@.len() ==> self@.trees[(#[trigger] cells@[i]).0@] == cells@[i].1,
    {
        let entries = entries_in_order(&self.trees);
        let mut cells: Vec<(GridPosition, TreeState)> = Vec::with_capacity(entries.len());
        let mut i: usize = 0;
        while i < entries.len()
            invariant
                0 <= i <= entries@.len(),
                cells@.len() == i,
                forall|j: int|
                    0 <= j < i ==> (#[trigger] cells@[j]).0@ == entries@[j].0 && cells@[j].1
                        == entries@[j].1,
            decreases entries@.len() - i,
        {
            let cell: Cell = entries[i].0;
            cells.push((GridPosition::new(cell.0, cell.1), entries[i].1));
            i = i + 1;
        }
        proof {
            assert(positions_of(cells@) =~= cells_of(entries@));
        }
        cells
    }

    /// The positions of the trees that are catching or burning, in
    /// ascending order.
    pub fn active_cells(&self) -> (cells: Vec<GridPosition>)
        ensures
            cells_at(cells@) == self@.active,
            ascending(cells@.map_values(|p: GridPosition| p@)),
    {
        let act = cells_in_order(&self.active);
        let mut cells: Vec<GridPosition> = Vec::with_capacity(act.len());
        let mut i: usize = 0;
        while i < act.len()
            invariant
                0 <= i <= act@.len(),
                cells@.len() == i,
                forall|j: int| 0 <= j < i ==> (#[trigger] cells@[j])@ == act@[j],
            decreases act@.len() - i,
        {
            let cell: Cell = act[i];
            cells.push(GridPosition::new(cell.0, cell.1));
            i = i + 1;
        }
        proof {
            assert(cells@.map_values(|p: GridPosition| p@) =~= act@);
            assert forall|c: Cell| cells_at(cells@).contains(c) <==> act@.to_set().contains(c) by {
                if act@.to_set().contains(c) {
                    let k = choose|k: int| 0 <= k < act@.len() && act@[k] == c;
                    assert(cells@[k]@ == c);
                }
            }
            assert(cells_at(cells@) =~= self@.active);
        }
        cells
    }
}

} // verus!
