//! The string simulation: a bounded population of loops that are advanced
//! together, split where they touch themselves, and kept at a target density
//! of points.

use crate::scalar::{
    evaluates, hundredths, is_below, is_draw, is_positive, least, number, product, sum, val, Expr,
    Scalar, Term, UniformSource,
};
use crate::string_loop::{
    find_contact, is_advanced, is_density_kept, is_first_contact, is_point, loop_energy,
    magnitude, no_contact, seed_position, seed_velocity, split_children, split_loop,
    squared_length_of, LoopView, StringLoop, MAX_LOOP_POINTS, MIN_LOOP_POINTS,
};
use vstd::prelude::*;

verus! {

/// Most loops a simulation holds.
pub const MAX_LOOPS: usize = 8;

/// A split fires with probability coupling times this many hundredths.
pub const SPLIT_FACTOR_HUNDREDTHS: u32 = 30;

/// Largest probability of a split, in hundredths.
pub const SPLIT_CEILING_HUNDREDTHS: u32 = 80;

/// Number of points of the first seed loop.
pub const FIRST_SEED_POINTS: usize = 64;

/// Number of points of the second seed loop.
pub const SECOND_SEED_POINTS: usize = 48;

/// The loops of a simulation, the coupling they share, the counter from which
/// fresh identities are issued, and the source of the random draws.
pub struct StringSimulation<S, R> {
    loops: Vec<StringLoop<S>>,
    coupling: S,
    next_color_id: u32,
    source: R,
}

/// Mathematical content of a [`StringSimulation`].
pub struct SimulationView<S> {
    pub loops: Seq<LoopView<S>>,
    pub coupling: S,
    pub next_color_id: u32,
}

/// The views of a sequence of loops.
pub open spec fn loop_views<S>(loops: Seq<StringLoop<S>>) -> Seq<LoopView<S>> {
    Seq::new(loops.len(), |k: int| loops[k]@)
}

impl<S> SimulationView<S> {
    /// At most [`MAX_LOOPS`] loops, each of a permitted length, each with an
    /// identity of its own that the counter has already passed.
    pub open spec fn wf(self) -> bool {
        &&& self.loops.len() <= MAX_LOOPS
        &&& forall|k: int| 0 <= k < self.loops.len() ==> (#[trigger] self.loops[k]).active()
        &&& forall|k: int|
            0 <= k < self.loops.len() ==> (#[trigger] self.loops[k]).color_id < self.next_color_id
        &&& forall|k: int, m: int|
            0 <= k < self.loops.len() && 0 <= m < self.loops.len() && k != m ==> (
            #[trigger] self.loops[k]).color_id != (#[trigger] self.loops[m]).color_id
    }
}

/// Number of splits among the first `k` decisions of `plan`.
pub open spec fn splits_before(plan: Seq<Option<(usize, usize)>>, k: int) -> nat
    decreases k,
{
    if k <= 0 {
        0
    } else {
        splits_before(plan, k - 1) + if plan[k - 1] is Some {
            1nat
        } else {
            0nat
        }
    }
}

/// The loops from index `from` on that `plan` does not split, in their order.
pub open spec fn survivors<S>(
    loops: Seq<LoopView<S>>,
    plan: Seq<Option<(usize, usize)>>,
    from: int,
) -> Seq<LoopView<S>>
    decreases loops.len() - from,
{
    if from < 0 || from >= loops.len() {
        Seq::empty()
    } else if plan[from] is None {
        seq![loops[from]] + survivors(loops, plan, from + 1)
    } else {
        survivors(loops, plan, from + 1)
    }
}

/// The children of a split of `parent` at `(i, j)` that are long enough to
/// stay, the first with identity `first_id` and the second with the next.
pub open spec fn kept_children<S>(parent: LoopView<S>, i: int, j: int, first_id: int) -> Seq<
    LoopView<S>,
> {
    let (a, b) = split_children(parent, i, j, first_id as u32, (first_id + 1) as u32);
    let first = if a.len() >= MIN_LOOP_POINTS {
        seq![a]
    } else {
        Seq::empty()
    };
    let second = if b.len() >= MIN_LOOP_POINTS {
        seq![b]
    } else {
        Seq::empty()
    };
    first + second
}

/// The children that the first `upto` decisions of `plan` leave, in the order
/// of their parents. Each split takes the next two identities from `base` on.
pub open spec fn offspring<S>(
    loops: Seq<LoopView<S>>,
    plan: Seq<Option<(usize, usize)>>,
    base: int,
    upto: int,
) -> Seq<LoopView<S>>
    decreases upto,
{
    if upto <= 0 {
        Seq::empty()
    } else {
        offspring(loops, plan, base, upto - 1) + match plan[upto - 1] {
            Some((i, j)) => kept_children(
                loops[upto - 1],
                i as int,
                j as int,
                base + 2 * splits_before(plan, upto - 1),
            ),
            None => Seq::empty(),
        }
    }
}

/// The simulation after the splits of `plan`: the loops that are not split
/// keep their order, the children follow, and the counter has passed two
/// identities for every split.
pub open spec fn after_splits<S>(sim: SimulationView<S>, plan: Seq<Option<(usize, usize)>>) -> SimulationView<
    S,
> {
    SimulationView {
        loops: survivors(sim.loops, plan, 0) + offspring(
            sim.loops,
            plan,
            sim.next_color_id as int,
            sim.loops.len() as int,
        ),
        coupling: sim.coupling,
        next_color_id: (sim.next_color_id + 2 * splits_before(plan, sim.loops.len() as int)) as u32,
    }
}

/// `plan` has a decision for every loop, cuts only at two points of the loop
/// in ascending order, and leaves room for the loops and the identities it
/// adds.
pub open spec fn plan_fits<S>(sim: SimulationView<S>, plan: Seq<Option<(usize, usize)>>) -> bool {
    &&& plan.len() == sim.loops.len()
    &&& forall|k: int|
        0 <= k < plan.len() ==> match #[trigger] plan[k] {
            Some((i, j)) => i < j < sim.loops[k].len(),
            None => true,
        }
    &&& sim.loops.len() + splits_before(plan, plan.len() as int) <= MAX_LOOPS
    &&& sim.next_color_id + 2 * splits_before(plan, plan.len() as int) <= u32::MAX
}

/// After `earlier` splits in this scan there is room for one more: the number
/// of active loops is below the cap, and two identities are left.
pub open spec fn has_room<S>(sim: SimulationView<S>, earlier: nat) -> bool {
    &&& sim.loops.len() + earlier < MAX_LOOPS
    &&& sim.next_color_id + 2 * earlier + 2 <= u32::MAX
}

/// The chance that a split fires at the given coupling: the coupling times
/// the factor, at most the ceiling, `min(coupling * 0.3, 0.8)`.
pub open spec fn split_probability<S>(coupling: S) -> Expr<S> {
    least(
        product(val(coupling), hundredths(SPLIT_FACTOR_HUNDREDTHS)),
        hundredths(SPLIT_CEILING_HUNDREDTHS),
    )
}

/// The draw for a split at the given coupling came out as `verdict`: whether
/// a draw from the source was below the chance of a split.
pub open spec fn fired<S: Scalar, R: UniformSource<S>>(source: &R, coupling: S, verdict: bool) -> bool {
    exists|u: S| #[trigger] is_draw(source, u) && is_below(val(u), split_probability(coupling), verdict)
}

/// `decision` is what the scan decides for loop `k` after `earlier` splits:
/// a cut at the first intersecting pair, where there is room, the loop has
/// such a pair and the draw fires; no cut otherwise.
pub open spec fn is_decision<S: Scalar, R: UniformSource<S>>(
    source: &R,
    sim: SimulationView<S>,
    k: int,
    earlier: nat,
    decision: Option<(usize, usize)>,
) -> bool {
    let positions = sim.loops[k].positions;
    match decision {
        Some((i, j)) => {
            &&& has_room(sim, earlier)
            &&& is_first_contact(positions, i as int, j as int)
            &&& fired(source, sim.coupling, true)
        },
        None => {
            ||| !has_room(sim, earlier)
            ||| no_contact(positions)
            ||| {
                &&& exists|i: int, j: int| is_first_contact(positions, i, j)
                &&& fired(source, sim.coupling, false)
            }
        },
    }
}

/// Every decision of `plan` is what the scan decides for its loop.
pub open spec fn follows_scan<S: Scalar, R: UniformSource<S>>(
    source: &R,
    sim: SimulationView<S>,
    plan: Seq<Option<(usize, usize)>>,
) -> bool {
    &&& plan.len() == sim.loops.len()
    &&& forall|k: int|
        0 <= k < plan.len() ==> is_decision(
            source,
            sim,
            k,
            splits_before(plan, k),
            #[trigger] plan[k],
        )
}

/// `after` is `before` with the splits of one scan for self-intersections.
pub open spec fn is_split_outcome<S: Scalar, R: UniformSource<S>>(
    source: &R,
    before: SimulationView<S>,
    after: SimulationView<S>,
) -> bool {
    exists|plan: Seq<Option<(usize, usize)>>| #[trigger]
        follows_scan(source, before, plan) && after == after_splits(before, plan)
}

/// `after` is `before` with every loop advanced by one step of `dt`.
pub open spec fn is_all_advanced<S: Scalar>(
    before: SimulationView<S>,
    dt: S,
    after: SimulationView<S>,
) -> bool {
    &&& after.coupling == before.coupling
    &&& after.next_color_id == before.next_color_id
    &&& after.loops.len() == before.loops.len()
    &&& forall|k: int|
        0 <= k < before.loops.len() ==> is_advanced(
            before.loops[k],
            before.coupling,
            dt,
            #[trigger] after.loops[k],
        )
}

/// `after` is `before` with every loop brought to its density target.
pub open spec fn is_all_density_kept<S: Scalar>(
    before: SimulationView<S>,
    after: SimulationView<S>,
) -> bool {
    &&& after.coupling == before.coupling
    &&& after.next_color_id == before.next_color_id
    &&& after.loops.len() == before.loops.len()
    &&& forall|k: int|
        0 <= k < before.loops.len() ==> is_density_kept(before.loops[k], #[trigger] after.loops[k])
}

/// `after` is `before` one tick of `dt` later: every loop advanced, then the
/// splits of one scan, then every loop brought to its density target.
pub open spec fn is_step<S: Scalar, R: UniformSource<S>>(
    source: &R,
    before: SimulationView<S>,
    dt: S,
    after: SimulationView<S>,
) -> bool {
    exists|advanced: SimulationView<S>, split: SimulationView<S>|
        {
            &&& #[trigger] is_all_advanced(before, dt, advanced)
            &&& #[trigger] is_split_outcome(source, advanced, split)
            &&& is_all_density_kept(split, after)
        }
}

/// Index in the positions report at which the block of loop `k` starts:
/// one entry for the number of loops, then for every earlier loop two
/// entries and three for each of its points.
pub open spec fn positions_offset<S>(loops: Seq<LoopView<S>>, k: int) -> int
    decreases k,
{
    if k <= 0 {
        1
    } else {
        positions_offset(loops, k - 1) + 2 + 3 * loops[k - 1].len()
    }
}

/// From index `at` on, `out` holds the block of `lp` in the positions report:
/// the number of points, the identity, and the coordinates point by point.
pub open spec fn is_positions_block<S: Scalar>(lp: LoopView<S>, out: Seq<S>, at: int) -> bool {
    &&& at + 2 + 3 * lp.len() <= out.len()
    &&& evaluates(number(lp.len() as int), out[at])
    &&& evaluates(number(lp.color_id as int), out[at + 1])
    &&& forall|p: int, d: int|
        0 <= p < lp.len() && 0 <= d < 3 ==> out[at + 2 + 3 * p + d] == #[trigger] lp.positions[p][d]
}

/// `out` is the positions report of `sim`: the number of loops, then the
/// block of every loop in order.
pub open spec fn is_positions_report<S: Scalar>(sim: SimulationView<S>, out: Seq<S>) -> bool {
    &&& out.len() == positions_offset(sim.loops, sim.loops.len() as int)
    &&& evaluates(number(sim.loops.len() as int), out[0])
    &&& forall|k: int|
        0 <= k < sim.loops.len() ==> #[trigger] is_positions_block(
            sim.loops[k],
            out,
            positions_offset(sim.loops, k),
        )
}

/// Index in the speeds report at which the block of loop `k` starts: one
/// entry for the number of loops, then for every earlier loop one entry and
/// one for each of its points.
pub open spec fn speeds_offset<S>(loops: Seq<LoopView<S>>, k: int) -> int
    decreases k,
{
    if k <= 0 {
        1
    } else {
        speeds_offset(loops, k - 1) + 1 + loops[k - 1].velocities.len()
    }
}

/// From index `at` on, `out` holds the block of `lp` in the speeds report:
/// the number of points and the magnitude of every velocity.
pub open spec fn is_speeds_block<S: Scalar>(lp: LoopView<S>, out: Seq<S>, at: int) -> bool {
    &&& at + 1 + lp.velocities.len() <= out.len()
    &&& evaluates(number(lp.len() as int), out[at])
    &&& forall|p: int|
        0 <= p < lp.velocities.len() ==> evaluates(
            magnitude(#[trigger] lp.velocities[p]),
            out[at + 1 + p],
        )
}

/// `out` is the speeds report of `sim`: the number of loops, then the block
/// of every loop in order.
pub open spec fn is_speeds_report<S: Scalar>(sim: SimulationView<S>, out: Seq<S>) -> bool {
    &&& out.len() == speeds_offset(sim.loops, sim.loops.len() as int)
    &&& evaluates(number(sim.loops.len() as int), out[0])
    &&& forall|k: int|
        0 <= k < sim.loops.len() ==> #[trigger] is_speeds_block(
            sim.loops[k],
            out,
            speeds_offset(sim.loops, k),
        )
}

/// The energy of the first `upto` of `loops`, summed in order from zero.
pub open spec fn total_energy<S>(loops: Seq<LoopView<S>>, upto: int) -> Expr<S>
    decreases upto,
{
    if upto <= 0 {
        number(0)
    } else {
        sum(total_energy(loops, upto - 1), loop_energy(loops[upto - 1]))
    }
}

/// A positions block stays where it is when the report grows.
proof fn lemma_positions_block_stable<S: Scalar>(
    lp: LoopView<S>,
    out: Seq<S>,
    longer: Seq<S>,
    at: int,
)
    requires
        0 <= at,
        is_positions_block(lp, out, at),
        out.is_prefix_of(longer),
    ensures
        is_positions_block(lp, longer, at),
{
    assert(longer[at] == out[at]);
    assert(longer[at + 1] == out[at + 1]);
    assert forall|p: int, d: int| 0 <= p < lp.len() && 0 <= d < 3 implies longer[at + 2 + 3 * p + d]
        == #[trigger] lp.positions[p][d] by {
        assert(longer[at + 2 + 3 * p + d] == out[at + 2 + 3 * p + d]);
    }
}

/// A speeds block stays where it is when the report grows.
proof fn lemma_speeds_block_stable<S: Scalar>(lp: LoopView<S>, out: Seq<S>, longer: Seq<S>, at: int)
    requires
        0 <= at,
        is_speeds_block(lp, out, at),
        out.is_prefix_of(longer),
    ensures
        is_speeds_block(lp, longer, at),
{
    assert(longer[at] == out[at]);
    assert forall|p: int| 0 <= p < lp.velocities.len() implies evaluates(
        magnitude(#[trigger] lp.velocities[p]),
        longer[at + 1 + p],
    ) by {
        assert(longer[at + 1 + p] == out[at + 1 + p]);
    }
}

/// Appends the positions block of `lp` to `out`.
fn push_positions_block<S: Scalar>(out: &mut Vec<S>, lp: &StringLoop<S>)
    ensures
        old(out)@.is_prefix_of(final(out)@),
        final(out)@.len() == old(out)@.len() + 2 + 3 * lp@.len(),
        is_positions_block(lp@, final(out)@, old(out)@.len() as int),
{
    let n = lp.positions.len();
    let ghost at = out@.len() as int;
    out.push(S::number(n));
    out.push(S::number(lp.color_id as usize));
    let mut p: usize = 0;
    while p < n
        invariant
            n == lp.positions.len(),
            p <= n,
            at == old(out)@.len(),
            old(out)@.is_prefix_of(out@),
            out@.len() == at + 2 + 3 * p,
            evaluates(number(n as int), out@[at]),
            evaluates(number(lp.color_id as int), out@[at + 1]),
            forall|q: int, d: int|
                0 <= q < p && 0 <= d < 3 ==> out@[at + 2 + 3 * q + d] == #[trigger] lp.positions@[q][d],
        decreases n - p,
    {
        let point = &lp.positions[p];
        out.push(point[0]);
        out.push(point[1]);
        out.push(point[2]);
        p += 1;
    }
}

/// Appends the speeds block of `lp` to `out`.
fn push_speeds_block<S: Scalar>(out: &mut Vec<S>, lp: &StringLoop<S>)
    ensures
        old(out)@.is_prefix_of(final(out)@),
        final(out)@.len() == old(out)@.len() + 1 + lp@.velocities.len(),
        is_speeds_block(lp@, final(out)@, old(out)@.len() as int),
{
    let n = lp.velocities.len();
    let ghost at = out@.len() as int;
    out.push(S::number(lp.positions.len()));
    let mut p: usize = 0;
    while p < n
        invariant
            n == lp.velocities.len(),
            p <= n,
            at == old(out)@.len(),
            old(out)@.is_prefix_of(out@),
            out@.len() == at + 1 + p,
            evaluates(number(lp.positions.len() as int), out@[at]),
            forall|q: int|
                0 <= q < p ==> evaluates(magnitude(#[trigger] lp.velocities@[q]), out@[at + 1 + q]),
        decreases n - p,
    {
        out.push(squared_length_of(&lp.velocities[p]).root().value);
        p += 1;
    }
}

/// A plan that has grown by one decision counts the same splits before every
/// earlier position.
pub proof fn lemma_splits_before_push(
    plan: Seq<Option<(usize, usize)>>,
    decision: Option<(usize, usize)>,
    k: int,
)
    requires
        k <= plan.len(),
    ensures
        splits_before(plan.push(decision), k) == splits_before(plan, k),
    decreases k,
{
    if k > 0 {
        lemma_splits_before_push(plan, decision, k - 1);
    }
}

/// The number of splits grows with the position.
pub proof fn lemma_splits_before_monotone(plan: Seq<Option<(usize, usize)>>, k: int, m: int)
    requires
        k <= m,
    ensures
        splits_before(plan, k) <= splits_before(plan, m),
        splits_before(plan, m) <= splits_before(plan, k) + (m - k) || m < 0,
    decreases m - k,
{
    if k < m {
        lemma_splits_before_monotone(plan, k, m - 1);
    }
}

/// Identities are issued in strictly increasing order and are fresh: the
/// children of the first `upto` decisions carry identities from `base` on,
/// below the value that the counter then has, each larger than those of the
/// children before it.
pub proof fn lemma_offspring_identities<S>(
    loops: Seq<LoopView<S>>,
    plan: Seq<Option<(usize, usize)>>,
    base: int,
    upto: int,
)
    requires
        0 <= upto <= plan.len(),
        0 <= base,
        base + 2 * splits_before(plan, upto) <= u32::MAX,
    ensures
        forall|x: int|
            0 <= x < offspring(loops, plan, base, upto).len() ==> base <= (#[trigger] offspring(
                loops,
                plan,
                base,
                upto,
            )[x]).color_id < base + 2 * splits_before(plan, upto),
        forall|x: int, y: int|
            0 <= x < y < offspring(loops, plan, base, upto).len() ==> (#[trigger] offspring(
                loops,
                plan,
                base,
                upto,
            )[x]).color_id < (#[trigger] offspring(loops, plan, base, upto)[y]).color_id,
    decreases upto,
{
    if upto > 0 {
        lemma_offspring_identities(loops, plan, base, upto - 1);
        let earlier = offspring(loops, plan, base, upto - 1);
        let all = offspring(loops, plan, base, upto);
        match plan[upto - 1] {
            Some((i, j)) => {
                let first_id = base + 2 * splits_before(plan, upto - 1);
                let added = kept_children(loops[upto - 1], i as int, j as int, first_id);
                assert(all == earlier + added);
                assert forall|x: int| 0 <= x < added.len() implies first_id <= (#[trigger] added[x]).color_id
                    <= first_id + 1 by {}
                assert forall|x: int, y: int| 0 <= x < y < added.len() implies (#[trigger] added[x]).color_id
                    < (#[trigger] added[y]).color_id by {}
                assert forall|x: int| 0 <= x < all.len() implies base <= (#[trigger] all[x]).color_id
                    < base + 2 * splits_before(plan, upto) by {
                    if x < earlier.len() {
                        assert(all[x] == earlier[x]);
                    } else {
                        assert(all[x] == added[x - earlier.len()]);
                    }
                }
                assert forall|x: int, y: int| 0 <= x < y < all.len() implies (#[trigger] all[x]).color_id
                    < (#[trigger] all[y]).color_id by {
                    if y < earlier.len() {
                        assert(all[x] == earlier[x] && all[y] == earlier[y]);
                    } else if x < earlier.len() {
                        assert(all[x] == earlier[x] && all[y] == added[y - earlier.len()]);
                    } else {
                        assert(all[x] == added[x - earlier.len()] && all[y] == added[y
                            - earlier.len()]);
                    }
                }
            },
            None => {
                assert(all =~= earlier);
            },
        }
    }
}

/// Place among `loops` of survivor `x` of those from index `from` on.
pub open spec fn survivor_place<S>(
    loops: Seq<LoopView<S>>,
    plan: Seq<Option<(usize, usize)>>,
    from: int,
    x: int,
) -> int
    decreases loops.len() - from,
{
    if from < 0 || from >= loops.len() {
        from
    } else if plan[from] is None {
        if x == 0 {
            from
        } else {
            survivor_place(loops, plan, from + 1, x - 1)
        }
    } else {
        survivor_place(loops, plan, from + 1, x)
    }
}

/// Every loop that a plan leaves in place is one of the loops before.
pub proof fn lemma_survivors_are_old<S>(
    loops: Seq<LoopView<S>>,
    plan: Seq<Option<(usize, usize)>>,
    from: int,
    x: int,
)
    requires
        0 <= from,
        0 <= x < survivors(loops, plan, from).len(),
    ensures
        from <= survivor_place(loops, plan, from, x) < loops.len(),
        plan[survivor_place(loops, plan, from, x)] is None,
        survivors(loops, plan, from)[x] == loops[survivor_place(loops, plan, from, x)],
    decreases loops.len() - from,
{
    if plan[from] is None {
        if x > 0 {
            lemma_survivors_are_old(loops, plan, from + 1, x - 1);
        }
    } else {
        lemma_survivors_are_old(loops, plan, from + 1, x);
    }
}

/// Loops that a plan leaves in place keep their order: a later survivor
/// comes from a later place.
pub proof fn lemma_survivors_in_order<S>(
    loops: Seq<LoopView<S>>,
    plan: Seq<Option<(usize, usize)>>,
    from: int,
    x: int,
    y: int,
)
    requires
        0 <= from,
        0 <= x < y < survivors(loops, plan, from).len(),
    ensures
        survivor_place(loops, plan, from, x) < survivor_place(loops, plan, from, y),
    decreases loops.len() - from,
{
    if plan[from] is None {
        if x == 0 {
            lemma_survivors_are_old(loops, plan, from + 1, y - 1);
        } else {
            lemma_survivors_in_order(loops, plan, from + 1, x - 1, y - 1);
        }
    } else {
        lemma_survivors_in_order(loops, plan, from + 1, x, y);
    }
}

/// No identity is issued twice: after the splits of a plan every loop is
/// either a loop from before, with the identity it had, or carries an
/// identity that the counter had not passed before and has passed now; and
/// no two loops share an identity.
pub proof fn lemma_split_identities<S>(sim: SimulationView<S>, plan: Seq<Option<(usize, usize)>>)
    requires
        sim.wf(),
        plan_fits(sim, plan),
    ensures
        sim.next_color_id <= after_splits(sim, plan).next_color_id,
        forall|x: int|
            0 <= x < after_splits(sim, plan).loops.len() ==> {
                let lp = #[trigger] after_splits(sim, plan).loops[x];
                ||| exists|k: int| 0 <= k < sim.loops.len() && sim.loops[k] == lp
                ||| sim.next_color_id <= lp.color_id < after_splits(sim, plan).next_color_id
            },
        forall|x: int, y: int|
            0 <= x < y < after_splits(sim, plan).loops.len() ==> (#[trigger] after_splits(
                sim,
                plan,
            ).loops[x]).color_id != (#[trigger] after_splits(sim, plan).loops[y]).color_id,
{
    let n = sim.loops.len() as int;
    let base = sim.next_color_id as int;
    let kept = survivors(sim.loops, plan, 0);
    let born = offspring(sim.loops, plan, base, n);
    let after = after_splits(sim, plan);
    lemma_offspring_identities(sim.loops, plan, base, n);
    assert forall|x: int| 0 <= x < after.loops.len() implies {
        let lp = #[trigger] after.loops[x];
        ||| exists|k: int| 0 <= k < sim.loops.len() && sim.loops[k] == lp
        ||| sim.next_color_id <= lp.color_id < after.next_color_id
    } by {
        if x < kept.len() {
            lemma_survivors_are_old(sim.loops, plan, 0, x);
            assert(after.loops[x] == sim.loops[survivor_place(sim.loops, plan, 0, x)]);
        } else {
            assert(after.loops[x] == born[x - kept.len()]);
        }
    }
    assert forall|x: int, y: int| 0 <= x < y < after.loops.len() implies (#[trigger] after.loops[x]).color_id
        != (#[trigger] after.loops[y]).color_id by {
        if y < kept.len() {
            lemma_survivors_are_old(sim.loops, plan, 0, x);
            lemma_survivors_are_old(sim.loops, plan, 0, y);
            lemma_survivors_in_order(sim.loops, plan, 0, x, y);
            let k = survivor_place(sim.loops, plan, 0, x);
            let m = survivor_place(sim.loops, plan, 0, y);
            assert(after.loops[x] == sim.loops[k] && after.loops[y] == sim.loops[m]);
        } else if x < kept.len() {
            lemma_survivors_are_old(sim.loops, plan, 0, x);
            let k = survivor_place(sim.loops, plan, 0, x);
            assert(after.loops[x] == sim.loops[k]);
            assert(after.loops[y] == born[y - kept.len()]);
        } else {
            assert(after.loops[x] == born[x - kept.len()]);
            assert(after.loops[y] == born[y - kept.len()]);
        }
    }
}

/// Number of loops that a plan leaves in place, from index `from` on: all
/// but those that it splits.
pub proof fn lemma_survivor_count<S>(
    loops: Seq<LoopView<S>>,
    plan: Seq<Option<(usize, usize)>>,
    from: int,
)
    requires
        0 <= from <= loops.len(),
        plan.len() == loops.len(),
    ensures
        survivors(loops, plan, from).len() + splits_before(plan, loops.len() as int) == loops.len()
            - from + splits_before(plan, from),
    decreases loops.len() - from,
{
    if from < loops.len() {
        lemma_survivor_count(loops, plan, from + 1);
    }
}

/// Every child that a plan leaves has a permitted length, and there are at
/// most two for every split.
pub proof fn lemma_offspring_active<S>(
    loops: Seq<LoopView<S>>,
    plan: Seq<Option<(usize, usize)>>,
    base: int,
    upto: int,
)
    requires
        0 <= upto <= plan.len(),
        plan.len() == loops.len(),
        forall|k: int| 0 <= k < loops.len() ==> (#[trigger] loops[k]).active(),
        forall|k: int|
            0 <= k < plan.len() ==> match #[trigger] plan[k] {
                Some((i, j)) => i < j < loops[k].len(),
                None => true,
            },
    ensures
        offspring(loops, plan, base, upto).len() <= 2 * splits_before(plan, upto),
        forall|x: int|
            0 <= x < offspring(loops, plan, base, upto).len() ==> (#[trigger] offspring(
                loops,
                plan,
                base,
                upto,
            )[x]).active(),
    decreases upto,
{
    if upto > 0 {
        lemma_offspring_active(loops, plan, base, upto - 1);
        let earlier = offspring(loops, plan, base, upto - 1);
        let all = offspring(loops, plan, base, upto);
        match plan[upto - 1] {
            Some((i, j)) => {
                let parent = loops[upto - 1];
                assert(parent.active());
                let added = kept_children(
                    parent,
                    i as int,
                    j as int,
                    base + 2 * splits_before(plan, upto - 1),
                );
                assert(all == earlier + added);
                assert forall|x: int| 0 <= x < added.len() implies (#[trigger] added[x]).active() by {}
                assert forall|x: int| 0 <= x < all.len() implies (#[trigger] all[x]).active() by {
                    if x < earlier.len() {
                        assert(all[x] == earlier[x]);
                    } else {
                        assert(all[x] == added[x - earlier.len()]);
                    }
                }
            },
            None => {
                assert(all =~= earlier);
            },
        }
    }
}

/// Splits keep a simulation well formed: it has at most [`MAX_LOOPS`] loops,
/// each of a permitted length, each with an identity of its own that the
/// counter has passed.
pub proof fn lemma_splits_keep_wf<S>(sim: SimulationView<S>, plan: Seq<Option<(usize, usize)>>)
    requires
        sim.wf(),
        plan_fits(sim, plan),
    ensures
        after_splits(sim, plan).wf(),
{
    let n = sim.loops.len() as int;
    let base = sim.next_color_id as int;
    let after = after_splits(sim, plan);
    let kept = survivors(sim.loops, plan, 0);
    let born = offspring(sim.loops, plan, base, n);
    lemma_survivor_count(sim.loops, plan, 0);
    lemma_offspring_active(sim.loops, plan, base, n);
    lemma_split_identities(sim, plan);
    assert forall|x: int| 0 <= x < after.loops.len() implies (#[trigger] after.loops[x]).active()
        && after.loops[x].color_id < after.next_color_id by {
        if x < kept.len() {
            lemma_survivors_are_old(sim.loops, plan, 0, x);
            assert(after.loops[x] == sim.loops[survivor_place(sim.loops, plan, 0, x)]);
        } else {
            assert(after.loops[x] == born[x - kept.len()]);
        }
    }
    assert forall|x: int, y: int|
        0 <= x < after.loops.len() && 0 <= y < after.loops.len() && x != y implies (
    #[trigger] after.loops[x]).color_id != (#[trigger] after.loops[y]).color_id by {
        if x < y {
            assert(after.loops[x].color_id != after.loops[y].color_id);
        } else {
            assert(after.loops[y].color_id != after.loops[x].color_id);
        }
    }
}

/// What a scan decides can be carried out: every cut is at a qualifying pair
/// of points of its loop, and there is room for the loops and the identities
/// that the cuts add.
pub proof fn lemma_scan_fits<S: Scalar, R: UniformSource<S>>(
    source: &R,
    sim: SimulationView<S>,
    plan: Seq<Option<(usize, usize)>>,
)
    requires
        sim.wf(),
        follows_scan(source, sim, plan),
    ensures
        plan_fits(sim, plan),
{
    lemma_scan_room(source, sim, plan, plan.len() as int);
    assert forall|k: int| 0 <= k < plan.len() implies match #[trigger] plan[k] {
        Some((i, j)) => i < j < sim.loops[k].len(),
        None => true,
    } by {
        assert(is_decision(source, sim, k, splits_before(plan, k), plan[k]));
    }
}

proof fn lemma_scan_room<S: Scalar, R: UniformSource<S>>(
    source: &R,
    sim: SimulationView<S>,
    plan: Seq<Option<(usize, usize)>>,
    upto: int,
)
    requires
        sim.wf(),
        follows_scan(source, sim, plan),
        0 <= upto <= plan.len(),
    ensures
        sim.loops.len() + splits_before(plan, upto) <= MAX_LOOPS,
        sim.next_color_id + 2 * splits_before(plan, upto) <= u32::MAX,
    decreases upto,
{
    if upto > 0 {
        lemma_scan_room(source, sim, plan, upto - 1);
        assert(is_decision(source, sim, upto - 1, splits_before(plan, upto - 1), plan[upto - 1]));
    }
}

/// A plan without a split leaves the simulation as it is.
pub proof fn lemma_idle_plan<S>(sim: SimulationView<S>, plan: Seq<Option<(usize, usize)>>)
    requires
        plan.len() == sim.loops.len(),
        forall|k: int| 0 <= k < plan.len() ==> plan[k] is None,
    ensures
        after_splits(sim, plan) == sim,
{
    let n = sim.loops.len() as int;
    lemma_idle_counts(sim.loops, plan, sim.next_color_id as int, n);
    lemma_idle_survivors(sim.loops, plan, 0);
    assert(sim.loops.subrange(0, n) =~= sim.loops);
    assert(after_splits(sim, plan).loops =~= sim.loops);
}

proof fn lemma_idle_counts<S>(
    loops: Seq<LoopView<S>>,
    plan: Seq<Option<(usize, usize)>>,
    base: int,
    upto: int,
)
    requires
        upto <= plan.len(),
        forall|k: int| 0 <= k < plan.len() ==> plan[k] is None,
    ensures
        splits_before(plan, upto) == 0,
        offspring(loops, plan, base, upto) == Seq::<LoopView<S>>::empty(),
    decreases upto,
{
    if upto > 0 {
        lemma_idle_counts(loops, plan, base, upto - 1);
    }
}

proof fn lemma_idle_survivors<S>(
    loops: Seq<LoopView<S>>,
    plan: Seq<Option<(usize, usize)>>,
    from: int,
)
    requires
        0 <= from <= loops.len(),
        plan.len() == loops.len(),
        forall|k: int| 0 <= k < plan.len() ==> plan[k] is None,
    ensures
        survivors(loops, plan, from) == loops.subrange(from, loops.len() as int),
    decreases loops.len() - from,
{
    if from < loops.len() {
        lemma_idle_survivors(loops, plan, from + 1);
        assert(loops.subrange(from, loops.len() as int) =~= seq![loops[from]] + loops.subrange(
            from + 1,
            loops.len() as int,
        ));
    } else {
        assert(loops.subrange(from, loops.len() as int) =~= Seq::<LoopView<S>>::empty());
    }
}

impl<S, R> View for StringSimulation<S, R> {
    type V = SimulationView<S>;

    closed spec fn view(&self) -> SimulationView<S> {
        SimulationView {
            loops: loop_views(self.loops@),
            coupling: self.coupling,
            next_color_id: self.next_color_id,
        }
    }
}

impl<S: Scalar, R: UniformSource<S>> StringSimulation<S, R> {
    /// The source of random draws that the simulation was made with.
    pub closed spec fn source(&self) -> &R {
        &self.source
    }

    /// Two seed loops, of 64 and of 48 points, with identities 0 and 1, each
    /// on the seed curve of its identity.
    pub fn new(coupling: S, source: R) -> (sim: Self)
        ensures
            sim@.wf(),
            *sim.source() == source,
            sim@.coupling == coupling,
            sim@.next_color_id == 2,
            sim@.loops.len() == 2,
            sim@.loops[0].len() == FIRST_SEED_POINTS,
            sim@.loops[0].color_id == 0,
            sim@.loops[1].len() == SECOND_SEED_POINTS,
            sim@.loops[1].color_id == 1,
            forall|k: int, i: int|
                0 <= k < 2 && 0 <= i < sim@.loops[k].len() ==> is_point(
                    |d: int| seed_position(i, sim@.loops[k].len() as int, k as u32, d),
                    #[trigger] sim@.loops[k].positions[i],
                ),
            forall|k: int, i: int|
                0 <= k < 2 && 0 <= i < sim@.loops[k].len() ==> is_point(
                    |d: int| seed_velocity(i, sim@.loops[k].len() as int, k as u32, d),
                    #[trigger] sim@.loops[k].velocities[i],
                ),
    {
        let mut loops: Vec<StringLoop<S>> = Vec::new();
        let first = StringLoop::new(FIRST_SEED_POINTS, 0);
        let second = StringLoop::new(SECOND_SEED_POINTS, 1);
        loops.push(first);
        loops.push(second);
        StringSimulation { loops, coupling, next_color_id: 2, source }
    }

    /// A simulation of the given loops, with the counter of identities at
    /// `next_color_id`; none where there are more than [`MAX_LOOPS`] loops,
    /// a loop has a velocity too many or too few or a number of points that
    /// is not permitted, two loops share an identity, or the counter has not
    /// passed the identity of a loop.
    pub fn from_loops(loops: Vec<StringLoop<S>>, coupling: S, next_color_id: u32, source: R) -> (made:
        Option<Self>)
        ensures
            made is Some <==> (SimulationView {
                loops: loop_views(loops@),
                coupling,
                next_color_id,
            }).wf(),
            made is Some ==> {
                let sim = made->Some_0;
                &&& sim@ == (SimulationView { loops: loop_views(loops@), coupling, next_color_id })
                &&& *sim.source() == source
            },
    {
        let ghost view = SimulationView { loops: loop_views(loops@), coupling, next_color_id };
        let n = loops.len();
        if n > MAX_LOOPS {
            return None;
        }
        let mut k: usize = 0;
        while k < n
            invariant
                n == loops.len(),
                k <= n,
                view.loops == loop_views(loops@),
                view.next_color_id == next_color_id,
                forall|m: int|
                    0 <= m < k ==> (#[trigger] view.loops[m]).active() && view.loops[m].color_id
                        < next_color_id,
                forall|m: int, l: int|
                    0 <= m < k && 0 <= l < m ==> (#[trigger] view.loops[m]).color_id != (
                    #[trigger] view.loops[l]).color_id,
            decreases n - k,
        {
            let lp = &loops[k];
            let len = lp.positions.len();
            assert(view.loops[k as int] == loops@[k as int]@);
            if lp.velocities.len() != len || len < MIN_LOOP_POINTS || len > MAX_LOOP_POINTS
                || lp.color_id >= next_color_id {
                assert(!view.wf());
                return None;
            }
            let mut l: usize = 0;
            while l < k
                invariant
                    n == loops.len(),
                    l <= k < n,
                    view.loops == loop_views(loops@),
                    forall|q: int|
                        0 <= q < l ==> (#[trigger] view.loops[q]).color_id != view.loops[k as int].color_id,
                decreases k - l,
            {
                assert(view.loops[l as int] == loops@[l as int]@);
                assert(view.loops[k as int] == loops@[k as int]@);
                if loops[l].color_id == loops[k].color_id {
                    assert(!view.wf());
                    return None;
                }
                l += 1;
            }
            k += 1;
        }
        let sim = StringSimulation { loops, coupling, next_color_id, source };
        assert(sim@.loops =~= view.loops);
        assert forall|a: int, b: int|
            0 <= a < view.loops.len() && 0 <= b < view.loops.len() && a != b implies (
        #[trigger] view.loops[a]).color_id != (#[trigger] view.loops[b]).color_id by {
            if a < b {
                assert(view.loops[b].color_id != view.loops[a].color_id);
            }
        }
        Some(sim)
    }

    /// The loops, in their order.
    pub fn loops(&self) -> (loops: &Vec<StringLoop<S>>)
        ensures
            loop_views(loops@) == self@.loops,
    {
        &self.loops
    }

    /// The coupling.
    pub fn coupling(&self) -> (coupling: S)
        ensures
            coupling == self@.coupling,
    {
        self.coupling
    }

    /// The identity that the next split issues first.
    pub fn next_color_id(&self) -> (id: u32)
        ensures
            id == self@.next_color_id,
    {
        self.next_color_id
    }

    /// Advances every loop by one velocity-Verlet step of `dt`.
    pub fn advance_loops(&mut self, dt: S)
        requires
            old(self)@.wf(),
        ensures
            final(self)@.wf(),
            final(self).source() == old(self).source(),
            is_all_advanced(old(self)@, dt, final(self)@),
    {
        let n = self.loops.len();
        let mut k: usize = 0;
        while k < n
            invariant
                n == self.loops.len(),
                n == old(self).loops.len(),
                k <= n,
                self.coupling == old(self).coupling,
                self.next_color_id == old(self).next_color_id,
                self.source == old(self).source,
                old(self)@.wf(),
                forall|m: int|
                    0 <= m < k ==> is_advanced(
                        old(self).loops@[m]@,
                        self.coupling,
                        dt,
                        #[trigger] self.loops@[m]@,
                    ),
                forall|m: int| k <= m < n ==> #[trigger] self.loops@[m]@ == old(self).loops@[m]@,
            decreases n - k,
        {
            assert(old(self)@.loops[k as int].active());
            self.loops[k].advance(self.coupling, dt);
            k += 1;
        }
        assert forall|m: int| 0 <= m < self@.loops.len() implies (#[trigger] self@.loops[m]).active() by {
            assert(old(self)@.loops[m].active());
            assert(is_advanced(old(self)@.loops[m], self.coupling, dt, self@.loops[m]));
        }
        assert forall|m: int| 0 <= m < self@.loops.len() implies (#[trigger] self@.loops[m]).color_id
            == old(self)@.loops[m].color_id by {
            assert(is_advanced(old(self)@.loops[m], self.coupling, dt, self@.loops[m]));
        }
    }

    /// Brings every loop to its density target.
    pub fn resample_loops(&mut self)
        requires
            old(self)@.wf(),
        ensures
            final(self)@.wf(),
            final(self).source() == old(self).source(),
            is_all_density_kept(old(self)@, final(self)@),
    {
        let n = self.loops.len();
        let mut k: usize = 0;
        while k < n
            invariant
                n == self.loops.len(),
                n == old(self).loops.len(),
                k <= n,
                self.coupling == old(self).coupling,
                self.next_color_id == old(self).next_color_id,
                self.source == old(self).source,
                old(self)@.wf(),
                forall|m: int|
                    0 <= m < k ==> is_density_kept(old(self).loops@[m]@, #[trigger] self.loops@[m]@),
                forall|m: int|
                    0 <= m < k ==> (#[trigger] self.loops@[m]@).active() && self.loops@[m]@.color_id
                        == old(self).loops@[m]@.color_id,
                forall|m: int| k <= m < n ==> #[trigger] self.loops@[m]@ == old(self).loops@[m]@,
            decreases n - k,
        {
            assert(old(self)@.loops[k as int].active());
            self.loops[k].keep_density();
            k += 1;
        }
        assert forall|m: int| 0 <= m < self@.loops.len() implies (#[trigger] self@.loops[m]).color_id
            == old(self)@.loops[m].color_id by {
            assert(self.loops@[m]@.color_id == old(self).loops@[m]@.color_id);
        }
    }

    /// Draws from the source and says whether a split fires.
    fn fires(&self) -> (verdict: bool)
        ensures
            fired(self.source(), self@.coupling, verdict),
    {
        let chance = Term::of(self.coupling).times(&Term::hundredths(SPLIT_FACTOR_HUNDREDTHS)).at_most(
            &Term::hundredths(SPLIT_CEILING_HUNDREDTHS),
        );
        let u = self.source.draw();
        let verdict = Term::of(u).below(&chance);
        assert(is_draw(&self.source, u));
        verdict
    }

    /// Carries out the splits of `plan`: every loop with a cut is replaced by
    /// its children, which take fresh identities and go to the end; a child
    /// of fewer than [`MIN_LOOP_POINTS`] points is dropped.
    pub fn apply_splits(&mut self, plan: &Vec<Option<(usize, usize)>>)
        requires
            old(self)@.wf(),
            plan_fits(old(self)@, plan@),
        ensures
            final(self)@ == after_splits(old(self)@, plan@),
            final(self)@.wf(),
            final(self).source() == old(self).source(),
    {
        let n = self.loops.len();
        let ghost before = self@;
        let base = self.next_color_id;
        let mut next: u32 = base;
        let mut born: Vec<StringLoop<S>> = Vec::new();
        let mut k: usize = 0;
        while k < n
            invariant
                n == self.loops.len(),
                n == plan.len(),
                k <= n,
                self@ == before,
                base == before.next_color_id,
                before.wf(),
                plan_fits(before, plan@),
                next == base + 2 * splits_before(plan@, k as int),
                loop_views(born@) =~= offspring(before.loops, plan@, base as int, k as int),
            decreases n - k,
        {
            proof {
                lemma_splits_before_monotone(plan@, k + 1, n as int);
                assert(before.loops[k as int].active());
            }
            let ghost born_before = born@;
            match plan[k] {
                Some((i, j)) => {
                    let (a, b) = split_loop(&self.loops[k], i, j, next, next + 1);
                    next = next + 2;
                    if a.len() >= MIN_LOOP_POINTS {
                        born.push(a);
                    }
                    if b.len() >= MIN_LOOP_POINTS {
                        born.push(b);
                    }
                    assert(loop_views(born@) =~= loop_views(born_before) + kept_children(
                        before.loops[k as int],
                        i as int,
                        j as int,
                        base + 2 * splits_before(plan@, k as int),
                    ));
                },
                None => {
                    assert(loop_views(born@) =~= loop_views(born_before) + Seq::<LoopView<S>>::empty());
                },
            }
            k += 1;
        }
        proof {
            assert(before.loops.subrange(0, n as int) =~= before.loops);
        }
        let mut k: usize = n;
        while k > 0
            invariant
                k <= n,
                n == plan.len(),
                n == before.loops.len(),
                self.coupling == before.coupling,
                self.next_color_id == before.next_color_id,
                self.source == old(self).source,
                loop_views(self.loops@) =~= before.loops.subrange(0, k as int) + survivors(
                    before.loops,
                    plan@,
                    k as int,
                ),
            decreases k,
        {
            k -= 1;
            let ghost loops_before = self.loops@;
            if plan[k].is_some() {
                assert(k < loop_views(loops_before).len());
                self.loops.remove(k);
                assert(loop_views(self.loops@) =~= loop_views(loops_before).remove(k as int));
            } else {
                assert(before.loops.subrange(0, k + 1) =~= before.loops.subrange(0, k as int)
                    + seq![before.loops[k as int]]);
            }
        }
        proof {
            assert(before.loops.subrange(0, 0) =~= Seq::<LoopView<S>>::empty());
        }
        let ghost kept = self.loops@;
        let ghost added = born@;
        self.loops.append(&mut born);
        self.next_color_id = next;
        proof {
            assert(loop_views(self.loops@) =~= loop_views(kept) + loop_views(added));
            assert(self@.loops =~= after_splits(before, plan@).loops);
            lemma_splits_keep_wf(before, plan@);
        }
    }

    /// Scans the loops for self-intersections and splits where one is found
    /// and the draw fires. A loop is scanned only while the number of active
    /// loops is below [`MAX_LOOPS`] and two fresh identities are left; it is
    /// cut at most once, at the first qualifying pair of points that
    /// intersect.
    pub fn check_intersections(&mut self)
        requires
            old(self)@.wf(),
        ensures
            final(self)@.wf(),
            final(self).source() == old(self).source(),
            is_split_outcome(old(self).source(), old(self)@, final(self)@),
            old(self)@.loops.len() >= MAX_LOOPS ==> final(self)@ == old(self)@,
            final(self)@.coupling == old(self)@.coupling,
            final(self)@.next_color_id >= old(self)@.next_color_id,
    {
        let n = self.loops.len();
        let mut plan: Vec<Option<(usize, usize)>> = Vec::new();
        let mut splits: usize = 0;
        let mut k: usize = 0;
        while k < n
            invariant
                n == self.loops.len(),
                k <= n,
                self@.wf(),
                plan.len() == k,
                splits == splits_before(plan@, k as int),
                n + splits <= MAX_LOOPS,
                self.next_color_id + 2 * splits <= u32::MAX,
                n >= MAX_LOOPS ==> splits == 0,
                forall|m: int|
                    0 <= m < k ==> is_decision(
                        &self.source,
                        self@,
                        m,
                        splits_before(plan@, m),
                        #[trigger] plan@[m],
                    ),
            decreases n - k,
        {
            let ghost plan_before = plan@;
            let mut decision: Option<(usize, usize)> = None;
            if n + splits < MAX_LOOPS && (u32::MAX - self.next_color_id) as usize >= 2 * splits + 2 {
                assert(has_room(self@, splits as nat));
                match find_contact(&self.loops[k].positions) {
                    Some((i, j)) => {
                        if self.fires() {
                            decision = Some((i, j));
                        }
                    },
                    None => {},
                }
            } else {
                assert(!has_room(self@, splits as nat));
            }
            assert(is_decision(&self.source, self@, k as int, splits as nat, decision));
            plan.push(decision);
            if decision.is_some() {
                splits += 1;
            }
            k += 1;
            proof {
                assert forall|m: int| 0 <= m < k implies is_decision(
                    &self.source,
                    self@,
                    m,
                    splits_before(plan@, m),
                    #[trigger] plan@[m],
                ) by {
                    lemma_splits_before_push(plan_before, decision, m);
                }
                lemma_splits_before_push(plan_before, decision, k - 1);
            }
        }
        let ghost before = self@;
        assert(follows_scan(&self.source, before, plan@));
        proof {
            lemma_scan_fits(&self.source, before, plan@);
            if n >= MAX_LOOPS {
                assert forall|m: int| 0 <= m < plan@.len() implies plan@[m] is None by {
                    lemma_splits_before_monotone(plan@, m + 1, n as int);
                }
                lemma_idle_plan(before, plan@);
            }
        }
        self.apply_splits(&plan);
    }

    /// One tick of `dt`: every loop is advanced, loops that touch themselves
    /// may split, and every loop is brought to its density target. The step
    /// `dt` is positive; it is for the caller to see to that.
    pub fn step(&mut self, dt: S)
        requires
            old(self)@.wf(),
            is_positive(dt),
        ensures
            final(self)@.wf(),
            final(self).source() == old(self).source(),
            is_step(old(self).source(), old(self)@, dt, final(self)@),
            final(self)@.coupling == old(self)@.coupling,
            final(self)@.next_color_id >= old(self)@.next_color_id,
    {
        self.advance_loops(dt);
        let ghost advanced = self@;
        self.check_intersections();
        let ghost split = self@;
        self.resample_loops();
        assert(is_all_advanced(old(self)@, dt, advanced) && is_split_outcome(
            old(self).source(),
            advanced,
            split,
        ));
    }

    /// Sets the coupling that the tension and the chance of a split use from
    /// the next step on.
    pub fn set_coupling(&mut self, coupling: S)
        ensures
            final(self)@ == (SimulationView { coupling, ..old(self)@ }),
            final(self).source() == old(self).source(),
    {
        self.coupling = coupling;
    }

    /// The flat positions report: the number of loops, then for every loop
    /// its number of points, its identity and the three coordinates of every
    /// point.
    pub fn get_positions(&self) -> (out: Vec<S>)
        ensures
            is_positions_report(self@, out@),
    {
        let n = self.loops.len();
        let mut out: Vec<S> = Vec::new();
        out.push(S::number(n));
        let mut k: usize = 0;
        while k < n
            invariant
                n == self.loops.len(),
                k <= n,
                out@.len() == positions_offset(self@.loops, k as int),
                evaluates(number(n as int), out@[0]),
                forall|m: int|
                    0 <= m < k ==> #[trigger] is_positions_block(
                        self@.loops[m],
                        out@,
                        positions_offset(self@.loops, m),
                    ),
                forall|m: int| 0 <= m <= k ==> 1 <= #[trigger] positions_offset(self@.loops, m),
            decreases n - k,
        {
            let ghost shorter = out@;
            push_positions_block(&mut out, &self.loops[k]);
            proof {
                assert(self@.loops[k as int] == self.loops@[k as int]@);
                assert forall|m: int| 0 <= m < k implies #[trigger] is_positions_block(
                    self@.loops[m],
                    out@,
                    positions_offset(self@.loops, m),
                ) by {
                    lemma_positions_block_stable(
                        self@.loops[m],
                        shorter,
                        out@,
                        positions_offset(self@.loops, m),
                    );
                }
            }
            k += 1;
        }
        out
    }

    /// The flat speeds report: the number of loops, then for every loop its
    /// number of points and the magnitude of the velocity of every point.
    pub fn get_velocities_mag(&self) -> (out: Vec<S>)
        ensures
            is_speeds_report(self@, out@),
    {
        let n = self.loops.len();
        let mut out: Vec<S> = Vec::new();
        out.push(S::number(n));
        let mut k: usize = 0;
        while k < n
            invariant
                n == self.loops.len(),
                k <= n,
                out@.len() == speeds_offset(self@.loops, k as int),
                evaluates(number(n as int), out@[0]),
                forall|m: int|
                    0 <= m < k ==> #[trigger] is_speeds_block(
                        self@.loops[m],
                        out@,
                        speeds_offset(self@.loops, m),
                    ),
                forall|m: int| 0 <= m <= k ==> 1 <= #[trigger] speeds_offset(self@.loops, m),
            decreases n - k,
        {
            let ghost shorter = out@;
            push_speeds_block(&mut out, &self.loops[k]);
            proof {
                assert(self@.loops[k as int] == self.loops@[k as int]@);
                assert forall|m: int| 0 <= m < k implies #[trigger] is_speeds_block(
                    self@.loops[m],
                    out@,
                    speeds_offset(self@.loops, m),
                ) by {
                    lemma_speeds_block_stable(
                        self@.loops[m],
                        shorter,
                        out@,
                        speeds_offset(self@.loops, m),
                    );
                }
            }
            k += 1;
        }
        out
    }

    /// The energy of all loops: for each its kinetic energy plus its
    /// stretching energy, summed in order.
    pub fn get_total_energy(&self) -> (total: S)
        ensures
            evaluates(total_energy(self@.loops, self@.loops.len() as int), total),
    {
        let n = self.loops.len();
        let mut total = Term::number(0);
        let mut k: usize = 0;
        while k < n
            invariant
                n == self.loops.len(),
                k <= n,
                total.wf(),
                total.expr@ == total_energy(self@.loops, k as int),
            decreases n - k,
        {
            proof {
                assert(self@.loops[k as int] == self.loops@[k as int]@);
            }
            total = total.plus(&self.loops[k].energy_term());
            k += 1;
        }
        total.value
    }

    /// Number of active loops.
    pub fn get_loop_count(&self) -> (count: u32)
        requires
            self@.wf(),
        ensures
            count == self@.loops.len(),
    {
        self.loops.len() as u32
    }
}

} // verus!
