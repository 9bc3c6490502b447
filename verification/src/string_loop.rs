//! A single closed string: an ordered, cyclically indexed sequence of points
//! with matching velocities, together with its seed curve, its integrator,
//! and the operations that cut it in two and that change its number of
//! points.

use crate::scalar::{
    clamped, cosine, difference, evaluates, hundredths, is_below, is_count,
    lemma_clamped_within_bound, negated, number, product, quotient, sine, square, square_root,
    sum, val, within_bound, Expr, Scalar, Term,
};
use vstd::multiset::Multiset;
use vstd::prelude::*;
use vstd::seq_lib::lemma_multiset_commutative;

verus! {

/// Fewest points a loop may have.
pub const MIN_LOOP_POINTS: usize = 20;

/// Most points a loop may have.
pub const MAX_LOOP_POINTS: usize = 256;

/// Two points closer than this many hundredths of a unit intersect.
pub const INTERSECTION_THRESHOLD_HUNDREDTHS: u32 = 80;

/// Bound on the magnitude of every velocity coordinate, in hundredths.
pub const VELOCITY_CLAMP_HUNDREDTHS: u32 = 500;

/// Arc length per point that resampling aims at, in hundredths.
pub const TARGET_POINT_DENSITY_HUNDREDTHS: u32 = 50;

/// A loop keeps its points while their number is within this of the target.
pub const RESAMPLE_SLACK: usize = 10;

/// A discretised closed curve. Point `len - 1` is adjacent to point `0`.
pub struct StringLoop<S> {
    pub positions: Vec<[S; 3]>,
    pub velocities: Vec<[S; 3]>,
    pub color_id: u32,
}

/// Mathematical content of a [`StringLoop`].
pub struct LoopView<S> {
    pub positions: Seq<[S; 3]>,
    pub velocities: Seq<[S; 3]>,
    pub color_id: u32,
}

impl<S> View for StringLoop<S> {
    type V = LoopView<S>;

    open spec fn view(&self) -> LoopView<S> {
        LoopView {
            positions: self.positions@,
            velocities: self.velocities@,
            color_id: self.color_id,
        }
    }
}

impl<S> LoopView<S> {
    /// Every point has a velocity.
    pub open spec fn wf(self) -> bool {
        self.positions.len() == self.velocities.len()
    }

    pub open spec fn len(self) -> nat {
        self.positions.len()
    }

    /// Well formed, with a number of points that a simulation accepts.
    pub open spec fn active(self) -> bool {
        &&& self.wf()
        &&& MIN_LOOP_POINTS <= self.len() <= MAX_LOOP_POINTS
    }
}

/// Successor of `i` on a cycle of `n` points.
pub open spec fn next_index(i: int, n: int) -> int {
    if i + 1 == n {
        0
    } else {
        i + 1
    }
}

/// Predecessor of `i` on a cycle of `n` points.
pub open spec fn prev_index(i: int, n: int) -> int {
    if i == 0 {
        n - 1
    } else {
        i - 1
    }
}

/// Every coordinate of `p` is a value of the formula that `f` gives for it.
pub open spec fn is_point<S: Scalar>(f: spec_fn(int) -> Expr<S>, p: [S; 3]) -> bool {
    forall|d: int| 0 <= d < 3 ==> evaluates(f(d), #[trigger] p[d])
}

/// Angle of point `i` of `n` on the seed curve: `2 * pi * i / n`.
pub open spec fn seed_angle<S>(i: int, n: int) -> Expr<S> {
    quotient(product(product(number(2), Expr::Pi), number(i)), number(n))
}

/// Shape offset of the seed curve of the given identity: `color_id * 0.7`.
pub open spec fn seed_phase<S>(color_id: u32) -> Expr<S> {
    product(number(color_id as int), hundredths(70))
}

/// Coordinate `d` of point `i` of `n` of the seed curve. With `t` the angle
/// and `phase` the offset:
/// `cos(t + phase) * 3 + sin(t * 2) * 0.5`,
/// `sin(t + phase) * 3 + cos(t * 3) * 0.5`,
/// `sin(t * 0.5 + phase) * 1.5`.
pub open spec fn seed_position<S>(i: int, n: int, color_id: u32, d: int) -> Expr<S> {
    let t = seed_angle::<S>(i, n);
    let phase = seed_phase::<S>(color_id);
    if d == 0 {
        sum(
            product(cosine(sum(t, phase)), number(3)),
            product(sine(product(t, number(2))), hundredths(50)),
        )
    } else if d == 1 {
        sum(
            product(sine(sum(t, phase)), number(3)),
            product(cosine(product(t, number(3))), hundredths(50)),
        )
    } else {
        product(sine(sum(product(t, hundredths(50)), phase)), hundredths(150))
    }
}

/// Coordinate `d` of the velocity of point `i` of `n` of the seed curve:
/// `-sin(t + phase) * 0.3`, `cos(t + phase) * 0.3`, `cos(t * 0.5) * 0.1`.
pub open spec fn seed_velocity<S>(i: int, n: int, color_id: u32, d: int) -> Expr<S> {
    let t = seed_angle::<S>(i, n);
    let phase = seed_phase::<S>(color_id);
    if d == 0 {
        product(negated(sine(sum(t, phase))), hundredths(30))
    } else if d == 1 {
        product(cosine(sum(t, phase)), hundredths(30))
    } else {
        product(cosine(product(t, hundredths(50))), hundredths(10))
    }
}

/// Restoring force on one coordinate of a point: the coupling times the
/// second difference of the coordinate across the point's two neighbours,
/// `coupling * (prev - 2 * here + next)`.
pub open spec fn tension<S>(prev: S, here: S, next: S, coupling: S) -> Expr<S> {
    product(val(coupling), sum(difference(val(prev), product(number(2), val(here))), val(next)))
}

/// A coordinate after `dt` under its velocity and the force on it:
/// `position + (velocity * dt + 0.5 * force * dt * dt)`.
pub open spec fn drift<S>(position: S, velocity: S, force: S, dt: S) -> Expr<S> {
    sum(
        val(position),
        sum(
            product(val(velocity), val(dt)),
            product(product(hundredths(50), val(force)), square(val(dt))),
        ),
    )
}

/// A velocity coordinate after `dt` under the mean of the forces before and
/// after the drift, clamped to the velocity bound:
/// `clamp(velocity + 0.5 * (force + force_new) * dt)`.
pub open spec fn kick<S>(velocity: S, force: S, force_new: S, dt: S) -> Expr<S> {
    clamped(
        sum(
            val(velocity),
            product(product(hundredths(50), sum(val(force), val(force_new))), val(dt)),
        ),
        VELOCITY_CLAMP_HUNDREDTHS,
    )
}

/// The squared length of `v`.
pub open spec fn squared_length<S>(v: [S; 3]) -> Expr<S> {
    sum(sum(square(val(v[0])), square(val(v[1]))), square(val(v[2])))
}

/// The Euclidean length of `v`.
pub open spec fn magnitude<S>(v: [S; 3]) -> Expr<S> {
    square_root(squared_length(v))
}

/// The Euclidean distance of `a` and `b`: the root of the sum of the squares
/// of the coordinates of `a - b`.
pub open spec fn distance<S>(a: [S; 3], b: [S; 3]) -> Expr<S> {
    square_root(
        sum(
            sum(
                square(difference(val(a[0]), val(b[0]))),
                square(difference(val(a[1]), val(b[1]))),
            ),
            square(difference(val(a[2]), val(b[2]))),
        ),
    )
}

/// Place on a source loop of `n` points of point `i` of `target` resampled
/// points: `i / target * n`.
pub open spec fn sample_place<S>(i: int, n: int, target: int) -> Expr<S> {
    product(quotient(number(i), number(target)), number(n))
}

/// The value between `a` and `b` at the fraction by which `place` exceeds
/// its whole part `whole`: `a + (place - whole) * (b - a)`.
pub open spec fn lerp<S>(a: S, b: S, place: Expr<S>, whole: int) -> Expr<S> {
    sum(val(a), product(difference(place, number(whole)), difference(val(b), val(a))))
}

/// The cyclic arc length of the first `upto` segments of `positions`: the
/// distances from each point to its successor, summed in order from zero.
pub open spec fn arc_length<S>(positions: Seq<[S; 3]>, upto: int) -> Expr<S>
    decreases upto,
{
    if upto <= 0 {
        number(0)
    } else {
        sum(
            arc_length(positions, upto - 1),
            distance(
                positions[upto - 1],
                positions[next_index(upto - 1, positions.len() as int)],
            ),
        )
    }
}

/// The stretching energy of the first `upto` segments of `positions`: the
/// distances to each point from its successor, summed in order from zero.
pub open spec fn stretch_energy<S>(positions: Seq<[S; 3]>, upto: int) -> Expr<S>
    decreases upto,
{
    if upto <= 0 {
        number(0)
    } else {
        sum(
            stretch_energy(positions, upto - 1),
            distance(
                positions[next_index(upto - 1, positions.len() as int)],
                positions[upto - 1],
            ),
        )
    }
}

/// The kinetic energy of the first `upto` of `velocities`: half the squared
/// length of each, summed in order from zero.
pub open spec fn kinetic_energy<S>(velocities: Seq<[S; 3]>, upto: int) -> Expr<S>
    decreases upto,
{
    if upto <= 0 {
        number(0)
    } else {
        sum(
            kinetic_energy(velocities, upto - 1),
            product(hundredths(50), squared_length(velocities[upto - 1])),
        )
    }
}

/// The energy of a loop: its kinetic energy plus its stretching energy.
pub open spec fn loop_energy<S>(lp: LoopView<S>) -> Expr<S> {
    sum(
        kinetic_energy(lp.velocities, lp.velocities.len() as int),
        stretch_energy(lp.positions, lp.positions.len() as int),
    )
}

/// Number of points that the arc length of `positions` asks for before any
/// limit is applied: the arc length divided by the target density.
pub open spec fn raw_point_count<S>(positions: Seq<[S; 3]>) -> Expr<S> {
    quotient(
        arc_length(positions, positions.len() as int),
        hundredths(TARGET_POINT_DENSITY_HUNDREDTHS),
    )
}

/// `f` is the tension on point `i` of the cycle `positions`.
pub open spec fn is_force_at<S: Scalar>(positions: Seq<[S; 3]>, coupling: S, i: int, f: [S; 3]) -> bool {
    forall|d: int|
        0 <= d < 3 ==> evaluates(
            tension(
                positions[prev_index(i, positions.len() as int)][d],
                positions[i][d],
                positions[next_index(i, positions.len() as int)][d],
                coupling,
            ),
            #[trigger] f[d],
        )
}

/// `forces` holds the tension on every point of the cycle `positions`.
pub open spec fn is_force_field<S: Scalar>(
    positions: Seq<[S; 3]>,
    coupling: S,
    forces: Seq<[S; 3]>,
) -> bool {
    &&& forces.len() == positions.len()
    &&& forall|i: int|
        0 <= i < positions.len() ==> is_force_at(positions, coupling, i, #[trigger] forces[i])
}

/// `out` is the point `position` moved for `dt` under `velocity` and `force`.
pub open spec fn is_drift_at<S: Scalar>(
    position: [S; 3],
    velocity: [S; 3],
    force: [S; 3],
    dt: S,
    out: [S; 3],
) -> bool {
    forall|d: int|
        0 <= d < 3 ==> evaluates(drift(position[d], velocity[d], force[d], dt), #[trigger] out[d])
}

/// `out` is the velocity `velocity` after `dt` under the forces before and
/// after the drift, every coordinate clamped to the velocity bound.
pub open spec fn is_kick_at<S: Scalar>(
    velocity: [S; 3],
    force: [S; 3],
    force_new: [S; 3],
    dt: S,
    out: [S; 3],
) -> bool {
    forall|d: int|
        0 <= d < 3 ==> evaluates(
            kick(velocity[d], force[d], force_new[d], dt),
            #[trigger] out[d],
        )
}

/// `after` is `before` advanced by one velocity-Verlet step of `dt`: the
/// positions drift under the tension at the old positions, and the
/// velocities receive the clamped kick of the tensions at the old and the
/// new positions.
pub open spec fn is_advanced<S: Scalar>(
    before: LoopView<S>,
    coupling: S,
    dt: S,
    after: LoopView<S>,
) -> bool {
    &&& after.color_id == before.color_id
    &&& after.positions.len() == before.positions.len()
    &&& after.velocities.len() == before.velocities.len()
    &&& exists|forces: Seq<[S; 3]>, forces_new: Seq<[S; 3]>|
        {
            &&& #[trigger] is_force_field(before.positions, coupling, forces)
            &&& #[trigger] is_force_field(after.positions, coupling, forces_new)
            &&& forall|i: int|
                0 <= i < before.len() ==> is_drift_at(
                    before.positions[i],
                    before.velocities[i],
                    forces[i],
                    dt,
                    #[trigger] after.positions[i],
                )
            &&& forall|i: int|
                0 <= i < before.len() ==> is_kick_at(
                    before.velocities[i],
                    forces[i],
                    forces_new[i],
                    dt,
                    #[trigger] after.velocities[i],
                )
        }
}

/// Points `i..=j` of `s`: the first child of a split at `(i, j)`.
pub open spec fn split_first<T>(s: Seq<T>, i: int, j: int) -> Seq<T> {
    s.subrange(i, j + 1)
}

/// Points `j..` of `s` followed by points `..=i`: the second child of a split
/// at `(i, j)`.
pub open spec fn split_second<T>(s: Seq<T>, i: int, j: int) -> Seq<T> {
    s.subrange(j, s.len() as int) + s.subrange(0, i + 1)
}

/// The two loops that a split of `lp` at `(i, j)` leaves, with identities
/// `c1` and `c2`.
pub open spec fn split_children<S>(lp: LoopView<S>, i: int, j: int, c1: u32, c2: u32) -> (
    LoopView<S>,
    LoopView<S>,
) {
    (
        LoopView {
            positions: split_first(lp.positions, i, j),
            velocities: split_first(lp.velocities, i, j),
            color_id: c1,
        },
        LoopView {
            positions: split_second(lp.positions, i, j),
            velocities: split_second(lp.velocities, i, j),
            color_id: c2,
        },
    )
}

/// `r` is, in every coordinate, the interpolation of `a` and `b` at the
/// fraction by which `place` exceeds `whole`.
pub open spec fn is_lerp<S: Scalar>(a: [S; 3], b: [S; 3], place: Expr<S>, whole: int, r: [S; 3]) -> bool {
    forall|d: int| 0 <= d < 3 ==> evaluates(lerp(a[d], b[d], place, whole), #[trigger] r[d])
}

/// `r` is point `i` of `target` points resampled along the cycle `src`: with
/// `whole` the whole part of its place, it lies between the source point of
/// index `whole` modulo the length and that point's successor, at the
/// fraction that the place leaves.
pub open spec fn is_sample<S: Scalar>(src: Seq<[S; 3]>, i: int, target: int, r: [S; 3]) -> bool {
    exists|whole: usize| #[trigger]
        is_count(sample_place::<S>(i, src.len() as int, target), whole) && is_lerp(
            src[whole as int % src.len() as int],
            src[next_index(whole as int % src.len() as int, src.len() as int)],
            sample_place(i, src.len() as int, target),
            whole as int,
            r,
        )
}

/// `out` holds `target` points interpolated index-uniformly along the cycle
/// `src`.
pub open spec fn is_resampled<S: Scalar>(src: Seq<[S; 3]>, target: int, out: Seq<[S; 3]>) -> bool {
    &&& out.len() == target
    &&& forall|i: int| 0 <= i < target ==> is_sample(src, i, target, #[trigger] out[i])
}

/// `raw` brought into the range of point counts that a loop may have.
pub open spec fn clamp_point_count(raw: int) -> int {
    if raw < MIN_LOOP_POINTS {
        MIN_LOOP_POINTS as int
    } else if raw > MAX_LOOP_POINTS {
        MAX_LOOP_POINTS as int
    } else {
        raw
    }
}

/// `target` is the number of points that the arc length of `positions` asks
/// for at the target density, brought into the permitted range.
pub open spec fn is_target_count<S: Scalar>(positions: Seq<[S; 3]>, target: int) -> bool {
    exists|raw: usize| #[trigger]
        is_count(raw_point_count(positions), raw) && target == clamp_point_count(raw as int)
}

/// A loop of `n` points is replaced when the target differs by more than the
/// slack.
pub open spec fn needs_resample(n: int, target: int) -> bool {
    target - n > RESAMPLE_SLACK || n - target > RESAMPLE_SLACK
}

/// `after` is what resampling to the density target makes of `before`: the
/// same loop while its length is within the slack of the target, else the
/// loop interpolated to the target length.
pub open spec fn is_density_kept<S: Scalar>(before: LoopView<S>, after: LoopView<S>) -> bool {
    exists|target: int|
        {
            &&& #[trigger] is_target_count(before.positions, target)
            &&& if needs_resample(before.len() as int, target) {
                &&& after.color_id == before.color_id
                &&& is_resampled(before.positions, target, after.positions)
                &&& is_resampled(before.velocities, target, after.velocities)
            } else {
                after == before
            }
        }
}

/// The pair `(i, j)` may be cut: the points are at least four apart, are not
/// the two ends of the index range, and both children would be long enough.
pub open spec fn qualifies(n: int, i: int, j: int) -> bool {
    &&& 0 <= i
    &&& i + 4 <= j < n
    &&& !(i == 0 && j == n - 1)
    &&& j - i + 1 >= MIN_LOOP_POINTS
    &&& (n - j) + (i + 1) >= MIN_LOOP_POINTS
}

/// `(i1, j1)` is scanned before `(i2, j2)`.
pub open spec fn scanned_before(i1: int, j1: int, i2: int, j2: int) -> bool {
    i1 < i2 || (i1 == i2 && j1 < j2)
}

/// The verdict on whether points `i` and `j` intersect is `verdict`: whether
/// their distance is below the threshold.
pub open spec fn contact<S: Scalar>(positions: Seq<[S; 3]>, i: int, j: int, verdict: bool) -> bool {
    is_below(
        distance(positions[i], positions[j]),
        hundredths(INTERSECTION_THRESHOLD_HUNDREDTHS),
        verdict,
    )
}

/// `(i, j)` is the first pair in scan order that qualifies and intersects.
pub open spec fn is_first_contact<S: Scalar>(positions: Seq<[S; 3]>, i: int, j: int) -> bool {
    &&& qualifies(positions.len() as int, i, j)
    &&& contact(positions, i, j, true)
    &&& forall|i1: int, j1: int|
        qualifies(positions.len() as int, i1, j1) && scanned_before(i1, j1, i, j) ==> #[trigger] contact(
            positions,
            i1,
            j1,
            false,
        )
}

/// No qualifying pair intersects.
pub open spec fn no_contact<S: Scalar>(positions: Seq<[S; 3]>) -> bool {
    forall|i1: int, j1: int|
        qualifies(positions.len() as int, i1, j1) ==> #[trigger] contact(positions, i1, j1, false)
}

/// The squared length of `v`.
pub(crate) fn squared_length_of<S: Scalar>(v: &[S; 3]) -> (t: Term<S>)
    ensures
        t.wf(),
        t.expr@ == squared_length(*v),
{
    let x = Term::of(v[0]).squared();
    let y = Term::of(v[1]).squared();
    let z = Term::of(v[2]).squared();
    x.plus(&y).plus(&z)
}

/// The Euclidean distance of `a` and `b`.
fn distance_of<S: Scalar>(a: &[S; 3], b: &[S; 3]) -> (t: Term<S>)
    ensures
        t.wf(),
        t.expr@ == distance(*a, *b),
{
    let dx = Term::of(a[0]).minus(&Term::of(b[0])).squared();
    let dy = Term::of(a[1]).minus(&Term::of(b[1])).squared();
    let dz = Term::of(a[2]).minus(&Term::of(b[2])).squared();
    dx.plus(&dy).plus(&dz).root()
}

/// The Euclidean distance between two points.
pub fn dist3d<S: Scalar>(a: [S; 3], b: [S; 3]) -> (d: S)
    ensures
        evaluates(distance(a, b), d),
{
    distance_of(&a, &b).value
}

/// One coordinate of the tension on a point.
fn tension_of<S: Scalar>(prev: S, here: S, next: S, coupling: S) -> (r: S)
    ensures
        evaluates(tension(prev, here, next, coupling), r),
{
    let twice = Term::number(2).times(&Term::of(here));
    let laplacian = Term::of(prev).minus(&twice).plus(&Term::of(next));
    Term::of(coupling).times(&laplacian).value
}

/// One coordinate of a point after the drift.
fn drift_of<S: Scalar>(position: S, velocity: S, force: S, dt: S) -> (r: S)
    ensures
        evaluates(drift(position, velocity, force, dt), r),
{
    let dt = Term::of(dt);
    let dt2 = dt.squared();
    let by_velocity = Term::of(velocity).times(&dt);
    let by_force = Term::hundredths(50).times(&Term::of(force)).times(&dt2);
    Term::of(position).plus(&by_velocity.plus(&by_force)).value
}

/// One coordinate of a velocity after the kick.
fn kick_of<S: Scalar>(velocity: S, force: S, force_new: S, dt: S) -> (r: S)
    ensures
        evaluates(kick(velocity, force, force_new, dt), r),
{
    let mean = Term::hundredths(50).times(&Term::of(force).plus(&Term::of(force_new)));
    let change = mean.times(&Term::of(dt));
    Term::of(velocity).plus(&change).clamp(VELOCITY_CLAMP_HUNDREDTHS).value
}

/// Position and velocity of point `i` of `n` of the seed curve.
fn seed_point<S: Scalar>(i: usize, n: usize, color_id: u32) -> (pv: ([S; 3], [S; 3]))
    ensures
        is_point(|d: int| seed_position(i as int, n as int, color_id, d), pv.0),
        is_point(|d: int| seed_velocity(i as int, n as int, color_id, d), pv.1),
{
    let t = Term::number(2).times(&Term::pi()).times(&Term::number(i)).over(&Term::number(n));
    let phase = Term::number(color_id as usize).times(&Term::hundredths(70));
    let turned = t.plus(&phase);
    let x = turned.cos().times(&Term::number(3)).plus(
        &t.times(&Term::number(2)).sin().times(&Term::hundredths(50)),
    );
    let y = turned.sin().times(&Term::number(3)).plus(
        &t.times(&Term::number(3)).cos().times(&Term::hundredths(50)),
    );
    let z = t.times(&Term::hundredths(50)).plus(&phase).sin().times(&Term::hundredths(150));
    let vx = turned.sin().opposite().times(&Term::hundredths(30));
    let vy = turned.cos().times(&Term::hundredths(30));
    let vz = t.times(&Term::hundredths(50)).cos().times(&Term::hundredths(10));
    ([x.value, y.value, z.value], [vx.value, vy.value, vz.value])
}

/// Copies points `from..to` of `src` to the end of `dst`.
fn extend_points<S: Copy>(dst: &mut Vec<[S; 3]>, src: &Vec<[S; 3]>, from: usize, to: usize)
    requires
        from <= to <= src.len(),
    ensures
        final(dst)@ == old(dst)@ + src@.subrange(from as int, to as int),
{
    let mut k: usize = from;
    while k < to
        invariant
            from <= k <= to <= src.len(),
            dst@ == old(dst)@ + src@.subrange(from as int, k as int),
        decreases to - k,
    {
        dst.push(src[k]);
        k += 1;
    }
}

/// The tension on every point of the cycle `positions`.
fn force_field<S: Scalar>(positions: &Vec<[S; 3]>, coupling: S) -> (forces: Vec<[S; 3]>)
    ensures
        is_force_field(positions@, coupling, forces@),
{
    let n = positions.len();
    let mut forces: Vec<[S; 3]> = Vec::new();
    let mut i: usize = 0;
    while i < n
        invariant
            n == positions.len(),
            i <= n,
            forces.len() == i,
            forall|k: int| 0 <= k < i ==> is_force_at(positions@, coupling, k, #[trigger] forces@[k]),
        decreases n - i,
    {
        let prev = if i == 0 {
            n - 1
        } else {
            i - 1
        };
        let next = if i + 1 == n {
            0
        } else {
            i + 1
        };
        let a = &positions[prev];
        let b = &positions[i];
        let c = &positions[next];
        let x = tension_of(a[0], b[0], c[0], coupling);
        let y = tension_of(a[1], b[1], c[1], coupling);
        let z = tension_of(a[2], b[2], c[2], coupling);
        forces.push([x, y, z]);
        i += 1;
    }
    forces
}

/// Point `i` of `target` points resampled along the cycle `src`.
fn sample_point<S: Scalar>(src: &Vec<[S; 3]>, i: usize, target: usize) -> (r: [S; 3])
    requires
        src.len() > 0,
    ensures
        is_sample(src@, i as int, target as int, r),
{
    let n = src.len();
    let place = Term::number(i).over(&Term::number(target)).times(&Term::number(n));
    let whole = place.count();
    let frac = place.minus(&Term::number(whole));
    let idx = whole % n;
    let next = if idx + 1 == n {
        0
    } else {
        idx + 1
    };
    let a = &src[idx];
    let b = &src[next];
    let x = Term::of(a[0]).plus(&frac.times(&Term::of(b[0]).minus(&Term::of(a[0]))));
    let y = Term::of(a[1]).plus(&frac.times(&Term::of(b[1]).minus(&Term::of(a[1]))));
    let z = Term::of(a[2]).plus(&frac.times(&Term::of(b[2]).minus(&Term::of(a[2]))));
    let r = [x.value, y.value, z.value];
    assert(is_lerp(*a, *b, place.expr@, whole as int, r));
    r
}

/// `target` points interpolated index-uniformly along the cycle `src`.
fn resample_points<S: Scalar>(src: &Vec<[S; 3]>, target: usize) -> (out: Vec<[S; 3]>)
    requires
        src.len() > 0,
    ensures
        is_resampled(src@, target as int, out@),
{
    let mut out: Vec<[S; 3]> = Vec::new();
    let mut i: usize = 0;
    while i < target
        invariant
            src.len() > 0,
            i <= target,
            out.len() == i,
            forall|k: int| 0 <= k < i ==> is_sample(src@, k, target as int, #[trigger] out@[k]),
        decreases target - i,
    {
        out.push(sample_point(src, i, target));
        i += 1;
    }
    out
}

/// The cyclic arc length of `positions`.
fn arc_length_of<S: Scalar>(positions: &Vec<[S; 3]>) -> (t: Term<S>)
    ensures
        t.wf(),
        t.expr@ == arc_length(positions@, positions.len() as int),
{
    let n = positions.len();
    let mut total = Term::number(0);
    let mut i: usize = 0;
    while i < n
        invariant
            n == positions.len(),
            i <= n,
            total.wf(),
            total.expr@ == arc_length(positions@, i as int),
        decreases n - i,
    {
        let next = if i + 1 == n {
            0
        } else {
            i + 1
        };
        total = total.plus(&distance_of(&positions[i], &positions[next]));
        i += 1;
    }
    total
}

/// The stretching energy of `positions`.
fn stretch_energy_of<S: Scalar>(positions: &Vec<[S; 3]>) -> (t: Term<S>)
    ensures
        t.wf(),
        t.expr@ == stretch_energy(positions@, positions.len() as int),
{
    let n = positions.len();
    let mut total = Term::number(0);
    let mut i: usize = 0;
    while i < n
        invariant
            n == positions.len(),
            i <= n,
            total.wf(),
            total.expr@ == stretch_energy(positions@, i as int),
        decreases n - i,
    {
        let next = if i + 1 == n {
            0
        } else {
            i + 1
        };
        total = total.plus(&distance_of(&positions[next], &positions[i]));
        i += 1;
    }
    total
}

/// The kinetic energy of `velocities`.
fn kinetic_energy_of<S: Scalar>(velocities: &Vec<[S; 3]>) -> (t: Term<S>)
    ensures
        t.wf(),
        t.expr@ == kinetic_energy(velocities@, velocities.len() as int),
{
    let n = velocities.len();
    let mut total = Term::number(0);
    let mut i: usize = 0;
    while i < n
        invariant
            n == velocities.len(),
            i <= n,
            total.wf(),
            total.expr@ == kinetic_energy(velocities@, i as int),
        decreases n - i,
    {
        total = total.plus(&Term::hundredths(50).times(&squared_length_of(&velocities[i])));
        i += 1;
    }
    total
}

/// The number of points that `positions` should have at the target density.
pub fn target_count<S: Scalar>(positions: &Vec<[S; 3]>) -> (target: usize)
    ensures
        is_target_count(positions@, target as int),
        MIN_LOOP_POINTS <= target <= MAX_LOOP_POINTS,
{
    let total = arc_length_of(positions);
    let raw = total.over(&Term::hundredths(TARGET_POINT_DENSITY_HUNDREDTHS)).count();
    if raw < MIN_LOOP_POINTS {
        MIN_LOOP_POINTS
    } else if raw > MAX_LOOP_POINTS {
        MAX_LOOP_POINTS
    } else {
        raw
    }
}

/// The first qualifying pair of points, in ascending order of `i` and then of
/// `j`, whose distance is below the threshold.
pub fn find_contact<S: Scalar>(positions: &Vec<[S; 3]>) -> (r: Option<(usize, usize)>)
    ensures
        match r {
            Some((i, j)) => is_first_contact(positions@, i as int, j as int),
            None => no_contact(positions@),
        },
{
    let n = positions.len();
    let mut i: usize = 0;
    while i < n
        invariant
            n == positions.len(),
            i <= n,
            forall|i1: int, j1: int|
                qualifies(n as int, i1, j1) && i1 < i ==> #[trigger] contact(
                    positions@,
                    i1,
                    j1,
                    false,
                ),
        decreases n - i,
    {
        if n - i > 4 {
            let mut j: usize = i + 4;
            while j < n
                invariant
                    n == positions.len(),
                    i < n,
                    i + 4 <= j <= n,
                    forall|i1: int, j1: int|
                        qualifies(n as int, i1, j1) && scanned_before(i1, j1, i as int, j as int)
                            ==> #[trigger] contact(positions@, i1, j1, false),
                decreases n - j,
            {
                let ends = j == n - 1 && i == 0;
                let len_a = j - i + 1;
                let len_b = (n - j) + (i + 1);
                if !ends && len_a >= MIN_LOOP_POINTS && len_b >= MIN_LOOP_POINTS {
                    let dist = distance_of(&positions[i], &positions[j]);
                    if dist.below(&Term::hundredths(INTERSECTION_THRESHOLD_HUNDREDTHS)) {
                        return Some((i, j));
                    }
                }
                j += 1;
            }
        }
        i += 1;
    }
    None
}

impl<S: Scalar> StringLoop<S> {
    /// The seed curve of `n` points whose shape the identity selects.
    pub fn new(n: usize, color_id: u32) -> (lp: Self)
        ensures
            lp@.wf(),
            lp@.len() == n,
            lp@.color_id == color_id,
            forall|i: int|
                0 <= i < n ==> is_point(
                    |d: int| seed_position(i, n as int, color_id, d),
                    #[trigger] lp@.positions[i],
                ),
            forall|i: int|
                0 <= i < n ==> is_point(
                    |d: int| seed_velocity(i, n as int, color_id, d),
                    #[trigger] lp@.velocities[i],
                ),
    {
        let mut positions: Vec<[S; 3]> = Vec::new();
        let mut velocities: Vec<[S; 3]> = Vec::new();
        let mut i: usize = 0;
        while i < n
            invariant
                i <= n,
                positions.len() == i,
                velocities.len() == i,
                forall|k: int|
                    0 <= k < i ==> is_point(
                        |d: int| seed_position(k, n as int, color_id, d),
                        #[trigger] positions@[k],
                    ),
                forall|k: int|
                    0 <= k < i ==> is_point(
                        |d: int| seed_velocity(k, n as int, color_id, d),
                        #[trigger] velocities@[k],
                    ),
            decreases n - i,
        {
            let (p, v) = seed_point(i, n, color_id);
            positions.push(p);
            velocities.push(v);
            i += 1;
        }
        StringLoop { positions, velocities, color_id }
    }

    /// Number of points.
    pub fn len(&self) -> (n: usize)
        ensures
            n == self@.len(),
    {
        self.positions.len()
    }

    /// Kinetic energy plus stretching energy: half the squared speed of every
    /// point, and the distance of every point to its successor.
    pub fn energy(&self) -> (e: S)
        ensures
            evaluates(loop_energy(self@), e),
    {
        self.energy_term().value
    }

    /// The energy, with its formula.
    pub(crate) fn energy_term(&self) -> (t: Term<S>)
        ensures
            t.wf(),
            t.expr@ == loop_energy(self@),
    {
        let ke = kinetic_energy_of(&self.velocities);
        let pe = stretch_energy_of(&self.positions);
        ke.plus(&pe)
    }

    /// Advances the loop by one velocity-Verlet step of `dt`.
    pub fn advance(&mut self, coupling: S, dt: S)
        requires
            old(self)@.wf(),
        ensures
            final(self)@.wf(),
            is_advanced(old(self)@, coupling, dt, final(self)@),
    {
        let n = self.positions.len();
        let forces = force_field(&self.positions, coupling);
        let mut positions: Vec<[S; 3]> = Vec::new();
        let mut i: usize = 0;
        while i < n
            invariant
                n == self.positions.len(),
                n == self.velocities.len(),
                n == forces.len(),
                i <= n,
                positions.len() == i,
                forall|k: int|
                    0 <= k < i ==> is_drift_at(
                        self.positions@[k],
                        self.velocities@[k],
                        forces@[k],
                        dt,
                        #[trigger] positions@[k],
                    ),
            decreases n - i,
        {
            let p = &self.positions[i];
            let v = &self.velocities[i];
            let f = &forces[i];
            let x = drift_of(p[0], v[0], f[0], dt);
            let y = drift_of(p[1], v[1], f[1], dt);
            let z = drift_of(p[2], v[2], f[2], dt);
            positions.push([x, y, z]);
            i += 1;
        }
        let forces_new = force_field(&positions, coupling);
        let mut velocities: Vec<[S; 3]> = Vec::new();
        let mut i: usize = 0;
        while i < n
            invariant
                n == self.velocities.len(),
                n == forces.len(),
                n == forces_new.len(),
                i <= n,
                velocities.len() == i,
                forall|k: int|
                    0 <= k < i ==> is_kick_at(
                        self.velocities@[k],
                        forces@[k],
                        forces_new@[k],
                        dt,
                        #[trigger] velocities@[k],
                    ),
            decreases n - i,
        {
            let v = &self.velocities[i];
            let f = &forces[i];
            let g = &forces_new[i];
            let x = kick_of(v[0], f[0], g[0], dt);
            let y = kick_of(v[1], f[1], g[1], dt);
            let z = kick_of(v[2], f[2], g[2], dt);
            velocities.push([x, y, z]);
            i += 1;
        }
        self.positions = positions;
        self.velocities = velocities;
    }

    /// The loop with `target_n` points, interpolated index-uniformly along
    /// this one. With `target_n` equal to the present length, the same loop.
    pub fn resample(&self, target_n: usize) -> (lp: Self)
        requires
            self@.wf(),
            target_n != self@.len() ==> self@.len() > 0,
        ensures
            lp@.wf(),
            lp@.len() == target_n,
            lp@.color_id == self@.color_id,
            target_n == self@.len() ==> lp@ == self@,
            target_n != self@.len() ==> is_resampled(self@.positions, target_n as int, lp@.positions)
                && is_resampled(self@.velocities, target_n as int, lp@.velocities),
    {
        if self.positions.len() == target_n {
            return self.duplicate();
        }
        let positions = resample_points(&self.positions, target_n);
        let velocities = resample_points(&self.velocities, target_n);
        StringLoop { positions, velocities, color_id: self.color_id }
    }

    /// Brings the number of points to the density target where it is off by
    /// more than the slack.
    pub fn keep_density(&mut self)
        requires
            old(self)@.wf(),
            old(self)@.len() > 0,
            old(self)@.len() <= MAX_LOOP_POINTS,
        ensures
            is_density_kept(old(self)@, final(self)@),
            final(self)@.wf(),
            final(self)@.color_id == old(self)@.color_id,
            old(self)@.active() ==> final(self)@.active(),
    {
        let n = self.positions.len();
        let target = target_count(&self.positions);
        if target > n && target - n > RESAMPLE_SLACK || n > target && n - target > RESAMPLE_SLACK {
            let lp = self.resample(target);
            *self = lp;
        }
    }

    /// The same loop in storage of its own.
    pub fn duplicate(&self) -> (lp: Self)
        ensures
            lp@ == self@,
    {
        let mut positions: Vec<[S; 3]> = Vec::new();
        let mut velocities: Vec<[S; 3]> = Vec::new();
        extend_points(&mut positions, &self.positions, 0, self.positions.len());
        extend_points(&mut velocities, &self.velocities, 0, self.velocities.len());
        assert(positions@ =~= self.positions@);
        assert(velocities@ =~= self.velocities@);
        StringLoop { positions, velocities, color_id: self.color_id }
    }
}

/// Cuts `lp` at points `i` and `j` into the loop of points `i..=j` and the
/// loop of points `j..` followed by `..=i`. Both children hold points `i` and
/// `j`.
pub fn split_loop<S: Copy>(lp: &StringLoop<S>, i: usize, j: usize, c1: u32, c2: u32) -> (children: (
    StringLoop<S>,
    StringLoop<S>,
))
    requires
        lp@.wf(),
        i < j < lp@.len(),
    ensures
        (children.0@, children.1@) == split_children(lp@, i as int, j as int, c1, c2),
        children.0@.wf(),
        children.1@.wf(),
        children.0@.len() == j - i + 1,
        children.1@.len() == (lp@.len() - j) + (i + 1),
{
    let n = lp.positions.len();
    let mut pos_a: Vec<[S; 3]> = Vec::new();
    let mut vel_a: Vec<[S; 3]> = Vec::new();
    extend_points(&mut pos_a, &lp.positions, i, j + 1);
    extend_points(&mut vel_a, &lp.velocities, i, j + 1);
    let mut pos_b: Vec<[S; 3]> = Vec::new();
    let mut vel_b: Vec<[S; 3]> = Vec::new();
    extend_points(&mut pos_b, &lp.positions, j, n);
    extend_points(&mut pos_b, &lp.positions, 0, i + 1);
    extend_points(&mut vel_b, &lp.velocities, j, n);
    extend_points(&mut vel_b, &lp.velocities, 0, i + 1);
    assert(pos_a@ =~= split_first(lp@.positions, i as int, j as int));
    assert(vel_a@ =~= split_first(lp@.velocities, i as int, j as int));
    assert(pos_b@ =~= split_second(lp@.positions, i as int, j as int));
    assert(vel_b@ =~= split_second(lp@.velocities, i as int, j as int));
    (
        StringLoop { positions: pos_a, velocities: vel_a, color_id: c1 },
        StringLoop { positions: pos_b, velocities: vel_b, color_id: c2 },
    )
}

/// The two children of a split at `(i, j)` together hold every point of the
/// parent once, and points `i` and `j` once more.
pub proof fn lemma_split_covers<T>(s: Seq<T>, i: int, j: int)
    requires
        0 <= i < j < s.len(),
    ensures
        (split_first(s, i, j) + split_second(s, i, j)).to_multiset() == s.to_multiset().insert(
            s[i],
        ).insert(s[j]),
        split_first(s, i, j).len() + split_second(s, i, j).len() == s.len() + 2,
{
    let n = s.len() as int;
    let head = s.subrange(0, i + 1);
    let mid = s.subrange(i + 1, j);
    let tail = s.subrange(j, n);
    let a = split_first(s, i, j);
    let b = split_second(s, i, j);
    assert(s =~= head + mid + tail);
    assert(a =~= seq![s[i]] + mid + seq![s[j]]);
    assert(b =~= tail + head);
    lemma_multiset_commutative(a, b);
    lemma_multiset_commutative(tail, head);
    lemma_multiset_commutative(head + mid, tail);
    lemma_multiset_commutative(head, mid);
    lemma_multiset_commutative(seq![s[i]] + mid, seq![s[j]]);
    lemma_multiset_commutative(seq![s[i]], mid);
    assert(seq![s[i]].to_multiset() =~= Multiset::singleton(s[i])) by {
        broadcast use vstd::seq_lib::group_to_multiset_ensures;
        assert(seq![s[i]] =~= Seq::<T>::empty().push(s[i]));
    }
    assert(seq![s[j]].to_multiset() =~= Multiset::singleton(s[j])) by {
        broadcast use vstd::seq_lib::group_to_multiset_ensures;
        assert(seq![s[j]] =~= Seq::<T>::empty().push(s[j]));
    }
    assert((a + b).to_multiset() =~= s.to_multiset().insert(s[i]).insert(s[j]));
}

/// After an advance every velocity coordinate lies within the velocity
/// bound.
pub proof fn lemma_advance_bounded<S: Scalar>(
    before: LoopView<S>,
    coupling: S,
    dt: S,
    after: LoopView<S>,
    i: int,
    d: int,
)
    requires
        is_advanced(before, coupling, dt, after),
        0 <= i < before.len(),
        0 <= d < 3,
    ensures
        within_bound(after.velocities[i][d], VELOCITY_CLAMP_HUNDREDTHS),
{
    let (forces, forces_new) = choose|forces: Seq<[S; 3]>, forces_new: Seq<[S; 3]>|
        {
            &&& #[trigger] is_force_field(before.positions, coupling, forces)
            &&& #[trigger] is_force_field(after.positions, coupling, forces_new)
            &&& forall|i: int|
                0 <= i < before.len() ==> is_drift_at(
                    before.positions[i],
                    before.velocities[i],
                    forces[i],
                    dt,
                    #[trigger] after.positions[i],
                )
            &&& forall|i: int|
                0 <= i < before.len() ==> is_kick_at(
                    before.velocities[i],
                    forces[i],
                    forces_new[i],
                    dt,
                    #[trigger] after.velocities[i],
                )
        };
    assert(is_kick_at(before.velocities[i], forces[i], forces_new[i], dt, after.velocities[i]));
    let v = before.velocities[i][d];
    let f = forces[i][d];
    let g = forces_new[i][d];
    assert(evaluates(kick(v, f, g, dt), after.velocities[i][d]));
    lemma_clamped_within_bound(
        sum(val(v), product(product(hundredths(50), sum(val(f), val(g))), val(dt))),
        VELOCITY_CLAMP_HUNDREDTHS,
        after.velocities[i][d],
    );
}

} // verus!
