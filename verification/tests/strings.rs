use std::cell::Cell;
use string_theory::scalar::{positive, Scalar, UniformSource};
use string_theory::string_loop::{
    dist3d, find_contact, split_loop, target_count, StringLoop, MAX_LOOP_POINTS, MIN_LOOP_POINTS,
};
use string_theory::string_physics::{StringSimulation, MAX_LOOPS};

#[derive(Clone, Copy, Debug, PartialEq)]
struct Real(f64);

impl Scalar for Real {
    fn number(n: usize) -> Self {
        Real(n as f64)
    }
    fn hundredths(h: u32) -> Self {
        Real(h as f64 / 100.0)
    }
    fn pi() -> Self {
        Real(std::f64::consts::PI)
    }
    fn sum(self, other: Self) -> Self {
        Real(self.0 + other.0)
    }
    fn difference(self, other: Self) -> Self {
        Real(self.0 - other.0)
    }
    fn product(self, other: Self) -> Self {
        Real(self.0 * other.0)
    }
    fn quotient(self, other: Self) -> Self {
        Real(self.0 / other.0)
    }
    fn negated(self) -> Self {
        Real(-self.0)
    }
    fn square_root(self) -> Self {
        Real(self.0.sqrt())
    }
    fn sine(self) -> Self {
        Real(self.0.sin())
    }
    fn cosine(self) -> Self {
        Real(self.0.cos())
    }
    fn less_than(self, other: Self) -> bool {
        self.0 < other.0
    }
    fn truncated(self) -> usize {
        self.0 as usize
    }
}

/// Always the same draw.
struct Constant(f64);

impl UniformSource<Real> for Constant {
    fn draw(&self) -> Real {
        Real(self.0)
    }
}

/// The given draws in turn, then zero; counts how many were taken.
struct Script {
    draws: Vec<f64>,
    taken: Cell<usize>,
}

impl Script {
    fn new(draws: Vec<f64>) -> Self {
        Script { draws, taken: Cell::new(0) }
    }
}

impl UniformSource<Real> for Script {
    fn draw(&self) -> Real {
        let k = self.taken.get();
        self.taken.set(k + 1);
        Real(if k < self.draws.len() { self.draws[k] } else { 0.0 })
    }
}

fn point(x: f64, y: f64, z: f64) -> [Real; 3] {
    [Real(x), Real(y), Real(z)]
}

fn plain(p: &[Real; 3]) -> [f64; 3] {
    [p[0].0, p[1].0, p[2].0]
}

fn near(p: &[Real; 3], q: [f64; 3]) -> bool {
    (0..3).all(|d| (p[d].0 - q[d]).abs() < 1e-9)
}

/// A circle of `n` points of the given radius, at height `z`, at rest.
fn ring(n: usize, radius: f64, z: f64, color_id: u32) -> StringLoop<Real> {
    let mut positions = Vec::new();
    let mut velocities = Vec::new();
    for i in 0..n {
        let t = 2.0 * std::f64::consts::PI * i as f64 / n as f64;
        positions.push(point(radius * t.cos(), radius * t.sin(), z));
        velocities.push(point(0.0, 0.0, 0.0));
    }
    StringLoop { positions, velocities, color_id }
}

/// A ring of `n` points of radius 10 whose points `i` and `j` are both moved to
/// the same place outside the ring.
fn pinched(n: usize, i: usize, j: usize, color_id: u32) -> StringLoop<Real> {
    let mut lp = ring(n, 10.0, 0.0, color_id);
    lp.positions[i] = point(0.0, 0.0, 50.0);
    lp.positions[j] = point(0.0, 0.3, 50.0);
    lp
}

fn seed_positions(n: usize, color_id: u32) -> (Vec<[f64; 3]>, Vec<[f64; 3]>) {
    let mut positions = Vec::new();
    let mut velocities = Vec::new();
    for i in 0..n {
        let t = 2.0 * std::f64::consts::PI * i as f64 / n as f64;
        let phase = color_id as f64 * 0.7;
        positions.push([
            (t + phase).cos() * 3.0 + (t * 2.0).sin() * 0.5,
            (t + phase).sin() * 3.0 + (t * 3.0).cos() * 0.5,
            (t * 0.5 + phase).sin() * 1.5,
        ]);
        velocities.push([
            -(t + phase).sin() * 0.3,
            (t + phase).cos() * 0.3,
            (t * 0.5).cos() * 0.1,
        ]);
    }
    (positions, velocities)
}

fn tension_field(positions: &Vec<[f64; 3]>, coupling: f64) -> Vec<[f64; 3]> {
    let n = positions.len();
    let mut forces = vec![[0.0; 3]; n];
    for i in 0..n {
        let prev = if i == 0 { n - 1 } else { i - 1 };
        let next = (i + 1) % n;
        for d in 0..3 {
            let laplacian = positions[prev][d] - 2.0 * positions[i][d] + positions[next][d];
            forces[i][d] = coupling * laplacian;
        }
    }
    forces
}

fn verlet(positions: &mut Vec<[f64; 3]>, velocities: &mut Vec<[f64; 3]>, coupling: f64, dt: f64) {
    let n = positions.len();
    let dt2 = dt * dt;
    let forces = tension_field(positions, coupling);
    for i in 0..n {
        for d in 0..3 {
            positions[i][d] += velocities[i][d] * dt + 0.5 * forces[i][d] * dt2;
        }
    }
    let forces_new = tension_field(positions, coupling);
    for i in 0..n {
        for d in 0..3 {
            velocities[i][d] += 0.5 * (forces[i][d] + forces_new[i][d]) * dt;
            velocities[i][d] = velocities[i][d].clamp(-5.0, 5.0);
        }
    }
}

fn distance(a: [f64; 3], b: [f64; 3]) -> f64 {
    let dx = a[0] - b[0];
    let dy = a[1] - b[1];
    let dz = a[2] - b[2];
    (dx * dx + dy * dy + dz * dz).sqrt()
}

fn arc(positions: &Vec<[f64; 3]>) -> f64 {
    let n = positions.len();
    let mut total = 0.0;
    for i in 0..n {
        total += distance(positions[i], positions[(i + 1) % n]);
    }
    total
}

fn interpolate(points: &Vec<[f64; 3]>, target: usize) -> Vec<[f64; 3]> {
    let n = points.len();
    let mut out = Vec::new();
    for i in 0..target {
        let t = i as f64 / target as f64 * n as f64;
        let idx = t as usize % n;
        let frac = t - t.floor();
        let next = (idx + 1) % n;
        let mut p = [0.0; 3];
        for d in 0..3 {
            p[d] = points[idx][d] + frac * (points[next][d] - points[idx][d]);
        }
        out.push(p);
    }
    out
}

fn loop_energy(positions: &Vec<[f64; 3]>, velocities: &Vec<[f64; 3]>) -> f64 {
    let n = positions.len();
    let mut ke = 0.0f64;
    let mut pe = 0.0f64;
    for i in 0..n {
        let v = velocities[i];
        ke += 0.5 * (v[0] * v[0] + v[1] * v[1] + v[2] * v[2]);
        let next = (i + 1) % n;
        let dp = [
            positions[next][0] - positions[i][0],
            positions[next][1] - positions[i][1],
            positions[next][2] - positions[i][2],
        ];
        pe += (dp[0] * dp[0] + dp[1] * dp[1] + dp[2] * dp[2]).sqrt();
    }
    ke + pe
}

fn plain_points(points: &Vec<[Real; 3]>) -> Vec<[f64; 3]> {
    points.iter().map(plain).collect()
}

fn lengths(sim: &StringSimulation<Real, Constant>) -> Vec<usize> {
    sim.loops().iter().map(|lp| lp.positions.len()).collect()
}

fn identities(sim: &StringSimulation<Real, Constant>) -> Vec<u32> {
    sim.loops().iter().map(|lp| lp.color_id).collect()
}

#[test]
fn new_yields_two_seed_loops_of_64_and_48_points() {
    let sim = StringSimulation::new(Real(1.0), Constant(0.5));
    assert_eq!(sim.get_loop_count(), 2);
    assert_eq!(lengths(&sim), vec![64, 48]);
    assert_eq!(identities(&sim), vec![0, 1]);
    assert_eq!(sim.next_color_id(), 2);
    assert_eq!(sim.coupling(), Real(1.0));
    for lp in sim.loops() {
        assert_eq!(lp.velocities.len(), lp.positions.len());
        assert_eq!(lp.len(), lp.positions.len());
    }
}

#[test]
fn seed_loops_lie_on_the_seed_curve() {
    let sim = StringSimulation::new(Real(1.0), Constant(0.5));
    let sizes = [64usize, 48];
    for k in 0..2 {
        let (positions, velocities) = seed_positions(sizes[k], k as u32);
        assert_eq!(plain_points(&sim.loops()[k].positions), positions);
        assert_eq!(plain_points(&sim.loops()[k].velocities), velocities);
    }
}

#[test]
fn first_seed_point_has_the_exact_coordinates() {
    let lp: StringLoop<Real> = StringLoop::new(64, 0);
    assert_eq!(plain(&lp.positions[0]), [3.0, 0.5, 0.0]);
    assert_eq!(plain(&lp.velocities[0]), [-0.0, 0.3, 0.1]);
    let quarter = plain(&lp.positions[16]);
    assert!((quarter[0] - 0.0).abs() < 1e-12);
    assert!((quarter[1] - 3.0).abs() < 1e-12);
    assert!((quarter[2] - 1.5 * (std::f64::consts::PI / 4.0).sin()).abs() < 1e-12);
}

#[test]
fn seed_loop_of_no_points_is_empty() {
    let lp: StringLoop<Real> = StringLoop::new(0, 7);
    assert_eq!(lp.len(), 0);
    assert_eq!(lp.velocities.len(), 0);
    assert_eq!(lp.color_id, 7);
}

#[test]
fn dist3d_is_the_euclidean_distance() {
    assert_eq!(dist3d(point(0.0, 0.0, 0.0), point(3.0, 4.0, 0.0)), Real(5.0));
    assert_eq!(dist3d(point(1.0, 2.0, 3.0), point(1.0, 2.0, 3.0)), Real(0.0));
    assert_eq!(dist3d(point(1.0, 1.0, 1.0), point(2.0, 3.0, 3.0)), Real(3.0));
}

#[test]
fn advance_is_one_velocity_verlet_step() {
    let mut lp: StringLoop<Real> = StringLoop::new(64, 0);
    let (mut positions, mut velocities) = seed_positions(64, 0);
    for _ in 0..5 {
        lp.advance(Real(1.3), Real(0.016));
        verlet(&mut positions, &mut velocities, 1.3, 0.016);
        assert_eq!(plain_points(&lp.positions), positions);
        assert_eq!(plain_points(&lp.velocities), velocities);
    }
    assert_eq!(lp.color_id, 0);
}

#[test]
fn advance_of_a_straight_pair_uses_both_cyclic_neighbours() {
    let mut lp = StringLoop {
        positions: vec![point(0.0, 0.0, 0.0), point(1.0, 0.0, 0.0), point(4.0, 0.0, 0.0)],
        velocities: vec![point(0.0, 0.0, 0.0); 3],
        color_id: 0,
    };
    lp.advance(Real(2.0), Real(1.0));
    // tension on point 0: 2 * (4 - 2 * 0 + 1) = 10, on point 1: 2 * (0 - 2 + 4) = 4,
    // on point 2: 2 * (1 - 8 + 0) = -14; each moves by half the tension.
    assert_eq!(plain(&lp.positions[0]), [5.0, 0.0, 0.0]);
    assert_eq!(plain(&lp.positions[1]), [3.0, 0.0, 0.0]);
    assert_eq!(plain(&lp.positions[2]), [-3.0, 0.0, 0.0]);
    // new tensions: 2 * (-3 - 10 + 3) = -20, 2 * (5 - 6 - 3) = -8, 2 * (3 + 6 + 5) = 28;
    // velocities: mean of old and new tension, clamped to 5.
    assert_eq!(plain(&lp.velocities[0]), [-5.0, 0.0, 0.0]);
    assert_eq!(plain(&lp.velocities[1]), [-2.0, 0.0, 0.0]);
    assert_eq!(plain(&lp.velocities[2]), [5.0, 0.0, 0.0]);
}

#[test]
fn velocities_stay_within_five_whatever_the_step() {
    let mut lp: StringLoop<Real> = StringLoop::new(48, 1);
    for _ in 0..20 {
        lp.advance(Real(50.0), Real(3.0));
        for v in &lp.velocities {
            for d in 0..3 {
                assert!(v[d].0 >= -5.0 && v[d].0 <= 5.0);
            }
        }
    }
    let fastest = lp.velocities.iter().any(|v| v.iter().any(|c| c.0 == 5.0 || c.0 == -5.0));
    assert!(fastest);
}

#[test]
fn split_loop_cuts_into_the_two_index_ranges() {
    let lp: StringLoop<Real> = StringLoop::new(64, 0);
    let (a, b) = split_loop(&lp, 10, 40, 7, 8);
    assert_eq!(a.len(), 31);
    assert_eq!(b.len(), 35);
    assert_eq!(a.color_id, 7);
    assert_eq!(b.color_id, 8);
    assert_eq!(a.positions[..], lp.positions[10..=40]);
    assert_eq!(a.velocities[..], lp.velocities[10..=40]);
    assert_eq!(b.positions[..24], lp.positions[40..]);
    assert_eq!(b.positions[24..], lp.positions[..=10]);
    assert_eq!(b.velocities[..24], lp.velocities[40..]);
    assert_eq!(b.velocities[24..], lp.velocities[..=10]);
}

#[test]
fn children_of_a_split_hold_every_point_once_and_the_cut_points_twice() {
    let n = 50;
    let mut positions = Vec::new();
    for k in 0..n {
        positions.push(point(k as f64, 0.0, 0.0));
    }
    let lp = StringLoop { positions, velocities: vec![point(0.0, 0.0, 0.0); n], color_id: 3 };
    let (i, j) = (5, 30);
    let (a, b) = split_loop(&lp, i, j, 4, 5);
    assert!(a.len() >= MIN_LOOP_POINTS && b.len() >= MIN_LOOP_POINTS);
    assert_eq!(a.len() + b.len(), n + 2);
    let mut seen = vec![0usize; n];
    for p in a.positions.iter().chain(b.positions.iter()) {
        seen[p[0].0 as usize] += 1;
    }
    for k in 0..n {
        assert_eq!(seen[k], if k == i || k == j { 2 } else { 1 });
    }
}

#[test]
fn split_at_neighbouring_points_gives_a_pair_and_the_rest() {
    let lp: StringLoop<Real> = StringLoop::new(20, 0);
    let (a, b) = split_loop(&lp, 0, 1, 1, 2);
    assert_eq!(a.len(), 2);
    assert_eq!(b.len(), 20);
    assert_eq!(b.positions[..19], lp.positions[1..]);
    assert_eq!(b.positions[19], lp.positions[0]);
}

#[test]
fn resample_to_the_same_length_changes_nothing() {
    let lp: StringLoop<Real> = StringLoop::new(48, 1);
    let same = lp.resample(48);
    assert_eq!(same.positions, lp.positions);
    assert_eq!(same.velocities, lp.velocities);
    assert_eq!(same.color_id, lp.color_id);
}

#[test]
fn duplicate_is_an_equal_loop() {
    let lp: StringLoop<Real> = StringLoop::new(30, 9);
    let copy = lp.duplicate();
    assert_eq!(copy.positions, lp.positions);
    assert_eq!(copy.velocities, lp.velocities);
    assert_eq!(copy.color_id, 9);
}

#[test]
fn resample_interpolates_between_neighbours_by_index() {
    let n = 20;
    let mut positions = Vec::new();
    let mut velocities = Vec::new();
    for k in 0..n {
        positions.push(point(k as f64, 2.0 * k as f64, 0.0));
        velocities.push(point(0.0, 0.0, 10.0 * k as f64));
    }
    let lp = StringLoop { positions, velocities, color_id: 5 };
    let doubled = lp.resample(40);
    assert_eq!(doubled.len(), 40);
    assert_eq!(doubled.color_id, 5);
    assert!(near(&doubled.positions[0], [0.0, 0.0, 0.0]));
    assert!(near(&doubled.positions[1], [0.5, 1.0, 0.0]));
    assert!(near(&doubled.positions[2], [1.0, 2.0, 0.0]));
    assert!(near(&doubled.velocities[3], [0.0, 0.0, 15.0]));
    // the last point lies half way from the last source point back to the first
    assert!(near(&doubled.positions[39], [9.5, 19.0, 0.0]));
    let halved = lp.resample(10);
    assert_eq!(halved.len(), 10);
    for k in 0..10 {
        assert!(near(&halved.positions[k], [2.0 * k as f64, 4.0 * k as f64, 0.0]));
    }
}

#[test]
fn resample_matches_index_uniform_interpolation() {
    let lp: StringLoop<Real> = StringLoop::new(64, 0);
    let (positions, velocities) = seed_positions(64, 0);
    for target in [20usize, 37, 40, 63, 65, 100, 256] {
        let out = lp.resample(target);
        assert_eq!(plain_points(&out.positions), interpolate(&positions, target));
        assert_eq!(plain_points(&out.velocities), interpolate(&velocities, target));
    }
}

#[test]
fn resample_to_no_points_is_empty() {
    let lp: StringLoop<Real> = StringLoop::new(20, 0);
    let none = lp.resample(0);
    assert_eq!(none.len(), 0);
    assert_eq!(none.velocities.len(), 0);
}

#[test]
fn target_count_is_twice_the_arc_length_within_limits() {
    // a ring of radius 10 has an arc length of a little under 62.8: 125 points
    let lp = ring(100, 10.0, 0.0, 0);
    let expected = (arc(&plain_points(&lp.positions)) / 0.5) as usize;
    assert_eq!(expected, 125);
    assert_eq!(target_count(&lp.positions), 125);
    // a tiny ring asks for fewer points than a loop may have
    assert_eq!(target_count(&ring(30, 0.1, 0.0, 0).positions), MIN_LOOP_POINTS);
    // a huge ring asks for more
    assert_eq!(target_count(&ring(30, 1000.0, 0.0, 0).positions), MAX_LOOP_POINTS);
    // a square of side 5: arc length 20, 40 points
    let square = vec![point(0.0, 0.0, 0.0), point(5.0, 0.0, 0.0), point(5.0, 5.0, 0.0), point(0.0, 5.0, 0.0)];
    assert_eq!(target_count(&square), 40);
}

#[test]
fn keep_density_leaves_a_loop_within_the_slack() {
    // 125 is the target; 115 and 135 are within ten of it, 114 and 136 are not
    for (n, changes) in [(115usize, false), (135, false), (114, true), (136, true)] {
        let mut lp = ring(n, 10.0, 0.0, 2);
        let target = target_count(&lp.positions);
        let before = lp.duplicate();
        lp.keep_density();
        if changes {
            assert_eq!(lp.len(), target);
            assert_eq!(plain_points(&lp.positions), interpolate(&plain_points(&before.positions), target));
        } else {
            assert_eq!(lp.positions, before.positions);
            assert_eq!(lp.velocities, before.velocities);
        }
        assert_eq!(lp.color_id, 2);
    }
}

#[test]
fn find_contact_returns_the_first_qualifying_close_pair() {
    let lp = pinched(64, 10, 40, 0);
    assert_eq!(find_contact(&lp.positions), Some((10, 40)));
    // with an earlier close pair as well, the earlier one is found
    let mut two = pinched(64, 10, 40, 0);
    two.positions[5] = point(30.0, 0.0, 0.0);
    two.positions[35] = point(30.0, 0.0, 0.5);
    assert_eq!(find_contact(&two.positions), Some((5, 35)));
    // for the same first point the smaller second point is found
    let mut three = pinched(64, 10, 40, 0);
    three.positions[30] = point(0.0, -0.3, 50.0);
    assert_eq!(find_contact(&three.positions), Some((10, 30)));
}

#[test]
fn find_contact_needs_a_distance_below_the_threshold() {
    let mut lp = ring(64, 10.0, 0.0, 0);
    lp.positions[10] = point(0.0, 0.0, 50.0);
    lp.positions[40] = point(0.0, 0.8, 50.0);
    assert_eq!(find_contact(&lp.positions), None);
    lp.positions[40] = point(0.0, 0.79, 50.0);
    assert_eq!(find_contact(&lp.positions), Some((10, 40)));
}

#[test]
fn find_contact_skips_pairs_that_would_leave_a_short_child() {
    // points 10 and 28 would leave a first child of 19 points
    assert_eq!(find_contact(&pinched(64, 10, 28, 0).positions), None);
    assert_eq!(find_contact(&pinched(64, 10, 29, 0).positions), Some((10, 29)));
    // points 2 and 47 would leave a second child of 64 - 47 + 3 = 20 points
    assert_eq!(find_contact(&pinched(64, 2, 47, 0).positions), Some((2, 47)));
    assert_eq!(find_contact(&pinched(64, 2, 48, 0).positions), None);
    // the two ends of the index range are never cut
    assert_eq!(find_contact(&pinched(64, 0, 63, 0).positions), None);
    // a loop of 37 points has no pair that leaves two children of 20
    assert_eq!(find_contact(&pinched(37, 0, 18, 0).positions), None);
    // a loop of 38 points has exactly the pairs that are 19 apart
    assert_eq!(find_contact(&pinched(38, 3, 22, 0).positions), Some((3, 22)));
}

#[test]
fn find_contact_on_seed_loops_finds_nothing() {
    let a: StringLoop<Real> = StringLoop::new(64, 0);
    let b: StringLoop<Real> = StringLoop::new(48, 1);
    assert_eq!(find_contact(&a.positions), None);
    assert_eq!(find_contact(&b.positions), None);
}

#[test]
fn from_loops_accepts_what_is_well_formed() {
    let sim = StringSimulation::from_loops(
        vec![ring(20, 5.0, 0.0, 4), ring(256, 5.0, 0.0, 2)],
        Real(0.5),
        5,
        Constant(0.0),
    );
    let sim = sim.expect("two loops of permitted length");
    assert_eq!(lengths(&sim), vec![20, 256]);
    assert_eq!(identities(&sim), vec![4, 2]);
    assert_eq!(sim.next_color_id(), 5);
    assert_eq!(sim.coupling(), Real(0.5));
    assert!(StringSimulation::from_loops(Vec::<StringLoop<Real>>::new(), Real(0.5), 0, Constant(0.0)).is_some());
}

#[test]
fn from_loops_refuses_what_is_not_well_formed() {
    let make = |loops: Vec<StringLoop<Real>>, next: u32| {
        StringSimulation::from_loops(loops, Real(1.0), next, Constant(0.0)).is_some()
    };
    assert!(!make(vec![ring(19, 5.0, 0.0, 0)], 1));
    assert!(!make(vec![ring(257, 5.0, 0.0, 0)], 1));
    assert!(!make(vec![ring(30, 5.0, 0.0, 1), ring(30, 5.0, 0.0, 1)], 2));
    assert!(!make(vec![ring(30, 5.0, 0.0, 1)], 1));
    let mut uneven = ring(30, 5.0, 0.0, 0);
    uneven.velocities.pop();
    assert!(!make(vec![uneven], 1));
    let nine = (0..9).map(|k| ring(30, 5.0, 0.0, k)).collect();
    assert!(!make(nine, 9));
    let eight = (0..8).map(|k| ring(30, 5.0, 0.0, k)).collect();
    assert!(make(eight, 8));
}

#[test]
fn apply_splits_replaces_parents_by_children_with_fresh_identities() {
    let mut sim = StringSimulation::new(Real(1.0), Constant(0.5));
    let first = sim.loops()[0].duplicate();
    let second = sim.loops()[1].duplicate();
    sim.apply_splits(&vec![Some((0, 30)), None]);
    assert_eq!(lengths(&sim), vec![48, 31, 35]);
    assert_eq!(identities(&sim), vec![1, 2, 3]);
    assert_eq!(sim.next_color_id(), 4);
    assert_eq!(sim.loops()[0].positions, second.positions);
    assert_eq!(sim.loops()[1].positions[..], first.positions[0..=30]);
    assert_eq!(sim.loops()[2].positions[..34], first.positions[30..]);
    assert_eq!(sim.loops()[2].positions[34], first.positions[0]);
    assert_eq!(sim.loops()[2].velocities[34], first.velocities[0]);
}

#[test]
fn apply_splits_of_two_loops_issues_identities_in_order() {
    let mut sim = StringSimulation::new(Real(1.0), Constant(0.5));
    sim.apply_splits(&vec![Some((5, 40)), Some((10, 30))]);
    assert_eq!(lengths(&sim), vec![36, 30, 21, 29]);
    assert_eq!(identities(&sim), vec![2, 3, 4, 5]);
    assert_eq!(sim.next_color_id(), 6);
}

#[test]
fn apply_splits_drops_a_child_that_is_too_short() {
    let mut sim = StringSimulation::new(Real(1.0), Constant(0.5));
    // the first child has 11 points and is dropped; its identity is spent all the same
    sim.apply_splits(&vec![Some((0, 10)), None]);
    assert_eq!(lengths(&sim), vec![48, 55]);
    assert_eq!(identities(&sim), vec![1, 3]);
    assert_eq!(sim.next_color_id(), 4);
    // both children of this cut are too short, so the loop is lost
    let mut other = StringSimulation::from_loops(vec![ring(30, 5.0, 0.0, 0)], Real(1.0), 1, Constant(0.5))
        .expect("well formed");
    other.apply_splits(&vec![Some((5, 20))]);
    assert_eq!(lengths(&other), Vec::<usize>::new());
    assert_eq!(other.next_color_id(), 3);
}

#[test]
fn apply_splits_without_a_cut_changes_nothing() {
    let mut sim = StringSimulation::new(Real(1.0), Constant(0.5));
    let before = plain_points(&sim.loops()[0].positions);
    sim.apply_splits(&vec![None, None]);
    assert_eq!(lengths(&sim), vec![64, 48]);
    assert_eq!(identities(&sim), vec![0, 1]);
    assert_eq!(sim.next_color_id(), 2);
    assert_eq!(plain_points(&sim.loops()[0].positions), before);
}

#[test]
fn a_touching_loop_splits_when_the_draw_fires() {
    let parent = pinched(64, 10, 40, 0);
    let kept = ring(30, 5.0, 0.0, 1);
    let mut sim = StringSimulation::from_loops(
        vec![parent.duplicate(), kept.duplicate()],
        Real(1.0),
        2,
        Constant(0.29),
    )
    .expect("well formed");
    sim.check_intersections();
    assert_eq!(lengths(&sim), vec![30, 31, 35]);
    assert_eq!(identities(&sim), vec![1, 2, 3]);
    assert_eq!(sim.next_color_id(), 4);
    assert_eq!(sim.loops()[0].positions, kept.positions);
    assert_eq!(sim.loops()[1].positions[..], parent.positions[10..=40]);
    assert_eq!(sim.loops()[2].positions[..24], parent.positions[40..]);
    assert_eq!(sim.loops()[2].positions[24..], parent.positions[..=10]);
}

#[test]
fn a_touching_loop_stays_when_the_draw_does_not_fire() {
    // coupling 1: the chance is 0.3, and a draw of 0.3 is not below it
    let mut sim = StringSimulation::from_loops(vec![pinched(64, 10, 40, 0)], Real(1.0), 1, Constant(0.3))
        .expect("well formed");
    sim.check_intersections();
    assert_eq!(lengths(&sim), vec![64]);
    assert_eq!(identities(&sim), vec![0]);
    assert_eq!(sim.next_color_id(), 1);
}

#[test]
fn the_chance_of_a_split_is_the_coupling_times_three_tenths_at_most_eight_tenths() {
    let splits = |coupling: f64, draw: f64| {
        let mut sim = StringSimulation::from_loops(
            vec![pinched(64, 10, 40, 0)],
            Real(coupling),
            1,
            Constant(draw),
        )
        .expect("well formed");
        sim.check_intersections();
        sim.get_loop_count() == 2
    };
    assert!(splits(2.0, 0.59));
    assert!(!splits(2.0, 0.61));
    assert!(splits(100.0, 0.79));
    assert!(!splits(100.0, 0.8));
    assert!(!splits(100.0, 0.81));
    assert!(!splits(0.0, 0.0));
    assert!(!splits(-1.0, 0.0));
}

#[test]
fn one_draw_is_taken_for_every_loop_that_touches_itself() {
    let source = Script::new(vec![0.9, 0.1, 0.9]);
    let mut sim = StringSimulation::from_loops(
        vec![pinched(64, 10, 40, 0), ring(40, 5.0, 0.0, 1), pinched(50, 5, 30, 2), pinched(60, 0, 30, 3)],
        Real(1.0),
        4,
        source,
    )
    .expect("well formed");
    sim.check_intersections();
    let lens: Vec<usize> = sim.loops().iter().map(|lp| lp.positions.len()).collect();
    let ids: Vec<u32> = sim.loops().iter().map(|lp| lp.color_id).collect();
    // only the second draw fires: the loop of 50 points splits at (5, 30)
    assert_eq!(lens, vec![64, 40, 60, 26, 26]);
    assert_eq!(ids, vec![0, 1, 3, 4, 5]);
    assert_eq!(sim.next_color_id(), 6);
}

#[test]
fn no_loop_is_scanned_once_eight_loops_are_active() {
    let loops: Vec<StringLoop<Real>> = (0..8).map(|k| pinched(64, 10, 40, k)).collect();
    let source = Script::new(vec![]);
    let mut sim = StringSimulation::from_loops(loops, Real(1.0), 8, source).expect("well formed");
    sim.check_intersections();
    assert_eq!(sim.get_loop_count() as usize, MAX_LOOPS);
    let ids: Vec<u32> = sim.loops().iter().map(|lp| lp.color_id).collect();
    assert_eq!(ids, vec![0, 1, 2, 3, 4, 5, 6, 7]);
    assert_eq!(sim.next_color_id(), 8);
    for lp in sim.loops() {
        assert_eq!(lp.len(), 64);
    }
}

#[test]
fn the_scan_stops_when_the_number_of_loops_reaches_eight() {
    let loops: Vec<StringLoop<Real>> = (0..6).map(|k| pinched(64, 10, 40, k)).collect();
    let mut sim = StringSimulation::from_loops(loops, Real(1.0), 6, Constant(0.0)).expect("well formed");
    sim.check_intersections();
    // the first two loops split; then eight loops are active and the rest is left alone
    assert_eq!(lengths(&sim), vec![64, 64, 64, 64, 31, 35, 31, 35]);
    assert_eq!(identities(&sim), vec![2, 3, 4, 5, 6, 7, 8, 9]);
    assert_eq!(sim.next_color_id(), 10);
}

#[test]
fn no_split_is_made_when_fewer_than_two_identities_are_left() {
    let mut sim = StringSimulation::from_loops(
        vec![pinched(64, 10, 40, 0)],
        Real(1.0),
        u32::MAX - 1,
        Constant(0.0),
    )
    .expect("well formed");
    sim.check_intersections();
    assert_eq!(lengths(&sim), vec![64]);
    assert_eq!(sim.next_color_id(), u32::MAX - 1);
    let mut room = StringSimulation::from_loops(
        vec![pinched(64, 10, 40, 0)],
        Real(1.0),
        u32::MAX - 2,
        Constant(0.0),
    )
    .expect("well formed");
    room.check_intersections();
    assert_eq!(identities(&room), vec![u32::MAX - 2, u32::MAX - 1]);
    assert_eq!(room.next_color_id(), u32::MAX);
}

#[test]
fn resample_loops_brings_every_loop_to_its_target() {
    let mut sim = StringSimulation::new(Real(1.0), Constant(0.5));
    let (first, _) = seed_positions(64, 0);
    let (second, _) = seed_positions(48, 1);
    assert_eq!((arc(&first) / 0.5) as usize, 40);
    assert_eq!((arc(&second) / 0.5) as usize, 43);
    sim.resample_loops();
    // 64 points are more than ten from 40; 48 points are within ten of 43
    assert_eq!(lengths(&sim), vec![40, 48]);
    assert_eq!(identities(&sim), vec![0, 1]);
    assert_eq!(plain_points(&sim.loops()[0].positions), interpolate(&first, 40));
    assert_eq!(plain_points(&sim.loops()[1].positions), second);
}

#[test]
fn step_advances_then_splits_then_resamples() {
    let mut sim = StringSimulation::new(Real(1.0), Constant(0.5));
    let (mut p0, mut v0) = seed_positions(64, 0);
    let (mut p1, mut v1) = seed_positions(48, 1);
    for _ in 0..3 {
        sim.step(Real(0.016));
        verlet(&mut p0, &mut v0, 1.0, 0.016);
        verlet(&mut p1, &mut v1, 1.0, 0.016);
        let t0 = ((arc(&p0) / 0.5) as usize).max(20).min(256);
        if (t0 as i64 - p0.len() as i64).abs() > 10 {
            v0 = interpolate(&v0, t0);
            p0 = interpolate(&p0, t0);
        }
        let t1 = ((arc(&p1) / 0.5) as usize).max(20).min(256);
        if (t1 as i64 - p1.len() as i64).abs() > 10 {
            v1 = interpolate(&v1, t1);
            p1 = interpolate(&p1, t1);
        }
        assert_eq!(sim.get_loop_count(), 2);
        assert_eq!(plain_points(&sim.loops()[0].positions), p0);
        assert_eq!(plain_points(&sim.loops()[0].velocities), v0);
        assert_eq!(plain_points(&sim.loops()[1].positions), p1);
        assert_eq!(plain_points(&sim.loops()[1].velocities), v1);
    }
}

#[test]
fn loops_keep_a_permitted_length_and_their_number_stays_at_most_eight() {
    let source = Script::new((0..4000).map(|k| (k % 10) as f64 / 10.0).collect());
    let mut sim = StringSimulation::new(Real(2.5), source);
    let mut highest = 0;
    for _ in 0..400 {
        sim.step(Real(0.05));
        assert!(sim.get_loop_count() as usize <= MAX_LOOPS);
        let mut ids: Vec<u32> = sim.loops().iter().map(|lp| lp.color_id).collect();
        for lp in sim.loops() {
            assert!(lp.len() >= MIN_LOOP_POINTS && lp.len() <= MAX_LOOP_POINTS);
            assert_eq!(lp.velocities.len(), lp.len());
            assert!(lp.color_id < sim.next_color_id());
        }
        ids.sort();
        ids.dedup();
        assert_eq!(ids.len(), sim.get_loop_count() as usize);
        assert!(sim.next_color_id() >= highest);
        highest = sim.next_color_id();
    }
}

#[test]
fn identities_are_never_issued_twice() {
    let loops: Vec<StringLoop<Real>> = vec![pinched(64, 10, 40, 0), pinched(64, 12, 42, 1)];
    let mut sim = StringSimulation::from_loops(loops, Real(3.0), 2, Constant(0.0)).expect("well formed");
    let mut issued: Vec<u32> = vec![0, 1];
    let mut last = sim.next_color_id();
    for _ in 0..6 {
        let before: Vec<u32> = sim.loops().iter().map(|lp| lp.color_id).collect();
        sim.check_intersections();
        for lp in sim.loops() {
            if !before.contains(&lp.color_id) {
                assert!(!issued.contains(&lp.color_id));
                assert!(lp.color_id >= last);
                issued.push(lp.color_id);
            }
        }
        assert!(sim.next_color_id() >= last);
        last = sim.next_color_id();
    }
    let mut sorted = issued.clone();
    sorted.sort();
    assert_eq!(sorted, issued);
    assert_eq!(issued, vec![0, 1, 2, 3, 4, 5]);
}

#[test]
fn set_coupling_changes_the_tension_and_the_chance_of_a_split() {
    let mut sim = StringSimulation::from_loops(vec![pinched(64, 10, 40, 0)], Real(1.0), 1, Constant(0.5))
        .expect("well formed");
    sim.check_intersections();
    assert_eq!(sim.get_loop_count(), 1);
    sim.set_coupling(Real(2.0));
    assert_eq!(sim.coupling(), Real(2.0));
    assert_eq!(lengths(&sim), vec![64]);
    sim.check_intersections();
    assert_eq!(sim.get_loop_count(), 2);

    let mut still = StringSimulation::new(Real(1.0), Constant(0.5));
    still.set_coupling(Real(0.0));
    let (mut p0, mut v0) = seed_positions(64, 0);
    still.advance_loops(Real(0.1));
    verlet(&mut p0, &mut v0, 0.0, 0.1);
    assert_eq!(plain_points(&still.loops()[0].positions), p0);
    assert_eq!(plain_points(&still.loops()[0].velocities), v0);
}

#[test]
fn get_positions_is_count_then_length_identity_and_coordinates_of_every_loop() {
    let sim = StringSimulation::new(Real(1.0), Constant(0.5));
    let out = sim.get_positions();
    assert_eq!(out.len(), 1 + (2 + 3 * 64) + (2 + 3 * 48));
    assert_eq!(out[0], Real(2.0));
    assert_eq!(out[1], Real(64.0));
    assert_eq!(out[2], Real(0.0));
    let (first, _) = seed_positions(64, 0);
    for k in 0..64 {
        for d in 0..3 {
            assert_eq!(out[3 + 3 * k + d].0, first[k][d]);
        }
    }
    assert_eq!(out[195], Real(48.0));
    assert_eq!(out[196], Real(1.0));
    let (second, _) = seed_positions(48, 1);
    for k in 0..48 {
        for d in 0..3 {
            assert_eq!(out[197 + 3 * k + d].0, second[k][d]);
        }
    }
}

#[test]
fn get_velocities_mag_is_count_then_length_and_speeds_of_every_loop() {
    let mut fast = ring(20, 5.0, 0.0, 0);
    fast.velocities[0] = point(3.0, 4.0, 0.0);
    fast.velocities[19] = point(1.0, 2.0, 2.0);
    let sim = StringSimulation::from_loops(vec![fast, ring(25, 5.0, 0.0, 1)], Real(1.0), 2, Constant(0.5))
        .expect("well formed");
    let out = sim.get_velocities_mag();
    assert_eq!(out.len(), 1 + (1 + 20) + (1 + 25));
    assert_eq!(out[0], Real(2.0));
    assert_eq!(out[1], Real(20.0));
    assert_eq!(out[2], Real(5.0));
    assert_eq!(out[3], Real(0.0));
    assert_eq!(out[21], Real(3.0));
    assert_eq!(out[22], Real(25.0));
    assert_eq!(out[47], Real(0.0));
    let seeds = StringSimulation::new(Real(1.0), Constant(0.5));
    let speeds = seeds.get_velocities_mag();
    let (_, velocities) = seed_positions(64, 0);
    for k in 0..64 {
        let v = velocities[k];
        assert_eq!(speeds[2 + k].0, (v[0] * v[0] + v[1] * v[1] + v[2] * v[2]).sqrt());
    }
}

#[test]
fn reports_of_no_loops_hold_only_the_count() {
    let sim = StringSimulation::from_loops(Vec::<StringLoop<Real>>::new(), Real(1.0), 0, Constant(0.5))
        .expect("well formed");
    assert_eq!(sim.get_positions(), vec![Real(0.0)]);
    assert_eq!(sim.get_velocities_mag(), vec![Real(0.0)]);
    assert_eq!(sim.get_total_energy(), Real(0.0));
    assert_eq!(sim.get_loop_count(), 0);
}

#[test]
fn energy_is_kinetic_energy_plus_arc_length() {
    // a square of side 5 at rest, but for one point that moves at speed 5
    let mut lp = StringLoop {
        positions: vec![point(0.0, 0.0, 0.0), point(5.0, 0.0, 0.0), point(5.0, 5.0, 0.0), point(0.0, 5.0, 0.0)],
        velocities: vec![point(0.0, 0.0, 0.0); 4],
        color_id: 0,
    };
    assert_eq!(lp.energy(), Real(20.0));
    lp.velocities[2] = point(3.0, 0.0, 4.0);
    assert_eq!(lp.energy(), Real(32.5));
    let seed: StringLoop<Real> = StringLoop::new(64, 0);
    let (positions, velocities) = seed_positions(64, 0);
    assert_eq!(seed.energy().0, loop_energy(&positions, &velocities));
}

#[test]
fn total_energy_is_the_sum_over_the_loops() {
    let sim = StringSimulation::new(Real(1.0), Constant(0.5));
    let (p0, v0) = seed_positions(64, 0);
    let (p1, v1) = seed_positions(48, 1);
    let expected = 0.0 + loop_energy(&p0, &v0) + loop_energy(&p1, &v1);
    assert_eq!(sim.get_total_energy().0, expected);
}

#[test]
fn positive_is_above_zero() {
    assert!(positive(Real(0.016)));
    assert!(positive(Real(f64::MIN_POSITIVE)));
    assert!(positive(Real(f64::INFINITY)));
    assert!(!positive(Real(0.0)));
    assert!(!positive(Real(-0.0)));
    assert!(!positive(Real(-1.0)));
    assert!(!positive(Real(f64::NAN)));
}
