use std::cell::Cell;
use string_theory::matrix_physics::{
    commutator, forces_on, symmetrize, MatrixError, MatrixSimulation,
};
use string_theory::scalar::{Scalar, UniformSource};

#[derive(Clone, Copy, Debug, PartialEq)]
struct Real(f64);

impl Scalar for Real {
    fn number(n: usize) -> Self {
        Real(n as f64)
    }
    fn hundredths(h: u32) -> Self {
        Real(h as f64 / 100.0)
    }
    fn pi() -> Self {
        Real(std::f64::consts::PI)
    }
    fn sum(self, other: Self) -> Self {
        Real(self.0 + other.0)
    }
    fn difference(self, other: Self) -> Self {
        Real(self.0 - other.0)
    }
    fn product(self, other: Self) -> Self {
        Real(self.0 * other.0)
    }
    fn quotient(self, other: Self) -> Self {
        Real(self.0 / other.0)
    }
    fn negated(self) -> Self {
        Real(-self.0)
    }
    fn square_root(self) -> Self {
        Real(self.0.sqrt())
    }
    fn sine(self) -> Self {
        Real(self.0.sin())
    }
    fn cosine(self) -> Self {
        Real(self.0.cos())
    }
    fn less_than(self, other: Self) -> bool {
        self.0 < other.0
    }
    fn truncated(self) -> usize {
        self.0 as usize
    }
}

/// A linear congruential generator of draws in the range from zero to one.
struct Lcg {
    state: Cell<u64>,
    taken: Cell<usize>,
}

impl Lcg {
    fn new(seed: u64) -> Self {
        Lcg { state: Cell::new(seed), taken: Cell::new(0) }
    }

    fn next(&self) -> f64 {
        let s = self.state.get().wrapping_mul(6364136223846793005).wrapping_add(1442695040888963407);
        self.state.set(s);
        self.taken.set(self.taken.get() + 1);
        (s >> 11) as f64 / (1u64 << 53) as f64
    }
}

impl UniformSource<Real> for Lcg {
    fn draw(&self) -> Real {
        Real(self.next())
    }
}

/// Always the same draw.
struct Constant(f64);

impl UniformSource<Real> for Constant {
    fn draw(&self) -> Real {
        Real(self.0)
    }
}

fn reals(values: &[f64]) -> Vec<Real> {
    values.iter().map(|v| Real(*v)).collect()
}

fn plain(values: &Vec<Real>) -> Vec<f64> {
    values.iter().map(|v| v.0).collect()
}

fn plain_all(values: &Vec<Vec<Real>>) -> Vec<Vec<f64>> {
    values.iter().map(plain).collect()
}

fn bracket(a: &[f64], b: &[f64], n: usize) -> Vec<f64> {
    let mut result = vec![0.0f64; n * n];
    for i in 0..n {
        for j in 0..n {
            let mut ab = 0.0f64;
            let mut ba = 0.0f64;
            for k in 0..n {
                ab += a[i * n + k] * b[k * n + j];
                ba += b[i * n + k] * a[k * n + j];
            }
            result[i * n + j] = ab - ba;
        }
    }
    result
}

fn forces_of(x: &Vec<Vec<f64>>, n: usize, coupling: f64, mass: f64) -> Vec<Vec<f64>> {
    let mut forces = vec![vec![0.0f64; n * n]; 3];
    for i in 0..3 {
        for j in 0..3 {
            if i == j {
                continue;
            }
            let inner = bracket(&x[j], &x[i], n);
            let double = bracket(&x[j], &inner, n);
            for idx in 0..(n * n) {
                forces[i][idx] += coupling * coupling * double[idx];
            }
        }
        for idx in 0..(n * n) {
            forces[i][idx] -= mass * mass * x[i][idx];
        }
        for idx in 0..(n * n) {
            forces[i][idx] = forces[i][idx].clamp(-2.0, 2.0);
        }
    }
    forces
}

struct Model {
    n: usize,
    x: Vec<Vec<f64>>,
    p: Vec<Vec<f64>>,
    mass: f64,
    coupling: f64,
    damping: f64,
}

impl Model {
    fn new(n: usize, coupling: f64, mass: f64, source: &Lcg) -> Self {
        let mut x = vec![vec![0.0f64; n * n]; 3];
        let p = vec![vec![0.0f64; n * n]; 3];
        let scale = 0.1 / (n as f64).sqrt();
        for i in 0..3 {
            for a in 0..n {
                for b in a..n {
                    let val = (source.next() - 0.5) * scale;
                    x[i][a * n + b] = val;
                    x[i][b * n + a] = val;
                }
            }
        }
        Model { n, x, p, mass, coupling, damping: 0.08 }
    }

    fn step(&mut self, dt: f64) {
        let n = self.n;
        let dt2 = dt * dt;
        let forces = forces_of(&self.x, n, self.coupling, self.mass);
        for i in 0..3 {
            for idx in 0..(n * n) {
                let dx = self.p[i][idx] * dt + 0.5 * forces[i][idx] * dt2;
                self.x[i][idx] += dx.clamp(-0.15, 0.15);
            }
        }
        let forces_new = forces_of(&self.x, n, self.coupling, self.mass);
        let damp = 1.0 - self.damping * dt;
        for i in 0..3 {
            for idx in 0..(n * n) {
                let dp = 0.5 * (forces[i][idx] + forces_new[i][idx]) * dt;
                self.p[i][idx] = (damp * (self.p[i][idx] + dp)).clamp(-3.0, 3.0);
            }
        }
        for i in 0..3 {
            for a in 0..n {
                for b in (a + 1)..n {
                    let avg = 0.5 * (self.x[i][a * n + b] + self.x[i][b * n + a]);
                    self.x[i][a * n + b] = avg;
                    self.x[i][b * n + a] = avg;
                }
            }
        }
    }

    fn poke(&mut self, strength: f64, source: &Lcg) {
        let n = self.n;
        for i in 0..3 {
            for a in 0..n {
                for b in a..n {
                    let kick = (source.next() - 0.5) * strength;
                    self.p[i][a * n + b] = (self.p[i][a * n + b] + kick).clamp(-3.0, 3.0);
                    self.p[i][b * n + a] = self.p[i][a * n + b];
                }
            }
        }
    }

    fn energy(&self) -> f64 {
        let n = self.n;
        let mut ke = 0.0f64;
        let mut potential = 0.0f64;
        for i in 0..3 {
            for idx in 0..(n * n) {
                ke += 0.5 * self.p[i][idx] * self.p[i][idx];
                potential += 0.5 * self.mass * self.mass * self.x[i][idx] * self.x[i][idx];
            }
        }
        for i in 0..3 {
            for j in (i + 1)..3 {
                let comm = bracket(&self.x[i], &self.x[j], n);
                for idx in 0..(n * n) {
                    potential -= 0.25 * self.coupling * self.coupling * comm[idx] * comm[idx];
                }
            }
        }
        ke + potential
    }
}

fn is_symmetric(m: &Vec<Real>, n: usize) -> bool {
    (0..n).all(|a| (0..n).all(|b| m[a * n + b] == m[b * n + a]))
}

#[test]
fn size_zero_is_refused() {
    let made = MatrixSimulation::new(0, Real(1.0), Real(1.0), Lcg::new(1));
    assert!(matches!(made, Err(MatrixError::ZeroSize)));
    assert!(MatrixSimulation::new(1, Real(1.0), Real(1.0), Lcg::new(1)).is_ok());
}

#[test]
fn a_new_model_of_size_four_is_small_symmetric_and_at_rest() {
    let sim = MatrixSimulation::new(4, Real(1.0), Real(1.0), Lcg::new(7)).ok().expect("size four");
    assert_eq!(sim.size(), 4);
    let eigenvalues = sim.get_eigenvalues();
    assert_eq!(eigenvalues.len(), 12);
    for v in &eigenvalues {
        assert!(v.0.abs() <= 0.05);
    }
    assert!(sim.get_energy().0.is_finite());
    assert_eq!(sim.matrices().len(), 3);
    assert_eq!(sim.momenta().len(), 3);
    for i in 0..3 {
        assert_eq!(sim.matrices()[i].len(), 16);
        assert!(is_symmetric(&sim.matrices()[i], 4));
        assert!(sim.matrices()[i].iter().all(|v| v.0.abs() <= 0.025));
        assert!(sim.matrices()[i].iter().any(|v| v.0 != 0.0));
        assert_eq!(plain(&sim.momenta()[i]), vec![0.0; 16]);
    }
}

#[test]
fn initial_entries_are_the_draws_scaled_by_a_tenth_over_root_n() {
    let sim = MatrixSimulation::new(4, Real(1.0), Real(1.0), Constant(0.75)).ok().expect("size four");
    for i in 0..3 {
        assert_eq!(plain(&sim.matrices()[i]), vec![0.0125; 16]);
    }
    let low = MatrixSimulation::new(1, Real(1.0), Real(1.0), Constant(0.0)).ok().expect("size one");
    assert_eq!(plain_all(low.matrices()), vec![vec![-0.05]; 3]);
    let source = Lcg::new(11);
    let sim = MatrixSimulation::new(3, Real(1.0), Real(1.0), Lcg::new(11)).ok().expect("size three");
    let model = Model::new(3, 1.0, 1.0, &source);
    assert_eq!(plain_all(sim.matrices()), model.x);
    // one draw for every entry on or above the diagonal of every matrix
    assert_eq!(source.taken.get(), 18);
}

#[test]
fn commutator_of_two_by_two_matrices() {
    let a = reals(&[1.0, 2.0, 3.0, 4.0]);
    let b = reals(&[0.0, 1.0, 1.0, 0.0]);
    // a b = [2 1; 4 3], b a = [3 4; 1 2]
    assert_eq!(plain(&commutator(&a, &b, 2)), vec![-1.0, -3.0, 3.0, 1.0]);
    assert_eq!(plain(&commutator(&b, &a, 2)), vec![1.0, 3.0, -3.0, -1.0]);
    assert_eq!(plain(&commutator(&a, &a, 2)), vec![0.0; 4]);
    assert_eq!(commutator(&Vec::<Real>::new(), &Vec::<Real>::new(), 0), Vec::<Real>::new());
    assert_eq!(plain(&commutator(&reals(&[3.0]), &reals(&[5.0]), 1)), vec![0.0]);
}

#[test]
fn commutator_sums_the_products_in_order() {
    let source = Lcg::new(5);
    let a: Vec<f64> = (0..25).map(|_| source.next() - 0.5).collect();
    let b: Vec<f64> = (0..25).map(|_| source.next() - 0.5).collect();
    assert_eq!(plain(&commutator(&reals(&a), &reals(&b), 5)), bracket(&a, &b, 5));
}

#[test]
fn forces_are_double_commutators_less_the_mass_term_clamped_to_two() {
    // size one: all commutators vanish, and the force is minus the squared mass times the entry
    let x = vec![reals(&[0.5]), reals(&[-0.25]), reals(&[3.0])];
    let f = forces_on(&x, 1, Real(7.0), Real(2.0));
    assert_eq!(plain_all(&f), vec![vec![-2.0], vec![1.0], vec![-2.0]]);
    let source = Lcg::new(3);
    let x: Vec<Vec<f64>> = (0..3).map(|_| (0..9).map(|_| (source.next() - 0.5) * 3.0).collect()).collect();
    let xs: Vec<Vec<Real>> = x.iter().map(|m| reals(m)).collect();
    let f = forces_on(&xs, 3, Real(1.5), Real(0.5));
    assert_eq!(plain_all(&f), forces_of(&x, 3, 1.5, 0.5));
    assert!(f.iter().all(|m| m.iter().all(|v| v.0 >= -2.0 && v.0 <= 2.0)));
    assert!(f.iter().any(|m| m.iter().any(|v| v.0 == 2.0 || v.0 == -2.0)));
}

#[test]
fn symmetrize_averages_mirror_entries_and_keeps_the_diagonal() {
    let m = reals(&[1.0, 2.0, 3.0, 4.0, 5.0, 6.0, 8.0, 10.0, 9.0]);
    let s = symmetrize(&m, 3);
    assert_eq!(plain(&s), vec![1.0, 3.0, 5.5, 3.0, 5.0, 8.0, 5.5, 8.0, 9.0]);
    assert!(is_symmetric(&s, 3));
    assert_eq!(plain(&symmetrize(&reals(&[4.0]), 1)), vec![4.0]);
    assert_eq!(symmetrize(&s, 3), s);
}

#[test]
fn matrices_are_symmetric_after_every_step() {
    for n in [1u32, 2, 3, 5] {
        let mut sim = MatrixSimulation::new(n, Real(2.0), Real(1.0), Lcg::new(n as u64)).ok().expect("size");
        sim.poke(Real(1.0));
        for _ in 0..50 {
            sim.step(Real(0.05));
            for i in 0..3 {
                assert_eq!(sim.matrices()[i].len(), (n * n) as usize);
                assert!(is_symmetric(&sim.matrices()[i], n as usize));
            }
        }
    }
}

#[test]
fn step_is_the_clamped_velocity_verlet_scheme() {
    let source = Lcg::new(21);
    let mut model = Model::new(3, 1.2, 0.8, &source);
    let mut sim = MatrixSimulation::new(3, Real(1.2), Real(0.8), Lcg::new(21)).ok().expect("size three");
    model.poke(0.7, &source);
    sim.poke(Real(0.7));
    assert_eq!(plain_all(sim.momenta()), model.p);
    for _ in 0..25 {
        model.step(0.03);
        sim.step(Real(0.03));
        assert_eq!(plain_all(sim.matrices()), model.x);
        assert_eq!(plain_all(sim.momenta()), model.p);
    }
    assert_eq!(sim.get_energy().0, model.energy());
}

#[test]
fn one_entry_under_the_mass_term_alone() {
    // size one, entry -0.05, mass 2, at rest: force 0.2, move 0.5 * 0.2 * 0.25 = 0.025
    let mut sim = MatrixSimulation::new(1, Real(1.0), Real(2.0), Constant(0.0)).ok().expect("size one");
    sim.step(Real(0.5));
    for i in 0..3 {
        let x = sim.matrices()[i][0].0;
        let p = sim.momenta()[i][0].0;
        assert!((x - -0.025).abs() < 1e-15);
        // new force 0.1; momentum (1 - 0.04) * 0.5 * (0.2 + 0.1) * 0.5
        assert!((p - 0.96 * 0.075).abs() < 1e-15);
    }
}

#[test]
fn a_huge_step_leaves_everything_within_the_bounds() {
    let mut sim = MatrixSimulation::new(4, Real(50.0), Real(30.0), Lcg::new(2)).ok().expect("size four");
    sim.poke(Real(100.0));
    let before = plain_all(sim.matrices());
    sim.step(Real(1000.0));
    for i in 0..3 {
        for idx in 0..16 {
            assert!(sim.momenta()[i][idx].0.abs() <= 3.0);
        }
        for a in 0..4 {
            // the diagonal is not averaged: it has moved by at most the step bound
            let moved = sim.matrices()[i][a * 4 + a].0 - before[i][a * 4 + a];
            assert!(moved.abs() <= 0.15 + 1e-12);
        }
        assert!(sim.matrices()[i].iter().all(|v| v.0.abs() <= 0.025 + 0.15 + 1e-12));
    }
    for v in sim.get_eigenvalues() {
        assert!(v.0.abs() <= 0.175 + 1e-12);
    }
    let connections = sim.get_connections();
    for k in 0..connections.len() / 3 {
        assert!(connections[3 * k + 2].0 <= 3.0f64.sqrt() * 0.175 + 1e-12);
    }
    assert!(sim.get_energy().0.is_finite());
    let forces = sim.compute_forces();
    assert!(forces.iter().all(|m| m.iter().all(|v| v.0.abs() <= 2.0)));
}

#[test]
fn poke_kicks_symmetrically_and_within_the_momentum_bound() {
    let source = Lcg::new(9);
    let mut model = Model::new(3, 1.0, 1.0, &source);
    let mut sim = MatrixSimulation::new(3, Real(1.0), Real(1.0), Lcg::new(9)).ok().expect("size three");
    let x = plain_all(sim.matrices());
    model.poke(0.5, &source);
    sim.poke(Real(0.5));
    assert_eq!(plain_all(sim.momenta()), model.p);
    assert_eq!(plain_all(sim.matrices()), x);
    for i in 0..3 {
        assert!(is_symmetric(&sim.momenta()[i], 3));
        assert!(sim.momenta()[i].iter().all(|v| v.0.abs() <= 0.25));
    }
    sim.poke(Real(1000.0));
    for i in 0..3 {
        assert!(is_symmetric(&sim.momenta()[i], 3));
        assert!(sim.momenta()[i].iter().all(|v| v.0.abs() <= 3.0));
        assert!(sim.momenta()[i].iter().any(|v| v.0.abs() == 3.0));
    }
    let mut up = MatrixSimulation::new(2, Real(1.0), Real(1.0), Constant(1.0)).ok().expect("size two");
    up.poke(Real(4.0));
    assert_eq!(plain_all(up.momenta()), vec![vec![2.0; 4]; 3]);
    up.poke(Real(4.0));
    assert_eq!(plain_all(up.momenta()), vec![vec![3.0; 4]; 3]);
}

#[test]
fn eigenvalues_are_the_diagonals_index_by_index() {
    let sim = MatrixSimulation::new(3, Real(1.0), Real(1.0), Lcg::new(4)).ok().expect("size three");
    let out = sim.get_eigenvalues();
    assert_eq!(out.len(), 9);
    for a in 0..3 {
        for i in 0..3 {
            assert_eq!(out[a * 3 + i], sim.matrices()[i][a * 3 + a]);
        }
    }
    let one = MatrixSimulation::new(1, Real(1.0), Real(1.0), Constant(0.0)).ok().expect("size one");
    assert_eq!(plain(&one.get_eigenvalues()), vec![-0.05, -0.05, -0.05]);
}

#[test]
fn connections_are_triples_for_every_pair_in_order() {
    let sim = MatrixSimulation::new(4, Real(1.0), Real(1.0), Lcg::new(6)).ok().expect("size four");
    let out = sim.get_connections();
    assert_eq!(out.len(), 18);
    let pairs = [(0usize, 1usize), (0, 2), (0, 3), (1, 2), (1, 3), (2, 3)];
    for (k, (a, b)) in pairs.iter().enumerate() {
        assert_eq!(out[3 * k], Real(*a as f64));
        assert_eq!(out[3 * k + 1], Real(*b as f64));
        let mut strength = 0.0f64;
        for i in 0..3 {
            let v = sim.matrices()[i][a * 4 + b].0;
            strength += v * v;
        }
        assert_eq!(out[3 * k + 2], Real(strength.sqrt()));
    }
    let one = MatrixSimulation::new(1, Real(1.0), Real(1.0), Lcg::new(6)).ok().expect("size one");
    assert_eq!(one.get_connections(), Vec::<Real>::new());
    let flat = MatrixSimulation::new(2, Real(1.0), Real(1.0), Constant(0.75)).ok().expect("size two");
    let c = flat.get_connections();
    assert_eq!(c.len(), 3);
    let entry = 0.25 * (0.1 / 2.0f64.sqrt());
    assert_eq!(c[2].0, (entry * entry + entry * entry + entry * entry).sqrt());
}

#[test]
fn energy_is_the_hamiltonian() {
    // size one at rest: only the confinement term, 0.5 * mass^2 * x^2 for each matrix
    let sim = MatrixSimulation::new(1, Real(5.0), Real(2.0), Constant(0.0)).ok().expect("size one");
    let term: f64 = 0.5 * 2.0 * 2.0 * -0.05 * -0.05;
    assert_eq!(sim.get_energy().0, 0.0 + term + term + term);
    let source = Lcg::new(13);
    let mut model = Model::new(4, 1.7, 0.9, &source);
    let mut sim = MatrixSimulation::new(4, Real(1.7), Real(0.9), Lcg::new(13)).ok().expect("size four");
    assert_eq!(sim.get_energy().0, model.energy());
    model.poke(1.0, &source);
    sim.poke(Real(1.0));
    assert_eq!(sim.get_energy().0, model.energy());
}

#[test]
fn energy_may_be_negative() {
    let mut sim = MatrixSimulation::new(3, Real(1.0), Real(0.0), Lcg::new(17)).ok().expect("size three");
    for _ in 0..5 {
        sim.step(Real(0.1));
    }
    sim.set_coupling(Real(1000.0));
    let zero = MatrixSimulation::new(3, Real(1.0), Real(0.0), Lcg::new(17)).ok().expect("size three");
    assert!(zero.get_energy().0 <= 0.0);
    assert!(sim.get_energy().0 < 0.0);
}

#[test]
fn set_coupling_and_set_mass_change_what_follows() {
    let source = Lcg::new(19);
    let mut model = Model::new(3, 1.0, 1.0, &source);
    let mut sim = MatrixSimulation::new(3, Real(1.0), Real(1.0), Lcg::new(19)).ok().expect("size three");
    let x = plain_all(sim.matrices());
    sim.set_coupling(Real(3.0));
    sim.set_mass(Real(0.25));
    model.coupling = 3.0;
    model.mass = 0.25;
    assert_eq!(plain_all(sim.matrices()), x);
    assert_eq!(sim.get_energy().0, model.energy());
    for _ in 0..5 {
        sim.step(Real(0.02));
        model.step(0.02);
    }
    assert_eq!(plain_all(sim.matrices()), model.x);
    assert_eq!(plain_all(sim.momenta()), model.p);
}
