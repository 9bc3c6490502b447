//! The bosonic matrix model: three symmetric `n`×`n` matrices, stored row by
//! row, and their momenta, advanced by a clamped velocity-Verlet scheme whose
//! forces are nested commutators.

use crate::scalar::{
    clamped, difference, evaluates, hundredths, is_draw, is_positive, lemma_clamped_within_bound, number,
    product, quotient, square, square_root, sum, val, within_bound, Expr, Scalar, Term,
    UniformSource,
};
use vstd::prelude::*;

verus! {

/// Number of matrices of the model.
pub const MATRICES: usize = 3;

/// Bound on the magnitude of every force entry, in hundredths.
pub const FORCE_CLAMP_HUNDREDTHS: u32 = 200;

/// Bound on the magnitude of every momentum entry, in hundredths.
pub const MOMENTUM_CLAMP_HUNDREDTHS: u32 = 300;

/// Bound on the magnitude of the change of a matrix entry in one step, in
/// hundredths.
pub const STEP_CLAMP_HUNDREDTHS: u32 = 15;

/// The damping coefficient, in hundredths.
pub const DAMPING_HUNDREDTHS: u32 = 8;

/// Initial entries are spread over this many hundredths, divided by the
/// square root of the size.
pub const INITIAL_SCALE_HUNDREDTHS: u32 = 10;

/// Entry in row `a` and column `b` of the `n`×`n` matrix stored in `m`.
pub open spec fn entry<S>(m: Seq<S>, n: int, a: int, b: int) -> S {
    m[a * n + b]
}

/// `m` equals its transpose.
pub open spec fn is_symmetric<S>(m: Seq<S>, n: int) -> bool {
    forall|a: int, b: int|
        0 <= a < n && 0 <= b < n ==> #[trigger] entry(m, n, a, b) == entry(m, n, b, a)
}

/// The place of entry `(a, b)` lies in the storage of an `n`×`n` matrix, in
/// which every row takes `n` places.
pub proof fn lemma_entry_place(n: int, a: int, b: int)
    requires
        0 <= a < n,
        0 <= b < n,
    ensures
        0 <= a * n + b < n * n,
        (a + 1) * n == a * n + n,
{
    assert(a * n + n <= n * n) by (nonlinear_arith)
        requires
            0 <= a < n,
    ;
    assert(0 <= a * n) by (nonlinear_arith)
        requires
            0 <= a,
            0 <= n,
    ;
    assert((a + 1) * n == a * n + n) by (nonlinear_arith);
}

/// A place that comes earlier row by row has the smaller index.
pub proof fn lemma_place_order(n: int, a1: int, b1: int, a: int, b: int)
    requires
        0 <= a1,
        0 <= b1 < n,
        0 <= b,
        a1 < a || (a1 == a && b1 < b),
    ensures
        0 <= a1 * n + b1 < a * n + b,
{
    assert(0 <= a1 * n) by (nonlinear_arith)
        requires
            0 <= a1,
            0 <= n,
    ;
    if a1 < a {
        assert(a1 * n + n <= a * n) by (nonlinear_arith)
            requires
                a1 < a,
                0 <= n,
        ;
    }
}

/// `count` copies of `value`.
fn repeat<S: Copy>(value: S, count: usize) -> (out: Vec<S>)
    ensures
        out.len() == count,
        forall|k: int| 0 <= k < count ==> out@[k] == value,
{
    let mut out: Vec<S> = Vec::new();
    let mut k: usize = 0;
    while k < count
        invariant
            k <= count,
            out.len() == k,
            forall|m: int| 0 <= m < k ==> out@[m] == value,
        decreases count - k,
    {
        out.push(value);
        k += 1;
    }
    out
}

/// The symmetric `n`×`n` matrix whose entries on and above the diagonal are
/// what `upper` yields, asked row by row; an entry below the diagonal is a
/// copy of its mirror image.
fn symmetric_from<S: Copy, F: Fn(usize, usize) -> S>(n: usize, upper: F) -> (out: Vec<S>)
    requires
        forall|a: usize, b: usize| a <= b < n ==> call_requires(upper, (a, b)),
    ensures
        out.len() == n * n,
        is_symmetric(out@, n as int),
        forall|a: int, b: int|
            0 <= a <= b < n ==> call_ensures(
                upper,
                (a as usize, b as usize),
                #[trigger] entry(out@, n as int, a, b),
            ),
{
    let mut out: Vec<S> = Vec::new();
    let mut a: usize = 0;
    while a < n
        invariant
            a <= n,
            out.len() == a * n,
            forall|a1: usize, b1: usize| a1 <= b1 < n ==> call_requires(upper, (a1, b1)),
            forall|a1: int, b1: int|
                0 <= a1 < a && a1 <= b1 < n ==> call_ensures(
                    upper,
                    (a1 as usize, b1 as usize),
                    #[trigger] entry(out@, n as int, a1, b1),
                ),
            forall|a1: int, b1: int|
                0 <= b1 < a1 < a ==> #[trigger] entry(out@, n as int, a1, b1) == entry(
                    out@,
                    n as int,
                    b1,
                    a1,
                ),
        decreases n - a,
    {
        let mut b: usize = 0;
        while b < n
            invariant
                a < n,
                b <= n,
                out.len() == a * n + b,
                forall|a1: usize, b1: usize| a1 <= b1 < n ==> call_requires(upper, (a1, b1)),
                forall|a1: int, b1: int|
                    0 <= a1 <= b1 < n && (a1 < a || (a1 == a && b1 < b)) ==> call_ensures(
                        upper,
                        (a1 as usize, b1 as usize),
                        #[trigger] entry(out@, n as int, a1, b1),
                    ),
                forall|a1: int, b1: int|
                    0 <= b1 < a1 && (a1 < a || (a1 == a && b1 < b)) ==> #[trigger] entry(
                        out@,
                        n as int,
                        a1,
                        b1,
                    ) == entry(out@, n as int, b1, a1),
            decreases n - b,
        {
            let ghost shorter = out@;
            if b >= a {
                out.push(upper(a, b));
            } else {
                proof {
                    lemma_place_order(n as int, b as int, a as int, a as int, b as int);
                }
                out.push(out[b * n + a]);
            }
            proof {
                assert forall|a1: int, b1: int|
                    0 <= a1 && 0 <= b1 < n && (a1 < a || (a1 == a && b1 < b)) implies #[trigger] entry(
                    out@,
                    n as int,
                    a1,
                    b1,
                ) == entry(shorter, n as int, a1, b1) by {
                    lemma_place_order(n as int, a1, b1, a as int, b as int);
                }
                assert forall|a1: int, b1: int|
                    0 <= b1 < a1 && (a1 < a || (a1 == a && b1 < b + 1)) implies #[trigger] entry(
                    out@,
                    n as int,
                    a1,
                    b1,
                ) == entry(out@, n as int, b1, a1) by {
                    lemma_place_order(n as int, b1, a1, a as int, b as int);
                    assert(entry(out@, n as int, b1, a1) == entry(shorter, n as int, b1, a1));
                    if a1 < a || b1 < b {
                        assert(entry(out@, n as int, a1, b1) == entry(shorter, n as int, a1, b1));
                    }
                }
            }
            b += 1;
        }
        proof {
            lemma_entry_place(n as int, a as int, 0);
        }
        a += 1;
    }
    proof {
        assert forall|a1: int, b1: int| 0 <= a1 < n && 0 <= b1 < n implies #[trigger] entry(
            out@,
            n as int,
            a1,
            b1,
        ) == entry(out@, n as int, b1, a1) by {
            if a1 < b1 {
                assert(entry(out@, n as int, b1, a1) == entry(out@, n as int, a1, b1));
            }
        }
    }
    out
}

/// The two matrices other than matrix `i`, in ascending order.
pub open spec fn others(i: int) -> (int, int) {
    if i == 0 {
        (1, 2)
    } else if i == 1 {
        (0, 2)
    } else {
        (0, 1)
    }
}

/// The views of a sequence of matrices.
pub open spec fn matrix_views<S>(m: Seq<Vec<S>>) -> Seq<Seq<S>> {
    Seq::new(m.len(), |i: int| m[i]@)
}

/// Three coupled symmetric matrices, their momenta, the scalars of the
/// model, and the source of the random draws.
pub struct MatrixSimulation<S, R> {
    n: usize,
    x: Vec<Vec<S>>,
    p: Vec<Vec<S>>,
    mass: S,
    coupling: S,
    damping: S,
    source: R,
}

/// Mathematical content of a [`MatrixSimulation`].
pub struct MatrixView<S> {
    pub n: nat,
    pub x: Seq<Seq<S>>,
    pub p: Seq<Seq<S>>,
    pub mass: S,
    pub coupling: S,
    pub damping: S,
}

/// Why a matrix model cannot be made.
#[derive(Debug, PartialEq, Eq, Structural)]
pub enum MatrixError {
    /// The size is zero.
    ZeroSize,
}

impl<S> MatrixView<S> {
    /// Three matrices and three momenta of `n`×`n` entries each, with `n` at
    /// least one.
    pub open spec fn shaped(self) -> bool {
        &&& self.n >= 1
        &&& self.n * self.n <= usize::MAX
        &&& self.x.len() == MATRICES
        &&& self.p.len() == MATRICES
        &&& forall|i: int| 0 <= i < MATRICES ==> (#[trigger] self.x[i]).len() == self.n * self.n
        &&& forall|i: int| 0 <= i < MATRICES ==> (#[trigger] self.p[i]).len() == self.n * self.n
    }

    /// Shaped, and every matrix equals its transpose.
    pub open spec fn wf(self) -> bool {
        &&& self.shaped()
        &&& forall|i: int| 0 <= i < MATRICES ==> is_symmetric(#[trigger] self.x[i], self.n as int)
    }
}

/// From index `3 * a` on, `out` holds the diagonal entries `(a, a)` of the
/// three matrices.
pub open spec fn is_diagonal_row<S>(x: Seq<Seq<S>>, n: int, a: int, out: Seq<S>) -> bool {
    &&& out[3 * a] == entry(x[0], n, a, a)
    &&& out[3 * a + 1] == entry(x[1], n, a, a)
    &&& out[3 * a + 2] == entry(x[2], n, a, a)
}

/// `out` is the report of eigenvalue proxies: for every index in order, the
/// diagonal entries of the three matrices.
pub open spec fn is_diagonal_report<S>(x: Seq<Seq<S>>, n: int, out: Seq<S>) -> bool {
    &&& out.len() == 3 * n
    &&& forall|a: int| 0 <= a < n ==> #[trigger] is_diagonal_row(x, n, a, out)
}

/// Number of pairs `(r, c)` with `r < c < n` whose row `r` is below `a`.
pub open spec fn pairs_before(n: int, a: int) -> int
    decreases a,
{
    if a <= 0 {
        0
    } else {
        pairs_before(n, a - 1) + (n - a)
    }
}

/// Place of the pair `(a, b)` among all pairs `a < b < n` in ascending order
/// of `a` and then of `b`.
pub open spec fn pair_rank(n: int, a: int, b: int) -> int {
    pairs_before(n, a) + (b - a - 1)
}

/// The first `upto` terms of entry `(i, j)` of the product of `a` and `b`:
/// the products of row `i` of `a` with column `j` of `b`, summed in order
/// from zero.
pub open spec fn dot<S>(a: Seq<S>, b: Seq<S>, n: int, i: int, j: int, upto: int) -> Expr<S>
    decreases upto,
{
    if upto <= 0 {
        number(0)
    } else {
        sum(
            dot(a, b, n, i, j, upto - 1),
            product(val(entry(a, n, i, upto - 1)), val(entry(b, n, upto - 1, j))),
        )
    }
}

/// Entry `(i, j)` of the commutator of `a` and `b`: that entry of `a`·`b`
/// less that entry of `b`·`a`.
pub open spec fn commutator_entry<S>(a: Seq<S>, b: Seq<S>, n: int, i: int, j: int) -> Expr<S> {
    difference(dot(a, b, n, i, j, n), dot(b, a, n, i, j, n))
}

/// `c` is the commutator of the `n`×`n` matrices `a` and `b`.
pub open spec fn is_commutator<S: Scalar>(a: Seq<S>, b: Seq<S>, n: int, c: Seq<S>) -> bool {
    &&& c.len() == n * n
    &&& forall|i: int, j: int|
        0 <= i < n && 0 <= j < n ==> evaluates(
            commutator_entry(a, b, n, i, j),
            #[trigger] entry(c, n, i, j),
        )
}

/// `d` is the double commutator `[outer, [outer, inner]]`.
pub open spec fn is_double_commutator<S: Scalar>(
    outer: Seq<S>,
    inner: Seq<S>,
    n: int,
    d: Seq<S>,
) -> bool {
    exists|c: Seq<S>| #[trigger] is_commutator(outer, inner, n, c) && is_commutator(outer, c, n, d)
}

/// The force on the entry `x` of one matrix, given the entries `first` and
/// `second` of its double commutators with the two other matrices, clamped
/// to the force bound:
/// `clamp(coupling² * first + coupling² * second - mass² * x)`.
pub open spec fn force<S>(first: S, second: S, x: S, coupling: S, mass: S) -> Expr<S> {
    clamped(
        difference(
            sum(
                sum(number(0), product(square(val(coupling)), val(first))),
                product(square(val(coupling)), val(second)),
            ),
            product(square(val(mass)), val(x)),
        ),
        FORCE_CLAMP_HUNDREDTHS,
    )
}

/// The change of a matrix entry in `dt`, clamped to the step bound:
/// `clamp(momentum * dt + 0.5 * force * dt * dt)`.
pub open spec fn displacement<S>(momentum: S, force: S, dt: S) -> Expr<S> {
    clamped(
        sum(
            product(val(momentum), val(dt)),
            product(product(hundredths(50), val(force)), square(val(dt))),
        ),
        STEP_CLAMP_HUNDREDTHS,
    )
}

/// A matrix entry after `dt`: the entry plus its clamped change.
pub open spec fn moved<S>(x: S, momentum: S, force: S, dt: S) -> Expr<S> {
    sum(val(x), displacement(momentum, force, dt))
}

/// A momentum entry after `dt`, clamped to the momentum bound:
/// `clamp((1 - damping * dt) * (momentum + 0.5 * (force + force_new) * dt))`.
pub open spec fn damped<S>(momentum: S, force: S, force_new: S, dt: S, damping: S) -> Expr<S> {
    clamped(
        product(
            difference(number(1), product(val(damping), val(dt))),
            sum(
                val(momentum),
                product(product(hundredths(50), sum(val(force), val(force_new))), val(dt)),
            ),
        ),
        MOMENTUM_CLAMP_HUNDREDTHS,
    )
}

/// The mean of `a` and `b`: `0.5 * (a + b)`.
pub open spec fn average<S>(a: S, b: S) -> Expr<S> {
    product(hundredths(50), sum(val(a), val(b)))
}

/// Width over which initial entries of a model of size `n` are spread:
/// `0.1 / sqrt(n)`.
pub open spec fn initial_scale<S>(n: int) -> Expr<S> {
    quotient(hundredths(INITIAL_SCALE_HUNDREDTHS), square_root(number(n)))
}

/// The initial entry that the draw `u` gives: `(u - 0.5) * scale`.
pub open spec fn initial_entry<S>(u: S, n: int) -> Expr<S> {
    product(difference(val(u), hundredths(50)), initial_scale(n))
}

/// A momentum entry after the kick that the draw `u` gives, clamped to the
/// momentum bound: `clamp(momentum + (u - 0.5) * strength)`.
pub open spec fn poked<S>(momentum: S, u: S, strength: S) -> Expr<S> {
    clamped(
        sum(val(momentum), product(difference(val(u), hundredths(50)), val(strength))),
        MOMENTUM_CLAMP_HUNDREDTHS,
    )
}

/// The Euclidean length of `(a, b, c)`, the squares summed in order from
/// zero.
pub open spec fn strength<S>(a: S, b: S, c: S) -> Expr<S> {
    square_root(sum(sum(sum(number(0), square(val(a))), square(val(b))), square(val(c))))
}

/// `start` plus the kinetic terms `0.5 * p * p` of the first `upto` entries
/// of `p`, added in order.
pub open spec fn kinetic_sum<S>(p: Seq<S>, start: Expr<S>, upto: int) -> Expr<S>
    decreases upto,
{
    if upto <= 0 {
        start
    } else {
        sum(
            kinetic_sum(p, start, upto - 1),
            product(product(hundredths(50), val(p[upto - 1])), val(p[upto - 1])),
        )
    }
}

/// `start` plus the confinement terms `0.5 * mass * mass * x * x` of the
/// first `upto` entries of `x`, added in order.
pub open spec fn confinement_sum<S>(x: Seq<S>, mass: S, start: Expr<S>, upto: int) -> Expr<S>
    decreases upto,
{
    if upto <= 0 {
        start
    } else {
        sum(
            confinement_sum(x, mass, start, upto - 1),
            product(
                product(product(product(hundredths(50), val(mass)), val(mass)), val(x[upto - 1])),
                val(x[upto - 1]),
            ),
        )
    }
}

/// `start` less the interaction terms `0.25 * coupling * coupling * c * c`
/// of the first `upto` entries of the commutator `c`, taken in order.
pub open spec fn interaction_sum<S>(c: Seq<S>, coupling: S, start: Expr<S>, upto: int) -> Expr<S>
    decreases upto,
{
    if upto <= 0 {
        start
    } else {
        difference(
            interaction_sum(c, coupling, start, upto - 1),
            product(
                product(
                    product(product(hundredths(25), val(coupling)), val(coupling)),
                    val(c[upto - 1]),
                ),
                val(c[upto - 1]),
            ),
        )
    }
}

/// The kinetic energy of the three momenta `p`.
pub open spec fn kinetic_energy<S>(p: Seq<Seq<S>>) -> Expr<S> {
    kinetic_sum(
        p[2],
        kinetic_sum(p[1], kinetic_sum(p[0], number(0), p[0].len() as int), p[1].len() as int),
        p[2].len() as int,
    )
}

/// The confinement energy of the three matrices `x`.
pub open spec fn confinement_energy<S>(x: Seq<Seq<S>>, mass: S) -> Expr<S> {
    confinement_sum(
        x[2],
        mass,
        confinement_sum(
            x[1],
            mass,
            confinement_sum(x[0], mass, number(0), x[0].len() as int),
            x[1].len() as int,
        ),
        x[2].len() as int,
    )
}

/// The energy of the model, given the commutators `c01`, `c02` and `c12` of
/// its pairs of matrices: the kinetic energy plus the potential, which is
/// the confinement energy less the interaction terms of the three pairs.
pub open spec fn energy<S>(m: MatrixView<S>, c01: Seq<S>, c02: Seq<S>, c12: Seq<S>) -> Expr<S> {
    sum(
        kinetic_energy(m.p),
        interaction_sum(
            c12,
            m.coupling,
            interaction_sum(
                c02,
                m.coupling,
                interaction_sum(
                    c01,
                    m.coupling,
                    confinement_energy(m.x, m.mass),
                    c01.len() as int,
                ),
                c02.len() as int,
            ),
            c12.len() as int,
        ),
    )
}

/// `e` is the energy of the model.
pub open spec fn is_matrix_energy<S: Scalar>(m: MatrixView<S>, e: S) -> bool {
    exists|c01: Seq<S>, c02: Seq<S>, c12: Seq<S>|
        {
            &&& #[trigger] is_commutator(m.x[0], m.x[1], m.n as int, c01)
            &&& #[trigger] is_commutator(m.x[0], m.x[2], m.n as int, c02)
            &&& #[trigger] is_commutator(m.x[1], m.x[2], m.n as int, c12)
            &&& evaluates(energy(m, c01, c02, c12), e)
        }
}

/// `f` is the force on matrix `i` of `x`: entry by entry, the clamped sum of
/// the double commutators with the two other matrices and of the mass term.
pub open spec fn is_force_matrix<S: Scalar>(
    x: Seq<Seq<S>>,
    n: int,
    coupling: S,
    mass: S,
    i: int,
    f: Seq<S>,
) -> bool {
    &&& f.len() == n * n
    &&& exists|first: Seq<S>, second: Seq<S>|
        {
            &&& #[trigger] is_double_commutator(x[others(i).0], x[i], n, first)
            &&& #[trigger] is_double_commutator(x[others(i).1], x[i], n, second)
            &&& forall|idx: int|
                0 <= idx < n * n ==> evaluates(
                    force(first[idx], second[idx], x[i][idx], coupling, mass),
                    #[trigger] f[idx],
                )
        }
}

/// `f` holds the forces on the three matrices of `x`.
pub open spec fn is_forces<S: Scalar>(
    x: Seq<Seq<S>>,
    n: int,
    coupling: S,
    mass: S,
    f: Seq<Seq<S>>,
) -> bool {
    &&& f.len() == MATRICES
    &&& forall|i: int| 0 <= i < MATRICES ==> is_force_matrix(x, n, coupling, mass, i, #[trigger] f[i])
}

/// `out` is the matrix `x` moved entry by entry.
pub open spec fn is_moved<S: Scalar>(
    x: Seq<S>,
    momentum: Seq<S>,
    force: Seq<S>,
    dt: S,
    out: Seq<S>,
) -> bool {
    &&& out.len() == x.len()
    &&& forall|idx: int|
        0 <= idx < x.len() ==> evaluates(
            moved(x[idx], momentum[idx], force[idx], dt),
            #[trigger] out[idx],
        )
}

/// `out` is the momentum matrix updated entry by entry.
pub open spec fn is_damped<S: Scalar>(
    momentum: Seq<S>,
    force: Seq<S>,
    force_new: Seq<S>,
    dt: S,
    damping: S,
    out: Seq<S>,
) -> bool {
    &&& out.len() == momentum.len()
    &&& forall|idx: int|
        0 <= idx < momentum.len() ==> evaluates(
            damped(momentum[idx], force[idx], force_new[idx], dt, damping),
            #[trigger] out[idx],
        )
}

/// `out` is `m` made symmetric: the diagonal is kept, and each entry off the
/// diagonal and its mirror image both hold the mean of the two.
pub open spec fn is_symmetrized<S: Scalar>(m: Seq<S>, n: int, out: Seq<S>) -> bool {
    &&& out.len() == n * n
    &&& is_symmetric(out, n)
    &&& forall|a: int| 0 <= a < n ==> #[trigger] entry(out, n, a, a) == entry(m, n, a, a)
    &&& forall|a: int, b: int|
        0 <= a < b < n ==> evaluates(
            average(entry(m, n, a, b), entry(m, n, b, a)),
            #[trigger] entry(out, n, a, b),
        )
}

/// `r` is an initial entry of a model of size `n`, from a fresh draw.
pub open spec fn is_initial_entry<S: Scalar, R: UniformSource<S>>(source: &R, n: int, r: S) -> bool {
    exists|u: S| #[trigger] is_draw(source, u) && evaluates(initial_entry(u, n), r)
}

/// `out` is a symmetric matrix of initial entries: one draw for every entry
/// on or above the diagonal.
pub open spec fn is_initial<S: Scalar, R: UniformSource<S>>(source: &R, n: int, out: Seq<S>) -> bool {
    &&& out.len() == n * n
    &&& is_symmetric(out, n)
    &&& forall|a: int, b: int|
        0 <= a <= b < n ==> is_initial_entry(source, n, #[trigger] entry(out, n, a, b))
}

/// `r` is the momentum entry `momentum` after a kick from a fresh draw.
pub open spec fn is_poked_entry<S: Scalar, R: UniformSource<S>>(
    source: &R,
    momentum: S,
    strength: S,
    r: S,
) -> bool {
    exists|u: S| #[trigger] is_draw(source, u) && evaluates(poked(momentum, u, strength), r)
}

/// `out` is the momentum matrix `p` after a poke: every entry on or above the
/// diagonal is kicked and clamped, and its mirror image is set to the same
/// value.
pub open spec fn is_poked<S: Scalar, R: UniformSource<S>>(
    source: &R,
    p: Seq<S>,
    n: int,
    strength: S,
    out: Seq<S>,
) -> bool {
    &&& out.len() == n * n
    &&& is_symmetric(out, n)
    &&& forall|a: int, b: int|
        0 <= a <= b < n ==> is_poked_entry(
            source,
            entry(p, n, a, b),
            strength,
            #[trigger] entry(out, n, a, b),
        )
}

/// `out` holds, at the place of the pair `(a, b)`, the triple of `a`, `b` and
/// the Euclidean length of the entries `(a, b)` of the three matrices.
pub open spec fn is_connection<S: Scalar>(x: Seq<Seq<S>>, n: int, a: int, b: int, out: Seq<S>) -> bool {
    let at = 3 * pair_rank(n, a, b);
    &&& 0 <= at
    &&& at + 3 <= out.len()
    &&& evaluates(number(a), out[at])
    &&& evaluates(number(b), out[at + 1])
    &&& evaluates(
        strength(entry(x[0], n, a, b), entry(x[1], n, a, b), entry(x[2], n, a, b)),
        out[at + 2],
    )
}

/// `out` is the connections report: one triple for every pair `a < b < n`,
/// in ascending order of `a` and then of `b`.
pub open spec fn is_connections_report<S: Scalar>(x: Seq<Seq<S>>, n: int, out: Seq<S>) -> bool {
    &&& out.len() == 3 * pairs_before(n, n)
    &&& forall|a: int, b: int| 0 <= a < b < n ==> #[trigger] is_connection(x, n, a, b, out)
}

/// `after` is `before` one step of `dt` later: the matrices move under the
/// forces at the old matrices, the momenta follow the mean of the forces at
/// the old and at the moved matrices, and the moved matrices are made
/// symmetric again.
pub open spec fn is_matrix_step<S: Scalar>(before: MatrixView<S>, dt: S, after: MatrixView<S>) -> bool {
    let n = before.n as int;
    &&& after.n == before.n
    &&& after.mass == before.mass
    &&& after.coupling == before.coupling
    &&& after.damping == before.damping
    &&& after.x.len() == MATRICES
    &&& after.p.len() == MATRICES
    &&& exists|f: Seq<Seq<S>>, mid: Seq<Seq<S>>, f_new: Seq<Seq<S>>|
        {
            &&& mid.len() == MATRICES
            &&& #[trigger] is_forces(before.x, n, before.coupling, before.mass, f)
            &&& #[trigger] is_forces(mid, n, before.coupling, before.mass, f_new)
            &&& forall|i: int|
                0 <= i < MATRICES ==> is_moved(before.x[i], before.p[i], f[i], dt, #[trigger] mid[i])
            &&& forall|i: int|
                0 <= i < MATRICES ==> is_damped(
                    before.p[i],
                    f[i],
                    f_new[i],
                    dt,
                    before.damping,
                    #[trigger] after.p[i],
                )
            &&& forall|i: int| 0 <= i < MATRICES ==> is_symmetrized(mid[i], n, #[trigger] after.x[i])
        }
}

/// Entry `(i, j)` of the product of `a` and `b`.
fn product_entry<S: Scalar>(a: &Vec<S>, b: &Vec<S>, n: usize, i: usize, j: usize) -> (t: Term<S>)
    requires
        a.len() == n * n,
        b.len() == n * n,
        i < n,
        j < n,
    ensures
        t.wf(),
        t.expr@ == dot(a@, b@, n as int, i as int, j as int, n as int),
{
    let mut total = Term::number(0);
    let mut k: usize = 0;
    while k < n
        invariant
            a.len() == n * n,
            b.len() == n * n,
            i < n,
            j < n,
            k <= n,
            total.wf(),
            total.expr@ == dot(a@, b@, n as int, i as int, j as int, k as int),
        decreases n - k,
    {
        proof {
            lemma_entry_place(n as int, i as int, k as int);
            lemma_entry_place(n as int, k as int, j as int);
        }
        total = total.plus(&Term::of(a[i * n + k]).times(&Term::of(b[k * n + j])));
        k += 1;
    }
    total
}

/// The commutator `a`·`b` − `b`·`a` of two `n`×`n` matrices.
pub fn commutator<S: Scalar>(a: &Vec<S>, b: &Vec<S>, n: usize) -> (c: Vec<S>)
    requires
        a.len() == n * n,
        b.len() == n * n,
    ensures
        is_commutator(a@, b@, n as int, c@),
{
    let mut c: Vec<S> = Vec::new();
    let mut i: usize = 0;
    while i < n
        invariant
            a.len() == n * n,
            b.len() == n * n,
            i <= n,
            c.len() == i * n,
            forall|i1: int, j1: int|
                0 <= i1 < i && 0 <= j1 < n ==> evaluates(
                    commutator_entry(a@, b@, n as int, i1, j1),
                    #[trigger] entry(c@, n as int, i1, j1),
                ),
        decreases n - i,
    {
        let mut j: usize = 0;
        while j < n
            invariant
                a.len() == n * n,
                b.len() == n * n,
                i < n,
                j <= n,
                c.len() == i * n + j,
                forall|i1: int, j1: int|
                    0 <= i1 < i && 0 <= j1 < n ==> evaluates(
                        commutator_entry(a@, b@, n as int, i1, j1),
                        #[trigger] entry(c@, n as int, i1, j1),
                    ),
                forall|j1: int|
                    0 <= j1 < j ==> evaluates(
                        commutator_entry(a@, b@, n as int, i as int, j1),
                        #[trigger] entry(c@, n as int, i as int, j1),
                    ),
            decreases n - j,
        {
            let ab = product_entry(a, b, n, i, j);
            let ba = product_entry(b, a, n, i, j);
            let ghost shorter = c@;
            c.push(ab.minus(&ba).value);
            proof {
                assert forall|i1: int, j1: int| 0 <= i1 < i && 0 <= j1 < n implies evaluates(
                    commutator_entry(a@, b@, n as int, i1, j1),
                    #[trigger] entry(c@, n as int, i1, j1),
                ) by {
                    lemma_place_order(n as int, i1, j1, i as int, j as int);
                    assert(entry(c@, n as int, i1, j1) == entry(shorter, n as int, i1, j1));
                }
                assert forall|j1: int| 0 <= j1 < j + 1 implies evaluates(
                    commutator_entry(a@, b@, n as int, i as int, j1),
                    #[trigger] entry(c@, n as int, i as int, j1),
                ) by {
                    if j1 < j {
                        assert(entry(c@, n as int, i as int, j1) == entry(
                            shorter,
                            n as int,
                            i as int,
                            j1,
                        ));
                    }
                }
            }
            j += 1;
        }
        proof {
            lemma_entry_place(n as int, i as int, 0);
        }
        i += 1;
    }
    c
}

/// The force on matrix `i` of `x`.
fn force_matrix<S: Scalar>(x: &Vec<Vec<S>>, n: usize, coupling: S, mass: S, i: usize) -> (f: Vec<S>)
    requires
        x.len() == MATRICES,
        forall|m: int| 0 <= m < MATRICES ==> (#[trigger] x@[m]).len() == n * n,
        i < MATRICES,
    ensures
        is_force_matrix(matrix_views(x@), n as int, coupling, mass, i as int, f@),
{
    let j1: usize = if i == 0 {
        1
    } else {
        0
    };
    let j2: usize = if i == 2 {
        1
    } else {
        2
    };
    let c1 = commutator(&x[j1], &x[i], n);
    let first = commutator(&x[j1], &c1, n);
    let c2 = commutator(&x[j2], &x[i], n);
    let second = commutator(&x[j2], &c2, n);
    let size = x[i].len();
    let c = Term::of(coupling);
    let m = Term::of(mass);
    let c_squared = c.squared();
    let m_squared = m.squared();
    let mut f: Vec<S> = Vec::new();
    let mut idx: usize = 0;
    while idx < size
        invariant
            i < MATRICES,
            x.len() == MATRICES,
            size == n * n,
            x@[i as int].len() == size,
            first.len() == size,
            second.len() == size,
            idx <= size,
            f.len() == idx,
            c_squared.wf(),
            c_squared.expr@ == square(val(coupling)),
            m_squared.wf(),
            m_squared.expr@ == square(val(mass)),
            forall|k: int|
                0 <= k < idx ==> evaluates(
                    force(first@[k], second@[k], x@[i as int]@[k], coupling, mass),
                    #[trigger] f@[k],
                ),
        decreases size - idx,
    {
        let total = Term::number(0).plus(&c_squared.times(&Term::of(first[idx]))).plus(
            &c_squared.times(&Term::of(second[idx])),
        ).minus(&m_squared.times(&Term::of(x[i][idx])));
        f.push(total.clamp(FORCE_CLAMP_HUNDREDTHS).value);
        idx += 1;
    }
    proof {
        let xs = matrix_views(x@);
        assert(xs[others(i as int).0] == x@[j1 as int]@);
        assert(xs[others(i as int).1] == x@[j2 as int]@);
        assert(xs[i as int] == x@[i as int]@);
        assert(is_commutator(xs[others(i as int).0], xs[i as int], n as int, c1@));
        assert(is_commutator(xs[others(i as int).1], xs[i as int], n as int, c2@));
        assert(is_double_commutator(xs[others(i as int).0], xs[i as int], n as int, first@));
        assert(is_double_commutator(xs[others(i as int).1], xs[i as int], n as int, second@));
    }
    f
}

/// The clamped forces on the three matrices of `x`: for each, the squared
/// coupling times its double commutators with the two others, less the
/// squared mass times the matrix.
pub fn forces_on<S: Scalar>(x: &Vec<Vec<S>>, n: usize, coupling: S, mass: S) -> (f: Vec<Vec<S>>)
    requires
        x.len() == MATRICES,
        forall|m: int| 0 <= m < MATRICES ==> (#[trigger] x@[m]).len() == n * n,
    ensures
        is_forces(matrix_views(x@), n as int, coupling, mass, matrix_views(f@)),
        forall|m: int| 0 <= m < MATRICES ==> (#[trigger] f@[m]).len() == n * n,
{
    let mut f: Vec<Vec<S>> = Vec::new();
    let mut i: usize = 0;
    while i < MATRICES
        invariant
            i <= MATRICES,
            f.len() == i,
            x.len() == MATRICES,
            forall|m: int| 0 <= m < MATRICES ==> (#[trigger] x@[m]).len() == n * n,
            forall|m: int|
                0 <= m < i ==> is_force_matrix(
                    matrix_views(x@),
                    n as int,
                    coupling,
                    mass,
                    m,
                    (#[trigger] f@[m])@,
                ),
        decreases MATRICES - i,
    {
        f.push(force_matrix(x, n, coupling, mass, i));
        i += 1;
    }
    proof {
        assert forall|m: int| 0 <= m < MATRICES implies is_force_matrix(
            matrix_views(x@),
            n as int,
            coupling,
            mass,
            m,
            #[trigger] matrix_views(f@)[m],
        ) by {
            assert(matrix_views(f@)[m] == f@[m]@);
        }
    }
    f
}

/// The matrix `x` moved entry by entry for `dt`.
fn moved_matrix<S: Scalar>(x: &Vec<S>, momentum: &Vec<S>, force: &Vec<S>, dt: S) -> (out: Vec<S>)
    requires
        momentum.len() == x.len(),
        force.len() == x.len(),
    ensures
        is_moved(x@, momentum@, force@, dt, out@),
{
    let size = x.len();
    let step = Term::of(dt);
    let step_squared = step.squared();
    let mut out: Vec<S> = Vec::new();
    let mut idx: usize = 0;
    while idx < size
        invariant
            size == x.len(),
            momentum.len() == size,
            force.len() == size,
            idx <= size,
            out.len() == idx,
            step.wf(),
            step.expr@ == val(dt),
            step_squared.wf(),
            step_squared.expr@ == square(val(dt)),
            forall|k: int|
                0 <= k < idx ==> evaluates(
                    moved(x@[k], momentum@[k], force@[k], dt),
                    #[trigger] out@[k],
                ),
        decreases size - idx,
    {
        let by_momentum = Term::of(momentum[idx]).times(&step);
        let by_force = Term::hundredths(50).times(&Term::of(force[idx])).times(&step_squared);
        let dx = by_momentum.plus(&by_force).clamp(STEP_CLAMP_HUNDREDTHS);
        out.push(Term::of(x[idx]).plus(&dx).value);
        idx += 1;
    }
    out
}

/// The momentum matrix after `dt`.
fn damped_matrix<S: Scalar>(
    momentum: &Vec<S>,
    force: &Vec<S>,
    force_new: &Vec<S>,
    dt: S,
    damping: S,
) -> (out: Vec<S>)
    requires
        force.len() == momentum.len(),
        force_new.len() == momentum.len(),
    ensures
        is_damped(momentum@, force@, force_new@, dt, damping, out@),
{
    let size = momentum.len();
    let step = Term::of(dt);
    let damp = Term::number(1).minus(&Term::of(damping).times(&step));
    let mut out: Vec<S> = Vec::new();
    let mut idx: usize = 0;
    while idx < size
        invariant
            size == momentum.len(),
            force.len() == size,
            force_new.len() == size,
            idx <= size,
            out.len() == idx,
            step.wf(),
            step.expr@ == val(dt),
            damp.wf(),
            damp.expr@ == difference(number(1), product(val(damping), val(dt))),
            forall|k: int|
                0 <= k < idx ==> evaluates(
                    damped(momentum@[k], force@[k], force_new@[k], dt, damping),
                    #[trigger] out@[k],
                ),
        decreases size - idx,
    {
        let mean = Term::hundredths(50).times(&Term::of(force[idx]).plus(&Term::of(force_new[idx])));
        let dp = mean.times(&step);
        let raw = damp.times(&Term::of(momentum[idx]).plus(&dp));
        out.push(raw.clamp(MOMENTUM_CLAMP_HUNDREDTHS).value);
        idx += 1;
    }
    out
}

/// `m` made symmetric by averaging every entry off the diagonal with its
/// mirror image.
pub fn symmetrize<S: Scalar>(m: &Vec<S>, n: usize) -> (out: Vec<S>)
    requires
        m.len() == n * n,
    ensures
        is_symmetrized(m@, n as int, out@),
{
    let upper = |a: usize, b: usize| -> (r: S)
        requires
            a <= b < n,
        ensures
            a == b ==> r == entry(m@, n as int, a as int, a as int),
            a < b ==> evaluates(
                average(entry(m@, n as int, a as int, b as int), entry(m@, n as int, b as int, a as int)),
                r,
            ),
        {
            proof {
                lemma_entry_place(n as int, a as int, b as int);
                lemma_entry_place(n as int, b as int, a as int);
            }
            if a == b {
                m[a * n + a]
            } else {
                Term::hundredths(50).times(&Term::of(m[a * n + b]).plus(&Term::of(m[b * n + a]))).value
            }
        };
    let out = symmetric_from(n, upper);
    proof {
        assert forall|a: int| 0 <= a < n implies #[trigger] entry(out@, n as int, a, a) == entry(
            m@,
            n as int,
            a,
            a,
        ) by {
            assert(call_ensures(upper, (a as usize, a as usize), entry(out@, n as int, a, a)));
        }
        assert forall|a: int, b: int| 0 <= a < b < n implies evaluates(
            average(entry(m@, n as int, a, b), entry(m@, n as int, b, a)),
            #[trigger] entry(out@, n as int, a, b),
        ) by {
            assert(call_ensures(upper, (a as usize, b as usize), entry(out@, n as int, a, b)));
        }
    }
    out
}

/// `start` plus the kinetic terms of `p`.
fn kinetic_sum_of<S: Scalar>(p: &Vec<S>, start: Term<S>) -> (t: Term<S>)
    requires
        start.wf(),
    ensures
        t.wf(),
        t.expr@ == kinetic_sum(p@, start.expr@, p.len() as int),
{
    let n = p.len();
    let mut total = start;
    let mut k: usize = 0;
    while k < n
        invariant
            n == p.len(),
            k <= n,
            total.wf(),
            total.expr@ == kinetic_sum(p@, start.expr@, k as int),
        decreases n - k,
    {
        let entry = Term::of(p[k]);
        total = total.plus(&Term::hundredths(50).times(&entry).times(&entry));
        k += 1;
    }
    total
}

/// `start` plus the confinement terms of `x`.
fn confinement_sum_of<S: Scalar>(x: &Vec<S>, mass: S, start: Term<S>) -> (t: Term<S>)
    requires
        start.wf(),
    ensures
        t.wf(),
        t.expr@ == confinement_sum(x@, mass, start.expr@, x.len() as int),
{
    let n = x.len();
    let m = Term::of(mass);
    let mut total = start;
    let mut k: usize = 0;
    while k < n
        invariant
            n == x.len(),
            k <= n,
            m.wf(),
            m.expr@ == val(mass),
            total.wf(),
            total.expr@ == confinement_sum(x@, mass, start.expr@, k as int),
        decreases n - k,
    {
        let entry = Term::of(x[k]);
        total = total.plus(&Term::hundredths(50).times(&m).times(&m).times(&entry).times(&entry));
        k += 1;
    }
    total
}

/// `start` less the interaction terms of the commutator `c`.
fn interaction_sum_of<S: Scalar>(c: &Vec<S>, coupling: S, start: Term<S>) -> (t: Term<S>)
    requires
        start.wf(),
    ensures
        t.wf(),
        t.expr@ == interaction_sum(c@, coupling, start.expr@, c.len() as int),
{
    let n = c.len();
    let g = Term::of(coupling);
    let mut total = start;
    let mut k: usize = 0;
    while k < n
        invariant
            n == c.len(),
            k <= n,
            g.wf(),
            g.expr@ == val(coupling),
            total.wf(),
            total.expr@ == interaction_sum(c@, coupling, start.expr@, k as int),
        decreases n - k,
    {
        let entry = Term::of(c[k]);
        total = total.minus(&Term::hundredths(25).times(&g).times(&g).times(&entry).times(&entry));
        k += 1;
    }
    total
}

/// A connection stays where it is when the report grows.
proof fn lemma_connection_stable<S: Scalar>(
    x: Seq<Seq<S>>,
    n: int,
    a: int,
    b: int,
    out: Seq<S>,
    longer: Seq<S>,
)
    requires
        is_connection(x, n, a, b, out),
        out.is_prefix_of(longer),
    ensures
        is_connection(x, n, a, b, longer),
{
    let at = 3 * pair_rank(n, a, b);
    assert(longer[at] == out[at]);
    assert(longer[at + 1] == out[at + 1]);
    assert(longer[at + 2] == out[at + 2]);
}

/// The pairs of the rows below `a` are at most those of the rows below `b`.
proof fn lemma_pairs_before_monotone(n: int, a: int, b: int)
    requires
        0 <= a <= b <= n,
    ensures
        0 <= pairs_before(n, a) <= pairs_before(n, b),
    decreases b,
{
    if a < b {
        lemma_pairs_before_monotone(n, a, b - 1);
    } else if a > 0 {
        lemma_pairs_before_monotone(n, a - 1, b - 1);
    }
}

impl<S, R> View for MatrixSimulation<S, R> {
    type V = MatrixView<S>;

    closed spec fn view(&self) -> MatrixView<S> {
        MatrixView {
            n: self.n as nat,
            x: matrix_views(self.x@),
            p: matrix_views(self.p@),
            mass: self.mass,
            coupling: self.coupling,
            damping: self.damping,
        }
    }
}

impl<S: Scalar, R: UniformSource<S>> MatrixSimulation<S, R> {
    /// The source of random draws that the model was made with.
    pub closed spec fn source(&self) -> &R {
        &self.source
    }

    /// A model of size `n` with zero momenta and small symmetric random
    /// matrices. Size zero is refused.
    pub fn new(n: u32, coupling: S, mass: S, source: R) -> (made: Result<Self, MatrixError>)
        requires
            n * n <= usize::MAX,
        ensures
            n == 0 <==> made is Err,
            made is Err ==> made == Err::<Self, MatrixError>(MatrixError::ZeroSize),
            made is Ok ==> {
                let sim = made->Ok_0;
                &&& sim@.wf()
                &&& *sim.source() == source
                &&& sim@.n == n
                &&& sim@.coupling == coupling
                &&& sim@.mass == mass
                &&& evaluates(hundredths(DAMPING_HUNDREDTHS), sim@.damping)
                &&& forall|i: int|
                    0 <= i < MATRICES ==> is_initial(&source, n as int, #[trigger] sim@.x[i])
                &&& forall|i: int, idx: int|
                    0 <= i < MATRICES && 0 <= idx < n * n ==> evaluates(
                        number(0),
                        #[trigger] sim@.p[i][idx],
                    )
            },
    {
        if n == 0 {
            return Err(MatrixError::ZeroSize);
        }
        let size = n as usize;
        assert(size * size == n * n) by (nonlinear_arith)
            requires
                size == n,
        ;
        let scale = Term::hundredths(INITIAL_SCALE_HUNDREDTHS).over(&Term::number(size).root());
        let mut x: Vec<Vec<S>> = Vec::new();
        let mut p: Vec<Vec<S>> = Vec::new();
        let mut i: usize = 0;
        while i < MATRICES
            invariant
                i <= MATRICES,
                size == n,
                size * size <= usize::MAX,
                scale.wf(),
                scale.expr@ == initial_scale::<S>(size as int),
                x.len() == i,
                p.len() == i,
                forall|m: int| 0 <= m < i ==> is_initial(&source, size as int, (#[trigger] x@[m])@),
                forall|m: int| 0 <= m < i ==> (#[trigger] p@[m]).len() == size * size,
                forall|m: int, idx: int|
                    0 <= m < i && 0 <= idx < size * size ==> evaluates(
                        number(0),
                        #[trigger] p@[m]@[idx],
                    ),
            decreases MATRICES - i,
        {
            let draw = |a: usize, b: usize| -> (r: S)
                ensures
                    is_initial_entry(&source, size as int, r),
                {
                    let u = source.draw();
                    assert(is_draw(&source, u));
                    Term::of(u).minus(&Term::hundredths(50)).times(&scale).value
                };
            let matrix = symmetric_from(size, draw);
            proof {
                assert forall|a: int, b: int| 0 <= a <= b < size implies is_initial_entry(
                    &source,
                    size as int,
                    #[trigger] entry(matrix@, size as int, a, b),
                ) by {
                    assert(call_ensures(
                        draw,
                        (a as usize, b as usize),
                        entry(matrix@, size as int, a, b),
                    ));
                }
            }
            x.push(matrix);
            p.push(repeat(S::number(0), size * size));
            i += 1;
        }
        let damping = S::hundredths(DAMPING_HUNDREDTHS);
        let sim = MatrixSimulation { n: size, x, p, mass, coupling, damping, source };
        proof {
            assert forall|i: int| 0 <= i < MATRICES implies is_initial(
                sim.source(),
                n as int,
                #[trigger] sim@.x[i],
            ) by {
                assert(sim@.x[i] == sim.x@[i]@);
            }
            assert forall|i: int| 0 <= i < MATRICES implies (#[trigger] sim@.p[i]).len() == sim@.n
                * sim@.n by {
                assert(sim@.p[i] == sim.p@[i]@);
            }
            assert forall|i: int, idx: int| 0 <= i < MATRICES && 0 <= idx < n * n implies evaluates(
                number(0),
                #[trigger] sim@.p[i][idx],
            ) by {
                assert(sim@.p[i] == sim.p@[i]@);
            }
        }
        Ok(sim)
    }

    /// The size of the matrices.
    pub fn size(&self) -> (n: usize)
        ensures
            n == self@.n,
    {
        self.n
    }

    /// The three matrices, each stored row by row.
    pub fn matrices(&self) -> (x: &Vec<Vec<S>>)
        ensures
            matrix_views(x@) == self@.x,
    {
        &self.x
    }

    /// The three momenta, each stored row by row.
    pub fn momenta(&self) -> (p: &Vec<Vec<S>>)
        ensures
            matrix_views(p@) == self@.p,
    {
        &self.p
    }

    /// Sets the coupling that forces and energy use from now on.
    pub fn set_coupling(&mut self, coupling: S)
        ensures
            final(self)@ == (MatrixView { coupling, ..old(self)@ }),
            final(self).source() == old(self).source(),
    {
        self.coupling = coupling;
    }

    /// Sets the mass that forces and energy use from now on.
    pub fn set_mass(&mut self, mass: S)
        ensures
            final(self)@ == (MatrixView { mass, ..old(self)@ }),
            final(self).source() == old(self).source(),
    {
        self.mass = mass;
    }

    /// The clamped forces on the three matrices as they are now.
    pub fn compute_forces(&self) -> (f: Vec<Vec<S>>)
        requires
            self@.shaped(),
        ensures
            is_forces(self@.x, self@.n as int, self@.coupling, self@.mass, matrix_views(f@)),
    {
        proof {
            assert forall|m: int| 0 <= m < MATRICES implies (#[trigger] self.x@[m]).len() == self.n
                * self.n by {
                assert(self@.x[m] == self.x@[m]@);
            }
        }
        forces_on(&self.x, self.n, self.coupling, self.mass)
    }

    /// One velocity-Verlet step of `dt`, with the force, the move of every
    /// entry and every momentum clamped, and the matrices made symmetric at
    /// the end. The step `dt` is positive; it is for the caller to see to
    /// that.
    pub fn step(&mut self, dt: S)
        requires
            old(self)@.wf(),
            is_positive(dt),
        ensures
            final(self)@.wf(),
            final(self).source() == old(self).source(),
            is_matrix_step(old(self)@, dt, final(self)@),
    {
        let n = self.n;
        let ghost before = self@;
        proof {
            assert forall|m: int| 0 <= m < MATRICES implies (#[trigger] self.x@[m]).len() == n * n by {
                assert(before.x[m] == self.x@[m]@);
            }
            assert forall|m: int| 0 <= m < MATRICES implies (#[trigger] self.p@[m]).len() == n * n by {
                assert(before.p[m] == self.p@[m]@);
            }
        }
        let forces = forces_on(&self.x, n, self.coupling, self.mass);
        let mut mid: Vec<Vec<S>> = Vec::new();
        let mut i: usize = 0;
        while i < MATRICES
            invariant
                i <= MATRICES,
                mid.len() == i,
                self.x.len() == MATRICES,
                self.p.len() == MATRICES,
                forces.len() == MATRICES,
                forall|m: int| 0 <= m < MATRICES ==> (#[trigger] self.x@[m]).len() == n * n,
                forall|m: int| 0 <= m < MATRICES ==> (#[trigger] self.p@[m]).len() == n * n,
                forall|m: int| 0 <= m < MATRICES ==> (#[trigger] forces@[m]).len() == n * n,
                forall|m: int|
                    0 <= m < i ==> is_moved(
                        self.x@[m]@,
                        self.p@[m]@,
                        forces@[m]@,
                        dt,
                        (#[trigger] mid@[m])@,
                    ),
            decreases MATRICES - i,
        {
            mid.push(moved_matrix(&self.x[i], &self.p[i], &forces[i], dt));
            i += 1;
        }
        let forces_new = forces_on(&mid, n, self.coupling, self.mass);
        let mut momenta: Vec<Vec<S>> = Vec::new();
        let mut settled: Vec<Vec<S>> = Vec::new();
        let mut i: usize = 0;
        while i < MATRICES
            invariant
                i <= MATRICES,
                momenta.len() == i,
                settled.len() == i,
                self.p.len() == MATRICES,
                forces.len() == MATRICES,
                forces_new.len() == MATRICES,
                mid.len() == MATRICES,
                forall|m: int| 0 <= m < MATRICES ==> (#[trigger] self.p@[m]).len() == n * n,
                forall|m: int| 0 <= m < MATRICES ==> (#[trigger] forces@[m]).len() == n * n,
                forall|m: int| 0 <= m < MATRICES ==> (#[trigger] forces_new@[m]).len() == n * n,
                forall|m: int| 0 <= m < MATRICES ==> (#[trigger] mid@[m]).len() == n * n,
                forall|m: int|
                    0 <= m < i ==> is_damped(
                        self.p@[m]@,
                        forces@[m]@,
                        forces_new@[m]@,
                        dt,
                        self.damping,
                        (#[trigger] momenta@[m])@,
                    ),
                forall|m: int|
                    0 <= m < i ==> is_symmetrized(mid@[m]@, n as int, (#[trigger] settled@[m])@),
            decreases MATRICES - i,
        {
            momenta.push(damped_matrix(&self.p[i], &forces[i], &forces_new[i], dt, self.damping));
            settled.push(symmetrize(&mid[i], n));
            i += 1;
        }
        self.p = momenta;
        self.x = settled;
        proof {
            let f = matrix_views(forces@);
            let mv = matrix_views(mid@);
            let f_new = matrix_views(forces_new@);
            assert forall|i: int| 0 <= i < MATRICES implies is_moved(
                before.x[i],
                before.p[i],
                f[i],
                dt,
                #[trigger] mv[i],
            ) by {
                assert(mv[i] == mid@[i]@);
            }
            assert forall|i: int| 0 <= i < MATRICES implies is_damped(
                before.p[i],
                f[i],
                f_new[i],
                dt,
                before.damping,
                #[trigger] self@.p[i],
            ) by {
                assert(self@.p[i] == self.p@[i]@);
            }
            assert forall|i: int| 0 <= i < MATRICES implies is_symmetrized(
                mv[i],
                n as int,
                #[trigger] self@.x[i],
            ) by {
                assert(self@.x[i] == self.x@[i]@);
            }
            assert(is_forces(before.x, n as int, before.coupling, before.mass, f));
            assert(is_forces(mv, n as int, before.coupling, before.mass, f_new));
            assert forall|i: int| 0 <= i < MATRICES implies (#[trigger] self@.p[i]).len() == n * n by {
                assert(is_damped(before.p[i], f[i], f_new[i], dt, before.damping, self@.p[i]));
            }
        }
    }

    /// Kicks every momentum: each entry on or above the diagonal receives a
    /// random kick of the given strength and is clamped, and its mirror image
    /// is set to the same value.
    pub fn poke(&mut self, strength: S)
        requires
            old(self)@.wf(),
        ensures
            final(self)@.wf(),
            final(self).source() == old(self).source(),
            final(self)@ == (MatrixView { p: final(self)@.p, ..old(self)@ }),
            forall|i: int|
                0 <= i < MATRICES ==> is_poked(
                    old(self).source(),
                    old(self)@.p[i],
                    old(self)@.n as int,
                    strength,
                    #[trigger] final(self)@.p[i],
                ),
    {
        let n = self.n;
        let ghost before = self@;
        let mut momenta: Vec<Vec<S>> = Vec::new();
        let mut i: usize = 0;
        while i < MATRICES
            invariant
                i <= MATRICES,
                momenta.len() == i,
                self.p.len() == MATRICES,
                self@ == before,
                before.wf(),
                n == before.n,
                forall|m: int|
                    0 <= m < i ==> is_poked(
                        &self.source,
                        self.p@[m]@,
                        n as int,
                        strength,
                        (#[trigger] momenta@[m])@,
                    ),
            decreases MATRICES - i,
        {
            let old_p = &self.p[i];
            let source = &self.source;
            assert(old_p.len() == n * n) by {
                assert(before.p[i as int] == self.p@[i as int]@);
            }
            let upper = |a: usize, b: usize| -> (r: S)
                requires
                    a <= b < n,
                ensures
                    is_poked_entry(source, entry(old_p@, n as int, a as int, b as int), strength, r),
                {
                    proof {
                        lemma_entry_place(n as int, a as int, b as int);
                    }
                    let u = source.draw();
                    assert(is_draw(source, u));
                    let kick = Term::of(u).minus(&Term::hundredths(50)).times(&Term::of(strength));
                    Term::of(old_p[a * n + b]).plus(&kick).clamp(MOMENTUM_CLAMP_HUNDREDTHS).value
                };
            let matrix = symmetric_from(n, upper);
            proof {
                assert forall|a: int, b: int| 0 <= a <= b < n implies is_poked_entry(
                    source,
                    entry(old_p@, n as int, a, b),
                    strength,
                    #[trigger] entry(matrix@, n as int, a, b),
                ) by {
                    assert(call_ensures(
                        upper,
                        (a as usize, b as usize),
                        entry(matrix@, n as int, a, b),
                    ));
                }
            }
            momenta.push(matrix);
            i += 1;
        }
        self.p = momenta;
        proof {
            assert(self@.x =~= before.x);
            assert forall|i: int| 0 <= i < MATRICES implies is_poked(
                &self.source,
                before.p[i],
                n as int,
                strength,
                #[trigger] self@.p[i],
            ) by {
                assert(self@.p[i] == self.p@[i]@);
            }
        }
    }

    /// Eigenvalue proxies: for every index in order, the diagonal entries of
    /// the three matrices.
    pub fn get_eigenvalues(&self) -> (out: Vec<S>)
        requires
            self@.shaped(),
        ensures
            is_diagonal_report(self@.x, self@.n as int, out@),
    {
        let n = self.n;
        let mut out: Vec<S> = Vec::new();
        let mut a: usize = 0;
        while a < n
            invariant
                a <= n,
                n == self.n,
                self@.shaped(),
                out.len() == 3 * a,
                forall|a1: int| 0 <= a1 < a ==> #[trigger] is_diagonal_row(self@.x, n as int, a1, out@),
            decreases n - a,
        {
            proof {
                lemma_entry_place(n as int, a as int, a as int);
                assert(self@.x[0] == self.x@[0]@);
                assert(self@.x[1] == self.x@[1]@);
                assert(self@.x[2] == self.x@[2]@);
            }
            let ghost shorter = out@;
            let at = a * n + a;
            out.push(self.x[0][at]);
            out.push(self.x[1][at]);
            out.push(self.x[2][at]);
            proof {
                assert forall|a1: int| 0 <= a1 < a implies #[trigger] is_diagonal_row(
                    self@.x,
                    n as int,
                    a1,
                    out@,
                ) by {
                    assert(is_diagonal_row(self@.x, n as int, a1, shorter));
                }
            }
            a += 1;
        }
        out
    }

    /// Connection strengths: for every pair `a < b` in order, the triple of
    /// `a`, `b` and the Euclidean length of the entries `(a, b)` of the three
    /// matrices.
    pub fn get_connections(&self) -> (out: Vec<S>)
        requires
            self@.shaped(),
        ensures
            is_connections_report(self@.x, self@.n as int, out@),
    {
        let n = self.n;
        let mut out: Vec<S> = Vec::new();
        let mut a: usize = 0;
        while a < n
            invariant
                a <= n,
                n == self.n,
                self@.shaped(),
                out.len() == 3 * pairs_before(n as int, a as int),
                forall|a1: int, b1: int|
                    0 <= a1 < b1 < n && a1 < a ==> #[trigger] is_connection(
                        self@.x,
                        n as int,
                        a1,
                        b1,
                        out@,
                    ),
            decreases n - a,
        {
            let mut b: usize = a + 1;
            while b < n
                invariant
                    a < n,
                    a < b <= n,
                    n == self.n,
                    self@.shaped(),
                    out.len() == 3 * pair_rank(n as int, a as int, b as int),
                    forall|a1: int, b1: int|
                        0 <= a1 < b1 < n && (a1 < a || (a1 == a && b1 < b)) ==> #[trigger] is_connection(
                            self@.x,
                            n as int,
                            a1,
                            b1,
                            out@,
                        ),
                decreases n - b,
            {
                proof {
                    lemma_entry_place(n as int, a as int, b as int);
                    lemma_pairs_before_monotone(n as int, 0, a as int);
                    assert(self@.x[0] == self.x@[0]@);
                    assert(self@.x[1] == self.x@[1]@);
                    assert(self@.x[2] == self.x@[2]@);
                }
                let ghost shorter = out@;
                let at = a * n + b;
                let length = Term::number(0).plus(&Term::of(self.x[0][at]).squared()).plus(
                    &Term::of(self.x[1][at]).squared(),
                ).plus(&Term::of(self.x[2][at]).squared()).root();
                out.push(S::number(a));
                out.push(S::number(b));
                out.push(length.value);
                proof {
                    assert forall|a1: int, b1: int|
                        0 <= a1 < b1 < n && (a1 < a || (a1 == a && b1 < b)) implies #[trigger] is_connection(
                        self@.x,
                        n as int,
                        a1,
                        b1,
                        out@,
                    ) by {
                        lemma_connection_stable(self@.x, n as int, a1, b1, shorter, out@);
                    }
                }
                b += 1;
            }
            a += 1;
        }
        out
    }

    /// The energy of the model: half the squares of the momentum entries,
    /// plus half the squared mass times the squares of the matrix entries,
    /// less a quarter of the squared coupling times the squares of the
    /// entries of the commutators of the three pairs of matrices. It may be
    /// negative.
    pub fn get_energy(&self) -> (e: S)
        requires
            self@.shaped(),
        ensures
            is_matrix_energy(self@, e),
    {
        let n = self.n;
        proof {
            assert(self@.x[0] == self.x@[0]@);
            assert(self@.x[1] == self.x@[1]@);
            assert(self@.x[2] == self.x@[2]@);
            assert(self@.p[0] == self.p@[0]@);
            assert(self@.p[1] == self.p@[1]@);
            assert(self@.p[2] == self.p@[2]@);
        }
        let k1 = kinetic_sum_of(&self.p[0], Term::number(0));
        let k2 = kinetic_sum_of(&self.p[1], k1);
        let ke = kinetic_sum_of(&self.p[2], k2);
        let v1 = confinement_sum_of(&self.x[0], self.mass, Term::number(0));
        let v2 = confinement_sum_of(&self.x[1], self.mass, v1);
        let confined = confinement_sum_of(&self.x[2], self.mass, v2);
        let c01 = commutator(&self.x[0], &self.x[1], n);
        let w1 = interaction_sum_of(&c01, self.coupling, confined);
        let c02 = commutator(&self.x[0], &self.x[2], n);
        let w2 = interaction_sum_of(&c02, self.coupling, w1);
        let c12 = commutator(&self.x[1], &self.x[2], n);
        let potential = interaction_sum_of(&c12, self.coupling, w2);
        let e = ke.plus(&potential);
        proof {
            assert(e.expr@ == energy(self@, c01@, c02@, c12@));
            assert(is_commutator(self@.x[0], self@.x[1], n as int, c01@));
            assert(is_commutator(self@.x[0], self@.x[2], n as int, c02@));
            assert(is_commutator(self@.x[1], self@.x[2], n as int, c12@));
        }
        e.value
    }
}

/// Every entry of every force lies within the force bound.
pub proof fn lemma_forces_bounded<S: Scalar>(
    x: Seq<Seq<S>>,
    n: int,
    coupling: S,
    mass: S,
    f: Seq<Seq<S>>,
    i: int,
    idx: int,
)
    requires
        is_forces(x, n, coupling, mass, f),
        0 <= i < MATRICES,
        0 <= idx < n * n,
    ensures
        within_bound(f[i][idx], FORCE_CLAMP_HUNDREDTHS),
{
    assert(is_force_matrix(x, n, coupling, mass, i, f[i]));
    let (first, second) = choose|first: Seq<S>, second: Seq<S>|
        {
            &&& #[trigger] is_double_commutator(x[others(i).0], x[i], n, first)
            &&& #[trigger] is_double_commutator(x[others(i).1], x[i], n, second)
            &&& forall|k: int|
                0 <= k < n * n ==> evaluates(
                    force(first[k], second[k], x[i][k], coupling, mass),
                    #[trigger] f[i][k],
                )
        };
    assert(evaluates(force(first[idx], second[idx], x[i][idx], coupling, mass), f[i][idx]));
    lemma_clamped_within_bound(
        difference(
            sum(
                sum(number(0), product(square(val(coupling)), val(first[idx]))),
                product(square(val(coupling)), val(second[idx])),
            ),
            product(square(val(mass)), val(x[i][idx])),
        ),
        FORCE_CLAMP_HUNDREDTHS,
        f[i][idx],
    );
}

/// `out` is `x` plus a change that lies within the step bound.
pub open spec fn is_bounded_move<S: Scalar>(x: S, out: S) -> bool {
    exists|dx: S|
        within_bound(dx, STEP_CLAMP_HUNDREDTHS) && #[trigger] call_ensures(S::sum, (x, dx), out)
}

/// An entry that was moved differs from the entry before by a change within
/// the step bound.
pub proof fn lemma_move_bounded<S: Scalar>(
    x: Seq<S>,
    momentum: Seq<S>,
    force: Seq<S>,
    dt: S,
    out: Seq<S>,
    idx: int,
)
    requires
        is_moved(x, momentum, force, dt, out),
        0 <= idx < x.len(),
    ensures
        is_bounded_move(x[idx], out[idx]),
{
    assert(evaluates(moved(x[idx], momentum[idx], force[idx], dt), out[idx]));
    let (a, dx) = choose|a: S, dx: S|
        evaluates(val(x[idx]), a) && evaluates(displacement(momentum[idx], force[idx], dt), dx)
            && #[trigger] call_ensures(S::sum, (a, dx), out[idx]);
    lemma_clamped_within_bound(
        sum(
            product(val(momentum[idx]), val(dt)),
            product(product(hundredths(50), val(force[idx])), square(val(dt))),
        ),
        STEP_CLAMP_HUNDREDTHS,
        dx,
    );
}

/// After a step every momentum entry lies within the momentum bound, and
/// every matrix is symmetric.
pub proof fn lemma_step_bounded<S: Scalar>(
    before: MatrixView<S>,
    dt: S,
    after: MatrixView<S>,
    i: int,
    idx: int,
)
    requires
        before.shaped(),
        is_matrix_step(before, dt, after),
        0 <= i < MATRICES,
        0 <= idx < before.n * before.n,
    ensures
        within_bound(after.p[i][idx], MOMENTUM_CLAMP_HUNDREDTHS),
        is_symmetric(after.x[i], after.n as int),
{
    let n = before.n as int;
    let (f, mid, f_new) = choose|f: Seq<Seq<S>>, mid: Seq<Seq<S>>, f_new: Seq<Seq<S>>|
        {
            &&& mid.len() == MATRICES
            &&& #[trigger] is_forces(before.x, n, before.coupling, before.mass, f)
            &&& #[trigger] is_forces(mid, n, before.coupling, before.mass, f_new)
            &&& forall|i: int|
                0 <= i < MATRICES ==> is_moved(before.x[i], before.p[i], f[i], dt, #[trigger] mid[i])
            &&& forall|i: int|
                0 <= i < MATRICES ==> is_damped(
                    before.p[i],
                    f[i],
                    f_new[i],
                    dt,
                    before.damping,
                    #[trigger] after.p[i],
                )
            &&& forall|i: int| 0 <= i < MATRICES ==> is_symmetrized(mid[i], n, #[trigger] after.x[i])
        };
    assert(is_damped(before.p[i], f[i], f_new[i], dt, before.damping, after.p[i]));
    assert(before.p[i].len() == n * n);
    assert(evaluates(
        damped(before.p[i][idx], f[i][idx], f_new[i][idx], dt, before.damping),
        after.p[i][idx],
    ));
    lemma_clamped_within_bound(
        product(
            difference(number(1), product(val(before.damping), val(dt))),
            sum(
                val(before.p[i][idx]),
                product(product(hundredths(50), sum(val(f[i][idx]), val(f_new[i][idx]))), val(dt)),
            ),
        ),
        MOMENTUM_CLAMP_HUNDREDTHS,
        after.p[i][idx],
    );
    assert(is_symmetrized(mid[i], n, after.x[i]));
}

/// After a poke every momentum entry lies within the momentum bound.
pub proof fn lemma_poke_bounded<S: Scalar, R: UniformSource<S>>(
    source: &R,
    p: Seq<S>,
    n: int,
    strength: S,
    out: Seq<S>,
    a: int,
    b: int,
)
    requires
        is_poked(source, p, n, strength, out),
        0 <= a < n,
        0 <= b < n,
    ensures
        within_bound(entry(out, n, a, b), MOMENTUM_CLAMP_HUNDREDTHS),
{
    let (lo, hi) = if a <= b {
        (a, b)
    } else {
        (b, a)
    };
    assert(is_poked_entry(source, entry(p, n, lo, hi), strength, entry(out, n, lo, hi)));
    assert(entry(out, n, a, b) == entry(out, n, lo, hi));
    let u = choose|u: S| #[trigger]
        is_draw(source, u) && evaluates(poked(entry(p, n, lo, hi), u, strength), entry(out, n, lo, hi));
    lemma_clamped_within_bound(
        sum(
            val(entry(p, n, lo, hi)),
            product(difference(val(u), hundredths(50)), val(strength)),
        ),
        MOMENTUM_CLAMP_HUNDREDTHS,
        entry(out, n, lo, hi),
    );
}

} // verus!
