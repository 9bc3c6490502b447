//! A mesh of a slice of the quintic surface: vertices with normals and grid
//! coordinates on a square grid, and the triangles that join them.

use crate::scalar::{
    cosine, difference, evaluates, greatest, hundredths, number, product, quotient, sine, square,
    square_root, sum, val, Expr, Scalar, Term,
};
use vstd::prelude::*;

verus! {

/// Number of scalars that the mesh holds for every vertex: the position, the
/// normal, and the two grid coordinates.
pub const VERTEX_SIZE: usize = 8;

/// Sampler of a slice of the quintic surface.
pub struct CalabiYauMesh;

/// Index of the vertex in row `iu` and column `iv` of a grid with
/// `resolution` cells, and one more vertex, along each side.
pub open spec fn vertex_index(resolution: int, iu: int, iv: int) -> int {
    iu * (resolution + 1) + iv
}

/// From index `6 * (iu * resolution + iv)` on, `out` holds the two triangles
/// of the cell `(iu, iv)`: with `a` the cell's own vertex, `b` the next in its
/// row, and `c` and `d` the two below them, the triangles `a b c` and `b d c`.
pub open spec fn is_cell(resolution: int, iu: int, iv: int, out: Seq<u32>) -> bool {
    let at = 6 * (iu * resolution + iv);
    let a = vertex_index(resolution, iu, iv);
    let c = vertex_index(resolution, iu + 1, iv);
    &&& 0 <= at
    &&& at + 6 <= out.len()
    &&& out[at] == a
    &&& out[at + 1] == a + 1
    &&& out[at + 2] == c
    &&& out[at + 3] == a + 1
    &&& out[at + 4] == c + 1
    &&& out[at + 5] == c
}

/// `out` is the index buffer of the grid: the two triangles of every cell,
/// row by row.
pub open spec fn is_index_buffer(resolution: int, out: Seq<u32>) -> bool {
    &&& out.len() == 6 * (resolution * resolution)
    &&& forall|iu: int, iv: int|
        0 <= iu < resolution && 0 <= iv < resolution ==> #[trigger] is_cell(resolution, iu, iv, out)
}

/// Grid coordinate of row or column `i`: `i / resolution`.
pub open spec fn grid_coordinate<S>(i: int, resolution: int) -> Expr<S> {
    quotient(number(i), number(resolution))
}

/// Angle of row or column `i` of the grid: `i / resolution * 2 * pi`.
pub open spec fn grid_angle<S>(i: int, resolution: int) -> Expr<S> {
    product(product(grid_coordinate(i, resolution), number(2)), Expr::Pi)
}

/// Step in angle over which the normal is taken: a hundredth.
pub open spec fn normal_step<S>() -> Expr<S> {
    hundredths(1)
}

/// Smallest length by which a normal is divided: a hundred-millionth.
pub open spec fn least_normal_length<S>() -> Expr<S> {
    quotient(number(1), number(100000000))
}

/// Coordinate `d` of the surface at the angles `u` and `v`:
/// `(cos u cos v + psi 0.2 cos 2u cos 3v + slice_z sin u 0.3) * 2.5`,
/// `(sin u sin v + psi 0.2 sin 2u sin 3v + slice_z cos v 0.3) * 2.5`,
/// `((cos u sin v + sin u cos v) 0.7 + slice_z 0.5 cos 2u) * 2.5`.
pub open spec fn surface<S>(u: Expr<S>, v: Expr<S>, slice_z: S, psi: S, d: int) -> Expr<S> {
    let su = sine(u);
    let cu = cosine(u);
    let sv = sine(v);
    let cv = cosine(v);
    let s2u = sine(product(number(2), u));
    let c2u = cosine(product(number(2), u));
    let s3v = sine(product(number(3), v));
    let c3v = cosine(product(number(3), v));
    let bend = product(val(psi), hundredths(20));
    let inner = if d == 0 {
        sum(
            sum(product(cu, cv), product(product(bend, c2u), c3v)),
            product(product(val(slice_z), su), hundredths(30)),
        )
    } else if d == 1 {
        sum(
            sum(product(su, sv), product(product(bend, s2u), s3v)),
            product(product(val(slice_z), cv), hundredths(30)),
        )
    } else {
        sum(
            product(sum(product(cu, sv), product(su, cv)), hundredths(70)),
            product(product(val(slice_z), hundredths(50)), c2u),
        )
    };
    product(inner, hundredths(250))
}

/// Coordinate `d` of the change of the surface over the normal step in `u`.
pub open spec fn tangent_u<S>(u: Expr<S>, v: Expr<S>, slice_z: S, psi: S, d: int) -> Expr<S> {
    difference(surface(sum(u, normal_step()), v, slice_z, psi, d), surface(u, v, slice_z, psi, d))
}

/// Coordinate `d` of the change of the surface over the normal step in `v`.
pub open spec fn tangent_v<S>(u: Expr<S>, v: Expr<S>, slice_z: S, psi: S, d: int) -> Expr<S> {
    difference(surface(u, sum(v, normal_step()), slice_z, psi, d), surface(u, v, slice_z, psi, d))
}

/// Coordinate `d` of the cross product of the two tangents.
pub open spec fn cross<S>(u: Expr<S>, v: Expr<S>, slice_z: S, psi: S, d: int) -> Expr<S> {
    let first = if d == 0 {
        1
    } else if d == 1 {
        2
    } else {
        0
    };
    let second = if d == 0 {
        2
    } else if d == 1 {
        0
    } else {
        1
    };
    difference(
        product(tangent_u(u, v, slice_z, psi, first), tangent_v(u, v, slice_z, psi, second)),
        product(tangent_u(u, v, slice_z, psi, second), tangent_v(u, v, slice_z, psi, first)),
    )
}

/// The length of the cross product, at least the least normal length.
pub open spec fn normal_length<S>(u: Expr<S>, v: Expr<S>, slice_z: S, psi: S) -> Expr<S> {
    greatest(
        square_root(
            sum(
                sum(square(cross(u, v, slice_z, psi, 0)), square(cross(u, v, slice_z, psi, 1))),
                square(cross(u, v, slice_z, psi, 2)),
            ),
        ),
        least_normal_length(),
    )
}

/// Scalar `k` of the vertex in row `iu` and column `iv`: the position, then
/// the cross product of the tangents divided by its length, then the two
/// grid coordinates.
pub open spec fn vertex<S>(resolution: int, slice_z: S, psi: S, iu: int, iv: int, k: int) -> Expr<S> {
    let u = grid_angle::<S>(iu, resolution);
    let v = grid_angle::<S>(iv, resolution);
    if k < 3 {
        surface(u, v, slice_z, psi, k)
    } else if k < 6 {
        quotient(cross(u, v, slice_z, psi, k - 3), normal_length(u, v, slice_z, psi))
    } else if k == 6 {
        grid_coordinate(iu, resolution)
    } else {
        grid_coordinate(iv, resolution)
    }
}

/// From the place of the vertex `(iu, iv)` on, `out` holds its eight scalars.
pub open spec fn is_vertex<S: Scalar>(
    resolution: int,
    slice_z: S,
    psi: S,
    iu: int,
    iv: int,
    out: Seq<S>,
) -> bool {
    let at = VERTEX_SIZE * vertex_index(resolution, iu, iv);
    &&& 0 <= at
    &&& at + VERTEX_SIZE <= out.len()
    &&& forall|k: int|
        0 <= k < VERTEX_SIZE ==> evaluates(
            vertex(resolution, slice_z, psi, iu, iv, k),
            #[trigger] out[at + k],
        )
}

/// `out` is the vertex buffer of the grid: the eight scalars of every vertex,
/// row by row.
pub open spec fn is_vertex_buffer<S: Scalar>(resolution: int, slice_z: S, psi: S, out: Seq<S>) -> bool {
    &&& out.len() == VERTEX_SIZE * ((resolution + 1) * (resolution + 1))
    &&& forall|iu: int, iv: int|
        0 <= iu <= resolution && 0 <= iv <= resolution ==> #[trigger] is_vertex(
            resolution,
            slice_z,
            psi,
            iu,
            iv,
            out,
        )
}

/// The deformation that oscillates with time: `sin(t * 0.3) * 0.8 + 1`.
pub open spec fn psi_at<S>(t: S) -> Expr<S> {
    sum(product(sine(product(val(t), hundredths(30))), hundredths(80)), number(1))
}

/// Every vertex index of a cell lies in the grid.
pub proof fn lemma_vertex_in_grid(resolution: int, iu: int, iv: int)
    requires
        0 <= iu <= resolution,
        0 <= iv <= resolution,
    ensures
        0 <= vertex_index(resolution, iu, iv) < (resolution + 1) * (resolution + 1),
        iu < resolution ==> vertex_index(resolution, iu + 1, iv) == vertex_index(resolution, iu, iv)
            + resolution + 1,
{
    assert(0 <= iu * (resolution + 1) && iu * (resolution + 1) + (resolution + 1) <= (resolution + 1)
        * (resolution + 1)) by (nonlinear_arith)
        requires
            0 <= iu <= resolution,
    ;
    assert((iu + 1) * (resolution + 1) == iu * (resolution + 1) + resolution + 1) by (nonlinear_arith);
}

/// A place that comes earlier row by row, in rows of the given width, has
/// the smaller index.
proof fn lemma_row_order(width: int, iu1: int, iv1: int, iu: int, iv: int)
    requires
        0 <= iu1,
        0 <= iv1 < width,
        0 <= iv,
        iu1 < iu || (iu1 == iu && iv1 < iv),
    ensures
        0 <= iu1 * width + iv1 < iu * width + iv,
{
    assert(0 <= iu1 * width) by (nonlinear_arith)
        requires
            0 <= iu1,
            0 <= width,
    ;
    if iu1 < iu {
        assert(iu1 * width + width <= iu * width) by (nonlinear_arith)
            requires
                iu1 < iu,
                0 <= width,
        ;
    }
}

/// The three coordinates of the surface at the angles `u` and `v`.
fn surface_of<S: Scalar>(u: &Term<S>, v: &Term<S>, slice_z: S, psi: S) -> (p: (Term<S>, Term<S>, Term<S>))
    requires
        u.wf(),
        v.wf(),
    ensures
        p.0.wf(),
        p.1.wf(),
        p.2.wf(),
        p.0.expr@ == surface(u.expr@, v.expr@, slice_z, psi, 0),
        p.1.expr@ == surface(u.expr@, v.expr@, slice_z, psi, 1),
        p.2.expr@ == surface(u.expr@, v.expr@, slice_z, psi, 2),
{
    let su = u.sin();
    let cu = u.cos();
    let sv = v.sin();
    let cv = v.cos();
    let twice = Term::number(2).times(u);
    let s2u = twice.sin();
    let c2u = twice.cos();
    let thrice = Term::number(3).times(v);
    let s3v = thrice.sin();
    let c3v = thrice.cos();
    let z = Term::of(slice_z);
    let bend = Term::of(psi).times(&Term::hundredths(20));
    let scale = Term::hundredths(250);
    let x = cu.times(&cv).plus(&bend.times(&c2u).times(&c3v)).plus(
        &z.times(&su).times(&Term::hundredths(30)),
    );
    let y = su.times(&sv).plus(&bend.times(&s2u).times(&s3v)).plus(
        &z.times(&cv).times(&Term::hundredths(30)),
    );
    let w = cu.times(&sv).plus(&su.times(&cv)).times(&Term::hundredths(70)).plus(
        &z.times(&Term::hundredths(50)).times(&c2u),
    );
    (x.times(&scale), y.times(&scale), w.times(&scale))
}

/// The point of the surface at the angles `u` and `v`.
pub fn cy_surface_point<S: Scalar>(u: S, v: S, slice_z: S, psi: S) -> (p: (S, S, S))
    ensures
        evaluates(surface(val(u), val(v), slice_z, psi, 0), p.0),
        evaluates(surface(val(u), val(v), slice_z, psi, 1), p.1),
        evaluates(surface(val(u), val(v), slice_z, psi, 2), p.2),
{
    let (x, y, z) = surface_of(&Term::of(u), &Term::of(v), slice_z, psi);
    (x.value, y.value, z.value)
}

/// Appends the eight scalars of the vertex `(iu, iv)` to `out`.
fn push_vertex<S: Scalar>(out: &mut Vec<S>, resolution: usize, slice_z: S, psi: S, iu: usize, iv: usize)
    ensures
        old(out)@.is_prefix_of(final(out)@),
        final(out)@.len() == old(out)@.len() + VERTEX_SIZE,
        forall|k: int|
            0 <= k < VERTEX_SIZE ==> evaluates(
                vertex(resolution as int, slice_z, psi, iu as int, iv as int, k),
                #[trigger] final(out)@[old(out)@.len() + k],
            ),
{
    let res = Term::number(resolution);
    let s = Term::number(iu).over(&res);
    let t = Term::number(iv).over(&res);
    let u = s.times(&Term::number(2)).times(&Term::pi());
    let v = t.times(&Term::number(2)).times(&Term::pi());
    let eps = Term::hundredths(1);
    let (x, y, z) = surface_of(&u, &v, slice_z, psi);
    let (x1, y1, z1) = surface_of(&u.plus(&eps), &v, slice_z, psi);
    let (x2, y2, z2) = surface_of(&u, &v.plus(&eps), slice_z, psi);
    let tu = (x1.minus(&x), y1.minus(&y), z1.minus(&z));
    let tv = (x2.minus(&x), y2.minus(&y), z2.minus(&z));
    let nx = tu.1.times(&tv.2).minus(&tu.2.times(&tv.1));
    let ny = tu.2.times(&tv.0).minus(&tu.0.times(&tv.2));
    let nz = tu.0.times(&tv.1).minus(&tu.1.times(&tv.0));
    let floor = Term::number(1).over(&Term::number(100000000));
    let nlen = nx.squared().plus(&ny.squared()).plus(&nz.squared()).root().at_least(&floor);
    let ghost at = out@.len() as int;
    out.push(x.value);
    out.push(y.value);
    out.push(z.value);
    out.push(nx.over(&nlen).value);
    out.push(ny.over(&nlen).value);
    out.push(nz.over(&nlen).value);
    out.push(s.value);
    out.push(t.value);
    proof {
        let r = resolution as int;
        assert(evaluates(vertex(r, slice_z, psi, iu as int, iv as int, 0), out@[at + 0]));
        assert(evaluates(vertex(r, slice_z, psi, iu as int, iv as int, 1), out@[at + 1]));
        assert(evaluates(vertex(r, slice_z, psi, iu as int, iv as int, 2), out@[at + 2]));
        assert(evaluates(vertex(r, slice_z, psi, iu as int, iv as int, 3), out@[at + 3]));
        assert(evaluates(vertex(r, slice_z, psi, iu as int, iv as int, 4), out@[at + 4]));
        assert(evaluates(vertex(r, slice_z, psi, iu as int, iv as int, 5), out@[at + 5]));
        assert(evaluates(vertex(r, slice_z, psi, iu as int, iv as int, 6), out@[at + 6]));
        assert(evaluates(vertex(r, slice_z, psi, iu as int, iv as int, 7), out@[at + 7]));
    }
}

/// A vertex stays where it is when the buffer grows.
proof fn lemma_vertex_stable<S: Scalar>(
    resolution: int,
    slice_z: S,
    psi: S,
    iu: int,
    iv: int,
    out: Seq<S>,
    longer: Seq<S>,
)
    requires
        is_vertex(resolution, slice_z, psi, iu, iv, out),
        out.is_prefix_of(longer),
    ensures
        is_vertex(resolution, slice_z, psi, iu, iv, longer),
{
    let at = VERTEX_SIZE * vertex_index(resolution, iu, iv);
    assert forall|k: int| 0 <= k < VERTEX_SIZE implies evaluates(
        vertex(resolution, slice_z, psi, iu, iv, k),
        #[trigger] longer[at + k],
    ) by {
        assert(longer[at + k] == out[at + k]);
    }
}

impl CalabiYauMesh {
    /// The vertex buffer of a grid of `resolution` by `resolution` cells on
    /// the slice of the surface at `slice_z`, deformed by `psi`: for every
    /// vertex, row by row, its position on the surface, the normal there,
    /// and its two grid coordinates.
    pub fn generate<S: Scalar>(resolution: u32, slice_z: S, psi: S) -> (vertices: Vec<S>)
        requires
            resolution < usize::MAX,
        ensures
            is_vertex_buffer(resolution as int, slice_z, psi, vertices@),
    {
        let res = resolution as usize;
        let ghost r = resolution as int;
        let mut vertices: Vec<S> = Vec::new();
        let mut iu: usize = 0;
        while iu <= res
            invariant
                res == resolution,
                r == resolution,
                res < usize::MAX,
                iu <= res + 1,
                vertices.len() == VERTEX_SIZE * (iu * (r + 1)),
                forall|iu1: int, iv1: int|
                    0 <= iu1 < iu && 0 <= iv1 <= r ==> #[trigger] is_vertex(
                        r,
                        slice_z,
                        psi,
                        iu1,
                        iv1,
                        vertices@,
                    ),
            decreases res + 1 - iu,
        {
            let mut iv: usize = 0;
            while iv <= res
                invariant
                    res == resolution,
                    r == resolution,
                    res < usize::MAX,
                    iu <= res,
                    iv <= res + 1,
                    vertices.len() == VERTEX_SIZE * (iu * (r + 1) + iv),
                    forall|iu1: int, iv1: int|
                        0 <= iu1 && 0 <= iv1 <= r && (iu1 < iu || (iu1 == iu && iv1 < iv))
                            ==> #[trigger] is_vertex(r, slice_z, psi, iu1, iv1, vertices@),
                decreases res + 1 - iv,
            {
                let ghost shorter = vertices@;
                push_vertex(&mut vertices, res, slice_z, psi, iu, iv);
                proof {
                    lemma_row_order(r + 1, 0, 0, iu as int, iv as int + 1);
                    assert forall|iu1: int, iv1: int|
                        0 <= iu1 && 0 <= iv1 <= r && (iu1 < iu || (iu1 == iu && iv1 < iv)) implies #[trigger] is_vertex(
                        r,
                        slice_z,
                        psi,
                        iu1,
                        iv1,
                        vertices@,
                    ) by {
                        lemma_vertex_stable(r, slice_z, psi, iu1, iv1, shorter, vertices@);
                    }
                    assert(is_vertex(r, slice_z, psi, iu as int, iv as int, vertices@));
                }
                iv += 1;
            }
            proof {
                assert((iu + 1) * (r + 1) == iu * (r + 1) + (r + 1)) by (nonlinear_arith);
            }
            iu += 1;
        }
        vertices
    }

    /// The triangle index buffer of a grid of `resolution` by `resolution`
    /// cells.
    pub fn generate_indices(resolution: u32) -> (indices: Vec<u32>)
        requires
            (resolution + 1) * (resolution + 1) <= u32::MAX + 1,
        ensures
            is_index_buffer(resolution as int, indices@),
    {
        let res = resolution as u64;
        let ghost r = resolution as int;
        let mut indices: Vec<u32> = Vec::new();
        let mut iu: u64 = 0;
        while iu < res
            invariant
                res == resolution,
                r == resolution,
                (r + 1) * (r + 1) <= u32::MAX + 1,
                iu <= res,
                indices.len() == 6 * (iu * r),
                forall|iu1: int, iv1: int|
                    0 <= iu1 < iu && 0 <= iv1 < r ==> #[trigger] is_cell(r, iu1, iv1, indices@),
            decreases res - iu,
        {
            let mut iv: u64 = 0;
            while iv < res
                invariant
                    res == resolution,
                    r == resolution,
                    (r + 1) * (r + 1) <= u32::MAX + 1,
                    iu < res,
                    iv <= res,
                    indices.len() == 6 * (iu * r + iv),
                    forall|iu1: int, iv1: int|
                        0 <= iu1 && 0 <= iv1 < r && (iu1 < iu || (iu1 == iu && iv1 < iv))
                            ==> #[trigger] is_cell(r, iu1, iv1, indices@),
                decreases res - iv,
            {
                proof {
                    lemma_vertex_in_grid(r, iu as int, iv as int);
                    lemma_vertex_in_grid(r, iu as int + 1, iv as int);
                    lemma_vertex_in_grid(r, iu as int, iv as int + 1);
                    lemma_vertex_in_grid(r, iu as int + 1, iv as int + 1);
                    lemma_row_order(r, 0, 0, iu as int, iv as int + 1);
                }
                let ghost shorter = indices@;
                let a = (iu * (res + 1) + iv) as u32;
                let c = ((iu + 1) * (res + 1) + iv) as u32;
                let b = a + 1;
                let d = c + 1;
                indices.push(a);
                indices.push(b);
                indices.push(c);
                indices.push(b);
                indices.push(d);
                indices.push(c);
                proof {
                    assert forall|iu1: int, iv1: int|
                        0 <= iu1 && 0 <= iv1 < r && (iu1 < iu || (iu1 == iu && iv1 < iv)) implies #[trigger] is_cell(
                        r,
                        iu1,
                        iv1,
                        indices@,
                    ) by {
                        lemma_row_order(r, iu1, iv1, iu as int, iv as int);
                        assert(is_cell(r, iu1, iv1, shorter));
                        assert(shorter.is_prefix_of(indices@));
                    }
                    assert(is_cell(r, iu as int, iv as int, indices@));
                }
                iv += 1;
            }
            proof {
                assert((iu + 1) * r == iu * r + r) by (nonlinear_arith);
            }
            iu += 1;
        }
        proof {
            assert(iu * r == r * r);
        }
        indices
    }

    /// The deformation at time `t`, which oscillates around one.
    pub fn psi_from_time<S: Scalar>(t: S) -> (psi: S)
        ensures
            evaluates(psi_at(t), psi),
    {
        Term::of(t).times(&Term::hundredths(30)).sin().times(&Term::hundredths(80)).plus(
            &Term::number(1),
        ).value
    }
}

} // verus!
