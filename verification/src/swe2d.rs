//! Cell layout of the 2D shallow-water model.
//!
//! The model works on an `nx` by `ny` Cartesian grid of cells stored row-major
//! (`j * nx + i`).  During a run the fields are held on a padded grid with one
//! ghost layer on each side, `(nx + 2)` cells wide and `(ny + 2)` cells tall, so
//! that padded cell `(i, j)` sits at `j * (nx + 2) + i` and the interior cells are
//! those with `1 <= i <= nx` and `1 <= j <= ny`.
//!
//! This module holds everything of the model that is decided on indices alone:
//! padding and unpadding of fields, the interior cells that the time step visits,
//! which ghost cell copies which interior cell (and which momentum it reflects) under
//! a boundary condition, and which cells take the flux of each cell face.
use vstd::prelude::*;
use vstd::arithmetic::div_mod::{
    lemma_div_pos_is_pos, lemma_fundamental_div_mod, lemma_fundamental_div_mod_converse,
    lemma_mod_bound,
};

verus! {

/// Boundary condition applied to all four domain edges.
#[derive(Clone, Copy, PartialEq, Eq, Debug)]
pub enum Bc {
    /// Zero-gradient (open): waves leave the domain.
    Transmissive,
    /// Solid wall: the normal momentum is reflected.
    Reflective,
}

/// Position of padded cell `(i, j)` on a padded grid over `nx` interior columns.
pub open spec fn padded_index_spec(nx: int, i: int, j: int) -> int {
    j * (nx + 2) + i
}

/// Whether padded position `p` is an interior (non-ghost) cell.
pub open spec fn is_interior(nx: int, ny: int, p: int) -> bool {
    &&& 1 <= p % (nx + 2) <= nx
    &&& 1 <= p / (nx + 2) <= ny
}

/// Number of cells of the padded grid.
pub open spec fn padded_len(nx: int, ny: int) -> int {
    (nx + 2) * (ny + 2)
}

/// A field padded with one ghost layer: interior cell `(i, j)` of the padded grid holds
/// unpadded cell `(i - 1, j - 1)`, every ghost cell holds `fill`.
pub open spec fn padded_field<T>(f: Seq<T>, nx: int, ny: int, fill: T) -> Seq<T> {
    Seq::new(
        padded_len(nx, ny) as nat,
        |p: int|
            if is_interior(nx, ny, p) {
                f[(p / (nx + 2) - 1) * nx + (p % (nx + 2) - 1)]
            } else {
                fill
            },
    )
}

/// The interior of a padded field, row-major over `nx` by `ny` cells.
pub open spec fn interior_field<T>(g: Seq<T>, nx: int, ny: int) -> Seq<T> {
    Seq::new((nx * ny) as nat, |s: int| g[padded_index_spec(nx, s % nx + 1, s / nx + 1)])
}

/// `a * w + b` splits back into `a` and `b` by division and remainder by `w`.
proof fn lemma_split_cell(w: int, a: int, b: int)
    requires
        w > 0,
        0 <= b < w,
    ensures
        (a * w + b) / w == a,
        (a * w + b) % w == b,
{
    lemma_fundamental_div_mod_converse(a * w + b, w, a, b);
}

/// A position `k` of an array of `n` rows, each `w` wide, splits into its row `k / w`,
/// one of the `n` rows, and its column `k % w`.
proof fn lemma_split_index(w: int, n: int, k: int)
    requires
        w > 0,
        0 <= k < n * w,
    ensures
        k == w * (k / w) + k % w,
        0 <= k % w < w,
        0 <= k / w < n,
{
    lemma_fundamental_div_mod(k, w);
    lemma_mod_bound(k, w);
    lemma_div_pos_is_pos(k, w);
    assert(k / w < n) by (nonlinear_arith)
        requires
            w > 0,
            k == w * (k / w) + k % w,
            0 <= k % w,
            k < n * w,
    ;
}

/// Row-major index of padded cell `(i, j)`.
pub fn padded_index(nx: usize, ny: usize, i: usize, j: usize) -> (r: usize)
    requires
        i <= nx + 1,
        j <= ny + 1,
        padded_len(nx as int, ny as int) <= usize::MAX,
    ensures
        r == padded_index_spec(nx as int, i as int, j as int),
        r < padded_len(nx as int, ny as int),
{
    proof {
        assert(j * (nx + 2) + i < (nx + 2) * (ny + 2) && nx + 2 <= (nx + 2) * (ny + 2))
            by (nonlinear_arith)
            requires
                i <= nx + 1,
                j <= ny + 1,
        ;
    }
    j * (nx + 2) + i
}

/// Copies an `nx` by `ny` field onto a padded grid, every ghost cell set to `fill`.
pub fn pad_interior<T: Copy>(field: &Vec<T>, nx: usize, ny: usize, fill: T) -> (r: Vec<T>)
    requires
        padded_len(nx as int, ny as int) <= usize::MAX,
        field.len() >= nx * ny,
    ensures
        r@ == padded_field(field@, nx as int, ny as int, fill),
{
    proof {
        assert(nx + 2 <= (nx + 2) * (ny + 2) && ny + 2 <= (nx + 2) * (ny + 2)) by (nonlinear_arith);
    }
    let w = nx + 2;
    let total = w * (ny + 2);
    let mut r: Vec<T> = Vec::new();
    let mut p: usize = 0;
    while p < total
        invariant
            w == nx + 2,
            total == padded_len(nx as int, ny as int),
            field.len() >= nx * ny,
            p <= total,
            r.len() == p,
            forall|q: int| 0 <= q < p ==> r@[q] == #[trigger] padded_field(field@, nx as int, ny as int, fill)[q],
        decreases total - p,
    {
        let i = p % w;
        let j = p / w;
        if 1 <= i && i <= nx && 1 <= j && j <= ny {
            proof {
                assert((j - 1) * nx + (i - 1) < nx * ny) by (nonlinear_arith)
                    requires
                        1 <= i <= nx,
                        1 <= j <= ny,
                ;
            }
            r.push(field[(j - 1) * nx + (i - 1)]);
        } else {
            r.push(fill);
        }
        p = p + 1;
    }
    assert(r@ =~= padded_field(field@, nx as int, ny as int, fill));
    r
}

/// The interior `nx` by `ny` cells of a padded field, row-major.
pub fn unpad_interior<T: Copy>(padded: &Vec<T>, nx: usize, ny: usize) -> (r: Vec<T>)
    requires
        padded_len(nx as int, ny as int) <= usize::MAX,
        padded.len() >= padded_len(nx as int, ny as int),
    ensures
        r@ == interior_field(padded@, nx as int, ny as int),
{
    proof {
        assert(nx * ny <= (nx + 2) * (ny + 2) && nx + 2 <= (nx + 2) * (ny + 2)) by (nonlinear_arith);
    }
    let total = nx * ny;
    let mut r: Vec<T> = Vec::new();
    let mut s: usize = 0;
    while s < total
        invariant
            total == nx * ny,
            nx + 2 <= usize::MAX,
            padded_len(nx as int, ny as int) <= usize::MAX,
            padded.len() >= padded_len(nx as int, ny as int),
            s <= total,
            r.len() == s,
            forall|q: int| 0 <= q < s ==> r@[q] == #[trigger] interior_field(padded@, nx as int, ny as int)[q],
        decreases total - s,
    {
        proof {
            assert(nx > 0 && nx * ny == ny * nx) by (nonlinear_arith)
                requires
                    s < nx * ny,
            ;
            lemma_split_index(nx as int, ny as int, s as int);
        }
        let i = s % nx;
        let j = s / nx;
        proof {
            assert((j + 1) * (nx + 2) + (i + 1) < (nx + 2) * (ny + 2)) by (nonlinear_arith)
                requires
                    i < nx,
                    j < ny,
            ;
        }
        r.push(padded[(j + 1) * (nx + 2) + (i + 1)]);
        s = s + 1;
    }
    assert(r@ =~= interior_field(padded@, nx as int, ny as int));
    r
}

/// Padded positions of the interior cells, row by row.
pub open spec fn interior_cells_spec(nx: int, ny: int) -> Seq<usize> {
    Seq::new((nx * ny) as nat, |s: int| padded_index_spec(nx, s % nx + 1, s / nx + 1) as usize)
}

/// Padded positions of the `nx * ny` interior cells in row-major order: the cells that
/// the time step and the update sweep visit.
pub fn interior_cells(nx: usize, ny: usize) -> (r: Vec<usize>)
    requires
        padded_len(nx as int, ny as int) <= usize::MAX,
    ensures
        r@ == interior_cells_spec(nx as int, ny as int),
{
    proof {
        assert(nx * ny <= (nx + 2) * (ny + 2) && nx + 2 <= (nx + 2) * (ny + 2)
            && ny + 2 <= (nx + 2) * (ny + 2)) by (nonlinear_arith);
    }
    let mut r: Vec<usize> = Vec::new();
    let mut j: usize = 1;
    while j <= ny
        invariant
            padded_len(nx as int, ny as int) <= usize::MAX,
            nx + 2 <= usize::MAX,
            ny + 2 <= usize::MAX,
            1 <= j <= ny + 1,
            r.len() == (j - 1) * nx,
            forall|k: int| 0 <= k < r.len() ==> r@[k] == #[trigger] interior_cells_spec(nx as int, ny as int)[k],
        decreases ny + 1 - j,
    {
        proof {
            assert(j * (nx + 2) + nx < (nx + 2) * (ny + 2) && (j - 1) * nx + nx <= nx * ny
                && (j - 1) * nx + nx == j * nx) by (nonlinear_arith)
                requires
                    1 <= j <= ny,
            ;
        }
        let row = j * (nx + 2);
        let base = (j - 1) * nx;
        let mut i: usize = 1;
        while i <= nx
            invariant
                padded_len(nx as int, ny as int) <= usize::MAX,
                nx + 2 <= usize::MAX,
                1 <= j <= ny,
                row == j * (nx + 2),
                base == (j - 1) * nx,
                row + nx < padded_len(nx as int, ny as int),
                base + nx <= nx * ny,
                1 <= i <= nx + 1,
                r.len() == base + i - 1,
                forall|k: int| 0 <= k < r.len() ==> r@[k] == #[trigger] interior_cells_spec(nx as int, ny as int)[k],
            decreases nx + 1 - i,
        {
            r.push(row + i);
            proof {
                lemma_split_cell(nx as int, j - 1, i - 1);
            }
            i = i + 1;
        }
        proof {
            assert(base + nx == j * nx) by (nonlinear_arith)
                requires
                    base == (j - 1) * nx,
            ;
        }
        j = j + 1;
    }
    assert((j - 1) * nx == nx * ny) by (nonlinear_arith)
        requires
            j == ny + 1,
    ;
    assert(r@ =~= interior_cells_spec(nx as int, ny as int));
    r
}

/// The interior cells are interior, pairwise distinct, and cover every interior cell:
/// the update sweep visits each interior cell exactly once and no ghost cell.
pub proof fn lemma_interior_cells(nx: int, ny: int, s: int, t: int, p: int)
    requires
        nx >= 0,
        ny >= 0,
        padded_len(nx, ny) <= usize::MAX,
        0 <= s < nx * ny,
        0 <= t < nx * ny,
    ensures
        is_interior(nx, ny, interior_cells_spec(nx, ny)[s] as int),
        interior_cells_spec(nx, ny)[s] == interior_cells_spec(nx, ny)[t] ==> s == t,
        0 <= p < padded_len(nx, ny) && is_interior(nx, ny, p) ==> ({
            let k = (p / (nx + 2) - 1) * nx + (p % (nx + 2) - 1);
            0 <= k < nx * ny && interior_cells_spec(nx, ny)[k] as int == p
        }),
{
    assert(nx > 0) by (nonlinear_arith)
        requires
            0 <= s < nx * ny,
            nx >= 0,
    ;
    assert(nx * ny == ny * nx) by (nonlinear_arith);
    let is = s % nx;
    let js = s / nx;
    lemma_split_index(nx, ny, s);
    lemma_cell_in_grid(nx, ny, is + 1, js + 1);
    let it = t % nx;
    let jt = t / nx;
    lemma_split_index(nx, ny, t);
    lemma_cell_in_grid(nx, ny, it + 1, jt + 1);
    if 0 <= p < padded_len(nx, ny) && is_interior(nx, ny, p) {
        let i = p % (nx + 2) - 1;
        let j = p / (nx + 2) - 1;
        let k = j * nx + i;
        assert(0 <= k < nx * ny) by (nonlinear_arith)
            requires
                k == j * nx + i,
                0 <= i < nx,
                0 <= j < ny,
        ;
        lemma_split_cell(nx, j, i);
        lemma_fundamental_div_mod(p, nx + 2);
        lemma_cell_in_grid(nx, ny, i + 1, j + 1);
        assert(p == (j + 1) * (nx + 2) + (i + 1)) by (nonlinear_arith)
            requires
                p == (nx + 2) * (p / (nx + 2)) + p % (nx + 2),
                i == p % (nx + 2) - 1,
                j == p / (nx + 2) - 1,
        ;
    }
}

/// Padding puts unpadded cell `(i, j)` at padded cell `(i + 1, j + 1)` and `fill` in every
/// ghost cell; the interior of a padded grid reads padded cell `(i + 1, j + 1)` into
/// unpadded cell `(i, j)`.
pub proof fn lemma_pad_positions<T>(f: Seq<T>, g: Seq<T>, nx: int, ny: int, fill: T, i: int, j: int, p: int)
    requires
        nx >= 0,
        ny >= 0,
        0 <= i < nx,
        0 <= j < ny,
    ensures
        padded_field(f, nx, ny, fill)[padded_index_spec(nx, i + 1, j + 1)] == f[j * nx + i],
        interior_field(g, nx, ny)[j * nx + i] == g[padded_index_spec(nx, i + 1, j + 1)],
        0 <= p < padded_len(nx, ny) && !is_interior(nx, ny, p) ==> padded_field(f, nx, ny, fill)[p] == fill,
{
    lemma_cell_in_grid(nx, ny, i + 1, j + 1);
    lemma_split_cell(nx, j, i);
    assert(0 <= j * nx + i < nx * ny) by (nonlinear_arith)
        requires
            0 <= i < nx,
            0 <= j < ny,
    ;
}

/// The interior cells come in increasing order: row by row, left to right.
pub proof fn lemma_interior_cells_increasing(nx: int, ny: int, s: int, t: int)
    requires
        nx >= 0,
        ny >= 0,
        padded_len(nx, ny) <= usize::MAX,
        0 <= s < t < nx * ny,
    ensures
        interior_cells_spec(nx, ny)[s] < interior_cells_spec(nx, ny)[t],
{
    assert(nx > 0 && nx * ny == ny * nx) by (nonlinear_arith)
        requires
            0 <= s < t < nx * ny,
            nx >= 0,
    ;
    lemma_split_index(nx, ny, s);
    lemma_split_index(nx, ny, t);
    let (is, js) = (s % nx, s / nx);
    let (it, jt) = (t % nx, t / nx);
    lemma_cell_in_grid(nx, ny, is + 1, js + 1);
    lemma_cell_in_grid(nx, ny, it + 1, jt + 1);
    assert((js + 1) * (nx + 2) + is + 1 < (jt + 1) * (nx + 2) + it + 1) by (nonlinear_arith)
        requires
            s == nx * js + is,
            t == nx * jt + it,
            s < t,
            0 <= is < nx,
            0 <= it < nx,
            js >= 0,
            jt >= 0,
    ;
}

/// Padding a field and taking the interior back gives the field itself.
pub proof fn lemma_unpad_pad<T>(f: Seq<T>, nx: int, ny: int, fill: T)
    requires
        nx >= 0,
        ny >= 0,
        f.len() >= nx * ny,
    ensures
        interior_field(padded_field(f, nx, ny, fill), nx, ny) =~= f.take(nx * ny),
{
    let g = padded_field(f, nx, ny, fill);
    assert forall|s: int| 0 <= s < nx * ny implies #[trigger] interior_field(g, nx, ny)[s] == f[s] by {
        assert(nx > 0) by (nonlinear_arith)
            requires
                0 <= s < nx * ny,
                nx >= 0,
                ny >= 0,
        ;
        assert(nx * ny == ny * nx) by (nonlinear_arith);
        lemma_split_index(nx, ny, s);
        let i = s % nx;
        let j = s / nx;
        let p = padded_index_spec(nx, i + 1, j + 1);
        lemma_split_cell(nx + 2, j + 1, i + 1);
        assert(0 <= p < padded_len(nx, ny)) by (nonlinear_arith)
            requires
                p == (j + 1) * (nx + 2) + (i + 1),
                0 <= i < nx,
                0 <= j < ny,
        ;
        assert(is_interior(nx, ny, p));
        assert(j * nx + i == s) by (nonlinear_arith)
            requires
                s == nx * j + i,
        ;
    }
}

/// One ghost-cell assignment: ghost cell `dst` takes the value of interior cell `src`;
/// the x-momentum (`flip_hu`) or y-momentum (`flip_hv`) changes sign on the way.
#[derive(Clone, Copy, PartialEq, Eq, Debug)]
pub struct GhostCopy {
    pub dst: usize,
    pub src: usize,
    pub flip_hu: bool,
    pub flip_hv: bool,
}

/// The `k`-th assignment of the ghost fill: the left and right ghost columns row by row,
/// then the bottom and top ghost rows column by column.
pub open spec fn ghost_copy_spec(nx: int, ny: int, bc: Bc, k: int) -> GhostCopy {
    let refl = bc == Bc::Reflective;
    if k < 2 * ny {
        let j = k / 2 + 1;
        if k % 2 == 0 {
            GhostCopy {
                dst: padded_index_spec(nx, 0, j) as usize,
                src: padded_index_spec(nx, 1, j) as usize,
                flip_hu: refl,
                flip_hv: false,
            }
        } else {
            GhostCopy {
                dst: padded_index_spec(nx, nx + 1, j) as usize,
                src: padded_index_spec(nx, nx, j) as usize,
                flip_hu: refl,
                flip_hv: false,
            }
        }
    } else {
        let i = (k - 2 * ny) / 2 + 1;
        if (k - 2 * ny) % 2 == 0 {
            GhostCopy {
                dst: padded_index_spec(nx, i, 0) as usize,
                src: padded_index_spec(nx, i, 1) as usize,
                flip_hu: false,
                flip_hv: refl,
            }
        } else {
            GhostCopy {
                dst: padded_index_spec(nx, i, ny + 1) as usize,
                src: padded_index_spec(nx, i, ny) as usize,
                flip_hu: false,
                flip_hv: refl,
            }
        }
    }
}

/// All ghost assignments of one ghost fill, in order.
pub open spec fn ghost_plan_spec(nx: int, ny: int, bc: Bc) -> Seq<GhostCopy> {
    Seq::new((2 * ny + 2 * nx) as nat, |k: int| ghost_copy_spec(nx, ny, bc, k))
}

/// The ghost-cell fill that precedes every time step: each ghost cell of the left and
/// right columns and of the bottom and top rows copies its neighbouring interior cell
/// (depth, bed and both momenta); at a `Reflective` wall the momentum normal to that wall
/// changes sign. The four corner cells are never written.
pub fn ghost_plan(nx: usize, ny: usize, bc: Bc) -> (r: Vec<GhostCopy>)
    requires
        padded_len(nx as int, ny as int) <= usize::MAX,
    ensures
        r@ == ghost_plan_spec(nx as int, ny as int, bc),
        forall|k: int| 0 <= k < r@.len() ==> ghost_reads_neighbour(nx as int, ny as int, bc, #[trigger] r@[k]),
{
    proof {
        assert((ny + 1) * (nx + 2) + nx + 1 < (nx + 2) * (ny + 2)
            && 2 * ny + 2 * nx <= (nx + 2) * (ny + 2)) by (nonlinear_arith);
    }
    let refl = match bc {
        Bc::Reflective => true,
        Bc::Transmissive => false,
    };
    let w = nx + 2;
    let mut r: Vec<GhostCopy> = Vec::new();
    let mut j: usize = 1;
    while j <= ny
        invariant
            w == nx + 2,
            padded_len(nx as int, ny as int) <= usize::MAX,
            refl == (bc == Bc::Reflective),
            1 <= j <= ny + 1,
            r.len() == 2 * (j - 1),
            forall|k: int| 0 <= k < r.len() ==> r@[k] == #[trigger] ghost_copy_spec(nx as int, ny as int, bc, k),
        decreases ny + 1 - j,
    {
        proof {
            assert(j * (nx + 2) + nx + 1 < (nx + 2) * (ny + 2)) by (nonlinear_arith)
                requires
                    j <= ny,
            ;
        }
        let row = j * w;
        r.push(GhostCopy { dst: row, src: row + 1, flip_hu: refl, flip_hv: false });
        r.push(GhostCopy { dst: row + nx + 1, src: row + nx, flip_hu: refl, flip_hv: false });
        proof {
            let k0 = 2 * (j - 1);
            assert(k0 / 2 + 1 == j && k0 % 2 == 0);
            assert((k0 + 1) / 2 + 1 == j && (k0 + 1) % 2 == 1);
        }
        j = j + 1;
    }
    let mut i: usize = 1;
    while i <= nx
        invariant
            w == nx + 2,
            padded_len(nx as int, ny as int) <= usize::MAX,
            refl == (bc == Bc::Reflective),
            1 <= i <= nx + 1,
            r.len() == 2 * ny + 2 * (i - 1),
            forall|k: int| 0 <= k < r.len() ==> r@[k] == #[trigger] ghost_copy_spec(nx as int, ny as int, bc, k),
        decreases nx + 1 - i,
    {
        proof {
            assert((ny + 1) * (nx + 2) + i < (nx + 2) * (ny + 2) && ny * (nx + 2) + i <= (ny + 1) * (nx + 2) + i
                && (ny + 1) * (nx + 2) == ny * (nx + 2) + (nx + 2)) by (nonlinear_arith)
                requires
                    i <= nx,
            ;
        }
        let top = (ny + 1) * w + i;
        r.push(GhostCopy { dst: i, src: w + i, flip_hu: false, flip_hv: refl });
        r.push(GhostCopy { dst: top, src: top - w, flip_hu: false, flip_hv: refl });
        proof {
            let k0 = 2 * (i - 1);
            assert(k0 / 2 + 1 == i && k0 % 2 == 0);
            assert((k0 + 1) / 2 + 1 == i && (k0 + 1) % 2 == 1);
            assert(2 * ny + k0 - 2 * ny == k0);
        }
        i = i + 1;
    }
    assert(r@ =~= ghost_plan_spec(nx as int, ny as int, bc));
    assert forall|k: int| 0 <= k < r@.len() implies ghost_reads_neighbour(nx as int, ny as int, bc, #[trigger] r@[k]) by {
        lemma_ghost_plan_reads_neighbour(nx as int, ny as int, bc, k);
    }
    r
}

/// Under any boundary condition the ghost fill writes only ghost cells and reads only
/// interior cells; at a `Transmissive` boundary no momentum changes sign, at a
/// `Reflective` one the left and right columns reflect the x-momentum and the bottom and
/// top rows the y-momentum.
pub proof fn lemma_ghost_plan_shape(nx: int, ny: int, bc: Bc, k: int)
    requires
        nx >= 1,
        ny >= 1,
        padded_len(nx, ny) <= usize::MAX,
        0 <= k < 2 * ny + 2 * nx,
    ensures
        ({
            let g = ghost_plan_spec(nx, ny, bc)[k];
            &&& !is_interior(nx, ny, g.dst as int)
            &&& is_interior(nx, ny, g.src as int)
            &&& g.flip_hu == (bc == Bc::Reflective && k < 2 * ny)
            &&& g.flip_hv == (bc == Bc::Reflective && k >= 2 * ny)
        }),
{
    let w = nx + 2;
    let g = ghost_plan_spec(nx, ny, bc)[k];
    assert(g == ghost_copy_spec(nx, ny, bc, k));
    assert(w * (ny + 2) == padded_len(nx, ny));
    if k < 2 * ny {
        let j = k / 2 + 1;
        assert(1 <= j <= ny);
        assert(0 <= j * w && j * w + nx + 1 < w * (ny + 2)) by (nonlinear_arith)
            requires
                1 <= j <= ny,
                w == nx + 2,
                nx >= 0,
        ;
        lemma_split_cell(w, j, 1);
        lemma_split_cell(w, j, nx);
        if k % 2 == 0 {
            lemma_split_cell(w, j, 0);
            assert(g.dst as int == j * w + 0);
            assert(g.src as int == j * w + 1);
        } else {
            lemma_split_cell(w, j, nx + 1);
            assert(g.dst as int == j * w + (nx + 1));
            assert(g.src as int == j * w + nx);
        }
    } else {
        let i = (k - 2 * ny) / 2 + 1;
        assert(1 <= i <= nx);
        assert(0 <= ny * w && (ny + 1) * w + i < w * (ny + 2) && w + i <= ny * w + i
            && ny * w + i < (ny + 1) * w + i) by (nonlinear_arith)
            requires
                1 <= i <= nx,
                ny >= 1,
                w == nx + 2,
        ;
        lemma_split_cell(w, 1, i);
        lemma_split_cell(w, ny, i);
        if (k - 2 * ny) % 2 == 0 {
            lemma_split_cell(w, 0, i);
            assert(g.dst as int == 0 * w + i);
            assert(g.src as int == 1 * w + i);
        } else {
            lemma_split_cell(w, ny + 1, i);
            assert(g.dst as int == (ny + 1) * w + i);
            assert(g.src as int == ny * w + i);
        }
    }
}

/// Column of padded position `p`.
pub open spec fn col_of(nx: int, p: int) -> int {
    p % (nx + 2)
}

/// Row of padded position `p`.
pub open spec fn row_of(nx: int, p: int) -> int {
    p / (nx + 2)
}

/// Ghost copy `g` writes a cell of the ghost ring and reads the cell next to it across
/// the wall: a ghost at `(0, j)` reads `(1, j)`, one at `(nx + 1, j)` reads `(nx, j)`, one
/// at `(i, 0)` reads `(i, 1)`, one at `(i, ny + 1)` reads `(i, ny)`. At a reflective
/// wall it negates the momentum normal to that wall and no other; otherwise none.
pub open spec fn ghost_reads_neighbour(nx: int, ny: int, bc: Bc, g: GhostCopy) -> bool {
    let di = col_of(nx, g.dst as int);
    let dj = row_of(nx, g.dst as int);
    let si = col_of(nx, g.src as int);
    let sj = row_of(nx, g.src as int);
    let refl = bc == Bc::Reflective;
    &&& g.dst < padded_len(nx, ny)
    &&& g.src < padded_len(nx, ny)
    &&& (di == 0 || di == nx + 1 || dj == 0 || dj == ny + 1)
    &&& (di == 0 ==> si == 1 && sj == dj)
    &&& (di == nx + 1 ==> si == nx && sj == dj)
    &&& (dj == 0 ==> si == di && sj == 1)
    &&& (dj == ny + 1 ==> si == di && sj == ny)
    &&& g.flip_hu == (refl && (di == 0 || di == nx + 1))
    &&& g.flip_hv == (refl && (dj == 0 || dj == ny + 1))
}

/// Every ghost copy of the fill writes a ghost-ring cell from its neighbour across the
/// wall, and reflects exactly the momentum normal to that wall at a reflective wall.
pub proof fn lemma_ghost_plan_reads_neighbour(nx: int, ny: int, bc: Bc, k: int)
    requires
        nx >= 0,
        ny >= 0,
        padded_len(nx, ny) <= usize::MAX,
        0 <= k < 2 * ny + 2 * nx,
    ensures
        ghost_reads_neighbour(nx, ny, bc, ghost_plan_spec(nx, ny, bc)[k]),
{
    let g = ghost_plan_spec(nx, ny, bc)[k];
    assert(g == ghost_copy_spec(nx, ny, bc, k));
    if k < 2 * ny {
        let j = k / 2 + 1;
        lemma_cell_in_grid(nx, ny, 0, j);
        lemma_cell_in_grid(nx, ny, 1, j);
        lemma_cell_in_grid(nx, ny, nx + 1, j);
        lemma_cell_in_grid(nx, ny, nx, j);
    } else {
        let i = (k - 2 * ny) / 2 + 1;
        lemma_cell_in_grid(nx, ny, i, 0);
        lemma_cell_in_grid(nx, ny, i, 1);
        lemma_cell_in_grid(nx, ny, i, ny + 1);
        lemma_cell_in_grid(nx, ny, i, ny);
    }
}

/// The ghost fill writes every cell of the ghost ring except the four corners.
pub proof fn lemma_ghost_plan_covers(nx: int, ny: int, bc: Bc, p: int)
    requires
        nx >= 0,
        ny >= 0,
        padded_len(nx, ny) <= usize::MAX,
        0 <= p < padded_len(nx, ny),
        col_of(nx, p) == 0 || col_of(nx, p) == nx + 1 || row_of(nx, p) == 0 || row_of(nx, p) == ny + 1,
        !((col_of(nx, p) == 0 || col_of(nx, p) == nx + 1) && (row_of(nx, p) == 0 || row_of(nx, p) == ny + 1)),
    ensures
        exists|k: int| 0 <= k < 2 * ny + 2 * nx && #[trigger] ghost_plan_spec(nx, ny, bc)[k].dst as int == p,
{
    let i = col_of(nx, p);
    let j = row_of(nx, p);
    lemma_split_index(nx + 2, ny + 2, p);
    lemma_cell_in_grid(nx, ny, i, j);
    assert(p == padded_index_spec(nx, i, j)) by (nonlinear_arith)
        requires
            p == (nx + 2) * j + i,
    ;
    let plan = ghost_plan_spec(nx, ny, bc);
    if i == 0 {
        let k = 2 * (j - 1);
        assert(k / 2 + 1 == j && k % 2 == 0);
        assert(plan[k].dst as int == p);
    } else if i == nx + 1 {
        let k = 2 * (j - 1) + 1;
        assert(k / 2 + 1 == j && k % 2 == 1);
        assert(plan[k].dst as int == p);
    } else if j == 0 {
        let k = 2 * ny + 2 * (i - 1);
        assert((k - 2 * ny) / 2 + 1 == i && (k - 2 * ny) % 2 == 0);
        assert(plan[k].dst as int == p);
    } else {
        let k = 2 * ny + 2 * (i - 1) + 1;
        assert((k - 2 * ny) / 2 + 1 == i && (k - 2 * ny) % 2 == 1);
        assert(plan[k].dst as int == p);
    }
}

/// A cell face between cells `left` and `right` of the padded grid (left/bottom first).
/// The flux through the face is taken out of `left` when `update_left` holds and added
/// to `right` when `update_right` holds.
#[derive(Clone, Copy, PartialEq, Eq, Debug)]
pub struct Face {
    pub left: usize,
    pub right: usize,
    pub update_left: bool,
    pub update_right: bool,
}

/// The `k`-th face normal to x: row `k / (nx + 1) + 1`, faces `0..=nx` from left to right.
pub open spec fn x_face_spec(nx: int, k: int) -> Face {
    let j = k / (nx + 1) + 1;
    let i = k % (nx + 1);
    Face {
        left: padded_index_spec(nx, i, j) as usize,
        right: padded_index_spec(nx, i + 1, j) as usize,
        update_left: i >= 1,
        update_right: i + 1 <= nx,
    }
}

/// All faces normal to x, row by row.
pub open spec fn x_faces_spec(nx: int, ny: int) -> Seq<Face> {
    Seq::new((ny * (nx + 1)) as nat, |k: int| x_face_spec(nx, k))
}

/// The `k`-th face normal to y: column `k / (ny + 1) + 1`, faces `0..=ny` from bottom to top.
pub open spec fn y_face_spec(nx: int, ny: int, k: int) -> Face {
    let i = k / (ny + 1) + 1;
    let j = k % (ny + 1);
    Face {
        left: padded_index_spec(nx, i, j) as usize,
        right: padded_index_spec(nx, i, j + 1) as usize,
        update_left: j >= 1,
        update_right: j + 1 <= ny,
    }
}

/// All faces normal to y, column by column.
pub open spec fn y_faces_spec(nx: int, ny: int) -> Seq<Face> {
    Seq::new((nx * (ny + 1)) as nat, |k: int| y_face_spec(nx, ny, k))
}

/// The faces normal to x in the order of the flux sweep: for each row `j` in `1..=ny`,
/// the faces between cells `i` and `i + 1` for `i` in `0..=nx`. A face updates a side
/// only where that side is an interior cell.
pub fn x_faces(nx: usize, ny: usize) -> (r: Vec<Face>)
    requires
        padded_len(nx as int, ny as int) <= usize::MAX,
    ensures
        r@ == x_faces_spec(nx as int, ny as int),
        forall|k: int| 0 <= k < r@.len() ==> joins_row_neighbours(nx as int, ny as int, #[trigger] r@[k]),
{
    proof {
        assert(ny * (nx + 1) <= (nx + 2) * (ny + 2) && nx + 2 <= (nx + 2) * (ny + 2)
            && ny + 2 <= (nx + 2) * (ny + 2)) by (nonlinear_arith);
    }
    let mut r: Vec<Face> = Vec::new();
    let mut j: usize = 1;
    while j <= ny
        invariant
            padded_len(nx as int, ny as int) <= usize::MAX,
            nx + 2 <= usize::MAX,
            ny + 2 <= usize::MAX,
            ny * (nx + 1) <= usize::MAX,
            1 <= j <= ny + 1,
            r.len() == (j - 1) * (nx + 1),
            forall|k: int| 0 <= k < r.len() ==> r@[k] == #[trigger] x_face_spec(nx as int, k),
        decreases ny + 1 - j,
    {
        proof {
            assert(j * (nx + 2) + nx + 1 < (nx + 2) * (ny + 2) && (j - 1) * (nx + 1) + nx + 1 <= ny * (nx + 1)
                && (j - 1) * (nx + 1) + nx + 1 == j * (nx + 1)) by (nonlinear_arith)
                requires
                    1 <= j <= ny,
            ;
        }
        let row = j * (nx + 2);
        let base = (j - 1) * (nx + 1);
        let mut i: usize = 0;
        while i <= nx
            invariant
                padded_len(nx as int, ny as int) <= usize::MAX,
                nx + 2 <= usize::MAX,
                1 <= j <= ny,
                row == j * (nx + 2),
                base == (j - 1) * (nx + 1),
                row + nx + 1 < padded_len(nx as int, ny as int),
                base + nx + 1 <= ny * (nx + 1),
                0 <= i <= nx + 1,
                r.len() == base + i,
                forall|k: int| 0 <= k < r.len() ==> r@[k] == #[trigger] x_face_spec(nx as int, k),
            decreases nx + 1 - i,
        {
            r.push(Face { left: row + i, right: row + i + 1, update_left: i >= 1, update_right: i + 1 <= nx });
            proof {
                lemma_split_cell(nx + 1, j - 1, i as int);
                assert((j - 1) * (nx + 1) + i == base + i);
            }
            i = i + 1;
        }
        proof {
            assert(base + nx + 1 == j * (nx + 1)) by (nonlinear_arith)
                requires
                    base == (j - 1) * (nx + 1),
                    j >= 1,
            ;
        }
        j = j + 1;
    }
    assert(r@ =~= x_faces_spec(nx as int, ny as int));
    assert forall|k: int| 0 <= k < r@.len() implies joins_row_neighbours(nx as int, ny as int, #[trigger] r@[k]) by {
        lemma_x_face_joins_neighbours(nx as int, ny as int, k);
    }
    r
}

/// The faces normal to y in the order of the flux sweep: for each column `i` in `1..=nx`,
/// the faces between cells `j` and `j + 1` for `j` in `0..=ny`. A face updates a side
/// only where that side is an interior cell.
pub fn y_faces(nx: usize, ny: usize) -> (r: Vec<Face>)
    requires
        padded_len(nx as int, ny as int) <= usize::MAX,
    ensures
        r@ == y_faces_spec(nx as int, ny as int),
        forall|k: int| 0 <= k < r@.len() ==> joins_column_neighbours(nx as int, ny as int, #[trigger] r@[k]),
{
    proof {
        assert(nx * (ny + 1) <= (nx + 2) * (ny + 2) && nx + 2 <= (nx + 2) * (ny + 2)
            && ny + 2 <= (nx + 2) * (ny + 2)) by (nonlinear_arith);
    }
    let mut r: Vec<Face> = Vec::new();
    let mut i: usize = 1;
    while i <= nx
        invariant
            padded_len(nx as int, ny as int) <= usize::MAX,
            nx + 2 <= usize::MAX,
            ny + 2 <= usize::MAX,
            nx * (ny + 1) <= usize::MAX,
            1 <= i <= nx + 1,
            r.len() == (i - 1) * (ny + 1),
            forall|k: int| 0 <= k < r.len() ==> r@[k] == #[trigger] y_face_spec(nx as int, ny as int, k),
        decreases nx + 1 - i,
    {
        proof {
            assert((i - 1) * (ny + 1) + ny + 1 <= nx * (ny + 1)) by (nonlinear_arith)
                requires
                    1 <= i <= nx,
            ;
        }
        let base = (i - 1) * (ny + 1);
        let mut j: usize = 0;
        while j <= ny
            invariant
                padded_len(nx as int, ny as int) <= usize::MAX,
                nx + 2 <= usize::MAX,
                ny + 2 <= usize::MAX,
                1 <= i <= nx,
                base == (i - 1) * (ny + 1),
                base + ny + 1 <= nx * (ny + 1),
                0 <= j <= ny + 1,
                r.len() == base + j,
                forall|k: int| 0 <= k < r.len() ==> r@[k] == #[trigger] y_face_spec(nx as int, ny as int, k),
            decreases ny + 1 - j,
        {
            proof {
                assert((j + 1) * (nx + 2) + i < (nx + 2) * (ny + 2) && j * (nx + 2) + i < (j + 1) * (nx + 2) + i
                    && (j + 1) * (nx + 2) == j * (nx + 2) + (nx + 2)) by (nonlinear_arith)
                    requires
                        1 <= i <= nx,
                        j <= ny,
                ;
            }
            let lo = j * (nx + 2) + i;
            r.push(Face { left: lo, right: lo + (nx + 2), update_left: j >= 1, update_right: j + 1 <= ny });
            proof {
                lemma_split_cell(ny + 1, i - 1, j as int);
            }
            j = j + 1;
        }
        proof {
            assert(base + ny + 1 == i * (ny + 1)) by (nonlinear_arith)
                requires
                    base == (i - 1) * (ny + 1),
                    i >= 1,
            ;
        }
        i = i + 1;
    }
    assert(r@ =~= y_faces_spec(nx as int, ny as int));
    assert forall|k: int| 0 <= k < r@.len() implies joins_column_neighbours(nx as int, ny as int, #[trigger] r@[k]) by {
        lemma_y_face_joins_neighbours(nx as int, ny as int, k);
    }
    r
}

/// Position and range facts for the cell at column `i`, row `j` of the padded grid.
proof fn lemma_cell_in_grid(nx: int, ny: int, i: int, j: int)
    requires
        nx >= 0,
        ny >= 0,
        0 <= i <= nx + 1,
        0 <= j <= ny + 1,
    ensures
        0 <= padded_index_spec(nx, i, j) < padded_len(nx, ny),
        padded_index_spec(nx, i, j) % (nx + 2) == i,
        padded_index_spec(nx, i, j) / (nx + 2) == j,
{
    lemma_split_cell(nx + 2, j, i);
    assert(0 <= j * (nx + 2) + i < (nx + 2) * (ny + 2)) by (nonlinear_arith)
        requires
            nx >= 0,
            0 <= i <= nx + 1,
            0 <= j <= ny + 1,
    ;
}

/// Each face normal to x updates exactly those of its two cells that are interior.
pub proof fn lemma_x_face_updates(nx: int, ny: int, k: int)
    requires
        nx >= 0,
        ny >= 0,
        padded_len(nx, ny) <= usize::MAX,
        0 <= k < ny * (nx + 1),
    ensures
        ({
            let f = x_faces_spec(nx, ny)[k];
            &&& f.update_left == is_interior(nx, ny, f.left as int)
            &&& f.update_right == is_interior(nx, ny, f.right as int)
        }),
{
    let i = k % (nx + 1);
    let j = k / (nx + 1);
    lemma_split_index(nx + 1, ny, k);
    lemma_cell_in_grid(nx, ny, i, j + 1);
    lemma_cell_in_grid(nx, ny, i + 1, j + 1);
}

/// Every interior cell is the left cell of exactly one face normal to x and the right
/// cell of exactly one, and both of these faces update it: the flux through a face
/// leaves one cell and enters its neighbour, and each interior cell sees each of its
/// two x-faces once.
pub proof fn lemma_x_faces_of_cell(nx: int, ny: int, i: int, j: int)
    requires
        1 <= i <= nx,
        1 <= j <= ny,
        padded_len(nx, ny) <= usize::MAX,
    ensures
        ({
            let c = padded_index_spec(nx, i, j);
            let faces = x_faces_spec(nx, ny);
            let kl = (j - 1) * (nx + 1) + i;
            &&& 0 <= kl - 1
            &&& kl < faces.len()
            &&& faces[kl].left as int == c && faces[kl].update_left
            &&& faces[kl - 1].right as int == c && faces[kl - 1].update_right
            &&& forall|k: int| 0 <= k < faces.len() && #[trigger] faces[k].left as int == c ==> k == kl
            &&& forall|k: int| 0 <= k < faces.len() && #[trigger] faces[k].right as int == c ==> k == kl - 1
        }),
{
    let c = padded_index_spec(nx, i, j);
    let faces = x_faces_spec(nx, ny);
    let kl = (j - 1) * (nx + 1) + i;
    assert(kl < ny * (nx + 1)) by (nonlinear_arith)
        requires
            kl == (j - 1) * (nx + 1) + i,
            1 <= i <= nx,
            1 <= j <= ny,
    ;
    assert(0 <= (j - 1) * (nx + 1)) by (nonlinear_arith)
        requires
            j >= 1,
            nx >= 0,
    ;
    lemma_split_cell(nx + 1, j - 1, i);
    lemma_split_cell(nx + 1, j - 1, i - 1);
    lemma_cell_in_grid(nx, ny, i, j);
    assert forall|k: int| 0 <= k < faces.len() && #[trigger] faces[k].left as int == c implies k == kl by {
        lemma_x_face_updates(nx, ny, k);
        let ik = k % (nx + 1);
        let jk = k / (nx + 1);
        lemma_split_index(nx + 1, ny, k);
        lemma_cell_in_grid(nx, ny, ik, jk + 1);
        assert(k == (jk + 1 - 1) * (nx + 1) + ik) by (nonlinear_arith)
            requires
                k == (nx + 1) * jk + ik,
        ;
    }
    assert forall|k: int| 0 <= k < faces.len() && #[trigger] faces[k].right as int == c implies k == kl - 1 by {
        lemma_x_face_updates(nx, ny, k);
        let ik = k % (nx + 1);
        let jk = k / (nx + 1);
        lemma_split_index(nx + 1, ny, k);
        lemma_cell_in_grid(nx, ny, ik + 1, jk + 1);
        assert(k == (jk + 1 - 1) * (nx + 1) + ik) by (nonlinear_arith)
            requires
                k == (nx + 1) * jk + ik,
        ;
    }
}

/// Each face normal to y updates exactly those of its two cells that are interior.
pub proof fn lemma_y_face_updates(nx: int, ny: int, k: int)
    requires
        nx >= 0,
        ny >= 0,
        padded_len(nx, ny) <= usize::MAX,
        0 <= k < nx * (ny + 1),
    ensures
        ({
            let f = y_faces_spec(nx, ny)[k];
            &&& f.update_left == is_interior(nx, ny, f.left as int)
            &&& f.update_right == is_interior(nx, ny, f.right as int)
        }),
{
    let j = k % (ny + 1);
    let i = k / (ny + 1);
    lemma_split_index(ny + 1, nx, k);
    lemma_cell_in_grid(nx, ny, i + 1, j);
    lemma_cell_in_grid(nx, ny, i + 1, j + 1);
}

/// Every interior cell is the lower cell of exactly one face normal to y and the upper
/// cell of exactly one, and both of these faces update it.
pub proof fn lemma_y_faces_of_cell(nx: int, ny: int, i: int, j: int)
    requires
        1 <= i <= nx,
        1 <= j <= ny,
        padded_len(nx, ny) <= usize::MAX,
    ensures
        ({
            let c = padded_index_spec(nx, i, j);
            let faces = y_faces_spec(nx, ny);
            let kl = (i - 1) * (ny + 1) + j;
            &&& 0 <= kl - 1
            &&& kl < faces.len()
            &&& faces[kl].left as int == c && faces[kl].update_left
            &&& faces[kl - 1].right as int == c && faces[kl - 1].update_right
            &&& forall|k: int| 0 <= k < faces.len() && #[trigger] faces[k].left as int == c ==> k == kl
            &&& forall|k: int| 0 <= k < faces.len() && #[trigger] faces[k].right as int == c ==> k == kl - 1
        }),
{
    let c = padded_index_spec(nx, i, j);
    let faces = y_faces_spec(nx, ny);
    let kl = (i - 1) * (ny + 1) + j;
    assert(kl < nx * (ny + 1)) by (nonlinear_arith)
        requires
            kl == (i - 1) * (ny + 1) + j,
            1 <= i <= nx,
            1 <= j <= ny,
    ;
    assert(0 <= (i - 1) * (ny + 1)) by (nonlinear_arith)
        requires
            i >= 1,
            ny >= 0,
    ;
    lemma_split_cell(ny + 1, i - 1, j);
    lemma_split_cell(ny + 1, i - 1, j - 1);
    lemma_cell_in_grid(nx, ny, i, j);
    assert forall|k: int| 0 <= k < faces.len() && #[trigger] faces[k].left as int == c implies k == kl by {
        lemma_y_face_updates(nx, ny, k);
        let jk = k % (ny + 1);
        let ik = k / (ny + 1);
        lemma_split_index(ny + 1, nx, k);
        lemma_cell_in_grid(nx, ny, ik + 1, jk);
        assert(k == (ik + 1 - 1) * (ny + 1) + jk) by (nonlinear_arith)
            requires
                k == (ny + 1) * ik + jk,
        ;
    }
    assert forall|k: int| 0 <= k < faces.len() && #[trigger] faces[k].right as int == c implies k == kl - 1 by {
        lemma_y_face_updates(nx, ny, k);
        let jk = k % (ny + 1);
        let ik = k / (ny + 1);
        lemma_split_index(ny + 1, nx, k);
        lemma_cell_in_grid(nx, ny, ik + 1, jk + 1);
        assert(k == (ik + 1 - 1) * (ny + 1) + jk) by (nonlinear_arith)
            requires
                k == (ny + 1) * ik + jk,
        ;
    }
}

/// Face `f` normal to x joins two horizontally adjacent cells of one grid row: `right`
/// is the cell just right of `left`, in a row `1..=ny`, and the face updates exactly
/// those of the two cells that are interior.
pub open spec fn joins_row_neighbours(nx: int, ny: int, f: Face) -> bool {
    &&& f.right < padded_len(nx, ny)
    &&& f.right == f.left + 1
    &&& row_of(nx, f.left as int) == row_of(nx, f.right as int)
    &&& 1 <= row_of(nx, f.left as int) <= ny
    &&& f.update_left == is_interior(nx, ny, f.left as int)
    &&& f.update_right == is_interior(nx, ny, f.right as int)
}

/// Face `f` normal to y joins two vertically adjacent cells of one grid column: `right`
/// is the cell just above `left`, in a column `1..=nx`, and the face updates exactly
/// those of the two cells that are interior.
pub open spec fn joins_column_neighbours(nx: int, ny: int, f: Face) -> bool {
    &&& f.right < padded_len(nx, ny)
    &&& f.right == f.left + (nx + 2)
    &&& col_of(nx, f.left as int) == col_of(nx, f.right as int)
    &&& 1 <= col_of(nx, f.left as int) <= nx
    &&& f.update_left == is_interior(nx, ny, f.left as int)
    &&& f.update_right == is_interior(nx, ny, f.right as int)
}

/// Every face normal to x joins a cell to its right-hand neighbour in the same row.
pub proof fn lemma_x_face_joins_neighbours(nx: int, ny: int, k: int)
    requires
        nx >= 0,
        ny >= 0,
        padded_len(nx, ny) <= usize::MAX,
        0 <= k < ny * (nx + 1),
    ensures
        joins_row_neighbours(nx, ny, x_faces_spec(nx, ny)[k]),
{
    lemma_x_face_updates(nx, ny, k);
    let i = k % (nx + 1);
    let j = k / (nx + 1);
    lemma_split_index(nx + 1, ny, k);
    lemma_cell_in_grid(nx, ny, i, j + 1);
    lemma_cell_in_grid(nx, ny, i + 1, j + 1);
}

/// Every pair of horizontally adjacent cells of a grid row, the walls included, is
/// joined by a face normal to x.
pub proof fn lemma_x_faces_cover(nx: int, ny: int, i: int, j: int)
    requires
        nx >= 0,
        padded_len(nx, ny) <= usize::MAX,
        0 <= i <= nx,
        1 <= j <= ny,
    ensures
        exists|k: int|
            0 <= k < ny * (nx + 1) && #[trigger] x_faces_spec(nx, ny)[k].left as int == padded_index_spec(nx, i, j),
{
    let k = (j - 1) * (nx + 1) + i;
    assert(0 <= k < ny * (nx + 1)) by (nonlinear_arith)
        requires
            k == (j - 1) * (nx + 1) + i,
            0 <= i <= nx,
            1 <= j <= ny,
    ;
    lemma_split_cell(nx + 1, j - 1, i);
    lemma_cell_in_grid(nx, ny, i, j);
    assert(x_faces_spec(nx, ny)[k].left as int == padded_index_spec(nx, i, j));
}

/// Every face normal to y joins a cell to the neighbour above it in the same column.
pub proof fn lemma_y_face_joins_neighbours(nx: int, ny: int, k: int)
    requires
        nx >= 0,
        ny >= 0,
        padded_len(nx, ny) <= usize::MAX,
        0 <= k < nx * (ny + 1),
    ensures
        joins_column_neighbours(nx, ny, y_faces_spec(nx, ny)[k]),
{
    lemma_y_face_updates(nx, ny, k);
    let j = k % (ny + 1);
    let i = k / (ny + 1);
    lemma_split_index(ny + 1, nx, k);
    lemma_cell_in_grid(nx, ny, i + 1, j);
    lemma_cell_in_grid(nx, ny, i + 1, j + 1);
    assert((j + 1) * (nx + 2) + (i + 1) == j * (nx + 2) + (i + 1) + (nx + 2)) by (nonlinear_arith);
}

/// Every pair of vertically adjacent cells of a grid column, the walls included, is
/// joined by a face normal to y.
pub proof fn lemma_y_faces_cover(nx: int, ny: int, i: int, j: int)
    requires
        ny >= 0,
        padded_len(nx, ny) <= usize::MAX,
        1 <= i <= nx,
        0 <= j <= ny,
    ensures
        exists|k: int|
            0 <= k < nx * (ny + 1) && #[trigger] y_faces_spec(nx, ny)[k].left as int == padded_index_spec(nx, i, j),
{
    let k = (i - 1) * (ny + 1) + j;
    assert(0 <= k < nx * (ny + 1)) by (nonlinear_arith)
        requires
            k == (i - 1) * (ny + 1) + j,
            1 <= i <= nx,
            0 <= j <= ny,
    ;
    lemma_split_cell(ny + 1, i - 1, j);
    lemma_cell_in_grid(nx, ny, i, j);
    assert(y_faces_spec(nx, ny)[k].left as int == padded_index_spec(nx, i, j));
}

} // verus!
