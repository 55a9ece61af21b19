//! Index arithmetic of regular three-dimensional grids.
//!
//! A grid has `(nx, ny, nz)` sites along its three axes, and its sites are
//! stored in one list with the last axis running fastest: site `(i, j, k)` is
//! stored at offset `i * ny * nz + j * nz + k`. Nothing here looks at what a
//! site holds.
use vstd::prelude::*;

verus! {

/// The number of sites of a grid.
pub open spec fn spec_site_count(resolution: (usize, usize, usize)) -> int {
    resolution.0 * resolution.1 * resolution.2
}

/// The offset at which site `(i, j, k)` is stored. The formula is applied as
/// it stands, also to sites outside the grid.
pub open spec fn spec_site_offset(resolution: (usize, usize, usize), i: int, j: int, k: int) -> int {
    i * resolution.1 * resolution.2 + j * resolution.2 + k
}

/// Site `(i, j, k)` lies in the grid.
pub open spec fn in_grid(resolution: (usize, usize, usize), i: int, j: int, k: int) -> bool {
    &&& 0 <= i < resolution.0
    &&& 0 <= j < resolution.1
    &&& 0 <= k < resolution.2
}

/// Site `(i, j, k)` lies in the grid and has a neighbour on every side.
pub open spec fn spec_is_interior(resolution: (usize, usize, usize), i: int, j: int, k: int) -> bool {
    &&& 1 <= i && i + 1 < resolution.0
    &&& 1 <= j && j + 1 < resolution.1
    &&& 1 <= k && k + 1 < resolution.2
}

/// Returns the number of sites of a grid, or `None` if the number does not
/// fit in a machine word.
pub fn site_count(resolution: (usize, usize, usize)) -> (count: Option<usize>)
    ensures
        match count {
            Some(n) => n == spec_site_count(resolution),
            None => spec_site_count(resolution) > usize::MAX,
        },
{
    let (nx, ny, nz) = resolution;
    if nx == 0 || ny == 0 || nz == 0 {
        assert(nx * ny * nz == 0) by (nonlinear_arith)
            requires
                nx == 0 || ny == 0 || nz == 0,
        ;
        return Some(0);
    }
    match nx.checked_mul(ny) {
        Some(plane) => plane.checked_mul(nz),
        None => {
            assert(nx * ny * nz >= nx * ny) by (nonlinear_arith)
                requires
                    nz >= 1,
                    nx >= 0,
                    ny >= 0,
            ;
            None
        },
    }
}

/// Returns the offset at which site `(i, j, k)` is stored, or `None` if the
/// offset does not fit in a machine word. Whether the site lies in the grid
/// is not looked at.
pub fn site_offset(resolution: (usize, usize, usize), i: usize, j: usize, k: usize) -> (offset:
    Option<usize>)
    ensures
        match offset {
            Some(n) => n == spec_site_offset(resolution, i as int, j as int, k as int),
            None => spec_site_offset(resolution, i as int, j as int, k as int) > usize::MAX,
        },
{
    let (_, ny, nz) = resolution;
    if nz == 0 {
        assert(i * ny * nz + j * nz + k == k) by (nonlinear_arith)
            requires
                nz == 0,
        ;
        return Some(k);
    }
    assert(i * ny * nz >= i * ny && j * nz >= 0 && i * ny * nz >= 0) by (nonlinear_arith)
        requires
            nz >= 1,
            i >= 0,
            ny >= 0,
            j >= 0,
    ;
    let rows = match i.checked_mul(ny) {
        Some(rows) => rows,
        None => {
            return None;
        },
    };
    let before_row = match rows.checked_mul(nz) {
        Some(sites) => sites,
        None => {
            return None;
        },
    };
    let in_row = match j.checked_mul(nz) {
        Some(sites) => sites,
        None => {
            return None;
        },
    };
    match before_row.checked_add(in_row) {
        Some(sites) => sites.checked_add(k),
        None => None,
    }
}

/// Tells whether site `(i, j, k)` lies in the grid and has a neighbour on
/// every side.
pub fn is_interior(resolution: (usize, usize, usize), i: usize, j: usize, k: usize) -> (interior:
    bool)
    ensures
        interior == spec_is_interior(resolution, i as int, j as int, k as int),
{
    let (nx, ny, nz) = resolution;
    i >= 1 && i < nx && i + 1 < nx && j >= 1 && j < ny && j + 1 < ny && k >= 1 && k < nz && k + 1
        < nz
}

/// A site of the grid is stored below the number of sites.
pub proof fn lemma_offset_below_count(resolution: (usize, usize, usize), i: int, j: int, k: int)
    requires
        in_grid(resolution, i, j, k),
    ensures
        0 <= spec_site_offset(resolution, i, j, k) < spec_site_count(resolution),
{
    let nx = resolution.0 as int;
    let ny = resolution.1 as int;
    let nz = resolution.2 as int;
    assert(0 <= i * ny * nz + j * nz + k < nx * ny * nz) by (nonlinear_arith)
        requires
            0 <= i < nx,
            0 <= j < ny,
            0 <= k < nz,
    {
        assert(i * ny + j <= nx * ny - 1);
        assert((i * ny + j) * nz <= (nx * ny - 1) * nz);
        assert(i * ny * nz + j * nz == (i * ny + j) * nz);
    }
}

/// Two sites of the grid that are stored at the same offset are the same
/// site.
pub proof fn lemma_offset_determines_site(
    resolution: (usize, usize, usize),
    i1: int,
    j1: int,
    k1: int,
    i2: int,
    j2: int,
    k2: int,
)
    requires
        in_grid(resolution, i1, j1, k1),
        in_grid(resolution, i2, j2, k2),
        spec_site_offset(resolution, i1, j1, k1) == spec_site_offset(resolution, i2, j2, k2),
    ensures
        i1 == i2,
        j1 == j2,
        k1 == k2,
{
    let ny = resolution.1 as int;
    let nz = resolution.2 as int;
    let r1 = i1 * ny + j1;
    let r2 = i2 * ny + j2;
    assert(i1 * ny * nz + j1 * nz == r1 * nz && i2 * ny * nz + j2 * nz == r2 * nz)
        by (nonlinear_arith)
        requires
            r1 == i1 * ny + j1,
            r2 == i2 * ny + j2,
    ;
    lemma_mixed_radix(nz, r1, k1, r2, k2);
    lemma_mixed_radix(ny, i1, j1, i2, j2);
}

/// A number written as `high * base + low` with `0 <= low < base` has only
/// one such writing.
proof fn lemma_mixed_radix(base: int, high1: int, low1: int, high2: int, low2: int)
    requires
        0 <= low1 < base,
        0 <= low2 < base,
        high1 * base + low1 == high2 * base + low2,
    ensures
        high1 == high2,
        low1 == low2,
{
    assert(high1 == high2) by (nonlinear_arith)
        requires
            0 <= low1 < base,
            0 <= low2 < base,
            high1 * base + low1 == high2 * base + low2,
    {
        if high1 < high2 {
            assert((high2 - high1) * base >= base);
        } else if high2 < high1 {
            assert((high1 - high2) * base >= base);
        }
    }
}

} // verus!
