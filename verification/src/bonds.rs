//! The rule by which bonds are inferred from distances.
//!
//! Distances are compared exactly: positions are decimals, so the squared
//! distance between two atoms is an integer number of units of 10^-14.

use vstd::prelude::*;
use crate::decimal::Decimal;
use crate::structure::{AtomView, Bond, BondOrder};

verus! {

/// The distance below which two atoms are bonded, in ten-millionths: two
/// length units.
pub const BOND_REACH: u64 = 20_000_000;

/// The square of [`BOND_REACH`].
pub const BOND_REACH_SQUARED: u64 = 400_000_000_000_000;

/// The square of the distance between two atoms, in units of 10^-14.
pub open spec fn squared_distance(a: AtomView, b: AtomView) -> int {
    let dx = a.x.units() - b.x.units();
    let dy = a.y.units() - b.y.units();
    let dz = a.z.units() - b.z.units();
    dx * dx + dy * dy + dz * dz
}

/// Whether two atoms are less than two length units apart.
pub open spec fn bonded(a: AtomView, b: AtomView) -> bool {
    squared_distance(a, b) < BOND_REACH_SQUARED
}

/// The bond that joins atom `a` to atom `b`.
pub open spec fn single_bond(a: AtomView, b: AtomView) -> Bond {
    Bond { atom1_id: a.id, atom2_id: b.id, order: BondOrder::Single }
}

/// The bonds of the atom at `i` with the atoms behind it and before `j`, in
/// the order of those atoms.
pub open spec fn row_bonds(atoms: Seq<AtomView>, i: int, j: int) -> Seq<Bond>
    decreases j - i,
{
    if j <= i + 1 {
        Seq::empty()
    } else if bonded(atoms[i], atoms[j - 1]) {
        row_bonds(atoms, i, j - 1).push(single_bond(atoms[i], atoms[j - 1]))
    } else {
        row_bonds(atoms, i, j - 1)
    }
}

/// The bonds of the first `n` atoms, each with the atoms behind it: every
/// pair of positions `i < j` with `i < n` is looked at once, `i` ascending
/// and, for each `i`, `j` ascending.
pub open spec fn inferred_bonds(atoms: Seq<AtomView>, n: int) -> Seq<Bond>
    decreases n,
{
    if n <= 0 {
        Seq::empty()
    } else {
        inferred_bonds(atoms, n - 1) + row_bonds(atoms, n - 1, atoms.len() as int)
    }
}

/// Looking at one atom more adds its bond to the row, or nothing.
pub proof fn lemma_row_bonds_one_more(atoms: Seq<AtomView>, i: int, j: int)
    requires
        i < j,
    ensures
        row_bonds(atoms, i, j + 1) == if bonded(atoms[i], atoms[j]) {
            row_bonds(atoms, i, j).push(single_bond(atoms[i], atoms[j]))
        } else {
            row_bonds(atoms, i, j)
        },
{
}

/// The signed number of ten-millionths of a decimal.
fn signed_units(d: Decimal) -> (r: i128)
    ensures
        r == d.units(),
{
    if d.negative {
        -(d.magnitude as i128)
    } else {
        d.magnitude as i128
    }
}

/// The distance between two coordinates, if it is below the bond reach.
fn gap(a: Decimal, b: Decimal) -> (r: Option<u64>)
    ensures
        r matches Some(d) ==> d < BOND_REACH && (d == a.units() - b.units() || d == b.units()
            - a.units()),
        r is None ==> a.units() - b.units() >= BOND_REACH || b.units() - a.units() >= BOND_REACH,
{
    let d: i128 = signed_units(a) - signed_units(b);
    let m: i128 = if d < 0 {
        -d
    } else {
        d
    };
    if m < BOND_REACH as i128 {
        Some(m as u64)
    } else {
        None
    }
}

/// A difference of at least the bond reach along one axis puts two atoms
/// out of reach.
proof fn lemma_far_along_axis(d: int, rest: int)
    requires
        d >= BOND_REACH || -d >= BOND_REACH,
        rest >= 0,
    ensures
        d * d + rest >= BOND_REACH_SQUARED,
{
    assert(d * d >= 20_000_000 * 20_000_000) by (nonlinear_arith)
        requires
            d >= 20_000_000 || -d >= 20_000_000,
    ;
}

/// Whether two positions are less than two length units apart.
pub fn near(a: &[Decimal; 3], b: &[Decimal; 3]) -> (r: bool)
    ensures
        r == ({
            let dx = a@[0].units() - b@[0].units();
            let dy = a@[1].units() - b@[1].units();
            let dz = a@[2].units() - b@[2].units();
            dx * dx + dy * dy + dz * dz < BOND_REACH_SQUARED
        }),
{
    let ghost dx = a@[0].units() - b@[0].units();
    let ghost dy = a@[1].units() - b@[1].units();
    let ghost dz = a@[2].units() - b@[2].units();
    proof {
        assert(dx * dx >= 0) by (nonlinear_arith);
        assert(dy * dy >= 0) by (nonlinear_arith);
        assert(dz * dz >= 0) by (nonlinear_arith);
    }
    match (gap(a[0], b[0]), gap(a[1], b[1]), gap(a[2], b[2])) {
        (Some(x), Some(y), Some(z)) => {
            proof {
                assert(x * x == dx * dx) by (nonlinear_arith)
                    requires
                        x == dx || x == -dx,
                ;
                assert(y * y == dy * dy) by (nonlinear_arith)
                    requires
                        y == dy || y == -dy,
                ;
                assert(z * z == dz * dz) by (nonlinear_arith)
                    requires
                        z == dz || z == -dz,
                ;
                assert(x * x < 20_000_000 * 20_000_000) by (nonlinear_arith)
                    requires
                        0 <= x < 20_000_000,
                ;
                assert(y * y < 20_000_000 * 20_000_000) by (nonlinear_arith)
                    requires
                        0 <= y < 20_000_000,
                ;
                assert(z * z < 20_000_000 * 20_000_000) by (nonlinear_arith)
                    requires
                        0 <= z < 20_000_000,
                ;
            }
            x * x + y * y + z * z < BOND_REACH_SQUARED
        },
        (None, _, _) => {
            proof {
                lemma_far_along_axis(dx, dy * dy + dz * dz);
            }
            false
        },
        (_, None, _) => {
            proof {
                lemma_far_along_axis(dy, dx * dx + dz * dz);
            }
            false
        },
        (_, _, None) => {
            proof {
                lemma_far_along_axis(dz, dx * dx + dy * dy);
            }
            false
        },
    }
}

} // verus!
