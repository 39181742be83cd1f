//! Hilbert-curve walks: distance-to-coordinate conversion over a square of
//! side `n`, and the enumeration of a curve prefix.

use vstd::prelude::*;

verus! {

/// What the quadrant rotation does to a cell of the `s`-sided square: for
/// `ry == 0` the cell is mirrored (when `rx == 1`) and the axes swapped.
pub open spec fn rot_spec(s: u64, x: u64, y: u64, rx: u64, ry: u64) -> (u64, u64) {
    if ry == 0 {
        if rx == 1 {
            ((((s - 1) - y) as u64), (((s - 1) - x) as u64))
        } else {
            (y, x)
        }
    } else {
        (x, y)
    }
}

/// One doubling round per step: the whole distance-to-coordinate walk, from
/// the state of side `s`, remaining distance `t` and coordinates so far.
pub open spec fn d2xy_rec(n: u64, s: u64, t: u64, x: u64, y: u64) -> (u64, u64)
    decreases (if s < n {
        n - s
    } else {
        0int
    }),
    via d2xy_rec_decreases
{
    if s == 0 || s >= n || s >= 0x8000_0000_0000_0000 {
        (x, y)
    } else {
        let rx = 1u64 & (t / 2);
        let ry = 1u64 & (t ^ rx);
        let p = rot_spec(s, x, y, rx, ry);
        d2xy_rec(
            n,
            ((2 * (s as int)) as u64),
            t / 4,
            (((p.0 as int) + (s as int) * (rx as int)) as u64),
            (((p.1 as int) + (s as int) * (ry as int)) as u64),
        )
    }
}

#[via_fn]
proof fn d2xy_rec_decreases(n: u64, s: u64, t: u64, x: u64, y: u64) {
    if !(s == 0 || s >= n || s >= 0x8000_0000_0000_0000) {
        assert(((2 * (s as int)) as u64) == 2 * (s as int));
    }
}

/// The coordinates of the cell at distance `d` along the curve of side `n`.
pub open spec fn d2xy_spec(n: u64, d: u64) -> (u64, u64) {
    d2xy_rec(n, 1, d, 0, 0)
}

/// Rotates or flips one quadrant, exactly as [`rot_spec`] says; coordinates
/// inside the quadrant stay inside it.
fn rot(n: u64, x: &mut u64, y: &mut u64, rx: u64, ry: u64)
    requires
        1 <= n,
        *old(x) < n,
        *old(y) < n,
    ensures
        *final(x) < n,
        *final(y) < n,
        (*final(x), *final(y)) == rot_spec(n, *old(x), *old(y), rx, ry),
{
    if ry == 0 {
        if rx == 1 {
            *x = n - 1 - *x;
            *y = n - 1 - *y;
        }
        let t: u64 = *x;
        *x = *y;
        *y = t;
    }
}

/// Converts a distance `d` along the Hilbert curve into coordinates, over a
/// square of side `n`.  The walk works quadrant by quadrant, doubling the
/// handled side each round; the coordinates stay within the smallest power
/// of two covering `n`, so always within twice the side.
pub fn d2xy(n: u64, d: u64) -> (p: (u64, u64))
    requires
        n <= 0x4000_0000,
    ensures
        p == d2xy_spec(n, d),
        p.0 < 2 * n || (p.0 == 0 && n <= 1),
        p.1 < 2 * n || (p.1 == 0 && n <= 1),
{
    let mut x: u64;
    let mut y: u64;
    let mut rx: u64;
    let mut ry: u64;
    let mut s: u64 = 1;
    let mut t = d;
    x = 0;
    y = 0;

    while s < n
        invariant
            n <= 0x4000_0000,
            1 <= s,
            s == 1 || s < 2 * n,
            x < s,
            y < s,
            d2xy_rec(n, s, t, x, y) == d2xy_spec(n, d),
        decreases (if s < n {
            n - s
        } else {
            0int
        }),
    {
        let ghost (s0, t0, x0, y0) = (s, t, x, y);
        let q = t / 2;
        rx = 1 & q;
        let w = t ^ rx;
        ry = 1 & w;
        proof {
            assert((1u64 & q) < 2) by (bit_vector);
            assert((1u64 & w) < 2) by (bit_vector);
            assert(rx < 2);
            assert(ry < 2);
            assert((s as int) * (rx as int) <= s as int) by (nonlinear_arith)
                requires
                    rx < 2,
                    1 <= s,
            ;
            assert((s as int) * (ry as int) <= s as int) by (nonlinear_arith)
                requires
                    ry < 2,
                    1 <= s,
            ;
        }
        rot(s, &mut x, &mut y, rx, ry);
        x += s * rx;
        y += s * ry;
        t /= 4;
        s *= 2;
        proof {
            // this round is exactly one unfolding of the walk
            assert(d2xy_rec(n, s0, t0, x0, y0) == d2xy_rec(n, s, t, x, y));
        }
    }
    (x, y)
}

/// The first `amount` cells of the curve over a square of side `n`, in curve
/// order.
pub fn all_hilbert_in(n: u32, amount: u32) -> (v: Vec<(u64, u64)>)
    requires
        n <= 0x4000_0000,
    ensures
        v@.len() == amount,
        forall|i: int| 0 <= i < v@.len() ==> #[trigger] v@[i] == d2xy_spec(n as u64, i as u64),
        forall|i: int| 0 <= i < v@.len() ==> {
            &&& (#[trigger] v@[i]).0 < 2 * (n as int) + 1
            &&& v@[i].1 < 2 * (n as int) + 1
        },
{
    let mut v: Vec<(u64, u64)> = Vec::new();
    let mut d: u32 = 0;
    while d < amount
        invariant
            n <= 0x4000_0000,
            d <= amount,
            v@.len() == d,
            forall|i: int| 0 <= i < v@.len() ==> #[trigger] v@[i] == d2xy_spec(n as u64, i as u64),
            forall|i: int| 0 <= i < v@.len() ==> {
                &&& (#[trigger] v@[i]).0 < 2 * (n as int) + 1
                &&& v@[i].1 < 2 * (n as int) + 1
            },
        decreases amount - d,
    {
        let p = d2xy(n as u64, d as u64);
        v.push(p);
        d += 1;
    }
    v
}

/// The same walk flattened to alternating coordinates, as the canvas side
/// consumes it.
pub fn all_hilbert(n: u32, amount: u32) -> (v: Vec<i32>)
    requires
        n <= 0x4000_0000,
        amount <= 0x3fff_ffff,
    ensures
        v@.len() == 2 * amount,
        forall|j: int| #![trigger v@[2 * j]] 0 <= j < amount ==> {
            &&& v@[2 * j] == d2xy_spec(n as u64, j as u64).0 as i32
            &&& v@[2 * j + 1] == d2xy_spec(n as u64, j as u64).1 as i32
        },
{
    let points = all_hilbert_in(n, amount);
    let mut v: Vec<i32> = Vec::new();
    let mut i: usize = 0;
    while i < points.len()
        invariant
            points@.len() == amount,
            forall|j: int| 0 <= j < points@.len() ==> #[trigger] points@[j] == d2xy_spec(
                n as u64,
                j as u64,
            ),
            forall|j: int| 0 <= j < points@.len() ==> {
                &&& (#[trigger] points@[j]).0 < 2 * (n as int) + 1
                &&& points@[j].1 < 2 * (n as int) + 1
            },
            n <= 0x4000_0000,
            i <= points@.len(),
            v@.len() == 2 * i,
            forall|j: int| #![trigger v@[2 * j]] 0 <= j < i ==> {
                &&& v@[2 * j] == d2xy_spec(n as u64, j as u64).0 as i32
                &&& v@[2 * j + 1] == d2xy_spec(n as u64, j as u64).1 as i32
            },
        decreases points@.len() - i,
    {
        let ghost v0 = v@;
        let (x, y) = points[i];
        v.push(x as i32);
        v.push(y as i32);
        proof {
            assert(points@[i as int] == (x, y));
            assert forall|j: int| #![trigger v@[2 * j]] 0 <= j < i + 1 implies {
                &&& v@[2 * j] == d2xy_spec(n as u64, j as u64).0 as i32
                &&& v@[2 * j + 1] == d2xy_spec(n as u64, j as u64).1 as i32
            } by {
                if j < i {
                    assert(v@[2 * j] == v0[2 * j]);
                    assert(v@[2 * j + 1] == v0[2 * j + 1]);
                } else {
                    assert(v@[2 * j] == x as i32);
                    assert(v@[2 * j + 1] == y as i32);
                }
            }
        }
        i += 1;
    }
    v
}

} // verus!
