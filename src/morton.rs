//! Morton codes: a triangle's place along a space-filling curve through the
//! mesh's box. Triangles close in code are close in space.
use vstd::prelude::*;
use crate::geometry::{centroid_coord, coord, Aabb, Axis, TriangleBounds};

verus! {

/// Bits kept per axis.
pub const MORTON_BITS: u32 = 10;

/// The largest quantized coordinate, `2^MORTON_BITS - 1`.
pub const MORTON_MAX: u32 = 1023;

/// The low `k` bits of `x`, `y` and `z` interleaved, `x` highest in each
/// group of three.
pub open spec fn interleave(x: nat, y: nat, z: nat, k: nat) -> nat
    decreases k,
{
    if k == 0 {
        0
    } else {
        interleave(x / 2, y / 2, z / 2, (k - 1) as nat) * 8 + (x % 2) * 4 + (y % 2) * 2 + z % 2
    }
}

/// A centroid coordinate `c` (three times a coordinate) placed on the grid of
/// `MORTON_MAX + 1` steps across `[lo, hi]`; values outside are clamped.
pub open spec fn quantize(c: int, lo: int, hi: int) -> nat {
    let range = 3 * (hi - lo);
    if range <= 0 || c <= 3 * lo {
        0
    } else if c >= 3 * hi {
        MORTON_MAX as nat
    } else {
        ((c - 3 * lo) * MORTON_MAX / range) as nat
    }
}

/// The code of a triangle's centroid within the box `b`.
pub open spec fn morton_code_spec(t: TriangleBounds, b: Aabb) -> nat {
    interleave(
        quantize(centroid_coord(t.centroid, Axis::X), coord(b.min_corner, Axis::X), coord(b.max_corner, Axis::X)),
        quantize(centroid_coord(t.centroid, Axis::Y), coord(b.min_corner, Axis::Y), coord(b.max_corner, Axis::Y)),
        quantize(centroid_coord(t.centroid, Axis::Z), coord(b.min_corner, Axis::Z), coord(b.max_corner, Axis::Z)),
        MORTON_BITS as nat,
    )
}

proof fn lemma_interleave_bound(x: nat, y: nat, z: nat, k: nat)
    ensures
        interleave(x, y, z, k) < pow8(k),
    decreases k,
{
    if k > 0 {
        lemma_interleave_bound(x / 2, y / 2, z / 2, (k - 1) as nat);
    }
}

pub open spec fn pow8(k: nat) -> nat
    decreases k,
{
    if k == 0 {
        1
    } else {
        8 * pow8((k - 1) as nat)
    }
}

fn interleave_bits(x: u32, y: u32, z: u32, k: u32) -> (r: u64)
    requires
        k <= MORTON_BITS,
    ensures
        r == interleave(x as nat, y as nat, z as nat, k as nat),
    decreases k,
{
    if k == 0 {
        0
    } else {
        let rest = interleave_bits(x / 2, y / 2, z / 2, k - 1);
        proof {
            lemma_interleave_bound((x / 2) as nat, (y / 2) as nat, (z / 2) as nat, (k - 1) as nat);
            reveal_with_fuel(pow8, 10);
            assert(pow8(9) == 134217728);
            lemma_pow8_mono((k - 1) as nat, 9);
        }
        rest * 8 + (x % 2) as u64 * 4 + (y % 2) as u64 * 2 + (z % 2) as u64
    }
}

proof fn lemma_pow8_mono(a: nat, b: nat)
    requires
        a <= b,
    ensures
        pow8(a) <= pow8(b),
    decreases b,
{
    if b > a {
        lemma_pow8_mono(a, (b - 1) as nat);
    }
}

fn quantize_coord(c: i64, lo: i32, hi: i32) -> (q: u32)
    ensures
        q == quantize(c as int, lo as int, hi as int),
        q <= MORTON_MAX,
{
    let range: i64 = 3 * (hi as i64 - lo as i64);
    if range <= 0 || c <= 3 * lo as i64 {
        0
    } else if c >= 3 * hi as i64 {
        MORTON_MAX
    } else {
        let off = c - 3 * lo as i64;
        assert(0 <= (off as int * 1023) / (range as int) < 1023) by (nonlinear_arith)
            requires off < range, range > 0, off > 0;
        (off * MORTON_MAX as i64 / range) as u32
    }
}

/// The Morton code of one triangle within the box `b`.
pub fn morton_code(t: &TriangleBounds, b: &Aabb) -> (r: u64)
    ensures
        r == morton_code_spec(*t, *b),
{
    let qx = quantize_coord(t.centroid.x, b.min_corner.x, b.max_corner.x);
    let qy = quantize_coord(t.centroid.y, b.min_corner.y, b.max_corner.y);
    let qz = quantize_coord(t.centroid.z, b.min_corner.z, b.max_corner.z);
    interleave_bits(qx, qy, qz, MORTON_BITS)
}

/// The Morton code of every triangle within the box `b`, in triangle order.
pub fn calculate_morton_codes(tris: &Vec<TriangleBounds>, b: &Aabb) -> (codes: Vec<u64>)
    ensures
        codes.len() == tris.len(),
        forall|t: int| 0 <= t < codes.len() ==> #[trigger] codes[t] == morton_code_spec(tris[t], *b),
{
    let mut codes: Vec<u64> = Vec::with_capacity(tris.len());
    let mut t: usize = 0;
    while t < tris.len()
        invariant
            t <= tris.len(),
            codes.len() == t,
            forall|k: int| 0 <= k < t ==> #[trigger] codes[k] == morton_code_spec(tris[k], *b),
        decreases tris.len() - t,
    {
        codes.push(morton_code(&tris[t], b));
        t += 1;
    }
    codes
}

} // verus!
