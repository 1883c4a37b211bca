//! Greedy meshing: an occupancy grid is compressed into axis-aligned boxes.
//!
//! A grid of side `n` is a buffer of `n * n * n` bytes, one per voxel, in
//! which voxel `(x, y, z)` stands at index `x + (y + z * n) * n`. A voxel is
//! solid when its byte is not zero.

use vstd::prelude::*;
use vstd::arithmetic::div_mod::{
    lemma_div_denominator, lemma_fundamental_div_mod, lemma_fundamental_div_mod_converse,
    lemma_mod_bound,
};

verus! {

/// An axis-aligned box of voxels.
///
/// The centre is held in half voxels (`cx` is twice the centre's `x`), so
/// that the centre of a box of odd extent is still an integer. The extent
/// is in voxels.
#[derive(Clone, Copy, Debug, PartialEq, Eq, Structural)]
pub struct Cuboid {
    pub cx: i32,
    pub cy: i32,
    pub cz: i32,
    pub w: i32,
    pub h: i32,
    pub d: i32,
}

impl Cuboid {
    /// The box whose lowest corner is `(x, y, z)` and whose extent is
    /// `(w, h, d)`.
    pub open spec fn at(x: int, y: int, z: int, w: int, h: int, d: int) -> Cuboid {
        Cuboid {
            cx: (2 * x + w) as i32,
            cy: (2 * y + h) as i32,
            cz: (2 * z + d) as i32,
            w: w as i32,
            h: h as i32,
            d: d as i32,
        }
    }

    /// Whether the unit voxel `(x, y, z)` lies in this box.
    pub open spec fn covers(self, x: int, y: int, z: int) -> bool {
        &&& self.cx - self.w <= 2 * x < self.cx + self.w
        &&& self.cy - self.h <= 2 * y < self.cy + self.h
        &&& self.cz - self.d <= 2 * z < self.cz + self.d
    }

    /// Whether this box is not empty and lies in the grid of side `n`.
    pub open spec fn inside(self, n: int) -> bool {
        &&& self.w >= 1 && self.h >= 1 && self.d >= 1
        &&& 0 <= self.cx - self.w && self.cx + self.w <= 2 * n
        &&& 0 <= self.cy - self.h && self.cy + self.h <= 2 * n
        &&& 0 <= self.cz - self.d && self.cz + self.d <= 2 * n
    }

    /// This box moved by `(dx, dy, dz)` voxels.
    pub open spec fn moved(self, dx: int, dy: int, dz: int) -> Cuboid {
        Cuboid {
            cx: (self.cx + 2 * dx) as i32,
            cy: (self.cy + 2 * dy) as i32,
            cz: (self.cz + 2 * dz) as i32,
            w: self.w,
            h: self.h,
            d: self.d,
        }
    }

    /// Moves the box by `(dx, dy, dz)` voxels.
    pub fn move_by(&self, dx: i32, dy: i32, dz: i32) -> (r: Cuboid)
        requires
            i32::MIN <= self.cx + 2 * dx <= i32::MAX,
            i32::MIN <= self.cy + 2 * dy <= i32::MAX,
            i32::MIN <= self.cz + 2 * dz <= i32::MAX,
        ensures
            r == self.moved(dx as int, dy as int, dz as int),
            forall|x: int, y: int, z: int|
                r.covers(x + dx, y + dy, z + dz) <==> self.covers(x, y, z),
    {
        let cx: i64 = self.cx as i64 + 2 * (dx as i64);
        let cy: i64 = self.cy as i64 + 2 * (dy as i64);
        let cz: i64 = self.cz as i64 + 2 * (dz as i64);
        Cuboid { cx: cx as i32, cy: cy as i32, cz: cz as i32, w: self.w, h: self.h, d: self.d }
    }
}

/// The index of voxel `(x, y, z)` in the buffer of a grid of side `n`.
pub open spec fn voxel_index(x: int, y: int, z: int, n: int) -> int {
    x + (y + z * n) * n
}

/// Whether `(x, y, z)` is a voxel of the grid of side `n`.
pub open spec fn in_grid(x: int, y: int, z: int, n: int) -> bool {
    0 <= x < n && 0 <= y < n && 0 <= z < n
}

/// Whether `(x, y, z)` is a solid voxel of the grid `v` of side `n`.
pub open spec fn solid(v: Seq<u8>, n: int, x: int, y: int, z: int) -> bool {
    in_grid(x, y, z, n) && v[voxel_index(x, y, z, n)] != 0
}

/// Whether the `w` voxels from `(x, y, z)` along +x are all solid.
pub open spec fn row_solid(v: Seq<u8>, n: int, x: int, y: int, z: int, w: int) -> bool {
    forall|a: int| x <= a < x + w ==> #[trigger] solid(v, n, a, y, z)
}

/// Whether the `w` by `h` voxels from `(x, y, z)` in the plane `z` are all
/// solid.
pub open spec fn slab_solid(v: Seq<u8>, n: int, x: int, y: int, z: int, w: int, h: int) -> bool {
    forall|b: int| y <= b < y + h ==> #[trigger] row_solid(v, n, x, b, z, w)
}

/// The number of solid voxels in a row from `(x, y, z)` along +x, up to the
/// first empty voxel or the edge of the grid.
pub open spec fn run_x(v: Seq<u8>, n: int, x: int, y: int, z: int) -> int
    decreases n - x,
{
    if x < n && solid(v, n, x, y, z) {
        1 + run_x(v, n, x + 1, y, z)
    } else {
        0
    }
}

/// The number of solid rows of width `w` from `(x, y, z)` along +y, up to
/// the first row that holds an empty voxel or the edge of the grid.
pub open spec fn run_y(v: Seq<u8>, n: int, x: int, y: int, z: int, w: int) -> int
    decreases n - y,
{
    if y < n && row_solid(v, n, x, y, z, w) {
        1 + run_y(v, n, x, y + 1, z, w)
    } else {
        0
    }
}

/// The number of solid `w` by `h` planes from `(x, y, z)` along +z, up to
/// the first plane that holds an empty voxel or the edge of the grid.
pub open spec fn run_z(v: Seq<u8>, n: int, x: int, y: int, z: int, w: int, h: int) -> int
    decreases n - z,
{
    if z < n && slab_solid(v, n, x, y, z, w, h) {
        1 + run_z(v, n, x, y, z + 1, w, h)
    } else {
        0
    }
}

/// Whether the voxel at index `k` lies in the box with lowest corner
/// `(x, y, z)` and extent `(w, h, d)`.
pub open spec fn in_span(k: int, n: int, x: int, y: int, z: int, w: int, h: int, d: int) -> bool {
    &&& x <= k % n < x + w
    &&& y <= (k / n) % n < y + h
    &&& z <= k / (n * n) < z + d
}

/// The grid `v` with the voxels of a box emptied.
pub open spec fn erase(v: Seq<u8>, n: int, x: int, y: int, z: int, w: int, h: int, d: int) -> Seq<
    u8,
> {
    Seq::new(v.len(), |k: int| if in_span(k, n, x, y, z, w, h, d) { 0u8 } else { v[k] })
}

/// The boxes that greedy meshing emits for the voxels of `v` from index `i`
/// on: an empty voxel is passed over; a solid one is grown along +x, then
/// +y, then +z as far as every voxel gained is solid, the box is emitted
/// and its voxels are emptied before the scan goes on.
pub open spec fn scan(v: Seq<u8>, n: int, i: int) -> Seq<Cuboid>
    decreases n * n * n - i,
{
    if i < 0 || i >= n * n * n {
        Seq::empty()
    } else if v[i] == 0 {
        scan(v, n, i + 1)
    } else {
        let x = i % n;
        let y = (i / n) % n;
        let z = i / (n * n);
        let w = run_x(v, n, x, y, z);
        let h = run_y(v, n, x, y, z, w);
        let d = run_z(v, n, x, y, z, w, h);
        seq![Cuboid::at(x, y, z, w, h, d)] + scan(erase(v, n, x, y, z, w, h, d), n, i + 1)
    }
}

/// The boxes of the greedy mesh of the grid `v` of side `n`, in the order
/// in which they are emitted.
pub open spec fn greedy_boxes(v: Seq<u8>, n: int) -> Seq<Cuboid> {
    scan(v, n, 0)
}

/// Whether some box of `boxes` covers the voxel `(x, y, z)`.
pub open spec fn covered(boxes: Seq<Cuboid>, x: int, y: int, z: int) -> bool {
    exists|j: int| 0 <= j < boxes.len() && (#[trigger] boxes[j]).covers(x, y, z)
}

/// Whether `boxes` split the solid voxels of the grid `v` of side `n`: each
/// box lies in the grid, a voxel is solid exactly if a box covers it, and
/// no voxel is covered twice.
pub open spec fn partitions(v: Seq<u8>, n: int, boxes: Seq<Cuboid>) -> bool {
    &&& forall|j: int| 0 <= j < boxes.len() ==> (#[trigger] boxes[j]).inside(n)
    &&& forall|x: int, y: int, z: int|
        in_grid(x, y, z, n) ==> (solid(v, n, x, y, z) <==> #[trigger] covered(boxes, x, y, z))
    &&& forall|j: int, k: int, x: int, y: int, z: int|
        0 <= j < k < boxes.len() && #[trigger] boxes[j].covers(x, y, z) ==> !#[trigger] boxes[
            k
        ].covers(x, y, z)
}

/// A voxel of the grid has an index below `n * n * n`.
pub proof fn lemma_index_bound(x: int, y: int, z: int, n: int)
    requires
        in_grid(x, y, z, n),
    ensures
        0 <= z * n <= y + z * n < n * n,
        0 <= (y + z * n) * n <= voxel_index(x, y, z, n) < n * n * n,
{
    assert(0 <= z * n <= (n - 1) * n && (n - 1) * n == n * n - n) by (nonlinear_arith)
        requires
            0 <= z < n,
    ;
    let q = y + z * n;
    assert(0 <= q * n <= (n * n - 1) * n && (n * n - 1) * n == n * n * n - n) by (nonlinear_arith)
        requires
            0 <= q < n * n,
            0 < n,
    ;
}

/// The coordinates of a voxel are read back from its index.
pub proof fn lemma_index_decode(x: int, y: int, z: int, n: int)
    requires
        in_grid(x, y, z, n),
    ensures
        voxel_index(x, y, z, n) % n == x,
        (voxel_index(x, y, z, n) / n) % n == y,
        voxel_index(x, y, z, n) / (n * n) == z,
{
    let k = voxel_index(x, y, z, n);
    let q = y + z * n;
    lemma_index_bound(x, y, z, n);
    lemma_fundamental_div_mod_converse(k, n, q, x);
    lemma_fundamental_div_mod_converse(q, n, z, y);
    lemma_div_denominator(k, n, n);
}

/// An index below `n * n * n` is the index of a voxel of the grid.
pub proof fn lemma_index_encode(k: int, n: int)
    requires
        0 <= k < n * n * n,
    ensures
        in_grid(k % n, (k / n) % n, k / (n * n), n),
        voxel_index(k % n, (k / n) % n, k / (n * n), n) == k,
{
    assert(n > 0) by (nonlinear_arith)
        requires
            0 <= k < n * n * n,
    ;
    let q = k / n;
    lemma_fundamental_div_mod(k, n);
    lemma_fundamental_div_mod(q, n);
    lemma_mod_bound(k, n);
    lemma_mod_bound(q, n);
    lemma_div_denominator(k, n, n);
    assert(0 <= q < n * n) by (nonlinear_arith)
        requires
            0 <= k < n * n * n,
            k == n * q + (k % n),
            0 <= k % n < n,
            0 < n,
    ;
    let zz = q / n;
    assert(0 <= zz < n) by (nonlinear_arith)
        requires
            0 <= q < n * n,
            q == n * zz + (q % n),
            0 <= q % n < n,
            0 < n,
    ;
    assert((q % n + zz * n) * n == q * n && n * q == q * n) by (nonlinear_arith)
        requires
            q == n * zz + (q % n),
    ;
}

/// A grid whose buffer fits in memory has a side below 2^22.
pub proof fn lemma_side_bound(n: int)
    requires
        0 <= n,
        n * n * n <= usize::MAX,
    ensures
        n < 0x40_0000,
        n * n <= usize::MAX,
{
    assert(n < 0x40_0000 && n * n <= n * n * n) by (nonlinear_arith)
        requires
            0 <= n,
            n * n * n <= 0xffff_ffff_ffff_ffff,
    ;
}

/// An index is the index of the voxel whose coordinates are read from it.
pub proof fn lemma_index_unique(k: int, n: int)
    requires
        0 <= k,
        0 < n,
    ensures
        voxel_index(k % n, (k / n) % n, k / (n * n), n) == k,
{
    let q = k / n;
    lemma_fundamental_div_mod(k, n);
    lemma_fundamental_div_mod(q, n);
    lemma_div_denominator(k, n, n);
    let zz = q / n;
    assert((q % n + zz * n) * n == q * n && n * q == q * n) by (nonlinear_arith)
        requires
            q == n * zz + (q % n),
    ;
}

/// Whether the box `b` covers the voxel at index `k`.
pub open spec fn hit(b: Cuboid, n: int, k: int) -> bool {
    b.covers(k % n, (k / n) % n, k / (n * n))
}

/// Whether some box of `boxes` covers the voxel at index `k`.
pub open spec fn claimed(boxes: Seq<Cuboid>, n: int, k: int) -> bool {
    exists|j: int| 0 <= j < boxes.len() && #[trigger] hit(boxes[j], n, k)
}

fn idx(x: usize, y: usize, z: usize, n: usize) -> (k: usize)
    requires
        in_grid(x as int, y as int, z as int, n as int),
        n * n * n <= usize::MAX,
    ensures
        k == voxel_index(x as int, y as int, z as int, n as int),
        k < n * n * n,
{
    proof {
        lemma_index_bound(x as int, y as int, z as int, n as int);
        lemma_side_bound(n as int);
    }
    x + (y + z * n) * n
}

fn row_is_solid(data: &Vec<u8>, n: usize, x: usize, y: usize, z: usize, w: usize) -> (ok: bool)
    requires
        x + w <= n,
        y < n,
        z < n,
        n * n * n <= data.len(),
    ensures
        ok == row_solid(data@, n as int, x as int, y as int, z as int, w as int),
{
    let mut a: usize = 0;
    while a < w
        invariant
            a <= w,
            x + w <= n,
            y < n,
            z < n,
            n * n * n <= data.len(),
            row_solid(data@, n as int, x as int, y as int, z as int, a as int),
        decreases w - a,
    {
        if data[idx(x + a, y, z, n)] == 0 {
            assert(!solid(data@, n as int, x + a, y as int, z as int));
            return false;
        }
        a += 1;
    }
    true
}

fn slab_is_solid(data: &Vec<u8>, n: usize, x: usize, y: usize, z: usize, w: usize, h: usize) -> (ok:
    bool)
    requires
        x + w <= n,
        y + h <= n,
        z < n,
        n * n * n <= data.len(),
    ensures
        ok == slab_solid(data@, n as int, x as int, y as int, z as int, w as int, h as int),
{
    let mut b: usize = 0;
    while b < h
        invariant
            b <= h,
            x + w <= n,
            y + h <= n,
            z < n,
            n * n * n <= data.len(),
            slab_solid(data@, n as int, x as int, y as int, z as int, w as int, b as int),
        decreases h - b,
    {
        if !row_is_solid(data, n, x, y + b, z, w) {
            assert(!row_solid(data@, n as int, x as int, y + b, z as int, w as int));
            return false;
        }
        b += 1;
    }
    true
}

fn clear_row(data: &mut Vec<u8>, n: usize, x: usize, y: usize, z: usize, w: usize)
    requires
        x + w <= n,
        y < n,
        z < n,
        n * n * n <= old(data).len(),
    ensures
        final(data)@ == erase(old(data)@, n as int, x as int, y as int, z as int, w as int, 1, 1),
{
    let ghost before = data@;
    let mut a: usize = 0;
    while a < w
        invariant
            a <= w,
            x + w <= n,
            y < n,
            z < n,
            n * n * n <= data.len(),
            data@ == erase(before, n as int, x as int, y as int, z as int, a as int, 1, 1),
        decreases w - a,
    {
        let p = idx(x + a, y, z, n);
        data.set(p, 0);
        proof {
            lemma_index_decode(x + a, y as int, z as int, n as int);
            let next = erase(before, n as int, x as int, y as int, z as int, a + 1, 1, 1);
            assert forall|k: int| 0 <= k < next.len() implies data@[k] == next[k] by {
                if k != p {
                    lemma_index_unique(k, n as int);
                }
            }
            assert(data@ =~= next);
        }
        a += 1;
    }
}

fn clear_slab(data: &mut Vec<u8>, n: usize, x: usize, y: usize, z: usize, w: usize, h: usize)
    requires
        x + w <= n,
        y + h <= n,
        z < n,
        n * n * n <= old(data).len(),
    ensures
        final(data)@ == erase(
            old(data)@,
            n as int,
            x as int,
            y as int,
            z as int,
            w as int,
            h as int,
            1,
        ),
{
    let ghost before = data@;
    let mut b: usize = 0;
    while b < h
        invariant
            b <= h,
            x + w <= n,
            y + h <= n,
            z < n,
            n * n * n <= data.len(),
            data@ == erase(before, n as int, x as int, y as int, z as int, w as int, b as int, 1),
        decreases h - b,
    {
        clear_row(data, n, x, y + b, z, w);
        proof {
            assert(data@ =~= erase(
                before,
                n as int,
                x as int,
                y as int,
                z as int,
                w as int,
                b + 1,
                1,
            ));
        }
        b += 1;
    }
}

fn clear_box(
    data: &mut Vec<u8>,
    n: usize,
    x: usize,
    y: usize,
    z: usize,
    w: usize,
    h: usize,
    d: usize,
)
    requires
        x + w <= n,
        y + h <= n,
        z + d <= n,
        n * n * n <= old(data).len(),
    ensures
        final(data)@ == erase(
            old(data)@,
            n as int,
            x as int,
            y as int,
            z as int,
            w as int,
            h as int,
            d as int,
        ),
{
    let ghost before = data@;
    let mut c: usize = 0;
    while c < d
        invariant
            c <= d,
            x + w <= n,
            y + h <= n,
            z + d <= n,
            n * n * n <= data.len(),
            data@ == erase(
                before,
                n as int,
                x as int,
                y as int,
                z as int,
                w as int,
                h as int,
                c as int,
            ),
        decreases d - c,
    {
        clear_slab(data, n, x, y, z + c, w, h);
        proof {
            assert(data@ =~= erase(
                before,
                n as int,
                x as int,
                y as int,
                z as int,
                w as int,
                h as int,
                c + 1,
            ));
        }
        c += 1;
    }
}

/// A voxel index that lies in a box of solid voxels holds a solid voxel.
proof fn lemma_span_solid(
    v: Seq<u8>,
    n: int,
    x: int,
    y: int,
    z: int,
    w: int,
    h: int,
    d: int,
    k: int,
)
    requires
        0 <= k,
        0 < n,
        0 <= x && 0 <= y && 0 <= z,
        forall|c: int| z <= c < z + d ==> #[trigger] slab_solid(v, n, x, y, c, w, h),
        in_span(k, n, x, y, z, w, h, d),
    ensures
        v[k] != 0,
        k < n * n * n,
{
    let a = k % n;
    let b = (k / n) % n;
    let c = k / (n * n);
    assert(slab_solid(v, n, x, y, c, w, h));
    assert(row_solid(v, n, x, b, c, w));
    assert(solid(v, n, a, b, c));
    lemma_index_unique(k, n);
    lemma_index_bound(a, b, c, n);
}

/// Compresses the grid `src` of side `size` into boxes by greedy meshing.
///
/// The voxels are scanned with `x` fastest, then `y`, then `z`. Each solid
/// voxel that no earlier box holds starts a box, which is grown along +x,
/// then +y, then +z for as long as every voxel gained is solid and free.
/// The boxes come out in the order of the scan; together they cover the
/// solid voxels exactly, each voxel once.
pub fn greedy_mesh(src: &[u8], size: u32) -> (boxes: Vec<Cuboid>)
    requires
        (size as int) * size * size <= src@.len(),
    ensures
        boxes@ == greedy_boxes(src@, size as int),
        partitions(src@, size as int, boxes@),
{
    let n: usize = size as usize;
    let mut data: Vec<u8> = vstd::slice::slice_to_vec(src);
    proof {
        assert(src@.len() == src.len());
        lemma_side_bound(n as int);
    }
    let total: usize = n * n * n;
    let mut out: Vec<Cuboid> = Vec::new();
    let mut i: usize = 0;
    while i < total
        invariant
            n == size,
            total == n * n * n,
            n < 0x40_0000,
            n * n <= usize::MAX,
            i <= total,
            total <= data.len(),
            data.len() == src@.len(),
            scan(src@, n as int, 0) == out@ + scan(data@, n as int, i as int),
            forall|k: int|
                0 <= k < total ==> if #[trigger] claimed(out@, n as int, k) {
                    data@[k] == 0 && src@[k] != 0
                } else {
                    data@[k] == src@[k]
                },
            forall|j: int, l: int, k: int|
                0 <= j < l < out.len() && 0 <= k < total && #[trigger] hit(out@[j], n as int, k)
                    ==> !#[trigger] hit(out@[l], n as int, k),
            forall|j: int| 0 <= j < out.len() ==> (#[trigger] out@[j]).inside(n as int),
            forall|k: int| 0 <= k < i ==> data@[k] == 0,
        decreases total - i,
    {
        if data[i] > 0 {
            proof {
                lemma_index_encode(i as int, n as int);
                assert(0 < n * n) by (nonlinear_arith)
                    requires
                        0 < n,
                ;
            }
            let xi = i % n;
            let yi = (i / n) % n;
            let zi = i / (n * n);
            assert(solid(data@, n as int, xi as int, yi as int, zi as int));
            let mut w: usize = 1;
            while xi + w < n && data[idx(xi + w, yi, zi, n)] > 0
                invariant
                    1 <= w,
                    xi + w <= n,
                    yi < n,
                    zi < n,
                    n * n * n <= data.len(),
                    row_solid(data@, n as int, xi as int, yi as int, zi as int, w as int),
                    run_x(data@, n as int, xi as int, yi as int, zi as int) == w + run_x(
                        data@,
                        n as int,
                        xi + w,
                        yi as int,
                        zi as int,
                    ),
                decreases n - w,
            {
                assert(solid(data@, n as int, xi + w, yi as int, zi as int));
                w += 1;
            }
            assert(w == run_x(data@, n as int, xi as int, yi as int, zi as int));
            let mut h: usize = 1;
            while yi + h < n && row_is_solid(&data, n, xi, yi + h, zi, w)
                invariant
                    1 <= h,
                    xi + w <= n,
                    yi + h <= n,
                    zi < n,
                    n * n * n <= data.len(),
                    slab_solid(data@, n as int, xi as int, yi as int, zi as int, w as int, h as int),
                    run_y(data@, n as int, xi as int, yi as int, zi as int, w as int) == h + run_y(
                        data@,
                        n as int,
                        xi as int,
                        yi + h,
                        zi as int,
                        w as int,
                    ),
                decreases n - h,
            {
                h += 1;
            }
            assert(h == run_y(data@, n as int, xi as int, yi as int, zi as int, w as int));
            let mut d: usize = 1;
            while zi + d < n && slab_is_solid(&data, n, xi, yi, zi + d, w, h)
                invariant
                    1 <= d,
                    xi + w <= n,
                    yi + h <= n,
                    zi + d <= n,
                    n * n * n <= data.len(),
                    forall|c: int|
                        zi <= c < zi + d ==> #[trigger] slab_solid(
                            data@,
                            n as int,
                            xi as int,
                            yi as int,
                            c,
                            w as int,
                            h as int,
                        ),
                    run_z(data@, n as int, xi as int, yi as int, zi as int, w as int, h as int)
                        == d + run_z(
                        data@,
                        n as int,
                        xi as int,
                        yi as int,
                        zi + d,
                        w as int,
                        h as int,
                    ),
                decreases n - d,
            {
                d += 1;
            }
            assert(d == run_z(
                data@,
                n as int,
                xi as int,
                yi as int,
                zi as int,
                w as int,
                h as int,
            ));
            let ghost before = data@;
            let ghost prior = out@;
            clear_box(&mut data, n, xi, yi, zi, w, h, d);
            let b = Cuboid {
                cx: (2 * xi + w) as i32,
                cy: (2 * yi + h) as i32,
                cz: (2 * zi + d) as i32,
                w: w as i32,
                h: h as i32,
                d: d as i32,
            };
            out.push(b);
            proof {
                let ni = n as int;
                assert(b == Cuboid::at(
                    xi as int,
                    yi as int,
                    zi as int,
                    w as int,
                    h as int,
                    d as int,
                ));
                assert(out@ =~= prior + seq![b]);
                assert(scan(src@, ni, 0) =~= out@ + scan(data@, ni, i + 1));
                assert(b.inside(ni));
                assert forall|k: int| 0 <= k < total implies (hit(b, ni, k) <==> in_span(
                    k,
                    ni,
                    xi as int,
                    yi as int,
                    zi as int,
                    w as int,
                    h as int,
                    d as int,
                )) by {}
                assert forall|k: int| 0 <= k < total implies if #[trigger] claimed(out@, ni, k) {
                    data@[k] == 0 && src@[k] != 0
                } else {
                    data@[k] == src@[k]
                } by {
                    if hit(b, ni, k) {
                        lemma_span_solid(
                            before,
                            ni,
                            xi as int,
                            yi as int,
                            zi as int,
                            w as int,
                            h as int,
                            d as int,
                            k,
                        );
                        assert(hit(out@[prior.len() as int], ni, k));
                        assert(!claimed(prior, ni, k));
                    } else if claimed(prior, ni, k) {
                        let j = choose|j: int| 0 <= j < prior.len() && hit(prior[j], ni, k);
                        assert(hit(out@[j], ni, k));
                    } else {
                        if claimed(out@, ni, k) {
                            let j = choose|j: int| 0 <= j < out@.len() && hit(out@[j], ni, k);
                            assert(j < prior.len());
                            assert(hit(prior[j], ni, k));
                        }
                    }
                }
                assert forall|j: int, l: int, k: int|
                    0 <= j < l < out.len() && 0 <= k < total && #[trigger] hit(
                        out@[j],
                        ni,
                        k,
                    ) implies !#[trigger] hit(out@[l], ni, k) by {
                    if l == prior.len() {
                        assert(hit(prior[j], ni, k));
                        assert(claimed(prior, ni, k));
                        if hit(b, ni, k) {
                            lemma_span_solid(
                                before,
                                ni,
                                xi as int,
                                yi as int,
                                zi as int,
                                w as int,
                                h as int,
                                d as int,
                                k,
                            );
                        }
                    } else {
                        assert(hit(prior[j], ni, k));
                        assert(out@[l] == prior[l]);
                    }
                }
                assert(in_span(
                    i as int,
                    ni,
                    xi as int,
                    yi as int,
                    zi as int,
                    w as int,
                    h as int,
                    d as int,
                ));
            }
        }
        i += 1;
    }
    proof {
        let ni = n as int;
        assert(out@ =~= out@ + scan(data@, ni, i as int));
        assert forall|x: int, y: int, z: int| in_grid(x, y, z, ni) implies (solid(
            src@,
            ni,
            x,
            y,
            z,
        ) <==> #[trigger] covered(out@, x, y, z)) by {
            let k = voxel_index(x, y, z, ni);
            lemma_index_bound(x, y, z, ni);
            lemma_index_decode(x, y, z, ni);
            if claimed(out@, ni, k) {
                let j = choose|j: int| 0 <= j < out@.len() && hit(out@[j], ni, k);
                assert(out@[j].covers(x, y, z));
            }
            if covered(out@, x, y, z) {
                let j = choose|j: int| 0 <= j < out@.len() && (#[trigger] out@[j]).covers(x, y, z);
                assert(hit(out@[j], ni, k));
            }
        }
        assert forall|j: int, l: int, x: int, y: int, z: int|
            0 <= j < l < out@.len() && #[trigger] out@[j].covers(
                x,
                y,
                z,
            ) implies !#[trigger] out@[l].covers(x, y, z) by {
            assert(out@[j].inside(ni));
            assert(in_grid(x, y, z, ni));
            let k = voxel_index(x, y, z, ni);
            lemma_index_bound(x, y, z, ni);
            lemma_index_decode(x, y, z, ni);
            assert(hit(out@[j], ni, k));
            if out@[l].covers(x, y, z) {
                assert(hit(out@[l], ni, k));
            }
        }
    }
    out
}

/// The centres of `boxes`, in half voxels: `cx`, `cy`, `cz` of each box in
/// turn.
pub open spec fn centres_of(boxes: Seq<Cuboid>) -> Seq<i32> {
    Seq::new(
        3 * boxes.len(),
        |t: int|
            if t % 3 == 0 {
                boxes[t / 3].cx
            } else if t % 3 == 1 {
                boxes[t / 3].cy
            } else {
                boxes[t / 3].cz
            },
    )
}

/// The extents of `boxes`, in voxels: `w`, `h`, `d` of each box in turn.
pub open spec fn extents_of(boxes: Seq<Cuboid>) -> Seq<i32> {
    Seq::new(
        3 * boxes.len(),
        |t: int|
            if t % 3 == 0 {
                boxes[t / 3].w
            } else if t % 3 == 1 {
                boxes[t / 3].h
            } else {
                boxes[t / 3].d
            },
    )
}

/// The centres of `boxes` as one flat list.
pub fn centres(boxes: &Vec<Cuboid>) -> (r: Vec<i32>)
    ensures
        r@ == centres_of(boxes@),
{
    let mut r: Vec<i32> = Vec::new();
    let mut n: usize = 0;
    while n < boxes.len()
        invariant
            n <= boxes.len(),
            r.len() == 3 * n,
            forall|t: int| 0 <= t < r.len() ==> r@[t] == centres_of(boxes@)[t],
        decreases boxes.len() - n,
    {
        let b = boxes[n];
        r.push(b.cx);
        r.push(b.cy);
        r.push(b.cz);
        n += 1;
    }
    assert(r@ =~= centres_of(boxes@));
    r
}

/// The extents of `boxes` as one flat list.
pub fn extents(boxes: &Vec<Cuboid>) -> (r: Vec<i32>)
    ensures
        r@ == extents_of(boxes@),
{
    let mut r: Vec<i32> = Vec::new();
    let mut n: usize = 0;
    while n < boxes.len()
        invariant
            n <= boxes.len(),
            r.len() == 3 * n,
            forall|t: int| 0 <= t < r.len() ==> r@[t] == extents_of(boxes@)[t],
        decreases boxes.len() - n,
    {
        let b = boxes[n];
        r.push(b.w);
        r.push(b.h);
        r.push(b.d);
        n += 1;
    }
    assert(r@ =~= extents_of(boxes@));
    r
}

/// From an index on behind which every voxel is empty, the scan emits no
/// box.
proof fn lemma_scan_empty(v: Seq<u8>, n: int, i: int)
    requires
        0 <= i,
        forall|k: int| i <= k < n * n * n ==> v[k] == 0,
    ensures
        scan(v, n, i) =~= Seq::<Cuboid>::empty(),
    decreases n * n * n - i,
{
    if i < n * n * n {
        lemma_scan_empty(v, n, i + 1);
    }
}

/// A grid without a solid voxel has no boxes.
pub proof fn lemma_empty_grid(v: Seq<u8>, n: int)
    requires
        forall|k: int| 0 <= k < n * n * n ==> v[k] == 0,
    ensures
        greedy_boxes(v, n).len() == 0,
{
    lemma_scan_empty(v, n, 0);
}

/// In a grid of solid voxels a row runs to the edge of the grid.
proof fn lemma_run_x_full(v: Seq<u8>, n: int, x: int, y: int, z: int)
    requires
        0 <= x <= n,
        0 <= y < n,
        0 <= z < n,
        forall|k: int| 0 <= k < n * n * n ==> v[k] != 0,
    ensures
        run_x(v, n, x, y, z) == n - x,
        row_solid(v, n, x, y, z, n - x),
    decreases n - x,
{
    if x < n {
        lemma_index_bound(x, y, z, n);
        lemma_run_x_full(v, n, x + 1, y, z);
        assert forall|a: int| x <= a < n implies #[trigger] solid(v, n, a, y, z) by {
            lemma_index_bound(a, y, z, n);
        }
    }
}

/// In a grid of solid voxels the rows of full width run to the edge of the
/// grid.
proof fn lemma_run_y_full(v: Seq<u8>, n: int, y: int, z: int)
    requires
        0 <= y <= n,
        0 <= z < n,
        forall|k: int| 0 <= k < n * n * n ==> v[k] != 0,
    ensures
        run_y(v, n, 0, y, z, n) == n - y,
        slab_solid(v, n, 0, y, z, n, n - y),
    decreases n - y,
{
    if y < n {
        lemma_run_x_full(v, n, 0, y, z);
        lemma_run_y_full(v, n, y + 1, z);
        assert forall|b: int| y <= b < n implies #[trigger] row_solid(v, n, 0, b, z, n) by {
            lemma_run_x_full(v, n, 0, b, z);
        }
    }
}

/// In a grid of solid voxels the planes of full width and height run to
/// the edge of the grid.
proof fn lemma_run_z_full(v: Seq<u8>, n: int, z: int)
    requires
        0 <= z <= n,
        forall|k: int| 0 <= k < n * n * n ==> v[k] != 0,
    ensures
        run_z(v, n, 0, 0, z, n, n) == n - z,
    decreases n - z,
{
    if z < n {
        lemma_run_y_full(v, n, 0, z);
        lemma_run_z_full(v, n, z + 1);
    }
}

/// A grid of solid voxels has one box, which fills the grid.
pub proof fn lemma_solid_grid(v: Seq<u8>, n: int)
    requires
        0 < n,
        n * n * n <= v.len(),
        forall|k: int| 0 <= k < n * n * n ==> v[k] != 0,
    ensures
        greedy_boxes(v, n) == seq![Cuboid::at(0, 0, 0, n, n, n)],
{
    assert(0 < n * n && 0 < n * n * n) by (nonlinear_arith)
        requires
            0 < n,
    ;
    lemma_index_encode(0, n);
    lemma_index_decode(0, 0, 0, n);
    lemma_run_x_full(v, n, 0, 0, 0);
    lemma_run_y_full(v, n, 0, 0);
    lemma_run_z_full(v, n, 0);
    let rest = erase(v, n, 0, 0, 0, n, n, n);
    assert forall|k: int| 1 <= k < n * n * n implies rest[k] == 0 by {
        lemma_index_encode(k, n);
    }
    lemma_scan_empty(rest, n, 1);
    assert(scan(v, n, 0) =~= seq![Cuboid::at(0, 0, 0, n, n, n)] + scan(rest, n, 1));
    assert(greedy_boxes(v, n) =~= seq![Cuboid::at(0, 0, 0, n, n, n)]);
}

} // verus!
