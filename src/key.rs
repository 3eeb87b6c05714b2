//! Octree voxel keys.

use vstd::prelude::*;
use crate::bytes::{le_field, read_i32_at, signed32};
use crate::error::CopcError;

verus! {

/// Address of one octree node: its refinement level and its integer coordinates at
/// that level. A key with a negative level stands for "no such node".
#[derive(Clone, Copy, Debug, PartialEq, Eq, Structural, Hash)]
pub struct VoxelKey {
    /// Level; a value below 0 marks an invalid key.
    pub level: i32,
    pub x: i32,
    pub y: i32,
    pub z: i32,
}

/// Size in bytes of a key in the file.
pub const KEY_SIZE: usize = 16;

/// `k` is the key that the 16 bytes at `pos` of `b` encode: level, x, y, z, each a
/// little-endian `i32`.
pub open spec fn key_at(k: VoxelKey, b: Seq<u8>, pos: int) -> bool {
    &&& k.level as int == signed32(le_field(b, pos, 4))
    &&& k.x as int == signed32(le_field(b, pos + 4, 4))
    &&& k.y as int == signed32(le_field(b, pos + 8, 4))
    &&& k.z as int == signed32(le_field(b, pos + 12, 4))
}

/// The key of the child in octant `(dx, dy, dz)` of `k`.
pub open spec fn child_of(k: VoxelKey, dx: int, dy: int, dz: int) -> VoxelKey {
    VoxelKey {
        level: (k.level + 1) as i32,
        x: (2 * k.x + dx) as i32,
        y: (2 * k.y + dy) as i32,
        z: (2 * k.z + dz) as i32,
    }
}

/// The child of `k` in octant `(dx, dy, dz)` is representable in `i32`.
pub open spec fn child_fits(k: VoxelKey, dx: int, dy: int, dz: int) -> bool {
    &&& 0 <= dx <= 1 && 0 <= dy <= 1 && 0 <= dz <= 1
    &&& k.level < i32::MAX
    &&& i32::MIN <= 2 * k.x + dx <= i32::MAX
    &&& i32::MIN <= 2 * k.y + dy <= i32::MAX
    &&& i32::MIN <= 2 * k.z + dz <= i32::MAX
}

impl VoxelKey {
    /// The key with the given level and coordinates.
    pub fn new(level: i32, x: i32, y: i32, z: i32) -> (r: VoxelKey)
        ensures
            r == (VoxelKey { level, x, y, z }),
    {
        VoxelKey { level, x, y, z }
    }

    /// Whether this key marks "no such node" (a negative level).
    pub fn is_invalid(&self) -> (r: bool)
        ensures
            r == (self.level < 0),
    {
        self.level < 0
    }

    /// The child of this key in octant `(dx, dy, dz)`, each selector 0 or 1:
    /// `(level + 1, 2x + dx, 2y + dy, 2z + dz)`.
    pub fn child(&self, dx: i32, dy: i32, dz: i32) -> (r: VoxelKey)
        requires
            child_fits(*self, dx as int, dy as int, dz as int),
        ensures
            r == child_of(*self, dx as int, dy as int, dz as int),
            r.level == self.level + 1,
            r.x == 2 * self.x + dx,
            r.y == 2 * self.y + dy,
            r.z == 2 * self.z + dz,
    {
        VoxelKey {
            level: self.level + 1,
            x: 2 * self.x + dx,
            y: 2 * self.y + dy,
            z: 2 * self.z + dz,
        }
    }

    /// The parent of a key with a positive level:
    /// `(level - 1, floor(x / 2), floor(y / 2), floor(z / 2))`.
    pub fn parent(&self) -> (r: VoxelKey)
        requires
            self.level >= 1,
        ensures
            r.level == self.level - 1,
            r.x as int == self.x as int / 2,
            r.y as int == self.y as int / 2,
            r.z as int == self.z as int / 2,
    {
        let x = half(self.x as i64);
        let y = half(self.y as i64);
        let z = half(self.z as i64);
        VoxelKey { level: self.level - 1, x: x as i32, y: y as i32, z: z as i32 }
    }

    /// Whether this key is a proper ancestor of `k` (see [`is_ancestor`]).
    pub fn is_ancestor_of(&self, k: &VoxelKey) -> (r: bool)
        ensures
            r == is_ancestor(*self, *k),
    {
        if self.level >= k.level {
            return false;
        }
        let ghost n = (k.level - self.level) as nat;
        let mut d: i64 = k.level as i64 - self.level as i64;
        let mut x: i64 = k.x as i64;
        let mut y: i64 = k.y as i64;
        let mut z: i64 = k.z as i64;
        while d > 0 && !(settled(x) && settled(y) && settled(z))
            invariant
                0 <= d <= n,
                x as int == floor_shift(k.x as int, (n - d) as nat),
                y as int == floor_shift(k.y as int, (n - d) as nat),
                z as int == floor_shift(k.z as int, (n - d) as nat),
                i32::MIN <= x <= i32::MAX,
                i32::MIN <= y <= i32::MAX,
                i32::MIN <= z <= i32::MAX,
            decreases d,
        {
            x = half(x);
            y = half(y);
            z = half(z);
            d = d - 1;
        }
        proof {
            lemma_floor_shift_settled(k.x as int, (n - d) as nat, n);
            lemma_floor_shift_settled(k.y as int, (n - d) as nat, n);
            lemma_floor_shift_settled(k.z as int, (n - d) as nat, n);
        }
        x == self.x as i64 && y == self.y as i64 && z == self.z as i64
    }

    /// Reads the key stored in the 16 bytes at `pos`; `TruncatedRecord` if fewer
    /// remain.
    pub fn read_from(b: &[u8], pos: usize) -> (r: Result<VoxelKey, CopcError>)
        ensures
            match r {
                Ok(k) => pos + KEY_SIZE <= b@.len() && key_at(k, b@, pos as int),
                Err(e) => pos + KEY_SIZE > b@.len() && e == CopcError::TruncatedRecord,
            },
    {
        if b.len() < KEY_SIZE || pos > b.len() - KEY_SIZE {
            return Err(CopcError::TruncatedRecord);
        }
        let level = read_i32_at(b, pos);
        let x = read_i32_at(b, pos + 4);
        let y = read_i32_at(b, pos + 8);
        let z = read_i32_at(b, pos + 12);
        Ok(VoxelKey { level, x, y, z })
    }
}

/// `v` floor-divided by 2, `n` times over: `floor(v / 2^n)`.
pub open spec fn floor_shift(v: int, n: nat) -> int
    decreases n,
{
    if n == 0 {
        v
    } else {
        floor_shift(v, (n - 1) as nat) / 2
    }
}

/// `a` is a proper ancestor of `k`: it lies at a coarser level, and `k`'s
/// coordinates, floor-divided by `2^(k.level - a.level)`, are `a`'s.
pub open spec fn is_ancestor(a: VoxelKey, k: VoxelKey) -> bool {
    &&& a.level < k.level
    &&& floor_shift(k.x as int, (k.level - a.level) as nat) == a.x
    &&& floor_shift(k.y as int, (k.level - a.level) as nat) == a.y
    &&& floor_shift(k.z as int, (k.level - a.level) as nat) == a.z
}

/// `v` floor-divided by 2.
fn half(v: i64) -> (r: i64)
    requires
        i32::MIN <= v <= i32::MAX,
    ensures
        r as int == v as int / 2,
        i32::MIN <= r <= i32::MAX,
{
    if v >= 0 {
        v / 2
    } else {
        let w: i64 = -(v + 1);
        -(w / 2) - 1
    }
}

/// 0 and -1 are left as they are by floor division by 2.
fn settled(v: i64) -> (r: bool)
    ensures
        r == (v == 0 || v == -1),
{
    v == 0 || v == -1
}

/// Once the repeated halving reaches 0 or -1 it stays there.
proof fn lemma_floor_shift_settled(v: int, m: nat, n: nat)
    requires
        m <= n,
        floor_shift(v, m) == 0 || floor_shift(v, m) == -1 || m == n,
    ensures
        floor_shift(v, n) == floor_shift(v, m),
    decreases n - m,
{
    if m < n {
        lemma_floor_shift_settled(v, m, (n - 1) as nat);
    }
}

/// Going to a child and back to its parent returns the key itself, for keys with
/// non-negative coordinates.
pub proof fn lemma_parent_of_child(k: VoxelKey, dx: int, dy: int, dz: int)
    requires
        child_fits(k, dx, dy, dz),
        k.level >= 0,
        k.x >= 0,
        k.y >= 0,
        k.z >= 0,
    ensures
        child_of(k, dx, dy, dz).level - 1 == k.level,
        child_of(k, dx, dy, dz).x / 2 == k.x,
        child_of(k, dx, dy, dz).y / 2 == k.y,
        child_of(k, dx, dy, dz).z / 2 == k.z,
{
}

} // verus!
