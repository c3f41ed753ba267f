use vstd::prelude::*;

verus! {

/// Sum of three products in two's-complement wrapping arithmetic.
pub open spec fn dot3_spec(a0: i64, a1: i64, a2: i64, b0: i64, b1: i64, b2: i64) -> i64 {
    a0.wrapping_mul(b0).wrapping_add(a1.wrapping_mul(b1)).wrapping_add(a2.wrapping_mul(b2))
}

fn dot3(a0: i64, a1: i64, a2: i64, b0: i64, b1: i64, b2: i64) -> (r: i64)
    ensures
        r == dot3_spec(a0, a1, a2, b0, b1, b2),
{
    a0.wrapping_mul(b0).wrapping_add(a1.wrapping_mul(b1)).wrapping_add(a2.wrapping_mul(b2))
}

/// An affine pose on an integer lattice: a 3x3 linear part (rotation and
/// non-uniform scale, row-major) followed by a translation.
///
/// Arithmetic wraps modulo 2^64, so composition is total and exact on every
/// input and associative as a ring operation.
#[derive(Clone, Copy, Debug, PartialEq, Eq, Structural)]
pub struct Transform {
    pub xx: i64,
    pub xy: i64,
    pub xz: i64,
    pub yx: i64,
    pub yy: i64,
    pub yz: i64,
    pub zx: i64,
    pub zy: i64,
    pub zz: i64,
    pub x: i64,
    pub y: i64,
    pub z: i64,
}

/// The pose that leaves every point where it is.
pub open spec fn identity_spec() -> Transform {
    Transform { xx: 1, xy: 0, xz: 0, yx: 0, yy: 1, yz: 0, zx: 0, zy: 0, zz: 1, x: 0, y: 0, z: 0 }
}

/// A pure translation by (x, y, z).
pub open spec fn translation_spec(x: i64, y: i64, z: i64) -> Transform {
    Transform { xx: 1, xy: 0, xz: 0, yx: 0, yy: 1, yz: 0, zx: 0, zy: 0, zz: 1, x, y, z }
}

/// `parent` applied after `local`: the world pose of a node whose parent sits
/// at `parent` and whose own pose relative to that parent is `local`.
#[verifier::opaque]
pub open spec fn compose_spec(parent: Transform, local: Transform) -> Transform {
    let p = parent;
    let l = local;
    Transform {
        xx: dot3_spec(p.xx, p.xy, p.xz, l.xx, l.yx, l.zx),
        xy: dot3_spec(p.xx, p.xy, p.xz, l.xy, l.yy, l.zy),
        xz: dot3_spec(p.xx, p.xy, p.xz, l.xz, l.yz, l.zz),
        yx: dot3_spec(p.yx, p.yy, p.yz, l.xx, l.yx, l.zx),
        yy: dot3_spec(p.yx, p.yy, p.yz, l.xy, l.yy, l.zy),
        yz: dot3_spec(p.yx, p.yy, p.yz, l.xz, l.yz, l.zz),
        zx: dot3_spec(p.zx, p.zy, p.zz, l.xx, l.yx, l.zx),
        zy: dot3_spec(p.zx, p.zy, p.zz, l.xy, l.yy, l.zy),
        zz: dot3_spec(p.zx, p.zy, p.zz, l.xz, l.yz, l.zz),
        x: dot3_spec(p.xx, p.xy, p.xz, l.x, l.y, l.z).wrapping_add(p.x),
        y: dot3_spec(p.yx, p.yy, p.yz, l.x, l.y, l.z).wrapping_add(p.y),
        z: dot3_spec(p.zx, p.zy, p.zz, l.x, l.y, l.z).wrapping_add(p.z),
    }
}

impl Transform {
    /// The pose that leaves every point where it is.
    pub fn identity() -> (r: Transform)
        ensures
            r == identity_spec(),
    {
        Transform { xx: 1, xy: 0, xz: 0, yx: 0, yy: 1, yz: 0, zx: 0, zy: 0, zz: 1, x: 0, y: 0, z: 0 }
    }

    /// A pure translation by (x, y, z).
    pub fn from_translation(x: i64, y: i64, z: i64) -> (r: Transform)
        ensures
            r == translation_spec(x, y, z),
    {
        Transform { xx: 1, xy: 0, xz: 0, yx: 0, yy: 1, yz: 0, zx: 0, zy: 0, zz: 1, x, y, z }
    }

    /// The world pose of a child at `local` under a parent at `self`.
    pub fn compose(&self, local: &Transform) -> (r: Transform)
        ensures
            r == compose_spec(*self, *local),
    {
        let p = self;
        let l = local;
        reveal(compose_spec);
        Transform {
            xx: dot3(p.xx, p.xy, p.xz, l.xx, l.yx, l.zx),
            xy: dot3(p.xx, p.xy, p.xz, l.xy, l.yy, l.zy),
            xz: dot3(p.xx, p.xy, p.xz, l.xz, l.yz, l.zz),
            yx: dot3(p.yx, p.yy, p.yz, l.xx, l.yx, l.zx),
            yy: dot3(p.yx, p.yy, p.yz, l.xy, l.yy, l.zy),
            yz: dot3(p.yx, p.yy, p.yz, l.xz, l.yz, l.zz),
            zx: dot3(p.zx, p.zy, p.zz, l.xx, l.yx, l.zx),
            zy: dot3(p.zx, p.zy, p.zz, l.xy, l.yy, l.zy),
            zz: dot3(p.zx, p.zy, p.zz, l.xz, l.yz, l.zz),
            x: dot3(p.xx, p.xy, p.xz, l.x, l.y, l.z).wrapping_add(p.x),
            y: dot3(p.yx, p.yy, p.yz, l.x, l.y, l.z).wrapping_add(p.y),
            z: dot3(p.zx, p.zy, p.zz, l.x, l.y, l.z).wrapping_add(p.z),
        }
    }
}

} // verus!
