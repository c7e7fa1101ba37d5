use vstd::prelude::*;

verus! {

use crate::lattice::{Direction, Point};

/// Coordinate bound inside which the resolver keeps working: boxes whose
/// coordinates leave this range make it give up rather than risk wrapping.
pub const WORLD_BOUND: i32 = 33554432;

/// Looser bound under which the geometric operations are free of overflow.
pub const OP_BOUND: i32 = 268435456;

/// An axis-aligned box on the lattice: a minimum corner and a per-axis size
/// (the local supremum). The box holds the points `p` with
/// `minimum <= p < minimum + local_supremum` component-wise.
#[derive(Clone, Copy, PartialEq, Eq, Structural, Debug)]
pub struct Extent {
    pub minimum: Point,
    pub local_supremum: Point,
}

/// The signed overlap depth of a pair of boxes along each of the six face
/// directions. All six are positive exactly when the boxes share a point
/// (provided neither is empty); a value of zero marks a shared face plane.
#[derive(Clone, Copy, PartialEq, Eq, Structural, Debug)]
pub struct Penetrations {
    pub pos_x: i32,
    pub neg_x: i32,
    pub pos_y: i32,
    pub neg_y: i32,
    pub pos_z: i32,
    pub neg_z: i32,
}

impl Penetrations {
    pub open spec fn spec_get(self, d: Direction) -> int {
        match d {
            Direction::PosX => self.pos_x as int,
            Direction::NegX => self.neg_x as int,
            Direction::PosY => self.pos_y as int,
            Direction::NegY => self.neg_y as int,
            Direction::PosZ => self.pos_z as int,
            Direction::NegZ => self.neg_z as int,
        }
    }

    pub fn get(&self, d: Direction) -> (r: i32)
        ensures
            r == self.spec_get(d),
    {
        match d {
            Direction::PosX => self.pos_x,
            Direction::NegX => self.neg_x,
            Direction::PosY => self.pos_y,
            Direction::NegY => self.neg_y,
            Direction::PosZ => self.pos_z,
            Direction::NegZ => self.neg_z,
        }
    }

    /// The least of the six depths, ties going to the earlier direction in
    /// the fixed scan order.
    pub open spec fn spec_min_direction(self) -> Direction {
        let d1 = Direction::PosX;
        let d2 = if self.neg_x < self.spec_get(d1) {
            Direction::NegX
        } else {
            d1
        };
        let d3 = if self.pos_y < self.spec_get(d2) {
            Direction::PosY
        } else {
            d2
        };
        let d4 = if self.neg_y < self.spec_get(d3) {
            Direction::NegY
        } else {
            d3
        };
        let d5 = if self.pos_z < self.spec_get(d4) {
            Direction::PosZ
        } else {
            d4
        };
        if self.neg_z < self.spec_get(d5) {
            Direction::NegZ
        } else {
            d5
        }
    }

    /// The direction of least penetration, with its depth.
    pub fn min_direction(&self) -> (r: (Direction, i32))
        ensures
            r.0 == self.spec_min_direction(),
            r.1 == self.spec_get(r.0),
            r.1 <= self.pos_x && r.1 <= self.neg_x,
            r.1 <= self.pos_y && r.1 <= self.neg_y,
            r.1 <= self.pos_z && r.1 <= self.neg_z,
    {
        let mut best_d = Direction::PosX;
        let mut best: i32 = self.pos_x;
        if self.neg_x < best {
            best_d = Direction::NegX;
            best = self.neg_x;
        }
        if self.pos_y < best {
            best_d = Direction::PosY;
            best = self.pos_y;
        }
        if self.neg_y < best {
            best_d = Direction::NegY;
            best = self.neg_y;
        }
        if self.pos_z < best {
            best_d = Direction::PosZ;
            best = self.pos_z;
        }
        if self.neg_z < best {
            best_d = Direction::NegZ;
            best = self.neg_z;
        }
        (best_d, best)
    }
}

impl Extent {
    /// Well-formed: every size component is non-negative (empty is allowed).
    pub open spec fn wf(self) -> bool {
        self.local_supremum.x >= 0 && self.local_supremum.y >= 0 && self.local_supremum.z >= 0
    }

    /// All corners lie within `[-b, b]` on every axis.
    pub open spec fn in_range(self, b: int) -> bool {
        &&& -b <= self.minimum.x && self.minimum.x <= b && -b <= self.minimum.x
            + self.local_supremum.x <= b
        &&& -b <= self.minimum.y && self.minimum.y <= b && -b <= self.minimum.y
            + self.local_supremum.y <= b
        &&& -b <= self.minimum.z && self.minimum.z <= b && -b <= self.minimum.z
            + self.local_supremum.z <= b
    }

    pub open spec fn spec_contains(self, p: Point) -> bool {
        &&& self.minimum.x <= p.x && p.x < self.minimum.x + self.local_supremum.x
        &&& self.minimum.y <= p.y && p.y < self.minimum.y + self.local_supremum.y
        &&& self.minimum.z <= p.z && p.z < self.minimum.z + self.local_supremum.z
    }

    pub open spec fn spec_is_empty(self) -> bool {
        self.local_supremum.x <= 0 || self.local_supremum.y <= 0 || self.local_supremum.z <= 0
    }

    pub fn from_min_and_local_supremum(minimum: Point, local_supremum: Point) -> (r: Extent)
        ensures
            r == (Extent { minimum, local_supremum }),
    {
        Extent { minimum, local_supremum }
    }

    pub fn get_minimum(&self) -> (r: Point)
        ensures
            r == self.minimum,
    {
        self.minimum
    }

    pub fn get_local_supremum(&self) -> (r: Point)
        ensures
            r == self.local_supremum,
    {
        self.local_supremum
    }

    pub fn set_local_supremum(&mut self, local_supremum: Point)
        ensures
            *final(self) == (Extent { minimum: old(self).minimum, local_supremum }),
    {
        self.local_supremum = local_supremum;
    }

    pub fn is_empty(&self) -> (r: bool)
        ensures
            r == self.spec_is_empty(),
    {
        self.local_supremum.x <= 0 || self.local_supremum.y <= 0 || self.local_supremum.z <= 0
    }

    pub fn contains_world(&self, p: &Point) -> (r: bool)
        ensures
            r == self.spec_contains(*p),
    {
        let sx = self.minimum.x as i64 + self.local_supremum.x as i64;
        let sy = self.minimum.y as i64 + self.local_supremum.y as i64;
        let sz = self.minimum.z as i64 + self.local_supremum.z as i64;
        self.minimum.x <= p.x && (p.x as i64) < sx && self.minimum.y <= p.y && (p.y as i64) < sy
            && self.minimum.z <= p.z && (p.z as i64) < sz
    }

    /// No lattice point lies in both boxes.
    pub open spec fn spec_disjoint(self, other: Extent) -> bool {
        forall|p: Point|
            !(#[trigger] self.spec_contains(p) && #[trigger] other.spec_contains(p))
    }

    /// Decides `spec_disjoint` by comparing the per-axis intervals.
    pub fn disjoint_from(&self, other: &Extent) -> (r: bool)
        ensures
            r == self.spec_disjoint(*other),
    {
        let a = *self;
        let b = *other;
        let overlap_x = (a.minimum.x as i64) < b.minimum.x as i64 + b.local_supremum.x as i64
            && (b.minimum.x as i64) < a.minimum.x as i64 + a.local_supremum.x as i64
            && a.local_supremum.x > 0 && b.local_supremum.x > 0;
        let overlap_y = (a.minimum.y as i64) < b.minimum.y as i64 + b.local_supremum.y as i64
            && (b.minimum.y as i64) < a.minimum.y as i64 + a.local_supremum.y as i64
            && a.local_supremum.y > 0 && b.local_supremum.y > 0;
        let overlap_z = (a.minimum.z as i64) < b.minimum.z as i64 + b.local_supremum.z as i64
            && (b.minimum.z as i64) < a.minimum.z as i64 + a.local_supremum.z as i64
            && a.local_supremum.z > 0 && b.local_supremum.z > 0;
        if overlap_x && overlap_y && overlap_z {
            let witness = Point {
                x: if a.minimum.x >= b.minimum.x {
                    a.minimum.x
                } else {
                    b.minimum.x
                },
                y: if a.minimum.y >= b.minimum.y {
                    a.minimum.y
                } else {
                    b.minimum.y
                },
                z: if a.minimum.z >= b.minimum.z {
                    a.minimum.z
                } else {
                    b.minimum.z
                },
            };
            proof {
                assert(a.spec_contains(witness) && b.spec_contains(witness));
            }
            false
        } else {
            proof {
                assert forall|p: Point|
                    !(#[trigger] a.spec_contains(p) && #[trigger] b.spec_contains(p)) by {}
            }
            true
        }
    }

    /// The box of points lying in both inputs (empty sizes clamped to zero).
    pub fn intersection(&self, other: &Extent) -> (r: Extent)
        requires
            self.in_range(OP_BOUND as int),
            other.in_range(OP_BOUND as int),
        ensures
            r == spec_intersection(*self, *other),
            r.wf(),
            r.in_range(OP_BOUND as int),
            forall|b2: int|
                self.in_range(b2) && other.in_range(b2) ==> #[trigger] r.in_range(b2),
            forall|p: Point| #[trigger]
                r.spec_contains(p) <==> self.spec_contains(p) && other.spec_contains(p),
    {
        let min_x = if self.minimum.x >= other.minimum.x {
            self.minimum.x
        } else {
            other.minimum.x
        };
        let min_y = if self.minimum.y >= other.minimum.y {
            self.minimum.y
        } else {
            other.minimum.y
        };
        let min_z = if self.minimum.z >= other.minimum.z {
            self.minimum.z
        } else {
            other.minimum.z
        };
        let a_sup_x = self.minimum.x + self.local_supremum.x;
        let a_sup_y = self.minimum.y + self.local_supremum.y;
        let a_sup_z = self.minimum.z + self.local_supremum.z;
        let b_sup_x = other.minimum.x + other.local_supremum.x;
        let b_sup_y = other.minimum.y + other.local_supremum.y;
        let b_sup_z = other.minimum.z + other.local_supremum.z;
        let sup_x = if a_sup_x <= b_sup_x {
            a_sup_x
        } else {
            b_sup_x
        };
        let sup_y = if a_sup_y <= b_sup_y {
            a_sup_y
        } else {
            b_sup_y
        };
        let sup_z = if a_sup_z <= b_sup_z {
            a_sup_z
        } else {
            b_sup_z
        };
        let size_x = if sup_x - min_x >= 0 {
            sup_x - min_x
        } else {
            0
        };
        let size_y = if sup_y - min_y >= 0 {
            sup_y - min_y
        } else {
            0
        };
        let size_z = if sup_z - min_z >= 0 {
            sup_z - min_z
        } else {
            0
        };
        Extent {
            minimum: Point { x: min_x, y: min_y, z: min_z },
            local_supremum: Point { x: size_x, y: size_y, z: size_z },
        }
    }

    /// Every point of `self` lies in `other`.
    pub open spec fn spec_subset(self, other: Extent) -> bool {
        forall|p: Point| #[trigger] self.spec_contains(p) ==> other.spec_contains(p)
    }

    /// Decides `spec_subset` by comparing the per-axis intervals.
    pub fn is_subset(&self, other: &Extent) -> (r: bool)
        requires
            self.in_range(OP_BOUND as int),
            other.in_range(OP_BOUND as int),
        ensures
            r == self.spec_subset(*other),
    {
        if self.is_empty() {
            return true;
        }
        let a = *self;
        let b = *other;
        let a_max_x = a.minimum.x + a.local_supremum.x;
        let a_max_y = a.minimum.y + a.local_supremum.y;
        let a_max_z = a.minimum.z + a.local_supremum.z;
        let b_max_x = b.minimum.x + b.local_supremum.x;
        let b_max_y = b.minimum.y + b.local_supremum.y;
        let b_max_z = b.minimum.z + b.local_supremum.z;
        let inside = a.minimum.x >= b.minimum.x && a_max_x <= b_max_x && a.minimum.y >= b.minimum.y
            && a_max_y <= b_max_y && a.minimum.z >= b.minimum.z && a_max_z <= b_max_z;
        if inside {
            true
        } else {
            proof {
                let w = Point {
                    x: if a.minimum.x < b.minimum.x {
                        a.minimum.x
                    } else {
                        (a_max_x - 1) as i32
                    },
                    y: if a.minimum.y < b.minimum.y {
                        a.minimum.y
                    } else {
                        (a_max_y - 1) as i32
                    },
                    z: if a.minimum.z < b.minimum.z {
                        a.minimum.z
                    } else {
                        (a_max_z - 1) as i32
                    },
                };
                assert(a.spec_contains(w));
                assert(!b.spec_contains(w));
            }
            false
        }
    }

    /// Grow (or, negative, shrink) the box by `r` on all six faces. The new
    /// size is clamped at empty.
    pub fn radial_grow(&self, r: i32) -> (g: Extent)
        requires
            self.in_range(OP_BOUND as int),
            -4096 <= r <= 4096,
        ensures
            g.wf(),
            g.minimum.x == self.minimum.x - r,
            g.minimum.y == self.minimum.y - r,
            g.minimum.z == self.minimum.z - r,
            g.local_supremum.x == if self.local_supremum.x + 2 * r >= 0 {
                self.local_supremum.x + 2 * r
            } else {
                0int
            },
            g.local_supremum.y == if self.local_supremum.y + 2 * r >= 0 {
                self.local_supremum.y + 2 * r
            } else {
                0int
            },
            g.local_supremum.z == if self.local_supremum.z + 2 * r >= 0 {
                self.local_supremum.z + 2 * r
            } else {
                0int
            },
            forall|p: Point| #[trigger]
                g.spec_contains(p) <==> (self.minimum.x - r <= p.x < self.minimum.x
                    + self.local_supremum.x + r && self.minimum.y - r <= p.y < self.minimum.y
                    + self.local_supremum.y + r && self.minimum.z - r <= p.z < self.minimum.z
                    + self.local_supremum.z + r),
    {
        let sx = self.local_supremum.x + 2 * r;
        let sy = self.local_supremum.y + 2 * r;
        let sz = self.local_supremum.z + 2 * r;
        Extent {
            minimum: Point {
                x: self.minimum.x - r,
                y: self.minimum.y - r,
                z: self.minimum.z - r,
            },
            local_supremum: Point {
                x: if sx >= 0 {
                    sx
                } else {
                    0
                },
                y: if sy >= 0 {
                    sy
                } else {
                    0
                },
                z: if sz >= 0 {
                    sz
                } else {
                    0
                },
            },
        }
    }

    /// Number of lattice points in the box.
    pub open spec fn spec_volume(self) -> int {
        if self.spec_is_empty() {
            0
        } else {
            self.local_supremum.x * self.local_supremum.y * self.local_supremum.z
        }
    }

    /// Every lattice point of the box, in a fixed row-major order.
    pub fn extent_points(&self) -> (r: Vec<Point>)
        requires
            self.in_range(OP_BOUND as int),
            self.local_supremum.x <= 4096,
            self.local_supremum.y <= 4096,
            self.local_supremum.z <= 4096,
        ensures
            forall|p: Point| #[trigger] r@.contains(p) <==> self.spec_contains(p),
            forall|k1: int, k2: int| 0 <= k1 < k2 < r@.len() ==> r@[k1] != r@[k2],
            r@.len() == self.spec_volume(),
    {
        let mut r: Vec<Point> = Vec::new();
        if self.is_empty() {
            proof {
                assert forall|p: Point| #[trigger] r@.contains(p) <==> self.spec_contains(p) by {}
            }
            return r;
        }
        let max_x = self.minimum.x + self.local_supremum.x;
        let max_y = self.minimum.y + self.local_supremum.y;
        let max_z = self.minimum.z + self.local_supremum.z;
        let mut x = self.minimum.x;
        while x < max_x
            invariant
                self.in_range(OP_BOUND as int),
                !self.spec_is_empty(),
                max_x == self.minimum.x + self.local_supremum.x,
                max_y == self.minimum.y + self.local_supremum.y,
                max_z == self.minimum.z + self.local_supremum.z,
                self.minimum.x <= x <= max_x,
                forall|p: Point| #[trigger]
                    r@.contains(p) <==> (self.spec_contains(p) && p.x < x),
                forall|k1: int, k2: int| 0 <= k1 < k2 < r@.len() ==> r@[k1] != r@[k2],
                r@.len() == (x - self.minimum.x) * (self.local_supremum.y
                    * self.local_supremum.z),
            decreases max_x - x,
        {
            let mut y = self.minimum.y;
            while y < max_y
                invariant
                    self.in_range(OP_BOUND as int),
                    !self.spec_is_empty(),
                    max_x == self.minimum.x + self.local_supremum.x,
                    max_y == self.minimum.y + self.local_supremum.y,
                    max_z == self.minimum.z + self.local_supremum.z,
                    self.minimum.x <= x < max_x,
                    self.minimum.y <= y <= max_y,
                    forall|p: Point| #[trigger]
                        r@.contains(p) <==> (self.spec_contains(p) && (p.x < x || (p.x == x && p.y
                            < y))),
                    forall|k1: int, k2: int| 0 <= k1 < k2 < r@.len() ==> r@[k1] != r@[k2],
                    r@.len() == (x - self.minimum.x) * (self.local_supremum.y
                        * self.local_supremum.z) + (y - self.minimum.y) * self.local_supremum.z,
                decreases max_y - y,
            {
                let mut z = self.minimum.z;
                while z < max_z
                    invariant
                        self.in_range(OP_BOUND as int),
                        !self.spec_is_empty(),
                        max_x == self.minimum.x + self.local_supremum.x,
                        max_y == self.minimum.y + self.local_supremum.y,
                        max_z == self.minimum.z + self.local_supremum.z,
                        self.minimum.x <= x < max_x,
                        self.minimum.y <= y < max_y,
                        self.minimum.z <= z <= max_z,
                        forall|p: Point| #[trigger]
                            r@.contains(p) <==> (self.spec_contains(p) && (p.x < x || (p.x == x && (
                            p.y < y || (p.y == y && p.z < z))))),
                        forall|k1: int, k2: int| 0 <= k1 < k2 < r@.len() ==> r@[k1] != r@[k2],
                        r@.len() == (x - self.minimum.x) * (self.local_supremum.y
                            * self.local_supremum.z) + (y - self.minimum.y)
                            * self.local_supremum.z + (z - self.minimum.z),
                    decreases max_z - z,
                {
                    let q = Point { x, y, z };
                    let ghost r0 = r@;
                    proof {
                        assert(!r0.contains(q));
                    }
                    r.push(q);
                    proof {
                        assert(self.spec_contains(q));
                        assert forall|k1: int, k2: int|
                            0 <= k1 < k2 < r@.len() implies r@[k1] != r@[k2] by {
                            if k2 == r@.len() - 1 {
                                assert(r@[k1] == r0[k1]);
                                if r0[k1] == q {
                                    assert(r0.contains(q));
                                }
                            } else {
                                assert(r@[k1] == r0[k1] && r@[k2] == r0[k2]);
                            }
                        }
                        assert forall|p: Point| #[trigger]
                            r@.contains(p) <==> (self.spec_contains(p) && (p.x < x || (p.x == x && (
                        p.y < y || (p.y == y && p.z < z + 1))))) by {
                            if r@.contains(p) {
                                let k = choose|k: int| 0 <= k < r@.len() && r@[k] == p;
                                if k < r0.len() {
                                    assert(r0[k] == p);
                                    assert(r0.contains(p));
                                } else {
                                    assert(p == q);
                                }
                            }
                            if self.spec_contains(p) && (p.x < x || (p.x == x && (p.y < y || (p.y
                                == y && p.z < z + 1)))) {
                                if p == q {
                                    assert(r@[r@.len() - 1] == p);
                                } else {
                                    assert(r0.contains(p));
                                    let k = choose|k: int| 0 <= k < r0.len() && r0[k] == p;
                                    assert(r@[k] == p);
                                }
                            }
                        }
                    }
                    z = z + 1;
                }
                proof {
                    let sy = self.local_supremum.y as int;
                    let sz = self.local_supremum.z as int;
                    let dx = x - self.minimum.x;
                    let dy = y - self.minimum.y;
                    assert(dx * (sy * sz) + dy * sz + sz == dx * (sy * sz) + (dy + 1) * sz)
                        by (nonlinear_arith);
                }
                y = y + 1;
            }
            proof {
                let sy = self.local_supremum.y as int;
                let sz = self.local_supremum.z as int;
                let dx = x - self.minimum.x;
                assert(dx * (sy * sz) + sy * sz == (dx + 1) * (sy * sz)) by (nonlinear_arith);
            }
            x = x + 1;
        }
        proof {
            let sx = self.local_supremum.x as int;
            let sy = self.local_supremum.y as int;
            let sz = self.local_supremum.z as int;
            assert(sx * (sy * sz) == sx * sy * sz) by (nonlinear_arith);
        }
        r
    }

    /// `other`'s overlap depth into `self` along each face direction.
    pub open spec fn spec_pen(self, other: Extent, d: Direction) -> int {
        match d {
            Direction::PosX => other.minimum.x + other.local_supremum.x - self.minimum.x,
            Direction::NegX => self.minimum.x + self.local_supremum.x - other.minimum.x,
            Direction::PosY => other.minimum.y + other.local_supremum.y - self.minimum.y,
            Direction::NegY => self.minimum.y + self.local_supremum.y - other.minimum.y,
            Direction::PosZ => other.minimum.z + other.local_supremum.z - self.minimum.z,
            Direction::NegZ => self.minimum.z + self.local_supremum.z - other.minimum.z,
        }
    }

    pub fn penetrations(a: &Extent, b: &Extent) -> (r: Penetrations)
        requires
            a.in_range(OP_BOUND as int),
            b.in_range(OP_BOUND as int),
        ensures
            forall|d: Direction| #[trigger] r.spec_get(d) == a.spec_pen(*b, d),
    {
        Penetrations {
            pos_x: b.minimum.x + b.local_supremum.x - a.minimum.x,
            neg_x: a.minimum.x + a.local_supremum.x - b.minimum.x,
            pos_y: b.minimum.y + b.local_supremum.y - a.minimum.y,
            neg_y: a.minimum.y + a.local_supremum.y - b.minimum.y,
            pos_z: b.minimum.z + b.local_supremum.z - a.minimum.z,
            neg_z: a.minimum.z + a.local_supremum.z - b.minimum.z,
        }
    }
}

/// The box of points lying in both inputs, sizes clamped at empty: the
/// mathematical mirror of `Extent::intersection`.
pub open spec fn spec_intersection(a: Extent, b: Extent) -> Extent {
    let min_x = if a.minimum.x >= b.minimum.x {
        a.minimum.x as int
    } else {
        b.minimum.x as int
    };
    let min_y = if a.minimum.y >= b.minimum.y {
        a.minimum.y as int
    } else {
        b.minimum.y as int
    };
    let min_z = if a.minimum.z >= b.minimum.z {
        a.minimum.z as int
    } else {
        b.minimum.z as int
    };
    let sup_x = if a.minimum.x + a.local_supremum.x <= b.minimum.x + b.local_supremum.x {
        a.minimum.x + a.local_supremum.x
    } else {
        b.minimum.x + b.local_supremum.x
    };
    let sup_y = if a.minimum.y + a.local_supremum.y <= b.minimum.y + b.local_supremum.y {
        a.minimum.y + a.local_supremum.y
    } else {
        b.minimum.y + b.local_supremum.y
    };
    let sup_z = if a.minimum.z + a.local_supremum.z <= b.minimum.z + b.local_supremum.z {
        a.minimum.z + a.local_supremum.z
    } else {
        b.minimum.z + b.local_supremum.z
    };
    Extent {
        minimum: Point { x: min_x as i32, y: min_y as i32, z: min_z as i32 },
        local_supremum: Point {
            x: (if sup_x - min_x >= 0 {
                sup_x - min_x
            } else {
                0
            }) as i32,
            y: (if sup_y - min_y >= 0 {
                sup_y - min_y
            } else {
                0
            }) as i32,
            z: (if sup_z - min_z >= 0 {
                sup_z - min_z
            } else {
                0
            }) as i32,
        },
    }
}

/// The direction of least penetration of `b` into `a`, ties going to the
/// earlier direction in the fixed scan order: the mathematical mirror of
/// `Penetrations::min_direction`.
pub open spec fn spec_push_direction(a: Extent, b: Extent) -> Direction {
    let px = a.spec_pen(b, Direction::PosX);
    let nx = a.spec_pen(b, Direction::NegX);
    let py = a.spec_pen(b, Direction::PosY);
    let ny = a.spec_pen(b, Direction::NegY);
    let pz = a.spec_pen(b, Direction::PosZ);
    let nz = a.spec_pen(b, Direction::NegZ);
    let d1 = Direction::PosX;
    let v1 = px;
    let d2 = if nx < v1 {
        Direction::NegX
    } else {
        d1
    };
    let v2 = if nx < v1 {
        nx
    } else {
        v1
    };
    let d3 = if py < v2 {
        Direction::PosY
    } else {
        d2
    };
    let v3 = if py < v2 {
        py
    } else {
        v2
    };
    let d4 = if ny < v3 {
        Direction::NegY
    } else {
        d3
    };
    let v4 = if ny < v3 {
        ny
    } else {
        v3
    };
    let d5 = if pz < v4 {
        Direction::PosZ
    } else {
        d4
    };
    let v5 = if pz < v4 {
        pz
    } else {
        v4
    };
    if nz < v5 {
        Direction::NegZ
    } else {
        d5
    }
}

/// `e` moved by `amount` in the positive direction of `d`'s axis.
pub open spec fn spec_translate_positive(e: Extent, d: Direction, amount: int) -> Extent {
    match d {
        Direction::PosX | Direction::NegX => Extent {
            minimum: Point { x: (e.minimum.x + amount) as i32, y: e.minimum.y, z: e.minimum.z },
            local_supremum: e.local_supremum,
        },
        Direction::PosY | Direction::NegY => Extent {
            minimum: Point { x: e.minimum.x, y: (e.minimum.y + amount) as i32, z: e.minimum.z },
            local_supremum: e.local_supremum,
        },
        Direction::PosZ | Direction::NegZ => Extent {
            minimum: Point { x: e.minimum.x, y: e.minimum.y, z: (e.minimum.z + amount) as i32 },
            local_supremum: e.local_supremum,
        },
    }
}

/// Translate `e` by `amount` in the positive direction of `d`'s axis.
fn translate_positive(e: &Extent, d: Direction, amount: i32) -> (r: Extent)
    requires
        0 <= amount,
        e.in_range(WORLD_BOUND as int),
        amount <= 4 * WORLD_BOUND as int,
    ensures
        r.local_supremum == e.local_supremum,
        match d {
            Direction::PosX | Direction::NegX => r.minimum.x == e.minimum.x + amount
                && r.minimum.y == e.minimum.y && r.minimum.z == e.minimum.z,
            Direction::PosY | Direction::NegY => r.minimum.y == e.minimum.y + amount
                && r.minimum.x == e.minimum.x && r.minimum.z == e.minimum.z,
            Direction::PosZ | Direction::NegZ => r.minimum.z == e.minimum.z + amount
                && r.minimum.x == e.minimum.x && r.minimum.y == e.minimum.y,
        },
{
    let mut minimum = e.minimum;
    match d {
        Direction::PosX | Direction::NegX => {
            minimum.x = minimum.x + amount;
        },
        Direction::PosY | Direction::NegY => {
            minimum.y = minimum.y + amount;
        },
        Direction::PosZ | Direction::NegZ => {
            minimum.z = minimum.z + amount;
        },
    }
    Extent { minimum, local_supremum: e.local_supremum }
}

/// Displace a pair of overlapping boxes apart along their axis of least
/// penetration. The displaced box always moves in the positive direction of
/// that axis, which is what lets repeated passes terminate. Afterwards the
/// two boxes are disjoint, and neither has changed size.
pub fn push_extents_apart(r1: Extent, r2: Extent) -> (r: (Extent, Extent))
    requires
        r1.wf(),
        r2.wf(),
        r1.in_range(WORLD_BOUND as int),
        r2.in_range(WORLD_BOUND as int),
        !r1.spec_disjoint(r2),
    ensures
        r.0.local_supremum == r1.local_supremum,
        r.1.local_supremum == r2.local_supremum,
        r.0.wf(),
        r.1.wf(),
        r.0.in_range(OP_BOUND as int),
        r.1.in_range(OP_BOUND as int),
        r.0.spec_disjoint(r.1),
        spec_push_direction(r1, r2).spec_is_negative() ==> r.0 == r1 && r.1
            == spec_translate_positive(
            r2,
            spec_push_direction(r1, r2),
            r1.spec_pen(r2, spec_push_direction(r1, r2)),
        ),
        !spec_push_direction(r1, r2).spec_is_negative() ==> r.1 == r2 && r.0
            == spec_translate_positive(
            r1,
            spec_push_direction(r1, r2),
            r1.spec_pen(r2, spec_push_direction(r1, r2)),
        ),
{
    proof {
        let w = choose|p: Point| r1.spec_contains(p) && r2.spec_contains(p);
        assert(r1.spec_contains(w) && r2.spec_contains(w));
    }
    let pens = Extent::penetrations(&r1, &r2);
    let (dir, depth) = pens.min_direction();
    proof {
        assert(pens.spec_get(Direction::PosX) == r1.spec_pen(r2, Direction::PosX));
        assert(pens.spec_get(Direction::NegX) == r1.spec_pen(r2, Direction::NegX));
        assert(pens.spec_get(Direction::PosY) == r1.spec_pen(r2, Direction::PosY));
        assert(pens.spec_get(Direction::NegY) == r1.spec_pen(r2, Direction::NegY));
        assert(pens.spec_get(Direction::PosZ) == r1.spec_pen(r2, Direction::PosZ));
        assert(pens.spec_get(Direction::NegZ) == r1.spec_pen(r2, Direction::NegZ));
        assert(dir == spec_push_direction(r1, r2));
    }
    if dir.is_negative() {
        // Least penetration is on the negative side: move `r2` up past `r1`.
        let moved = translate_positive(&r2, dir, depth);
        proof {
            assert forall|p: Point|
                !(#[trigger] r1.spec_contains(p) && #[trigger] moved.spec_contains(p)) by {}
        }
        (r1, moved)
    } else {
        // Least penetration is on the positive side: move `r1` up past `r2`.
        let moved = translate_positive(&r1, dir, depth);
        proof {
            assert forall|p: Point|
                !(#[trigger] moved.spec_contains(p) && #[trigger] r2.spec_contains(p)) by {}
        }
        (moved, r2)
    }
}

/// How far a box's minimum corner sits below the working bound, summed over
/// the axes. Every positive-direction push raises a minimum corner, so this
/// measure shrinks with each adjustment while boxes stay in range.
pub open spec fn box_potential(e: Extent) -> int {
    (if e.minimum.x <= WORLD_BOUND {
        WORLD_BOUND - e.minimum.x
    } else {
        0int
    }) + (if e.minimum.y <= WORLD_BOUND {
        WORLD_BOUND - e.minimum.y
    } else {
        0int
    }) + (if e.minimum.z <= WORLD_BOUND {
        WORLD_BOUND - e.minimum.z
    } else {
        0int
    })
}

/// Total push potential of a room list.
pub open spec fn potential(s: Seq<Extent>) -> int
    decreases s.len(),
{
    if s.len() == 0 {
        0
    } else {
        potential(s.drop_last()) + box_potential(s.last())
    }
}

proof fn lemma_potential_nonneg(s: Seq<Extent>)
    ensures
        potential(s) >= 0,
    decreases s.len(),
{
    if s.len() > 0 {
        lemma_potential_nonneg(s.drop_last());
    }
}

proof fn lemma_potential_update(s: Seq<Extent>, k: int, v: Extent)
    requires
        0 <= k < s.len(),
    ensures
        potential(s.update(k, v)) == potential(s) - box_potential(s[k]) + box_potential(v),
    decreases s.len(),
{
    let t = s.update(k, v);
    if k == s.len() - 1 {
        assert(t.drop_last() =~= s.drop_last());
    } else {
        lemma_potential_update(s.drop_last(), k, v);
        assert(t.drop_last() =~= s.drop_last().update(k, v));
        assert(t.last() == s.last());
    }
}

/// All pairs in `rooms` are disjoint.
pub open spec fn pairwise_disjoint(rooms: Seq<Extent>) -> bool {
    forall|i: int, j: int|
        0 <= i < rooms.len() && 0 <= j < rooms.len() && i != j ==> (#[trigger] rooms[i]).spec_disjoint(
            #[trigger] rooms[j],
        )
}

pub open spec fn all_wf(rooms: Seq<Extent>) -> bool {
    forall|i: int| 0 <= i < rooms.len() ==> (#[trigger] rooms[i]).wf()
}

pub open spec fn all_in_world_range(rooms: Seq<Extent>) -> bool {
    forall|i: int| 0 <= i < rooms.len() ==> (#[trigger] rooms[i]).in_range(WORLD_BOUND as int)
}

/// Sizes agree position-by-position between two snapshots of the room list.
pub open spec fn same_sizes(a: Seq<Extent>, b: Seq<Extent>) -> bool {
    a.len() == b.len() && forall|i: int|
        0 <= i < a.len() ==> (#[trigger] a[i]).local_supremum == b[i].local_supremum
}

pub fn in_world_range_exec(e: &Extent) -> (r: bool)
    ensures
        r == e.in_range(WORLD_BOUND as int),
{
    let b = WORLD_BOUND as i64;
    let wx = e.minimum.x as i64 + e.local_supremum.x as i64;
    let wy = e.minimum.y as i64 + e.local_supremum.y as i64;
    let wz = e.minimum.z as i64 + e.local_supremum.z as i64;
    -b <= e.minimum.x as i64 && e.minimum.x as i64 <= b && -b <= wx && wx <= b
        && -b <= e.minimum.y as i64 && e.minimum.y as i64 <= b && -b <= wy && wy <= b
        && -b <= e.minimum.z as i64 && e.minimum.z as i64 <= b && -b <= wz && wz <= b
}

/// Repeatedly scan all unordered pairs and push overlapping pairs apart until
/// a full pass finds every pair disjoint. Returns `true` on success, and then
/// every pair is disjoint; a list that is already pairwise disjoint comes
/// back unchanged. Returns `false` when a box drifts out of the working
/// coordinate range or the pass budget runs out: callers treat that as a
/// failed attempt. Sizes are never changed, only positions.
pub fn resolve_extent_overlaps(rooms: &mut Vec<Extent>) -> (ok: bool)
    requires
        all_wf(old(rooms)@),
    ensures
        same_sizes(final(rooms)@, old(rooms)@),
        all_wf(final(rooms)@),
        ok ==> pairwise_disjoint(final(rooms)@),
        !ok ==> exists|k: int|
            0 <= k < final(rooms)@.len() && !(#[trigger] final(rooms)@[k]).in_range(
                WORLD_BOUND as int,
            ),
        pairwise_disjoint(old(rooms)@) && all_in_world_range(old(rooms)@) ==> ok && final(rooms)@
            == old(rooms)@,
{
    let ghost orig = rooms@;
    let ghost calm = pairwise_disjoint(orig) && all_in_world_range(orig);
    let n = rooms.len();
    proof {
        lemma_potential_nonneg(rooms@);
    }
    loop
        invariant
            orig == old(rooms)@,
            rooms@.len() == n,
            n == orig.len(),
            same_sizes(rooms@, orig),
            all_wf(rooms@),
            potential(rooms@) >= 0,
            calm == (pairwise_disjoint(orig) && all_in_world_range(orig)),
            calm ==> rooms@ == orig,
        decreases potential(rooms@),
    {
        let ghost pass_start_pot = potential(rooms@);
        let mut modified = false;
        let mut i: usize = 0;
        while i < n
            invariant
                orig == old(rooms)@,
                rooms@.len() == n,
                n == orig.len(),
                i <= n,
                same_sizes(rooms@, orig),
                all_wf(rooms@),
                potential(rooms@) >= 0,
                potential(rooms@) <= pass_start_pot,
                modified ==> potential(rooms@) < pass_start_pot,
                calm == (pairwise_disjoint(orig) && all_in_world_range(orig)),
                calm ==> rooms@ == orig && !modified,
                !modified ==> forall|a: int, b: int|
                    0 <= a < i && a < b < n ==> (#[trigger] rooms@[a]).spec_disjoint(
                        #[trigger] rooms@[b],
                    ),
            decreases n - i,
        {
            let mut j: usize = i + 1;
            while j < n
                invariant
                    orig == old(rooms)@,
                    rooms@.len() == n,
                    n == orig.len(),
                    i < n,
                    i < j,
                    same_sizes(rooms@, orig),
                    all_wf(rooms@),
                    potential(rooms@) >= 0,
                    potential(rooms@) <= pass_start_pot,
                    modified ==> potential(rooms@) < pass_start_pot,
                    calm == (pairwise_disjoint(orig) && all_in_world_range(orig)),
                    calm ==> rooms@ == orig && !modified,
                    !modified ==> forall|a: int, b: int|
                        (0 <= a < i && a < b < n) || (a == i && i < b < j)
                            ==> (#[trigger] rooms@[a]).spec_disjoint(#[trigger] rooms@[b]),
                decreases n - j,
            {
                let ri = rooms[i];
                let rj = rooms[j];
                if !ri.disjoint_from(&rj) {
                    if !in_world_range_exec(&ri) || !in_world_range_exec(&rj) {
                        proof {
                            if !ri.in_range(WORLD_BOUND as int) {
                                assert(rooms@[i as int] == ri);
                            } else {
                                assert(rooms@[j as int] == rj);
                            }
                        }
                        return false;
                    }
                    modified = true;
                    let ghost s0 = rooms@;
                    let (new_i, new_j) = push_extents_apart(ri, rj);
                    rooms.set(i, new_i);
                    rooms.set(j, new_j);
                    proof {
                        let d = spec_push_direction(ri, rj);
                        let m = ri.spec_pen(rj, d);
                        let w = choose|p: Point| ri.spec_contains(p) && rj.spec_contains(p);
                        assert(ri.spec_contains(w) && rj.spec_contains(w));
                        assert(ri.spec_pen(rj, Direction::PosX) >= 1);
                        assert(ri.spec_pen(rj, Direction::NegX) >= 1);
                        assert(ri.spec_pen(rj, Direction::PosY) >= 1);
                        assert(ri.spec_pen(rj, Direction::NegY) >= 1);
                        assert(ri.spec_pen(rj, Direction::PosZ) >= 1);
                        assert(ri.spec_pen(rj, Direction::NegZ) >= 1);
                        assert(m >= 1);
                        if d.spec_is_negative() {
                            assert(new_i == ri);
                            assert(box_potential(new_j) <= box_potential(rj) - 1);
                        } else {
                            assert(new_j == rj);
                            assert(box_potential(new_i) <= box_potential(ri) - 1);
                        }
                        lemma_potential_update(s0, i as int, new_i);
                        lemma_potential_update(s0.update(i as int, new_i), j as int, new_j);
                        lemma_potential_nonneg(rooms@);
                    }
                }
                j = j + 1;
            }
            i = i + 1;
        }
        if !modified {
            proof {
                assert forall|a: int, b: int|
                    0 <= a < rooms@.len() && 0 <= b < rooms@.len() && a != b implies (
                #[trigger] rooms@[a]).spec_disjoint(#[trigger] rooms@[b]) by {
                    if a < b {
                        assert(rooms@[a].spec_disjoint(rooms@[b]));
                    } else {
                        assert(rooms@[b].spec_disjoint(rooms@[a]));
                        assert forall|p: Point|
                            !(#[trigger] rooms@[a].spec_contains(p)
                                && #[trigger] rooms@[b].spec_contains(p)) by {
                            assert(!(rooms@[b].spec_contains(p) && rooms@[a].spec_contains(p)));
                        }
                    }
                }
            }
            return true;
        }
    }
}

} // verus!
