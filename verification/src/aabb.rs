//! Axis-aligned bounding boxes: merge, containment growth, centroid, extent,
//! surface area, and the conservative ray/box intersection test, together
//! with the algebraic facts about merging that the hierarchy relies on.

use vstd::prelude::*;

use crate::utility::max_vec3;
use crate::utility::max_vec3_spec;
use crate::utility::min_vec3;
use crate::utility::min_vec3_spec;
use crate::utility::Vec3;

verus! {

/// Largest coordinate magnitude a box may hold. Keeping boxes inside this
/// range lets every derived quantity (extent, surface area, split costs) be
/// computed exactly in machine integers.
pub const COORD_LIMIT: i32 = 0x3FFF_FFFF;

/// `c` is small enough to be a box coordinate.
pub open spec fn in_range(c: int) -> bool {
    -(COORD_LIMIT as int) <= c <= COORD_LIMIT as int
}

pub open spec fn vec3_in_range(v: Vec3) -> bool {
    in_range(v.x as int) && in_range(v.y as int) && in_range(v.z as int)
}

/// The capability a primitive offers the builder: report its own bounding
/// box. `aabb_spec` names the box a given primitive value reports, so that
/// contracts can speak about it; `aabb` must return exactly that box.
pub trait Aabound {
    spec fn aabb_spec(&self) -> Aabb;

    fn aabb(&self) -> (r: Aabb)
        ensures
            r == self.aabb_spec(),
    ;
}

/// An axis-aligned box `[min, max]`. A well-formed box has `min <= max` on
/// every axis and all coordinates within `COORD_LIMIT`.
#[derive(Copy, Clone, Debug, PartialEq, Eq, Structural)]
pub struct Aabb {
    pub min: Vec3,
    pub max: Vec3,
}

impl Aabound for Aabb {
    open spec fn aabb_spec(&self) -> Aabb {
        *self
    }

    fn aabb(&self) -> (r: Aabb) {
        *self
    }
}

pub open spec fn merge_spec(a: Aabb, b: Aabb) -> Aabb {
    Aabb { min: min_vec3_spec(a.min, b.min), max: max_vec3_spec(a.max, b.max) }
}

/// `inner` lies entirely within `outer`.
pub open spec fn contains_spec(outer: Aabb, inner: Aabb) -> bool {
    &&& outer.min.x <= inner.min.x
    &&& outer.min.y <= inner.min.y
    &&& outer.min.z <= inner.min.z
    &&& inner.max.x <= outer.max.x
    &&& inner.max.y <= outer.max.y
    &&& inner.max.z <= outer.max.z
}

impl Aabb {
    /// `min <= max` on every axis, all coordinates representable.
    pub open spec fn valid(self) -> bool {
        &&& vec3_in_range(self.min)
        &&& vec3_in_range(self.max)
        &&& self.min.x <= self.max.x
        &&& self.min.y <= self.max.y
        &&& self.min.z <= self.max.z
    }

    /// A box from its corners. A maximum below the minimum on any axis is a
    /// fatal caller error, so it is excluded outright.
    pub fn new(min: Vec3, max: Vec3) -> (r: Aabb)
        requires
            min.x <= max.x,
            min.y <= max.y,
            min.z <= max.z,
            vec3_in_range(min),
            vec3_in_range(max),
        ensures
            r.min == min,
            r.max == max,
            r.valid(),
    {
        Aabb { min, max }
    }

    /// The smallest box containing both arguments.
    pub fn merge(a: Self, b: Self) -> (r: Aabb)
        requires
            a.valid(),
            b.valid(),
        ensures
            r == merge_spec(a, b),
            r.valid(),
            contains_spec(r, a),
            contains_spec(r, b),
    {
        Aabb { min: min_vec3(&a.min, &b.min), max: max_vec3(&a.max, &b.max) }
    }

    /// Grows the accumulating box to include `point`, starting from a
    /// zero-extent box at `point` when no box has been started yet.
    pub fn extend_contains(aabb: &mut Option<Self>, point: Vec3)
        requires
            vec3_in_range(point),
            (*old(aabb)) is Some ==> (*old(aabb))->Some_0.valid(),
        ensures
            (*final(aabb)) is Some,
            (*final(aabb))->Some_0.valid(),
            (*old(aabb)) is None ==> (*final(aabb))->Some_0 == (Aabb { min: point, max: point }),
            (*old(aabb)) is Some ==> (*final(aabb))->Some_0 == merge_spec(
                (*old(aabb))->Some_0,
                (Aabb { min: point, max: point }),
            ),
    {
        match *aabb {
            Some(inner) => {
                *aabb = Some(
                    Aabb {
                        min: min_vec3(&inner.min, &point),
                        max: max_vec3(&inner.max, &point),
                    },
                );
            },
            None => {
                *aabb = Some(Aabb { min: point, max: point });
            },
        }
    }

    pub open spec fn centroid_spec(self) -> Vec3 {
        Vec3 {
            x: (self.min.x + (self.max.x - self.min.x) / 2) as i32,
            y: (self.min.y + (self.max.y - self.min.y) / 2) as i32,
            z: (self.min.z + (self.max.z - self.min.z) / 2) as i32,
        }
    }

    /// The box's midpoint, rounded down to the coordinate grid.
    pub fn centroid(&self) -> (r: Vec3)
        requires
            self.valid(),
        ensures
            r == self.centroid_spec(),
            vec3_in_range(r),
            self.min.x <= r.x <= self.max.x,
            self.min.y <= r.y <= self.max.y,
            self.min.z <= r.z <= self.max.z,
    {
        let x = self.min.x as i64 + ((self.max.x as i64 - self.min.x as i64) as u64 / 2) as i64;
        let y = self.min.y as i64 + ((self.max.y as i64 - self.min.y as i64) as u64 / 2) as i64;
        let z = self.min.z as i64 + ((self.max.z as i64 - self.min.z as i64) as u64 / 2) as i64;
        Vec3 { x: x as i32, y: y as i32, z: z as i32 }
    }

    pub open spec fn extent_spec(self) -> Vec3 {
        Vec3 {
            x: (self.max.x - self.min.x) as i32,
            y: (self.max.y - self.min.y) as i32,
            z: (self.max.z - self.min.z) as i32,
        }
    }

    /// Componentwise size, `max - min`.
    pub fn extent(&self) -> (r: Vec3)
        requires
            self.valid(),
        ensures
            r == self.extent_spec(),
            r.x as int == self.max.x - self.min.x,
            r.y as int == self.max.y - self.min.y,
            r.z as int == self.max.z - self.min.z,
    {
        Vec3 {
            x: ((self.max.x as i64 - self.min.x as i64) as i32),
            y: ((self.max.y as i64 - self.min.y as i64) as i32),
            z: ((self.max.z as i64 - self.min.z as i64) as i32),
        }
    }

    pub open spec fn surface_area_spec(self) -> int {
        let ex = self.max.x - self.min.x;
        let ey = self.max.y - self.min.y;
        let ez = self.max.z - self.min.z;
        2 * (ex * ey + ex * ez + ey * ez)
    }

    /// Twice the sum of the three face areas, the quantity the cost model
    /// weighs candidate splits with.
    pub fn surface_area(&self) -> (r: u128)
        requires
            self.valid(),
        ensures
            r as int == self.surface_area_spec(),
    {
        let ex = (self.max.x as i64 - self.min.x as i64) as u128;
        let ey = (self.max.y as i64 - self.min.y as i64) as u128;
        let ez = (self.max.z as i64 - self.min.z as i64) as u128;
        proof {
            assert(ex as int * ey as int <= 0x1_0000_0000_0000_0000 && ex as int * ez as int
                <= 0x1_0000_0000_0000_0000 && ey as int * ez as int
                <= 0x1_0000_0000_0000_0000) by (nonlinear_arith)
                requires
                    0 <= ex as int <= 0x1_0000_0000,
                    0 <= ey as int <= 0x1_0000_0000,
                    0 <= ez as int <= 0x1_0000_0000,
            ;
        }
        2 * (ex * ey + ex * ez + ey * ez)
    }
}

/// `merge` is commutative.
pub proof fn lemma_merge_commutative(a: Aabb, b: Aabb)
    ensures
        merge_spec(a, b) == merge_spec(b, a),
{
}

/// `merge` is associative.
pub proof fn lemma_merge_associative(a: Aabb, b: Aabb, c: Aabb)
    ensures
        merge_spec(merge_spec(a, b), c) == merge_spec(a, merge_spec(b, c)),
{
}

/// `merge` is idempotent: merging a box with itself changes nothing.
pub proof fn lemma_merge_idempotent(a: Aabb)
    ensures
        merge_spec(a, a) == a,
{
}

/// The running merge of a non-empty sequence of boxes, folded left to right.
pub open spec fn merge_seq(s: Seq<Aabb>) -> Aabb
    decreases s.len(),
{
    if s.len() <= 1 {
        s[0]
    } else {
        merge_spec(merge_seq(s.drop_last()), s.last())
    }
}

/// A running merge of well-formed boxes is well-formed.
pub proof fn lemma_merge_seq_valid(s: Seq<Aabb>)
    requires
        s.len() >= 1,
        forall|k: int| 0 <= k < s.len() ==> (#[trigger] s[k]).valid(),
    ensures
        merge_seq(s).valid(),
    decreases s.len(),
{
    if s.len() > 1 {
        lemma_merge_seq_valid(s.drop_last());
    }
}

/// The running merge contains every box that fed it.
pub proof fn lemma_merge_seq_contains(s: Seq<Aabb>, k: int)
    requires
        0 <= k < s.len(),
    ensures
        contains_spec(merge_seq(s), s[k]),
    decreases s.len(),
{
    if s.len() > 1 {
        if k == s.len() - 1 {
        } else {
            lemma_merge_seq_contains(s.drop_last(), k);
        }
    }
}

/// Merging two non-empty groups equals the merge of their concatenation.
pub proof fn lemma_merge_seq_concat(s1: Seq<Aabb>, s2: Seq<Aabb>)
    requires
        s1.len() >= 1,
        s2.len() >= 1,
    ensures
        merge_seq(s1 + s2) == merge_spec(merge_seq(s1), merge_seq(s2)),
    decreases s2.len(),
{
    if s2.len() == 1 {
        assert((s1 + s2).drop_last() =~= s1);
        assert((s1 + s2).last() == s2[0]);
    } else {
        assert((s1 + s2).drop_last() =~= s1 + s2.drop_last());
        lemma_merge_seq_concat(s1, s2.drop_last());
        lemma_merge_associative(merge_seq(s1), merge_seq(s2.drop_last()), s2.last());
    }
}

/// The running merge with the element at `i` pulled out in front.
proof fn lemma_merge_seq_pull(s: Seq<Aabb>, i: int)
    requires
        s.len() >= 2,
        0 <= i < s.len(),
    ensures
        merge_seq(s) == merge_spec(merge_seq(s.remove(i)), s[i]),
    decreases s.len(),
{
    if i == s.len() - 1 {
        assert(s.remove(i) =~= s.drop_last());
        assert(merge_seq(s) == merge_spec(merge_seq(s.remove(i)), s[i]));
    } else if s.len() == 2 {
        assert(s.remove(0) =~= seq![s[1]]);
        assert(s.drop_last() =~= seq![s[0]]);
        assert(merge_seq(seq![s[0]]) == s[0]);
        assert(merge_seq(seq![s[1]]) == s[1]);
        assert(merge_seq(s) == merge_spec(s[0], s[1]));
        lemma_merge_commutative(s[0], s[1]);
        assert(merge_seq(s) == merge_spec(merge_seq(s.remove(i)), s[i]));
    } else {
        let d = s.drop_last();
        lemma_merge_seq_pull(d, i);
        let a = merge_seq(d.remove(i));
        assert(d[i] == s[i]);
        assert(merge_seq(s) == merge_spec(merge_seq(d), s.last()));
        assert(merge_seq(d) == merge_spec(a, s[i]));
        lemma_merge_associative(a, s[i], s.last());
        lemma_merge_commutative(s[i], s.last());
        lemma_merge_associative(a, s.last(), s[i]);
        assert(merge_seq(s) == merge_spec(merge_spec(a, s.last()), s[i]));
        assert(s.remove(i).drop_last() =~= d.remove(i));
        assert(s.remove(i).last() == s.last());
        assert(s.remove(i).len() >= 2);
        assert(merge_seq(s.remove(i)) == merge_spec(a, s.last()));
        assert(merge_seq(s) == merge_spec(merge_seq(s.remove(i)), s[i]));
    }
}

/// The running merge does not depend on the order of the boxes: any two
/// sequences holding the same boxes the same number of times merge to the
/// same result.
pub proof fn lemma_merge_seq_permutation(s1: Seq<Aabb>, s2: Seq<Aabb>)
    requires
        s1.len() >= 1,
        s1.to_multiset() == s2.to_multiset(),
    ensures
        merge_seq(s1) == merge_seq(s2),
    decreases s1.len(),
{
    s1.to_multiset_ensures();
    s2.to_multiset_ensures();
    let x = s2.last();
    assert(s2.to_multiset().count(x) > 0);
    assert(s1.contains(x));
    let i = choose|i: int| 0 <= i < s1.len() && s1[i] == x;
    if s1.len() == 1 {
        assert(s2.len() == 1);
        assert(s2 =~= seq![x]);
        assert(s1 =~= seq![x]);
    } else {
        lemma_merge_seq_pull(s1, i);
        let r1 = s1.remove(i);
        let r2 = s2.drop_last();
        assert(r2 =~= s2.remove(s2.len() - 1));
        assert(r1.to_multiset() == r2.to_multiset());
        lemma_merge_seq_permutation(r1, r2);
        assert(s2.len() == s1.len());
    }
}


/// A time value `num / den` along the ray, kept as an exact fraction with a
/// positive denominator.
pub open spec fn frac_le(a: (int, int), b: (int, int)) -> bool {
    a.0 * b.1 <= b.0 * a.1
}

pub open spec fn frac_lt(a: (int, int), b: (int, int)) -> bool {
    a.0 * b.1 < b.0 * a.1
}

/// The running state of the slab test: whether a zero-direction axis has
/// already ruled the ray out, and the entry and exit times accumulated so
/// far (`None` meaning unbounded).
pub ghost struct SlabState {
    pub alive: bool,
    pub near: Option<(int, int)>,
    pub far: Option<(int, int)>,
}

pub open spec fn max_frac(cur: Option<(int, int)>, f: (int, int)) -> (int, int) {
    match cur {
        None => f,
        Some(c) => if frac_le(c, f) {
            f
        } else {
            c
        },
    }
}

pub open spec fn min_frac(cur: Option<(int, int)>, f: (int, int)) -> (int, int) {
    match cur {
        None => f,
        Some(c) => if frac_le(f, c) {
            f
        } else {
            c
        },
    }
}

/// One axis of the slab test. An axis parallel to the ray direction admits
/// the ray only if the origin lies within the slab; any other axis narrows
/// the entry/exit interval by its two crossing times.
pub open spec fn slab_axis(st: SlabState, o: int, d: int, lo: int, hi: int) -> SlabState {
    if d == 0 {
        SlabState { alive: st.alive && lo <= o && o <= hi, near: st.near, far: st.far }
    } else {
        let den = if d > 0 {
            d
        } else {
            -d
        };
        let nn = if d > 0 {
            lo - o
        } else {
            o - hi
        };
        let fnum = if d > 0 {
            hi - o
        } else {
            o - lo
        };
        SlabState {
            alive: st.alive,
            near: Some(max_frac(st.near, (nn, den))),
            far: Some(min_frac(st.far, (fnum, den))),
        }
    }
}

/// The slab state after folding the first `k` axes.
pub open spec fn slab_after(b: Aabb, r: crate::utility::Ray, k: int) -> SlabState
    decreases k,
{
    if k <= 0 {
        SlabState { alive: true, near: None, far: None }
    } else {
        slab_axis(
            slab_after(b, r, k - 1),
            r.origin.axis_spec(k - 1),
            r.dir.axis_spec(k - 1),
            b.min.axis_spec(k - 1),
            b.max.axis_spec(k - 1),
        )
    }
}

/// The exact slab test: the ray hits the box when no parallel axis rules it
/// out, the interval is non-empty, and its far end is strictly positive.
pub open spec fn hits(b: Aabb, r: crate::utility::Ray) -> bool {
    let st = slab_after(b, r, 3);
    st.alive && match (st.near, st.far) {
        (Some(n), Some(f)) => frac_lt(n, f) && f.0 > 0,
        _ => true,
    }
}

/// Relates an executable fraction to its mathematical counterpart.
pub open spec fn frac_rel(e: Option<(i64, i64)>, g: Option<(int, int)>) -> bool {
    match (e, g) {
        (None, None) => true,
        (Some(a), Some(b)) => a.0 as int == b.0 && a.1 as int == b.1,
        _ => false,
    }
}

/// Exact comparison of two fractions with positive denominators, by cross
/// multiplication in a wide integer type.
fn frac_le_exec(a: (i64, i64), b: (i64, i64)) -> (r: bool)
    ensures
        r == frac_le((a.0 as int, a.1 as int), (b.0 as int, b.1 as int)),
{
    proof {
        assert(-0x8000_0000_0000_0000 * 0x8000_0000_0000_0000
            <= (a.0 as int) * (b.1 as int) <= 0x8000_0000_0000_0000 * 0x8000_0000_0000_0000)
            by (nonlinear_arith)
            requires
                -0x8000_0000_0000_0000 <= (a.0 as int) < 0x8000_0000_0000_0000,
                -0x8000_0000_0000_0000 <= (b.1 as int) < 0x8000_0000_0000_0000,
        ;
        assert(-0x8000_0000_0000_0000 * 0x8000_0000_0000_0000
            <= (b.0 as int) * (a.1 as int) <= 0x8000_0000_0000_0000 * 0x8000_0000_0000_0000)
            by (nonlinear_arith)
            requires
                -0x8000_0000_0000_0000 <= (b.0 as int) < 0x8000_0000_0000_0000,
                -0x8000_0000_0000_0000 <= (a.1 as int) < 0x8000_0000_0000_0000,
        ;
    }
    (a.0 as i128) * (b.1 as i128) <= (b.0 as i128) * (a.1 as i128)
}

impl Aabb {
    /// Whether the ray hits this box, by the per-axis slab test evaluated in
    /// exact integer arithmetic; equal inputs always give equal answers.
    pub fn does_int(&self, ray: &crate::utility::Ray) -> (r: bool)
        requires
            self.valid(),
        ensures
            r == hits(*self, *ray),
    {
        let mut near: Option<(i64, i64)> = None;
        let mut far: Option<(i64, i64)> = None;
        let mut axis: usize = 0;
        while axis < 3
            invariant
                self.valid(),
                axis <= 3,
                slab_after(*self, *ray, axis as int).alive,
                frac_rel(near, slab_after(*self, *ray, axis as int).near),
                frac_rel(far, slab_after(*self, *ray, axis as int).far),
            decreases 3 - axis,
        {
            let o = ray.origin.axis(axis) as i64;
            let d = ray.dir.axis(axis) as i64;
            let lo = self.min.axis(axis) as i64;
            let hi = self.max.axis(axis) as i64;
            let ghost st_pre = slab_after(*self, *ray, axis as int);
            let ghost st_post = slab_after(*self, *ray, axis as int + 1);
            proof {
                assert(st_post == slab_axis(
                    st_pre,
                    ray.origin.axis_spec(axis as int),
                    ray.dir.axis_spec(axis as int),
                    self.min.axis_spec(axis as int),
                    self.max.axis_spec(axis as int),
                ));
            }
            if d == 0 {
                if o < lo || o > hi {
                    proof {
                        lemma_slab_dead(*self, *ray, axis as int + 1);
                    }
                    return false;
                }
            } else {
                let den = if d > 0 {
                    d
                } else {
                    -d
                };
                let nn = if d > 0 {
                    lo - o
                } else {
                    o - hi
                };
                let fnum = if d > 0 {
                    hi - o
                } else {
                    o - lo
                };
                near = Some(
                    match near {
                        Some(c) => if frac_le_exec(c, (nn, den)) {
                            (nn, den)
                        } else {
                            c
                        },
                        None => (nn, den),
                    },
                );
                far = Some(
                    match far {
                        Some(c) => if frac_le_exec((fnum, den), c) {
                            (fnum, den)
                        } else {
                            c
                        },
                        None => (fnum, den),
                    },
                );
            }
            axis += 1;
        }
        match (near, far) {
            (Some(n), Some(f)) => {
                let nonempty = !frac_le_exec(f, n);
                proof {
                    let sn = slab_after(*self, *ray, 3).near->Some_0;
                    let sf = slab_after(*self, *ray, 3).far->Some_0;
                    assert(frac_le(sf, sn) <==> !frac_lt(sn, sf));
                }
                nonempty && f.0 > 0
            },
            _ => true,
        }
    }
}

/// Once a zero-direction axis has ruled the ray out, the remaining axes
/// cannot bring it back.
proof fn lemma_slab_dead(b: Aabb, r: crate::utility::Ray, k: int)
    requires
        0 <= k <= 3,
        !slab_after(b, r, k).alive,
    ensures
        !slab_after(b, r, 3).alive,
    decreases 3 - k,
{
    if k < 3 {
        lemma_slab_dead(b, r, k + 1);
    }
}


/// Fraction order is transitive (denominators positive).
proof fn lemma_frac_le_trans(a: (int, int), b: (int, int), c: (int, int))
    by (nonlinear_arith)
    requires
        a.1 > 0,
        b.1 > 0,
        c.1 > 0,
        frac_le(a, b),
        frac_le(b, c),
    ensures
        frac_le(a, c),
{
}

proof fn lemma_frac_lt_le_trans(a: (int, int), b: (int, int), c: (int, int))
    by (nonlinear_arith)
    requires
        a.1 > 0,
        b.1 > 0,
        c.1 > 0,
        frac_lt(a, b),
        frac_le(b, c),
    ensures
        frac_lt(a, c),
{
}

proof fn lemma_frac_le_lt_trans(a: (int, int), b: (int, int), c: (int, int))
    by (nonlinear_arith)
    requires
        a.1 > 0,
        b.1 > 0,
        c.1 > 0,
        frac_le(a, b),
        frac_lt(b, c),
    ensures
        frac_lt(a, c),
{
}

/// Along the fold, entry and exit times appear together and always carry
/// positive denominators.
proof fn lemma_slab_shape(b: Aabb, r: crate::utility::Ray, k: int)
    requires
        0 <= k <= 3,
    ensures
        slab_after(b, r, k).near is Some <==> slab_after(b, r, k).far is Some,
        slab_after(b, r, k).near matches Some(n) ==> n.1 > 0,
        slab_after(b, r, k).far matches Some(f) ==> f.1 > 0,
    decreases k,
{
    if k > 0 {
        lemma_slab_shape(b, r, k - 1);
    }
}

/// A state whose entry time is strictly negative and whose exit time is
/// strictly positive, as seen from a ray starting strictly inside the box.
spec fn inside_inv(st: SlabState) -> bool {
    &&& st.alive
    &&& (st.near is Some <==> st.far is Some)
    &&& (st.near matches Some(n) ==> n.0 < 0 && n.1 > 0)
    &&& (st.far matches Some(f) ==> f.0 > 0 && f.1 > 0)
}

proof fn lemma_inside_step(st: SlabState, o: int, d: int, lo: int, hi: int)
    requires
        inside_inv(st),
        lo < o < hi,
    ensures
        inside_inv(slab_axis(st, o, d, lo, hi)),
{
}

/// A ray whose origin lies strictly inside the box hits it, whatever its
/// direction.
pub proof fn lemma_hits_origin_inside(b: Aabb, r: crate::utility::Ray)
    requires
        b.valid(),
        forall|k: int|
            0 <= k < 3 ==> b.min.axis_spec(k) < r.origin.axis_spec(k)
                && r.origin.axis_spec(k) < b.max.axis_spec(k),
    ensures
        hits(b, r),
{
    let st0 = slab_after(b, r, 0);
    let st1 = slab_after(b, r, 1);
    let st2 = slab_after(b, r, 2);
    let st3 = slab_after(b, r, 3);
    assert(b.min.axis_spec(0) < r.origin.axis_spec(0) < b.max.axis_spec(0));
    assert(b.min.axis_spec(1) < r.origin.axis_spec(1) < b.max.axis_spec(1));
    assert(b.min.axis_spec(2) < r.origin.axis_spec(2) < b.max.axis_spec(2));
    assert(inside_inv(st0));
    lemma_inside_step(st0, r.origin.axis_spec(0), r.dir.axis_spec(0), b.min.axis_spec(0), b.max.axis_spec(0));
    assert(inside_inv(st1));
    lemma_inside_step(st1, r.origin.axis_spec(1), r.dir.axis_spec(1), b.min.axis_spec(1), b.max.axis_spec(1));
    assert(inside_inv(st2));
    lemma_inside_step(st2, r.origin.axis_spec(2), r.dir.axis_spec(2), b.min.axis_spec(2), b.max.axis_spec(2));
    assert(inside_inv(st3));
    if st3.near is Some {
        let n = st3.near->Some_0;
        let f = st3.far->Some_0;
        assert(n.0 * f.1 < 0) by (nonlinear_arith)
            requires
                n.0 < 0,
                f.1 > 0,
        ;
        assert(f.0 * n.1 > 0) by (nonlinear_arith)
            requires
                f.0 > 0,
                n.1 > 0,
        ;
        assert(frac_lt(n, f));
    }
}

/// Once the running exit time has dropped below `bound`, it stays below.
proof fn lemma_far_only_shrinks(b: Aabb, r: crate::utility::Ray, k1: int, k2: int, bound: (int, int))
    requires
        0 <= k1 <= k2 <= 3,
        bound.1 > 0,
        slab_after(b, r, k1).far matches Some(f) && frac_le(f, bound),
    ensures
        slab_after(b, r, k2).far matches Some(f2) && frac_le(f2, bound),
    decreases k2 - k1,
{
    lemma_slab_shape(b, r, k1);
    if k1 < k2 {
        let cur = slab_after(b, r, k1).far->Some_0;
        let nxt = slab_after(b, r, k1 + 1).far->Some_0;
        let d = r.dir.axis_spec(k1);
        if d != 0 {
            let den = if d > 0 { d } else { -d };
            let fnum = if d > 0 { b.max.axis_spec(k1) - r.origin.axis_spec(k1) } else {
                r.origin.axis_spec(k1) - b.min.axis_spec(k1)
            };
            assert(nxt == min_frac(Some(cur), (fnum, den)));
            if frac_le((fnum, den), cur) {
                lemma_frac_le_trans((fnum, den), cur, bound);
            }
        }
        lemma_far_only_shrinks(b, r, k1 + 1, k2, bound);
    }
}

/// A ray that starts strictly outside the box's slab on axis `k` and does
/// not move toward it on that axis misses the box. In particular a ray
/// outside the box that points away from it on every axis misses.
pub proof fn lemma_miss_points_away(b: Aabb, r: crate::utility::Ray, k: int)
    requires
        b.valid(),
        0 <= k < 3,
        (r.origin.axis_spec(k) < b.min.axis_spec(k) && r.dir.axis_spec(k) <= 0)
            || (r.origin.axis_spec(k) > b.max.axis_spec(k) && r.dir.axis_spec(k) >= 0),
    ensures
        !hits(b, r),
{
    let o = r.origin.axis_spec(k);
    let d = r.dir.axis_spec(k);
    let lo = b.min.axis_spec(k);
    let hi = b.max.axis_spec(k);
    if d == 0 {
        assert(!slab_after(b, r, k + 1).alive);
        lemma_slab_dead(b, r, k + 1);
    } else {
        let den = if d > 0 { d } else { -d };
        let fnum = if d > 0 { hi - o } else { o - lo };
        assert(fnum < 0);
        lemma_slab_shape(b, r, k);
        let st = slab_after(b, r, k);
        let nxt = slab_after(b, r, k + 1).far->Some_0;
        assert(nxt == min_frac(st.far, (fnum, den)));
        assert(frac_le(nxt, (fnum, den))) by {
            match st.far {
                None => {},
                Some(c) => {
                    if !frac_le((fnum, den), c) {
                        assert(frac_le(c, (fnum, den)));
                    }
                },
            }
        }
        lemma_far_only_shrinks(b, r, k + 1, 3, (fnum, den));
        lemma_slab_shape(b, r, 3);
        let f3 = slab_after(b, r, 3).far->Some_0;
        assert(f3.0 * den <= fnum * f3.1);
        assert(fnum * f3.1 < 0) by (nonlinear_arith)
            requires
                fnum < 0,
                f3.1 > 0,
        ;
        assert(f3.0 <= 0) by (nonlinear_arith)
            requires
                f3.0 * den < 0,
                den > 0,
        ;
    }
}

/// The outer state admits at least every ray the inner one admits.
spec fn wider(so: SlabState, si: SlabState) -> bool {
    &&& (si.alive ==> so.alive)
    &&& (so.near is Some <==> si.near is Some)
    &&& (so.far is Some <==> si.far is Some)
    &&& (so.near matches Some(n) ==> n.1 > 0)
    &&& (si.near matches Some(n) ==> n.1 > 0)
    &&& (so.far matches Some(f) ==> f.1 > 0)
    &&& (si.far matches Some(f) ==> f.1 > 0)
    &&& ((so.near is Some && si.near is Some) ==> frac_le(
        so.near->Some_0,
        si.near->Some_0,
    ))
    &&& ((so.far is Some && si.far is Some) ==> frac_le(si.far->Some_0, so.far->Some_0))
}

proof fn lemma_max_frac_mono(co: Option<(int, int)>, fo: (int, int), ci: Option<(int, int)>, fi: (int, int))
    requires
        co is Some <==> ci is Some,
        co matches Some(c) ==> c.1 > 0,
        ci matches Some(c) ==> c.1 > 0,
        fo.1 > 0,
        fi.1 > 0,
        (co is Some && ci is Some) ==> frac_le(co->Some_0, ci->Some_0),
        frac_le(fo, fi),
    ensures
        frac_le(max_frac(co, fo), max_frac(ci, fi)),
        max_frac(co, fo).1 > 0,
        max_frac(ci, fi).1 > 0,
{
    match co {
        None => {},
        Some(c) => {
            let ci_ = ci->Some_0;
            let ro = max_frac(co, fo);
            let ri = max_frac(ci, fi);
            // the inner maximum is at least each of its arguments
            assert(frac_le(ci_, ri));
            assert(frac_le(fi, ri)) by {
                if !frac_le(ci_, fi) {
                    assert(frac_le(fi, ci_));
                }
            }
            if frac_le(c, fo) {
                lemma_frac_le_trans(fo, fi, ri);
            } else {
                lemma_frac_le_trans(c, ci_, ri);
            }
        },
    }
}

proof fn lemma_min_frac_mono(co: Option<(int, int)>, fo: (int, int), ci: Option<(int, int)>, fi: (int, int))
    requires
        co is Some <==> ci is Some,
        co matches Some(c) ==> c.1 > 0,
        ci matches Some(c) ==> c.1 > 0,
        fo.1 > 0,
        fi.1 > 0,
        (co is Some && ci is Some) ==> frac_le(ci->Some_0, co->Some_0),
        frac_le(fi, fo),
    ensures
        frac_le(min_frac(ci, fi), min_frac(co, fo)),
        min_frac(co, fo).1 > 0,
        min_frac(ci, fi).1 > 0,
{
    match co {
        None => {},
        Some(c) => {
            let ci_ = ci->Some_0;
            let ro = min_frac(co, fo);
            let ri = min_frac(ci, fi);
            assert(frac_le(ri, ci_));
            assert(frac_le(ri, fi)) by {
                if !frac_le(fi, ci_) {
                    assert(frac_le(ci_, fi));
                }
            }
            if frac_le(fo, c) {
                lemma_frac_le_trans(ri, fi, fo);
            } else {
                lemma_frac_le_trans(ri, ci_, c);
            }
        },
    }
}

proof fn lemma_slab_wider(outer: Aabb, inner: Aabb, r: crate::utility::Ray, k: int)
    requires
        contains_spec(outer, inner),
        0 <= k <= 3,
    ensures
        wider(slab_after(outer, r, k), slab_after(inner, r, k)),
    decreases k,
{
    if k > 0 {
        lemma_slab_wider(outer, inner, r, k - 1);
        let so = slab_after(outer, r, k - 1);
        let si = slab_after(inner, r, k - 1);
        let o = r.origin.axis_spec(k - 1);
        let d = r.dir.axis_spec(k - 1);
        let lo_o = outer.min.axis_spec(k - 1);
        let hi_o = outer.max.axis_spec(k - 1);
        let lo_i = inner.min.axis_spec(k - 1);
        let hi_i = inner.max.axis_spec(k - 1);
        assert(lo_o <= lo_i && hi_i <= hi_o);
        if d != 0 {
            let den = if d > 0 { d } else { -d };
            let nn_o = if d > 0 { lo_o - o } else { o - hi_o };
            let nn_i = if d > 0 { lo_i - o } else { o - hi_i };
            let fn_o = if d > 0 { hi_o - o } else { o - lo_o };
            let fn_i = if d > 0 { hi_i - o } else { o - lo_i };
            assert(nn_o <= nn_i && fn_i <= fn_o);
            assert(frac_le((nn_o, den), (nn_i, den))) by (nonlinear_arith)
                requires
                    nn_o <= nn_i,
                    den > 0,
            ;
            assert(frac_le((fn_i, den), (fn_o, den))) by (nonlinear_arith)
                requires
                    fn_i <= fn_o,
                    den > 0,
            ;
            lemma_max_frac_mono(so.near, (nn_o, den), si.near, (nn_i, den));
            lemma_min_frac_mono(so.far, (fn_o, den), si.far, (fn_i, den));
        }
    }
}

/// Containment is conservative: a ray that hits a contained box hits every
/// box containing it.
pub proof fn lemma_hits_monotone(outer: Aabb, inner: Aabb, r: crate::utility::Ray)
    requires
        contains_spec(outer, inner),
        hits(inner, r),
    ensures
        hits(outer, r),
{
    lemma_slab_wider(outer, inner, r, 3);
    lemma_slab_shape(inner, r, 3);
    lemma_slab_shape(outer, r, 3);
    let so = slab_after(outer, r, 3);
    let si = slab_after(inner, r, 3);
    if si.near is Some {
        let no = so.near->Some_0;
        let fo = so.far->Some_0;
        let ni = si.near->Some_0;
        let fi = si.far->Some_0;
        lemma_frac_le_lt_trans(no, ni, fi);
        lemma_frac_lt_le_trans(no, fi, fo);
        assert(fi.0 * fo.1 <= fo.0 * fi.1);
        assert(fi.0 * fo.1 > 0) by (nonlinear_arith)
            requires
                fi.0 > 0,
                fo.1 > 0,
        ;
        assert(fo.0 > 0) by (nonlinear_arith)
            requires
                fo.0 * fi.1 > 0,
                fi.1 > 0,
        ;
    }
}

} // verus!
