//! Vector and ray types on fixed-point integer coordinates, componentwise
//! minimum / maximum helpers, and the in-place permutation utility used to
//! reorder primitive storage after hierarchy construction.

use vstd::prelude::*;

verus! {

/// A point or direction in three dimensions. Coordinates are fixed-point
/// integers: callers pick a scale and quantise their real coordinates.
#[derive(Copy, Clone, Debug, PartialEq, Eq, Structural)]
pub struct Vec3 {
    pub x: i32,
    pub y: i32,
    pub z: i32,
}

impl Vec3 {
    /// The coordinate on axis `a` (0 = x, 1 = y, 2 = z).
    pub open spec fn axis_spec(self, a: int) -> int {
        if a == 0 {
            self.x as int
        } else if a == 1 {
            self.y as int
        } else {
            self.z as int
        }
    }

    pub fn new(x: i32, y: i32, z: i32) -> (r: Vec3)
        ensures
            r.x == x,
            r.y == y,
            r.z == z,
    {
        Vec3 { x, y, z }
    }

    /// The coordinate on axis `a` (0 = x, 1 = y, 2 = z).
    pub fn axis(&self, a: usize) -> (r: i32)
        requires
            a < 3,
        ensures
            r as int == self.axis_spec(a as int),
    {
        if a == 0 {
            self.x
        } else if a == 1 {
            self.y
        } else {
            self.z
        }
    }
}

/// A ray, given by its origin and direction. Directions are not normalised;
/// the box test works with exact ratios, so no reciprocal is precomputed.
#[derive(Copy, Clone, Debug, PartialEq, Eq, Structural)]
pub struct Ray {
    pub origin: Vec3,
    pub dir: Vec3,
}

impl Ray {
    pub fn new(origin: Vec3, dir: Vec3) -> (r: Ray)
        ensures
            r.origin == origin,
            r.dir == dir,
    {
        Ray { origin, dir }
    }
}

pub open spec fn min_vec3_spec(a: Vec3, b: Vec3) -> Vec3 {
    Vec3 {
        x: if a.x <= b.x { a.x } else { b.x },
        y: if a.y <= b.y { a.y } else { b.y },
        z: if a.z <= b.z { a.z } else { b.z },
    }
}

pub open spec fn max_vec3_spec(a: Vec3, b: Vec3) -> Vec3 {
    Vec3 {
        x: if a.x >= b.x { a.x } else { b.x },
        y: if a.y >= b.y { a.y } else { b.y },
        z: if a.z >= b.z { a.z } else { b.z },
    }
}

/// Componentwise minimum.
pub fn min_vec3(a: &Vec3, b: &Vec3) -> (r: Vec3)
    ensures
        r == min_vec3_spec(*a, *b),
{
    Vec3 {
        x: if a.x <= b.x { a.x } else { b.x },
        y: if a.y <= b.y { a.y } else { b.y },
        z: if a.z <= b.z { a.z } else { b.z },
    }
}

/// Componentwise maximum.
pub fn max_vec3(a: &Vec3, b: &Vec3) -> (r: Vec3)
    ensures
        r == max_vec3_spec(*a, *b),
{
    Vec3 {
        x: if a.x >= b.x { a.x } else { b.x },
        y: if a.y >= b.y { a.y } else { b.y },
        z: if a.z >= b.z { a.z } else { b.z },
    }
}

/// The axis on which `a` is largest: x wins over y and z only when strictly
/// larger, y wins over z only when strictly larger, and z is the fallback.
pub open spec fn max_axis_spec(a: Vec3) -> int {
    if a.x > a.y && a.x > a.z {
        0
    } else if a.y > a.z {
        1
    } else {
        2
    }
}

/// The axis of greatest extent, used to pick the split axis.
pub fn max_axis(a: &Vec3) -> (r: usize)
    ensures
        r as int == max_axis_spec(*a),
        r < 3,
        forall|k: int| 0 <= k < 3 ==> a.axis_spec(k) <= a.axis_spec(r as int),
{
    if a.x > a.y && a.x > a.z {
        0
    } else if a.y > a.z {
        1
    } else {
        2
    }
}

/// `p` maps `[0, p.len())` into itself without repetition, so it is a
/// bijection on that range.
pub open spec fn is_permutation(p: Seq<usize>) -> bool {
    &&& forall|i: int| 0 <= i < p.len() ==> (#[trigger] p[i]) < p.len()
    &&& forall|i: int, j: int|
        0 <= i < p.len() && 0 <= j < p.len() && i != j ==> p[i] != p[j]
}

/// The sequence whose entry `k` is `v[p[k]]`: the result of reordering `v`
/// so that position `k` receives the element that `p[k]` points at.
pub open spec fn apply_perm<T>(v: Seq<T>, p: Seq<usize>) -> Seq<T> {
    Seq::new(p.len(), |k: int| v[p[k] as int])
}

/// How many entries of `s` differ from their own position.
pub closed spec fn mismatch_count(s: Seq<usize>) -> nat
    decreases s.len(),
{
    if s.len() == 0 {
        0
    } else {
        mismatch_count(s.drop_last()) + if s.last() as int != s.len() - 1 {
            1nat
        } else {
            0nat
        }
    }
}

proof fn lemma_mismatch_update(s: Seq<usize>, i: int)
    requires
        0 <= i < s.len(),
        s.len() <= usize::MAX,
        s[i] as int != i,
    ensures
        mismatch_count(s.update(i, i as usize)) < mismatch_count(s),
    decreases s.len(),
{
    let t = s.update(i, i as usize);
    if i == s.len() - 1 {
        assert(t.drop_last() =~= s.drop_last());
    } else {
        assert(t.drop_last() =~= s.drop_last().update(i, i as usize));
        lemma_mismatch_update(s.drop_last(), i);
    }
}

/// Reorders `vec` in place according to `indices`, a permutation of
/// `[0, vec.len())`: afterwards `vec[k]` holds what `vec[indices[k]]` held
/// before. Runs in linear time and constant extra space by following the
/// permutation's cycles, marking each settled slot by overwriting its index
/// entry with its own position.
pub fn sort_by_indices<T: Copy>(vec: &mut Vec<T>, indices: Vec<usize>)
    requires
        indices@.len() == old(vec)@.len(),
        is_permutation(indices@),
    ensures
        final(vec)@ == apply_perm(old(vec)@, indices@),
{
    let ghost v0 = vec@;
    let ghost p0 = indices@;
    let mut indices = indices;
    let n = vec.len();
    let mut index: usize = 0;
    while index < n
        invariant
            n == vec@.len(),
            vec@.len() == v0.len(),
            indices@.len() == n,
            p0.len() == n,
            is_permutation(p0),
            index <= n,
            forall|j: int|
                0 <= j < n ==> (#[trigger] indices@[j]) == j || indices@[j] == p0[j],
            forall|j: int|
                0 <= j < n && (#[trigger] indices@[j]) == j ==> vec@[j] == v0[p0[j] as int],
            forall|j: int|
                0 <= j < n && (#[trigger] indices@[j]) != j ==> vec@[j] == v0[j],
            forall|j: int| 0 <= j < index ==> (#[trigger] indices@[j]) == j,
            // preimage closure: an entry pointing at a settled slot is settled
            forall|u: int|
                0 <= u < n && (#[trigger] indices@[p0[u] as int]) == p0[u] as int
                    ==> indices@[u] == u,
        decreases n - index,
    {
        if indices[index] != index {
            let mut current = index;
            loop
                invariant_except_break
                    indices@[current as int] == p0[current as int],
                    indices@[current as int] != current,
                    vec@[current as int] == v0[index as int],
                    indices@[index as int] == index || current == index,
                    // the walk's predecessor of `current` is settled
                    current == index || exists|u: int|
                        0 <= u < n && (#[trigger] indices@[u]) == u && p0[u] as int
                            == current as int,
                    forall|j: int|
                        0 <= j < n && (#[trigger] indices@[j]) != j && j != current
                            ==> vec@[j] == v0[j],
                    // preimage closure, with the cycle start exempt
                    forall|u: int|
                        0 <= u < n && (#[trigger] indices@[p0[u] as int]) == p0[u] as int
                            && p0[u] as int != index ==> indices@[u] == u,
                invariant
                    n == vec@.len(),
                    vec@.len() == v0.len(),
                    indices@.len() == n,
                    p0.len() == n,
                    is_permutation(p0),
                    index < n,
                    current < n,
                    forall|j: int|
                        0 <= j < n ==> (#[trigger] indices@[j]) == j || indices@[j] == p0[j],
                    forall|j: int|
                        0 <= j < n && (#[trigger] indices@[j]) == j
                            ==> vec@[j] == v0[p0[j] as int],
                    forall|j: int| 0 <= j < index ==> (#[trigger] indices@[j]) == j,
                ensures
                    indices@[index as int] == index,
                    forall|j: int|
                        0 <= j < n && (#[trigger] indices@[j]) != j ==> vec@[j] == v0[j],
                    forall|u: int|
                        0 <= u < n && (#[trigger] indices@[p0[u] as int]) == p0[u] as int
                            ==> indices@[u] == u,
                decreases mismatch_count(indices@),
            {
                let ghost ind0 = indices@;
                let target = indices[current];
                proof {
                    lemma_mismatch_update(ind0, current as int);
                }
                indices[current] = current;
                if indices[target] == target {
                    proof {
                        // `target` is not `current`, so it was already settled;
                        // by preimage closure only the cycle start can be
                        // settled while its predecessor `current` is not.
                        assert(target != current);
                        assert(ind0[target as int] == target as int);
                        assert(target as int == index as int) by {
                            if target as int != index as int {
                                assert(ind0[p0[current as int] as int]
                                    == p0[current as int] as int);
                                assert(ind0[current as int] == current as int);
                            }
                        }
                        assert(current != index);
                        assert forall|u: int|
                            0 <= u < n && (#[trigger] indices@[p0[u] as int])
                                == p0[u] as int implies indices@[u] == u by {
                            if p0[u] as int == current as int {
                                let w = choose|w: int|
                                    0 <= w < n && (#[trigger] ind0[w]) == w && p0[w] as int
                                        == current as int;
                                assert(u == w);
                            } else if p0[u] as int == index as int {
                                assert(u == current as int);
                            } else {
                                assert(ind0[p0[u] as int] == p0[u] as int);
                            }
                        }
                    }
                    break;
                }
                // hand the displaced element to the target slot and walk on
                vec_swap(vec, current, target);
                proof {
                    assert forall|u: int|
                        0 <= u < n && (#[trigger] indices@[p0[u] as int]) == p0[u] as int
                            && p0[u] as int != index implies indices@[u] == u by {
                        if p0[u] as int == current as int {
                            let w = choose|w: int|
                                0 <= w < n && (#[trigger] ind0[w]) == w && p0[w] as int
                                    == current as int;
                            assert(u == w);
                        } else if u != current as int {
                            assert(ind0[p0[u] as int] == p0[u] as int);
                        }
                    }
                }
                current = target;
            }
        }
        index += 1;
    }
    proof {
        assert forall|k: int| 0 <= k < n implies vec@[k] == v0[p0[k] as int] by {
            assert(indices@[k] == k);
        }
        assert(vec@ =~= apply_perm(v0, p0));
    }
}

/// Exchanges the elements at `i` and `j`.
pub(crate) fn vec_swap<T: Copy>(vec: &mut Vec<T>, i: usize, j: usize)
    requires
        i < old(vec)@.len(),
        j < old(vec)@.len(),
    ensures
        final(vec)@ == old(vec)@.update(i as int, old(vec)@[j as int]).update(
            j as int,
            old(vec)@[i as int],
        ),
{
    let a = vec[i];
    let b = vec[j];
    vec[i] = b;
    vec[j] = a;
}

/// Applying the identity permutation is a no-op.
pub proof fn lemma_apply_perm_identity<T>(v: Seq<T>, p: Seq<usize>)
    requires
        p.len() == v.len(),
        forall|i: int| 0 <= i < p.len() ==> #[trigger] p[i] as int == i,
    ensures
        apply_perm(v, p) == v,
{
    assert(apply_perm(v, p) =~= v);
}

/// Applying a permutation and then its inverse restores the original order.
pub proof fn lemma_apply_perm_inverse<T>(v: Seq<T>, p: Seq<usize>, q: Seq<usize>)
    requires
        p.len() == v.len(),
        q.len() == v.len(),
        is_permutation(p),
        is_permutation(q),
        forall|i: int| 0 <= i < q.len() ==> #[trigger] p[q[i] as int] as int == i,
    ensures
        apply_perm(apply_perm(v, p), q) == v,
{
    assert(apply_perm(apply_perm(v, p), q) =~= v);
}

} // verus!
