//! The cost-model splitter: exact-median splitting for small slices, and
//! bucketed surface-area-heuristic cost minimisation with an in-place
//! two-pointer partition for larger ones.

use vstd::multiset::Multiset;
use vstd::prelude::*;

use crate::aabb::merge_seq;
use crate::aabb::merge_spec;
use crate::aabb::vec3_in_range;
use crate::aabb::Aabb;
use crate::utility::vec_swap;
use crate::BoundingData;

verus! {

/// Number of buckets the centroid range is cut into.
pub const NUM_BUCKETS: usize = 12;

/// Largest number of records a node may keep before a split is forced.
pub const MAX_IN_NODE: usize = 255;

/// The centroid coordinate a record is bucketed and sorted by.
pub open spec fn rec_key(rec: BoundingData, axis: int) -> int {
    rec.centroid.axis_spec(axis)
}

/// The bucket for centroid coordinate `c`, with `cmin` and `ext` the start
/// and width of the centroid range: the fraction through the range, scaled
/// to the bucket count and rounded down, the full end clamped into the last
/// bucket.
pub open spec fn bucket_of(c: int, cmin: int, ext: int) -> int {
    let b = (NUM_BUCKETS as int) * (c - cmin) / ext;
    if b == NUM_BUCKETS as int {
        NUM_BUCKETS as int - 1
    } else {
        b
    }
}

pub open spec fn rec_bucket(rec: BoundingData, axis: int, cmin: int, ext: int) -> int {
    bucket_of(rec_key(rec, axis), cmin, ext)
}

/// A per-bucket accumulator: a merged box, and a count of one for the
/// bucket itself, so that a reduced run of buckets counts how many
/// non-empty buckets it covers.
#[derive(Copy, Clone, Debug)]
pub struct Bucket {
    pub count: u32,
    pub bounds: Aabb,
}

impl Bucket {
    pub fn new(bounds: Aabb) -> (r: Bucket)
        ensures
            r.count == 1,
            r.bounds == bounds,
    {
        Bucket { count: 1, bounds }
    }

    /// Grows the bucket's box; the count is the bucket's own, not a record
    /// count, so it does not change.
    pub fn add(&mut self, new: Aabb)
        requires
            old(self).bounds.valid(),
            new.valid(),
        ensures
            final(self).count == old(self).count,
            final(self).bounds == merge_spec(old(self).bounds, new),
            final(self).bounds.valid(),
    {
        self.bounds = Aabb::merge(self.bounds, new);
    }

    pub fn merge(a: Self, b: Self) -> (r: Bucket)
        requires
            a.bounds.valid(),
            b.bounds.valid(),
            a.count + b.count <= u32::MAX,
        ensures
            r.count == a.count + b.count,
            r.bounds == merge_spec(a.bounds, b.bounds),
            r.bounds.valid(),
    {
        Bucket { count: a.count + b.count, bounds: Aabb::merge(a.bounds, b.bounds) }
    }
}

/// The bucket of one record, computed exactly.
fn bucket_idx(axis: usize, node_data: &BoundingData, min: i32, extent: i32) -> (r: usize)
    requires
        axis < 3,
        vec3_in_range(node_data.centroid),
        crate::aabb::in_range(min as int),
        extent > 0,
        min <= rec_key(*node_data, axis as int),
        rec_key(*node_data, axis as int) <= min + extent,
    ensures
        r as int == rec_bucket(*node_data, axis as int, min as int, extent as int),
        r < NUM_BUCKETS,
{
    let c = node_data.centroid.axis(axis) as i64;
    let rel = c - min as i64;
    let b = (NUM_BUCKETS as i64 * rel) / (extent as i64);
    proof {
        assert(0 <= (NUM_BUCKETS as i64 * rel) as int / (extent as int) <= NUM_BUCKETS as int)
            by (nonlinear_arith)
            requires
                0 <= rel as int <= extent as int,
                0 < extent as int,
                (NUM_BUCKETS as i64 * rel) as int == 12 * (rel as int),
        ;
    }
    if b == NUM_BUCKETS as i64 {
        NUM_BUCKETS - 1
    } else {
        b as usize
    }
}

/// In-place two-pointer partition of `node_data[start..start + len)`: records
/// whose bucket is at or below `cut` move to the front; returns the boundary.
fn partition_by_bucket(
    node_data: &mut Vec<BoundingData>,
    start: usize,
    len: usize,
    axis: usize,
    min: i32,
    extent: i32,
    cut: usize,
) -> (r: usize)
    requires
        axis < 3,
        len >= 1,
        start + len <= old(node_data)@.len(),
        crate::aabb::in_range(min as int),
        extent > 0,
        forall|k: int|
            start <= k < start + len ==> vec3_in_range(
                (#[trigger] old(node_data)@[k]).centroid,
            ),
        forall|k: int|
            start <= k < start + len ==> min as int <= rec_key(
                #[trigger] old(node_data)@[k],
                axis as int,
            ) <= min as int + extent as int,
    ensures
        final(node_data)@.len() == old(node_data)@.len(),
        forall|j: int|
            (0 <= j < start || start + len <= j < old(node_data)@.len()) ==> final(node_data)@[j] == old(node_data)@[j],
        final(node_data)@.subrange(start as int, (start + len) as int).to_multiset() == old(node_data)@.subrange(start as int, (start + len) as int).to_multiset(),
        r <= len,
        forall|k: int|
            start <= k < start + r ==> rec_bucket(
                #[trigger] final(node_data)@[k],
                axis as int,
                min as int,
                extent as int,
            ) <= cut as int,
        forall|k: int|
            start + r <= k < start + len ==> rec_bucket(
                #[trigger] final(node_data)@[k],
                axis as int,
                min as int,
                extent as int,
            ) > cut as int,
{
    let n = node_data.len();
    let ghost s0 = node_data@.subrange(start as int, (start + len) as int);
    let mut l = start;
    let mut rgt = start + len;
    while l < rgt
        invariant
            start <= l <= rgt <= start + len,
            start + len <= node_data@.len(),
            axis < 3,
            extent > 0,
            crate::aabb::in_range(min as int),
            node_data@.len() == old(node_data)@.len(),
            forall|j: int|
                (0 <= j < start || start + len <= j < node_data@.len()) ==> node_data@[j]
                    == old(node_data)@[j],
            node_data@.subrange(start as int, (start + len) as int).to_multiset()
                == s0.to_multiset(),
            forall|k: int|
                start <= k < start + len ==> vec3_in_range((#[trigger] node_data@[k]).centroid),
            forall|k: int|
                start <= k < start + len ==> min as int <= rec_key(
                    #[trigger] node_data@[k],
                    axis as int,
                ) <= min as int + extent as int,
            forall|k: int|
                start <= k < l ==> rec_bucket(
                    #[trigger] node_data@[k],
                    axis as int,
                    min as int,
                    extent as int,
                ) <= cut as int,
            forall|k: int|
                rgt <= k < start + len ==> rec_bucket(
                    #[trigger] node_data@[k],
                    axis as int,
                    min as int,
                    extent as int,
                ) > cut as int,
        decreases rgt - l,
    {
        let bi = bucket_idx(axis, &node_data[l], min, extent);
        if bi <= cut {
            l += 1;
        } else {
            rgt -= 1;
            let ghost pre = node_data@;
            vec_swap(node_data, l, rgt);
            proof {
                assert(node_data@.subrange(start as int, (start + len) as int).to_multiset()
                    == s0.to_multiset()) by {
                    let a = pre.subrange(start as int, (start + len) as int);
                    let b = node_data@.subrange(start as int, (start + len) as int);
                    assert(b =~= a.update(l - start, a[rgt - start]).update(
                        rgt - start,
                        a[l - start],
                    ));
                    lemma_swap_multiset(a, l - start, rgt - start);
                }
            }
        }
    }
    l - start
}

/// Exchanging two positions keeps the multiset of a sequence.
proof fn lemma_swap_multiset<A>(s: Seq<A>, i: int, j: int)
    requires
        0 <= i < s.len(),
        0 <= j < s.len(),
    ensures
        s.update(i, s[j]).update(j, s[i]).to_multiset() == s.to_multiset(),
{
    let t = s.update(i, s[j]).update(j, s[i]);
    if i == j {
        assert(t =~= s);
    } else {
        s.to_multiset_ensures();
        t.to_multiset_ensures();
        assert forall|x: A| s.to_multiset().count(x) == t.to_multiset().count(x) by {
            lemma_count_matches(s, t, x);
        }
        assert(s.to_multiset() =~= t.to_multiset());
    }
}

/// How many positions of `s` hold `x`.
spec fn count_eq<A>(s: Seq<A>, x: A) -> nat
    decreases s.len(),
{
    if s.len() == 0 {
        0
    } else {
        count_eq(s.drop_last(), x) + if s.last() == x {
            1nat
        } else {
            0nat
        }
    }
}

proof fn lemma_count_eq_is_multiset_count<A>(s: Seq<A>, x: A)
    ensures
        count_eq(s, x) == s.to_multiset().count(x),
    decreases s.len(),
{
    s.to_multiset_ensures();
    if s.len() == 0 {
        assert(s.to_multiset() =~= Multiset::<A>::empty());
    } else {
        lemma_count_eq_is_multiset_count(s.drop_last(), x);
        s.drop_last().to_multiset_ensures();
        assert(s.drop_last().push(s.last()) =~= s);
    }
}

proof fn lemma_count_eq_update<A>(s: Seq<A>, i: int, v: A, x: A)
    requires
        0 <= i < s.len(),
    ensures
        count_eq(s.update(i, v), x) == count_eq(s, x) + (if v == x {
            1int
        } else {
            0int
        }) - (if s[i] == x {
            1int
        } else {
            0int
        }),
    decreases s.len(),
{
    let t = s.update(i, v);
    if i == s.len() - 1 {
        assert(t.drop_last() =~= s.drop_last());
    } else {
        assert(t.drop_last() =~= s.drop_last().update(i, v));
        lemma_count_eq_update(s.drop_last(), i, v, x);
    }
}

proof fn lemma_count_matches<A>(s: Seq<A>, t: Seq<A>, x: A)
    requires
        exists|i: int, j: int|
            0 <= i < s.len() && 0 <= j < s.len() && i != j && t == s.update(i, s[j]).update(
                j,
                s[i],
            ),
    ensures
        s.to_multiset().count(x) == t.to_multiset().count(x),
{
    let (i, j) = choose|i: int, j: int|
        0 <= i < s.len() && 0 <= j < s.len() && i != j && t == s.update(i, s[j]).update(
            j,
            s[i],
        );
    lemma_count_eq_is_multiset_count(s, x);
    lemma_count_eq_is_multiset_count(t, x);
    lemma_count_eq_update(s, i, s[j], x);
    lemma_count_eq_update(s.update(i, s[j]), j, s[i], x);
    assert(s.update(i, s[j])[j] == s[j]);
}

/// Sorts the slice by centroid coordinate on `axis` and returns the middle:
/// an exact median split for small slices.
fn split_equal(
    axis: usize,
    node_data: &mut Vec<BoundingData>,
    start: usize,
    len: usize,
) -> (r: usize)
    requires
        axis < 3,
        len >= 1,
        start + len <= old(node_data)@.len(),
    ensures
        r == len / 2,
        final(node_data)@.len() == old(node_data)@.len(),
        forall|j: int|
            (0 <= j < start || start + len <= j < old(node_data)@.len()) ==> final(node_data)@[j] == old(node_data)@[j],
        final(node_data)@.subrange(start as int, (start + len) as int).to_multiset() == old(node_data)@.subrange(start as int, (start + len) as int).to_multiset(),
        forall|k1: int, k2: int|
            start <= k1 <= k2 < start + len ==> rec_key(
                #[trigger] final(node_data)@[k1],
                axis as int,
            ) <= rec_key(#[trigger] final(node_data)@[k2], axis as int),
{
    let n = node_data.len();
    let ghost s0 = node_data@.subrange(start as int, (start + len) as int);
    let end = start + len;
    let mut i = start + 1;
    while i < end
        invariant
            end == start + len,
            start + 1 <= i <= start + len,
            start + len <= node_data@.len(),
            axis < 3,
            node_data@.len() == old(node_data)@.len(),
            forall|j: int|
                (0 <= j < start || start + len <= j < node_data@.len()) ==> node_data@[j]
                    == old(node_data)@[j],
            node_data@.subrange(start as int, (start + len) as int).to_multiset()
                == s0.to_multiset(),
            forall|k1: int, k2: int|
                start <= k1 <= k2 < i ==> rec_key(#[trigger] node_data@[k1], axis as int)
                    <= rec_key(#[trigger] node_data@[k2], axis as int),
        decreases start + len - i,
    {
        let mut j = i;
        while j > start && node_data[j - 1].centroid.axis(axis) > node_data[j].centroid.axis(
            axis,
        )
            invariant
                start <= j <= i < start + len,
                start + len <= node_data@.len(),
                axis < 3,
                node_data@.len() == old(node_data)@.len(),
                forall|jj: int|
                    (0 <= jj < start || start + len <= jj < node_data@.len()) ==> node_data@[jj]
                        == old(node_data)@[jj],
                node_data@.subrange(start as int, (start + len) as int).to_multiset()
                    == s0.to_multiset(),
                forall|k1: int, k2: int|
                    start <= k1 <= k2 <= i && k1 != j && k2 != j ==> rec_key(
                        #[trigger] node_data@[k1],
                        axis as int,
                    ) <= rec_key(#[trigger] node_data@[k2], axis as int),
                forall|k: int|
                    j < k <= i ==> rec_key(node_data@[j as int], axis as int) <= rec_key(
                        #[trigger] node_data@[k],
                        axis as int,
                    ),
            decreases j,
        {
            let ghost pre = node_data@;
            vec_swap(node_data, j - 1, j);
            proof {
                let a = pre.subrange(start as int, (start + len) as int);
                let b = node_data@.subrange(start as int, (start + len) as int);
                assert(b =~= a.update(j - 1 - start, a[j - start]).update(
                    j - start,
                    a[j - 1 - start],
                ));
                lemma_swap_multiset(a, j - 1 - start, j - start);
            }
            j -= 1;
        }
        i += 1;
    }
    len / 2
}


/// The records of the slice falling in bucket `b`.
pub open spec fn bucket_recs(
    s: Seq<BoundingData>,
    axis: int,
    cmin: int,
    ext: int,
    b: int,
) -> Seq<BoundingData> {
    s.filter(|r: BoundingData| rec_bucket(r, axis, cmin, ext) == b)
}

pub open spec fn boxes_of(s: Seq<BoundingData>) -> Seq<Aabb> {
    s.map_values(|r: BoundingData| r.bounds)
}

/// Folds the buckets `[lo, hi)` of the slice into a count of non-empty
/// buckets and the merge of their boxes.
pub open spec fn side_acc(
    s: Seq<BoundingData>,
    axis: int,
    cmin: int,
    ext: int,
    lo: int,
    hi: int,
) -> (int, Option<Aabb>)
    decreases hi - lo,
{
    if hi <= lo {
        (0, None::<Aabb>)
    } else {
        let prev = side_acc(s, axis, cmin, ext, lo, hi - 1);
        let g = bucket_recs(s, axis, cmin, ext, hi - 1);
        if g.len() == 0 {
            prev
        } else {
            let gb = merge_seq(boxes_of(g));
            (
                prev.0 + 1,
                match prev.1 {
                    None => Some(gb),
                    Some(b0) => Some(merge_spec(b0, gb)),
                },
            )
        }
    }
}

pub open spec fn sa_opt(o: Option<Aabb>) -> int {
    match o {
        None => 0,
        Some(b) => b.surface_area_spec(),
    }
}

/// The cost numerator for the cut placing buckets `[0, i)` left and
/// `[i, NUM_BUCKETS)` right: each side weighs its merged surface area by
/// its count of non-empty buckets.
pub open spec fn cut_cost(s: Seq<BoundingData>, axis: int, cmin: int, ext: int, i: int) -> int {
    let l = side_acc(s, axis, cmin, ext, 0, i);
    let r = side_acc(s, axis, cmin, ext, i, NUM_BUCKETS as int);
    l.0 * sa_opt(l.1) + r.0 * sa_opt(r.1)
}

/// The first cut among `0..=i` of minimum cost, with that cost. Ties keep
/// the lowest index.
pub open spec fn best_cut(s: Seq<BoundingData>, axis: int, cmin: int, ext: int, i: int) -> (
    int,
    int,
)
    decreases i,
{
    if i <= 0 {
        (0, cut_cost(s, axis, cmin, ext, 0))
    } else {
        let prev = best_cut(s, axis, cmin, ext, i - 1);
        let c = cut_cost(s, axis, cmin, ext, i);
        if c < prev.1 {
            (i, c)
        } else {
            prev
        }
    }
}

/// One exec bucket matches the spec bucket contents it stands for.
pub open spec fn bucket_inv(o: Option<Bucket>, g: Seq<BoundingData>) -> bool {
    match o {
        None => g.len() == 0,
        Some(bk) => {
            &&& g.len() > 0
            &&& bk.count == 1
            &&& bk.bounds == merge_seq(boxes_of(g))
            &&& bk.bounds.valid()
        },
    }
}

/// A well-formed box's surface area fits comfortably in a machine word.
proof fn lemma_sa_bound(b: Aabb)
    requires
        b.valid(),
    ensures
        0 <= b.surface_area_spec() < 0x2_0000_0000_0000_0000,
{
    let ex = b.max.x - b.min.x;
    let ey = b.max.y - b.min.y;
    let ez = b.max.z - b.min.z;
    assert(0 <= ex * ey <= 0x4000_0000_0000_0000) by (nonlinear_arith)
        requires
            0 <= ex < 0x8000_0000,
            0 <= ey < 0x8000_0000,
    ;
    assert(0 <= ex * ez <= 0x4000_0000_0000_0000) by (nonlinear_arith)
        requires
            0 <= ex < 0x8000_0000,
            0 <= ez < 0x8000_0000,
    ;
    assert(0 <= ey * ez <= 0x4000_0000_0000_0000) by (nonlinear_arith)
        requires
            0 <= ey < 0x8000_0000,
            0 <= ez < 0x8000_0000,
    ;
}

/// Reduces the buckets `[lo, hi)` left to right, as the cost evaluation
/// does for each side of a candidate cut.
fn side_fold(
    buckets: &Vec<Option<Bucket>>,
    lo: usize,
    hi: usize,
    Ghost(s): Ghost<Seq<BoundingData>>,
    Ghost(axis): Ghost<int>,
    Ghost(cmin): Ghost<int>,
    Ghost(ext): Ghost<int>,
) -> (r: Option<Bucket>)
    requires
        buckets@.len() == NUM_BUCKETS,
        lo <= hi <= NUM_BUCKETS,
        forall|b: int|
            0 <= b < NUM_BUCKETS ==> bucket_inv(
                #[trigger] buckets@[b],
                bucket_recs(s, axis, cmin, ext, b),
            ),
    ensures
        match r {
            None => side_acc(s, axis, cmin, ext, lo as int, hi as int).0 == 0,
            Some(bk) => {
                &&& bk.count as int == side_acc(s, axis, cmin, ext, lo as int, hi as int).0
                &&& 1 <= bk.count <= hi - lo
                &&& Some(bk.bounds) == side_acc(s, axis, cmin, ext, lo as int, hi as int).1
                &&& bk.bounds.valid()
            },
        },
        (r is None) <==> side_acc(s, axis, cmin, ext, lo as int, hi as int).1 is None,
{
    let mut acc: Option<Bucket> = None;
    let mut b = lo;
    while b < hi
        invariant
            buckets@.len() == NUM_BUCKETS,
            lo <= b <= hi <= NUM_BUCKETS,
            forall|bb: int|
                0 <= bb < NUM_BUCKETS ==> bucket_inv(
                    #[trigger] buckets@[bb],
                    bucket_recs(s, axis, cmin, ext, bb),
                ),
            match acc {
                None => side_acc(s, axis, cmin, ext, lo as int, b as int).0 == 0,
                Some(bk) => {
                    &&& bk.count as int == side_acc(s, axis, cmin, ext, lo as int, b as int).0
                    &&& 1 <= bk.count <= b - lo
                    &&& Some(bk.bounds) == side_acc(s, axis, cmin, ext, lo as int, b as int).1
                    &&& bk.bounds.valid()
                },
            },
            (acc is None) <==> side_acc(s, axis, cmin, ext, lo as int, b as int).1 is None,
        decreases hi - b,
    {
        let cur = buckets[b];
        match cur {
            None => {},
            Some(bk) => {
                acc = match acc {
                    None => Some(bk),
                    Some(a) => Some(Bucket::merge(a, bk)),
                };
            },
        }
        b += 1;
    }
    acc
}

/// The exact cost of cut `i`, from the accumulated buckets.
fn cut_cost_exec(
    buckets: &Vec<Option<Bucket>>,
    i: usize,
    Ghost(s): Ghost<Seq<BoundingData>>,
    Ghost(axis): Ghost<int>,
    Ghost(cmin): Ghost<int>,
    Ghost(ext): Ghost<int>,
) -> (r: u128)
    requires
        buckets@.len() == NUM_BUCKETS,
        i < NUM_BUCKETS,
        forall|b: int|
            0 <= b < NUM_BUCKETS ==> bucket_inv(
                #[trigger] buckets@[b],
                bucket_recs(s, axis, cmin, ext, b),
            ),
    ensures
        r as int == cut_cost(s, axis, cmin, ext, i as int),
{
    let left = side_fold(buckets, 0, i, Ghost(s), Ghost(axis), Ghost(cmin), Ghost(ext));
    let right = side_fold(
        buckets,
        i,
        NUM_BUCKETS,
        Ghost(s),
        Ghost(axis),
        Ghost(cmin),
        Ghost(ext),
    );
    let (lc, lsa): (u32, u128) = match left {
        None => (0, 0),
        Some(bk) => {
            proof {
                lemma_sa_bound(bk.bounds);
            }
            (bk.count, bk.bounds.surface_area())
        },
    };
    let (rc, rsa): (u32, u128) = match right {
        None => (0, 0),
        Some(bk) => {
            proof {
                lemma_sa_bound(bk.bounds);
            }
            (bk.count, bk.bounds.surface_area())
        },
    };
    proof {
        assert((lc as int) * (lsa as int) <= 12 * 0x2_0000_0000_0000_0000 && (rc as int) * (
        rsa as int) <= 12 * 0x2_0000_0000_0000_0000) by (nonlinear_arith)
            requires
                0 <= (lc as int) <= 12,
                0 <= (rc as int) <= 12,
                0 <= (lsa as int) < 0x2_0000_0000_0000_0000,
                0 <= (rsa as int) < 0x2_0000_0000_0000_0000,
        ;
    }
    lc as u128 * lsa + rc as u128 * rsa
}


/// An element of `s1` appears somewhere in any sequence with the same
/// multiset.
pub proof fn lemma_multiset_find<A>(s1: Seq<A>, s2: Seq<A>, i: int)
    requires
        s1.to_multiset() == s2.to_multiset(),
        0 <= i < s1.len(),
    ensures
        exists|j: int| 0 <= j < s2.len() && s2[j] == s1[i],
{
    s1.to_multiset_ensures();
    s2.to_multiset_ensures();
    assert(s1.contains(s1[i]));
    assert(s1.to_multiset().count(s1[i]) > 0);
    assert(s2.contains(s1[i]));
}

/// Decides whether and where to partition `node_data[start..start + len)`
/// on `axis`. Small slices are sorted and cut at the middle. Larger ones
/// are bucketed by centroid; the cheapest of the candidate cuts under the
/// surface-area cost model is taken when the slice is over the node cap or
/// the cut is estimated cheaper than one leaf, and the slice is partitioned
/// in place around it. A return of `0` means the slice stays one leaf —
/// either the cost model rejected the split, or every record fell on the
/// right side of the chosen cut.
pub fn split(
    bounds: &Aabb,
    centre_bounds: &Aabb,
    axis: usize,
    node_data: &mut Vec<BoundingData>,
    start: usize,
    len: usize,
) -> (r: usize)
    requires
        axis < 3,
        2 <= len,
        start + len <= old(node_data)@.len(),
        old(node_data)@.len() <= u32::MAX,
        bounds.valid(),
        centre_bounds.valid(),
        forall|k: int|
            start <= k < start + len ==> (#[trigger] old(node_data)@[k]).bounds.valid()
                && vec3_in_range(old(node_data)@[k].centroid),
        forall|k: int|
            start <= k < start + len ==> centre_bounds.min.axis_spec(axis as int) <= rec_key(
                #[trigger] old(node_data)@[k],
                axis as int,
            ) <= centre_bounds.max.axis_spec(axis as int),
        exists|k: int|
            start <= k < start + len && rec_key(#[trigger] old(node_data)@[k], axis as int)
                == centre_bounds.max.axis_spec(axis as int),
        centre_bounds.max.axis_spec(axis as int) - centre_bounds.min.axis_spec(axis as int)
            > 0,
    ensures
        final(node_data)@.len() == old(node_data)@.len(),
        forall|j: int|
            (0 <= j < start || start + len <= j < old(node_data)@.len()) ==> final(node_data)@[j]
                == old(node_data)@[j],
        final(node_data)@.subrange(start as int, (start + len) as int).to_multiset() == old(
            node_data,
        )@.subrange(start as int, (start + len) as int).to_multiset(),
        r == 0 || r < len,
        len <= 4 ==> r == len / 2 && (forall|k1: int, k2: int|
            start <= k1 <= k2 < start + len ==> rec_key(
                #[trigger] final(node_data)@[k1],
                axis as int,
            ) <= rec_key(#[trigger] final(node_data)@[k2], axis as int)),
        len > 4 ==> ({
            let s0 = old(node_data)@.subrange(start as int, (start + len) as int);
            let cmin = centre_bounds.min.axis_spec(axis as int);
            let cext = centre_bounds.max.axis_spec(axis as int) - cmin;
            let bc = best_cut(s0, axis as int, cmin, cext, NUM_BUCKETS as int - 2);
            let accepted = len > MAX_IN_NODE || bc.1 < 8 * len * bounds.surface_area_spec();
            &&& (!accepted ==> r == 0 && final(node_data)@ == old(node_data)@)
            &&& (accepted ==> (forall|k: int|
                start <= k < start + r ==> rec_bucket(
                    #[trigger] final(node_data)@[k],
                    axis as int,
                    cmin,
                    cext,
                ) <= bc.0) && (forall|k: int|
                start + r <= k < start + len ==> rec_bucket(
                    #[trigger] final(node_data)@[k],
                    axis as int,
                    cmin,
                    cext,
                ) > bc.0))
        }),
{
    let n = node_data.len();
    if len <= 4 {
        let r = split_equal(axis, node_data, start, len);
        return r;
    }
    let max_val = centre_bounds.max.axis(axis);
    let min_val = centre_bounds.min.axis(axis);
    let extent = (max_val as i64 - min_val as i64) as i32;
    let ghost s0v = node_data@.subrange(start as int, (start + len) as int);
    let ghost caxis = axis as int;
    let ghost cmin = min_val as int;
    let ghost cext = extent as int;

    let mut buckets: Vec<Option<Bucket>> = vec![None; NUM_BUCKETS];
    proof {
        assert(s0v.take(0) =~= Seq::<BoundingData>::empty());
        assert forall|b: int| 0 <= b < NUM_BUCKETS implies bucket_inv(
            #[trigger] buckets@[b],
            bucket_recs(s0v.take(0), caxis, cmin, cext, b),
        ) by {
            reveal(Seq::filter);
            assert(bucket_recs(s0v.take(0), caxis, cmin, cext, b).len() == 0);
        }
    }
    let mut p: usize = 0;
    while p < len
        invariant
            p <= len,
            4 < len,
            axis < 3,
            start + len <= node_data@.len(),
            node_data@.len() <= u32::MAX,
            node_data@ == old(node_data)@,
            s0v == node_data@.subrange(start as int, (start + len) as int),
            buckets@.len() == NUM_BUCKETS,
            extent as int == cext,
            min_val as int == cmin,
            caxis == axis as int,
            cext > 0,
            crate::aabb::in_range(cmin),
            cmin == centre_bounds.min.axis_spec(axis as int),
            cmin + cext == centre_bounds.max.axis_spec(axis as int),
            forall|k: int|
                start <= k < start + len ==> (#[trigger] node_data@[k]).bounds.valid()
                    && vec3_in_range(node_data@[k].centroid),
            forall|k: int|
                start <= k < start + len ==> cmin <= rec_key(
                    #[trigger] node_data@[k],
                    axis as int,
                ) <= cmin + cext,
            forall|b: int|
                0 <= b < NUM_BUCKETS ==> bucket_inv(
                    #[trigger] buckets@[b],
                    bucket_recs(s0v.take(p as int), caxis, cmin, cext, b),
                ),
        decreases len - p,
    {
        let rec = node_data[start + p];
        let bi = bucket_idx(axis, &rec, min_val, extent);
        let ghost tpre = s0v.take(p as int);
        let ghost tpost = s0v.take(p as int + 1);
        proof {
            assert(s0v[p as int] == rec);
            assert(tpost =~= tpre.push(rec));
        }
        let cur = buckets[bi];
        match cur {
            Some(bk) => {
                let mut bk2 = bk;
                bk2.add(rec.bounds);
                buckets[bi] = Some(bk2);
            },
            None => {
                buckets[bi] = Some(Bucket::new(rec.bounds));
            },
        }
        proof {
            assert forall|b: int| 0 <= b < NUM_BUCKETS implies bucket_inv(
                #[trigger] buckets@[b],
                bucket_recs(tpost, caxis, cmin, cext, b),
            ) by {
                reveal(Seq::filter);
                let g = bucket_recs(tpre, caxis, cmin, cext, b);
                let g1 = bucket_recs(tpost, caxis, cmin, cext, b);
                assert(tpost.drop_last() =~= tpre);
                assert(tpost.last() == rec);
                if b == bi as int {
                    assert(g1 == g.push(rec));
                    assert(boxes_of(g.push(rec)) =~= boxes_of(g).push(rec.bounds));
                    if g.len() > 0 {
                        assert((boxes_of(g).push(rec.bounds)).drop_last() =~= boxes_of(g));
                        assert(merge_seq(boxes_of(g).push(rec.bounds)) == merge_spec(
                            merge_seq(boxes_of(g)),
                            rec.bounds,
                        ));
                    } else {
                        assert(boxes_of(g).push(rec.bounds).len() == 1);
                        assert(merge_seq(boxes_of(g).push(rec.bounds)) == rec.bounds);
                    }
                } else {
                    assert(g1 == g);
                }
            }
        }
        p += 1;
    }
    proof {
        assert(s0v.take(len as int) =~= s0v);
    }

    let psa = bounds.surface_area();
    let mut mc_idx: usize = 0;
    let mut min_cost: u128 = cut_cost_exec(
        &buckets,
        0,
        Ghost(s0v),
        Ghost(caxis),
        Ghost(cmin),
        Ghost(cext),
    );
    let mut i: usize = 1;
    while i < NUM_BUCKETS - 1
        invariant
            1 <= i <= NUM_BUCKETS - 1,
            buckets@.len() == NUM_BUCKETS,
            mc_idx < i,
            forall|b: int|
                0 <= b < NUM_BUCKETS ==> bucket_inv(
                    #[trigger] buckets@[b],
                    bucket_recs(s0v, caxis, cmin, cext, b),
                ),
            (mc_idx as int, min_cost as int) == best_cut(s0v, caxis, cmin, cext, i as int - 1),
        decreases NUM_BUCKETS - 1 - i,
    {
        let c = cut_cost_exec(&buckets, i, Ghost(s0v), Ghost(caxis), Ghost(cmin), Ghost(cext));
        if c < min_cost {
            mc_idx = i;
            min_cost = c;
        }
        i += 1;
    }

    proof {
        lemma_sa_bound(*bounds);
        assert((8 * len as int) * (psa as int) < 0x1_0000_0000_0000_0000_0000_0000_0000_0000)
            by (nonlinear_arith)
            requires
                0 <= (len as int) <= 0x1_0000_0000,
                0 <= (psa as int) < 0x2_0000_0000_0000_0000,
        ;
    }
    if len > MAX_IN_NODE || min_cost < 8u128 * (len as u128) * psa {
        let r = partition_by_bucket(node_data, start, len, axis, min_val, extent, mc_idx);
        proof {
            let kk = choose|k: int|
                start <= k < start + len && rec_key(#[trigger] old(node_data)@[k], axis as int)
                    == cmin + cext;
            let v = old(node_data)@[kk];
            assert(s0v[kk - start] == v);
            vstd::arithmetic::div_mod::lemma_div_by_multiple(NUM_BUCKETS as int, cext);
            assert(rec_bucket(v, caxis, cmin, cext) == NUM_BUCKETS as int - 1);
            let fs = node_data@.subrange(start as int, (start + len) as int);
            lemma_multiset_find(s0v, fs, kk - start);
            let j = choose|j: int| 0 <= j < fs.len() && fs[j] == v;
            assert(node_data@[start + j] == v);
            assert(r < len) by {
                if r == len {
                    assert(rec_bucket(node_data@[start + j], caxis, cmin, cext)
                        <= mc_idx as int);
                }
            }
        }
        r
    } else {
        0
    }
}

} // verus!
