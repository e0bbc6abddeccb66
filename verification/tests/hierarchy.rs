use bvh::aabb::Aabb;
use bvh::split::split;
use bvh::utility::sort_by_indices;
use bvh::utility::Ray;
use bvh::utility::Vec3;
use bvh::BoundingData;
use bvh::BuildError;
use bvh::Bvh;
use bvh::Node;
use bvh::NodeKind;

fn v(x: i32, y: i32, z: i32) -> Vec3 {
    Vec3::new(x, y, z)
}

#[test]
fn sort_vec_by_indices() {
    let indices = vec![0, 4, 2, 1, 3];
    let mut values = vec!["a", "b", "c", "d", "e"];

    sort_by_indices(&mut values, indices);

    assert_eq!(values, ["a", "e", "c", "b", "d"]);
}

#[test]
fn sort_by_identity_is_noop() {
    let mut values = vec![10, 20, 30, 40];
    sort_by_indices(&mut values, vec![0, 1, 2, 3]);
    assert_eq!(values, [10, 20, 30, 40]);
}

#[test]
fn sort_then_inverse_restores() {
    let perm = vec![2usize, 0, 3, 1];
    // inverse[j] holds the position where perm places j
    let mut inverse = vec![0usize; perm.len()];
    for (i, &p) in perm.iter().enumerate() {
        inverse[p] = i;
    }
    let original = vec!["w", "x", "y", "z"];
    let mut values = original.clone();
    sort_by_indices(&mut values, perm);
    sort_by_indices(&mut values, inverse);
    assert_eq!(values, original);
}

#[test]
fn empty_collection_is_rejected() {
    let mut prims: Vec<Aabb> = Vec::new();
    let res = Bvh::new(&mut prims);
    assert!(matches!(res, Err(BuildError::Empty)));
    assert!(prims.is_empty());
}

#[test]
fn single_primitive_builds_one_leaf() {
    let mut prims = vec![Aabb::new(v(0, 0, 0), v(5, 5, 5))];
    let bvh = Bvh::new(&mut prims).unwrap();
    assert_eq!(bvh.nodes.len(), 1);
    let ranges = bvh.traverse(&Ray::new(v(-10, 2, 2), v(1, 0, 0)));
    assert_eq!(ranges, [(0, 1)]);
}

#[test]
fn identical_centroids_collapse_to_one_leaf() {
    // six coincident boxes: no axis separates their centroids, so the
    // builder must still terminate, with a single leaf holding all of them
    let b = Aabb::new(v(-5, -5, -5), v(5, 5, 5));
    let mut prims = vec![b; 6];
    let bvh = Bvh::new(&mut prims).unwrap();
    assert_eq!(bvh.nodes.len(), 1);
    let ranges = bvh.traverse(&Ray::new(v(0, 0, 0), v(1, 0, 0)));
    assert_eq!(ranges, [(0, 6)]);
}

fn cluster_scene() -> Vec<Aabb> {
    vec![
        Aabb::new(v(0, 0, 0), v(10, 10, 10)),
        Aabb::new(v(10, 0, 0), v(20, 10, 10)),
        Aabb::new(v(20, 0, 0), v(30, 10, 10)),
        Aabb::new(v(1000, 0, 0), v(1010, 10, 10)),
        Aabb::new(v(1010, 0, 0), v(1020, 10, 10)),
        Aabb::new(v(1020, 0, 0), v(1030, 10, 10)),
    ]
}

// Walks the arena, checking every node's box is the merge of its
// children's (internal) or of its range's primitive boxes (leaf), and
// collects the leaf ranges in left-to-right order.
fn check_subtree(nodes: &[Node], boxes: &[Aabb], i: usize, leaves: &mut Vec<(usize, usize)>) {
    let nd = &nodes[i];
    let lo = nd.prim_idx;
    let hi = nd.prim_idx + nd.num_prim;
    let mut merged = boxes[lo];
    for b in &boxes[lo + 1..hi] {
        merged = Aabb::merge(merged, *b);
    }
    assert_eq!(nd.bounds, merged);
    match nd.kind {
        NodeKind::Leaf => leaves.push((lo, hi)),
        NodeKind::Internal { left, right } => {
            assert_eq!(nd.bounds, Aabb::merge(nodes[left].bounds, nodes[right].bounds));
            check_subtree(nodes, boxes, left, leaves);
            check_subtree(nodes, boxes, right, leaves);
        }
    }
}

#[test]
fn node_boxes_merge_and_leaves_partition() {
    let mut prims = cluster_scene();
    let bvh = Bvh::new(&mut prims).unwrap();
    let mut leaves = Vec::new();
    check_subtree(&bvh.nodes, &prims, 0, &mut leaves);
    // leaf ranges tile [0, n): no gaps, no overlaps, full coverage
    let mut next = 0;
    for &(a, b) in &leaves {
        assert_eq!(a, next);
        assert!(a < b);
        next = b;
    }
    assert_eq!(next, prims.len());
}

#[test]
fn build_reorders_a_permutation_of_the_input() {
    let original = cluster_scene();
    let mut prims = original.clone();
    Bvh::new(&mut prims).unwrap();
    let mut sorted_original: Vec<_> = original.iter().map(|b| b.min.x).collect();
    let mut sorted_after: Vec<_> = prims.iter().map(|b| b.min.x).collect();
    sorted_original.sort();
    sorted_after.sort();
    assert_eq!(sorted_original, sorted_after);
}

#[test]
fn traverse_reports_every_hit_primitive() {
    let mut prims = cluster_scene();
    let bvh = Bvh::new(&mut prims).unwrap();
    // a ray crossing only the far cluster
    let ray = Ray::new(v(1015, 5, -100), v(0, 0, 1));
    let ranges = bvh.traverse(&ray);
    for (i, b) in prims.iter().enumerate() {
        if b.does_int(&ray) {
            assert!(
                ranges.iter().any(|&(a, e)| a <= i && i < e),
                "hit primitive {} not covered",
                i
            );
        }
    }
    // and the near cluster was pruned: no range may cover a primitive
    // whose slab the ray provably cannot reach
    for &(a, e) in &ranges {
        assert!(a < e && e <= prims.len());
    }
}

#[test]
fn sah_split_separates_two_clusters() {
    let scene = cluster_scene();
    let mut data: Vec<BoundingData> = scene
        .iter()
        .enumerate()
        .map(|(i, b)| BoundingData::from_prim(b, i))
        .collect();
    let bounds = scene[1..]
        .iter()
        .fold(scene[0], |acc, b| Aabb::merge(acc, *b));
    // centroid bounds: x centroids run from 5 to 1025, y and z sit at 5
    let centre_bounds = Aabb::new(v(5, 5, 5), v(1025, 5, 5));
    let len = data.len();
    let mid = split(&bounds, &centre_bounds, 0, &mut data, 0, len);
    // the cost model accepts, and the boundary falls strictly inside,
    // between the clusters
    assert_eq!(mid, 3);
    for r in &data[..3] {
        assert!(r.bounds.max.x <= 30);
    }
    for r in &data[3..] {
        assert!(r.bounds.min.x >= 1000);
    }
}

#[test]
fn small_slice_split_is_median_after_sort() {
    let scene = vec![
        Aabb::new(v(30, 0, 0), v(40, 10, 10)),
        Aabb::new(v(0, 0, 0), v(10, 10, 10)),
        Aabb::new(v(60, 0, 0), v(70, 10, 10)),
        Aabb::new(v(90, 0, 0), v(100, 10, 10)),
    ];
    let mut data: Vec<BoundingData> = scene
        .iter()
        .enumerate()
        .map(|(i, b)| BoundingData::from_prim(b, i))
        .collect();
    let bounds = scene[1..]
        .iter()
        .fold(scene[0], |acc, b| Aabb::merge(acc, *b));
    let centre_bounds = Aabb::new(v(5, 5, 5), v(95, 5, 5));
    let len = data.len();
    let mid = split(&bounds, &centre_bounds, 0, &mut data, 0, len);
    assert_eq!(mid, 2);
    for w in data.windows(2) {
        assert!(w[0].centroid.x <= w[1].centroid.x);
    }
}

#[test]
fn split_boundary_zero_edge_case() {
    // every record's centroid sits in the last bucket: the cheapest cut is
    // the first one, every record falls right of it, and the boundary is 0
    // — to be treated as "keep one leaf", exactly like a rejection
    let scene = vec![
        Aabb::new(v(1101, 0, 0), v(1121, 10, 10)),
        Aabb::new(v(1120, 0, 0), v(1140, 10, 10)),
        Aabb::new(v(1140, 0, 0), v(1160, 10, 10)),
        Aabb::new(v(1160, 0, 0), v(1180, 10, 10)),
        Aabb::new(v(1190, 0, 0), v(1210, 10, 10)),
    ];
    let mut data: Vec<BoundingData> = scene
        .iter()
        .enumerate()
        .map(|(i, b)| BoundingData::from_prim(b, i))
        .collect();
    let bounds = scene[1..]
        .iter()
        .fold(scene[0], |acc, b| Aabb::merge(acc, *b));
    // a centroid range starting well below every record: all records land
    // in the last of the twelve buckets
    let centre_bounds = Aabb::new(v(0, 5, 5), v(1200, 5, 5));
    let len = data.len();
    let mid = split(&bounds, &centre_bounds, 0, &mut data, 0, len);
    assert_eq!(mid, 0);
    assert_eq!(data.len(), 5);
}

#[test]
fn build_deep_scene_terminates_and_covers() {
    // a larger axis-aligned row of boxes exercises recursive splitting
    let mut prims: Vec<Aabb> = (0..64)
        .map(|i| Aabb::new(v(i * 10, 0, 0), v(i * 10 + 10, 10, 10)))
        .collect();
    let bvh = Bvh::new(&mut prims).unwrap();
    assert!(bvh.nodes.len() > 1);
    let mut leaves = Vec::new();
    check_subtree(&bvh.nodes, &prims, 0, &mut leaves);
    let total: usize = leaves.iter().map(|&(a, b)| b - a).sum();
    assert_eq!(total, 64);
    // a ray along the row reaches every primitive
    let ray = Ray::new(v(-5, 5, 5), v(1, 0, 0));
    let ranges = bvh.traverse(&ray);
    for i in 0..64usize {
        assert!(ranges.iter().any(|&(a, e)| a <= i && i < e));
    }
}
