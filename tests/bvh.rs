use raytracer::{nearest, AxisKeys, Bvh, Hit};

/// Integer boxes: lower and upper corner per primitive.
struct Scene {
    boxes: Vec<([u32; 3], [u32; 3])>,
}

impl Scene {
    fn keys(&self) -> Vec<AxisKeys> {
        self.boxes
            .iter()
            .map(|(lo, _)| AxisKeys { x: lo[0], y: lo[1], z: lo[2] })
            .collect()
    }

    fn union(&self, ids: &[usize]) -> ([u32; 3], [u32; 3]) {
        let mut lo = [u32::MAX; 3];
        let mut hi = [0; 3];
        for &i in ids {
            for a in 0..3 {
                lo[a] = lo[a].min(self.boxes[i].0[a]);
                hi[a] = hi[a].max(self.boxes[i].1[a]);
            }
        }
        (lo, hi)
    }

    fn extent(&self, ids: &Vec<usize>) -> AxisKeys {
        let (lo, hi) = self.union(ids);
        AxisKeys { x: hi[0] - lo[0], y: hi[1] - lo[1], z: hi[2] - lo[2] }
    }

    fn build(&self) -> Bvh {
        let keys = self.keys();
        Bvh::new(&keys, &|ids: &Vec<usize>| self.extent(ids))
    }
}

fn row_scene(n: u32) -> Scene {
    // Primitives spread along x, listed in reverse.
    Scene {
        boxes: (0..n).rev().map(|i| ([10 * i, 0, 0], [10 * i + 5, 1, 1])).collect(),
    }
}

fn check_shape(t: &Bvh, n: usize) {
    let mut sorted = t.order.clone();
    sorted.sort();
    assert_eq!(sorted, (0..n).collect::<Vec<_>>());
    let root = t.nodes.last().unwrap();
    assert_eq!((root.lo, root.hi), (0, n));
    for (i, nd) in t.nodes.iter().enumerate() {
        assert!(nd.lo < nd.hi && nd.hi <= n);
        match nd.children {
            None => assert!(nd.hi - nd.lo <= 2),
            Some((l, r)) => {
                assert!(l < i && r < i);
                let mid = nd.lo + (nd.hi - nd.lo) / 2;
                assert_eq!((t.nodes[l].lo, t.nodes[l].hi), (mid, nd.hi));
                assert_eq!((t.nodes[r].lo, t.nodes[r].hi), (nd.lo, mid));
            }
        }
    }
}

#[test]
fn bvh_of_one_primitive_is_a_leaf() {
    let s = row_scene(1);
    let t = s.build();
    assert_eq!(t.nodes.len(), 1);
    assert_eq!(t.order, vec![0]);
    assert_eq!((t.nodes[0].lo, t.nodes[0].hi, t.nodes[0].children), (0, 1, None));
}

#[test]
fn bvh_of_two_primitives_is_one_leaf_with_both() {
    let s = row_scene(2);
    let t = s.build();
    assert_eq!(t.nodes.len(), 1);
    assert_eq!(t.order, vec![0, 1]);
    assert_eq!(t.nodes[0].children, None);
}

#[test]
fn bvh_splits_sorted_halves() {
    let s = row_scene(5);
    let t = s.build();
    check_shape(&t, 5);
    let root = t.nodes.last().unwrap();
    assert_eq!(root.axis, raytracer::Dim::X);
    let (l, r) = root.children.unwrap();
    let keys = s.keys();
    let left_min = (t.nodes[l].lo..t.nodes[l].hi).map(|p| keys[t.order[p]].x).min().unwrap();
    let right_max = (t.nodes[r].lo..t.nodes[r].hi).map(|p| keys[t.order[p]].x).max().unwrap();
    assert!(right_max <= left_min);
    // Primitive 4 has the smallest x, so it lands in the lower half.
    assert!((t.nodes[r].lo..t.nodes[r].hi).any(|p| t.order[p] == 4));
}

#[test]
fn bvh_shape_holds_for_many_sizes() {
    for n in 1..40 {
        let s = Scene {
            boxes: (0..n)
                .map(|i| {
                    let x = (i * 37 % 23) as u32;
                    let y = (i * 11 % 17) as u32;
                    ([x, y, 0], [x + 2, y + 3, 1])
                })
                .collect(),
        };
        check_shape(&s.build(), n);
    }
}

#[test]
fn bvh_candidates_all_when_every_box_passes() {
    let t = row_scene(7).build();
    let mut c = t.candidates(&|_n: usize| true);
    c.sort();
    assert_eq!(c, (0..7).collect::<Vec<_>>());
}

#[test]
fn bvh_candidates_none_when_root_fails() {
    let t = row_scene(7).build();
    assert!(t.candidates(&|_n: usize| false).is_empty());
}

#[test]
fn bvh_candidates_skip_rejected_subtree() {
    let s = row_scene(6);
    let t = s.build();
    let (l, _) = t.nodes.last().unwrap().children.unwrap();
    let skipped: Vec<usize> = (t.nodes[l].lo..t.nodes[l].hi).map(|p| t.order[p]).collect();
    let c = t.candidates(&|n: usize| n != l);
    assert_eq!(c.len(), 6 - skipped.len());
    for p in skipped {
        assert!(!c.contains(&p));
    }
}

#[test]
fn bvh_nearest_matches_linear_scan() {
    // A ray along +x at height y = 4 hits a box where its y range holds 4;
    // the key of the hit is the box's lower x.
    let boxes: Vec<([u32; 3], [u32; 3])> = (0..30u32)
        .map(|i| {
            let x = (i * 53) % 97;
            let y = (i * 7) % 9;
            ([x, y, 0], [x + 4, y + 2, 1])
        })
        .collect();
    let s = Scene { boxes };
    let t = s.build();
    let ray_y = 4;
    let hit_of = |p: usize| {
        let (lo, hi) = s.boxes[p];
        if lo[1] <= ray_y && ray_y <= hi[1] {
            Some(Hit { prim: p, key: lo[0] })
        } else {
            None
        }
    };
    let linear: Vec<Hit> = (0..30).filter_map(hit_of).collect();
    let node_box = |n: usize| {
        let ids: Vec<usize> = (t.nodes[n].lo..t.nodes[n].hi).map(|p| t.order[p]).collect();
        let (lo, hi) = s.union(&ids);
        lo[1] <= ray_y && ray_y <= hi[1]
    };
    let found = t.candidates(&node_box);
    let through: Vec<Hit> = found.iter().filter_map(|&p| hit_of(p)).collect();
    let a = nearest(&linear, u32::MAX).map(|h| h.key);
    let b = nearest(&through, u32::MAX).map(|h| h.key);
    assert!(a.is_some());
    assert_eq!(a, b);
}
