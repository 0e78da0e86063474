use raytracer::{PerlinHash, POINT_COUNT};

fn is_perm(p: &[usize]) -> bool {
    let mut seen = vec![false; POINT_COUNT];
    for &v in p {
        if v >= POINT_COUNT || seen[v] {
            return false;
        }
        seen[v] = true;
    }
    p.len() == POINT_COUNT
}

#[test]
fn perlin_tables_are_permutations() {
    let h = PerlinHash::new();
    assert!(is_perm(&h.perm_x));
    assert!(is_perm(&h.perm_y));
    assert!(is_perm(&h.perm_z));
}

#[test]
fn perlin_tables_are_shuffled() {
    let h = PerlinHash::new();
    let identity: Vec<usize> = (0..POINT_COUNT).collect();
    // The chance that a shuffle of 256 places leaves them all is negligible.
    assert!(h.perm_x != identity || h.perm_y != identity || h.perm_z != identity);
}

#[test]
fn perlin_hash_xors_the_three_tables() {
    let h = PerlinHash::new();
    assert_eq!(h.hash(3, 4, 5), h.perm_x[3] ^ h.perm_y[4] ^ h.perm_z[5]);
    assert_eq!(h.hash(-1, 256, 513), h.perm_x[255] ^ h.perm_y[0] ^ h.perm_z[1]);
    assert_eq!(h.hash(i64::MIN, i64::MAX, -256), h.perm_x[0] ^ h.perm_y[255] ^ h.perm_z[0]);
    assert!(h.hash(100, -100, 7) < POINT_COUNT);
}

#[test]
fn perlin_corners_follow_cube_order() {
    let h = PerlinHash::new();
    let c = h.corners(10, -1, 255);
    assert_eq!(c.len(), 8);
    for n in 0..8i64 {
        let expected = h.hash(10 + n / 4, -1 + (n / 2) % 2, 255 + n % 2);
        assert_eq!(c[n as usize], expected);
    }
    assert_eq!(c[7], h.perm_x[11] ^ h.perm_y[0] ^ h.perm_z[0]);
}
