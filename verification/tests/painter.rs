use gaussian_integral::painter::back_to_front;
use gaussian_integral::painter::depth_key;

fn keys_of(depths: &[f32]) -> Vec<u32> {
    depths.iter().map(|d| depth_key(d.to_bits())).collect()
}

#[test]
fn keys_of_known_bit_patterns() {
    assert_eq!(depth_key(0.0f32.to_bits()), 0x8000_0000);
    assert_eq!(depth_key((-0.0f32).to_bits()), 0x8000_0000);
    assert_eq!(depth_key(1.0f32.to_bits()), 0x8000_0000 + 0x3f80_0000);
    assert_eq!(depth_key((-1.0f32).to_bits()), 0x8000_0000 - 0x3f80_0000);
    assert_eq!(depth_key(f32::INFINITY.to_bits()), 0xff80_0000);
    assert_eq!(depth_key(f32::NEG_INFINITY.to_bits()), 0x0080_0000);
}

#[test]
fn keys_order_like_the_floats() {
    let xs = [
        f32::NEG_INFINITY, -1.0e30, -3.5, -1.0, -1.0e-40, -0.0, 0.0, 1.0e-40, 0.25, 1.0, 7.5,
        1.0e30, f32::INFINITY,
    ];
    for a in xs {
        for b in xs {
            let (ka, kb) = (depth_key(a.to_bits()), depth_key(b.to_bits()));
            assert_eq!(ka < kb, a < b);
            assert_eq!(ka == kb, a == b);
        }
    }
}

#[test]
fn empty_mesh_has_empty_order() {
    assert!(back_to_front(&Vec::new()).is_empty());
}

#[test]
fn farthest_faces_come_first() {
    let keys = keys_of(&[1.0, 5.0, 3.0, 4.0]);
    assert_eq!(back_to_front(&keys), vec![1, 3, 2, 0]);
}

#[test]
fn ties_keep_mesh_order() {
    let keys = keys_of(&[2.0, 9.0, 2.0, 9.0, 2.0]);
    assert_eq!(back_to_front(&keys), vec![1, 3, 0, 2, 4]);
}

#[test]
fn matches_a_stable_descending_sort() {
    let mut depths = Vec::new();
    let mut x: u32 = 12345;
    for _ in 0..500 {
        x = x.wrapping_mul(1103515245).wrapping_add(12345);
        depths.push(((x >> 16) % 37) as f32 * 0.5);
    }
    let order = back_to_front(&keys_of(&depths));
    let mut expected: Vec<usize> = (0..depths.len()).collect();
    expected.sort_by(|&a, &b| depths[b].partial_cmp(&depths[a]).unwrap());
    assert_eq!(order, expected);
}

#[test]
fn nan_depths_sort_by_their_sign() {
    let pos_nan = f32::NAN.to_bits() & 0x7fff_ffff;
    let neg_nan = pos_nan | 0x8000_0000;
    assert!(depth_key(pos_nan) > depth_key(f32::INFINITY.to_bits()));
    assert!(depth_key(neg_nan) < depth_key(f32::NEG_INFINITY.to_bits()));
    let keys = vec![depth_key(1.0f32.to_bits()), depth_key(pos_nan), depth_key(2.0f32.to_bits())];
    assert_eq!(back_to_front(&keys), vec![1, 2, 0]);
}

#[test]
fn large_mesh_is_sorted_stably() {
    let n = 6400;
    let depths: Vec<f32> = (0..n).map(|k| ((k * 7919) % 101) as f32 * 0.125).collect();
    let order = back_to_front(&keys_of(&depths));
    let mut expected: Vec<usize> = (0..n).collect();
    expected.sort_by(|&a, &b| depths[b].partial_cmp(&depths[a]).unwrap());
    assert_eq!(order, expected);
}
