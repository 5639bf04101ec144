use space_filling::hilbert::{rotate, Hilbert};
use space_filling::{Error, SpaceFilling};

const TEST_CASES: &[(u32, u32, u32)] = &[
    (0, 0, 0),
    (16, 4, 0),
    (32, 4, 4),
    (48, 3, 7),
    (64, 0, 8),
    (80, 0, 12),
    (96, 4, 12),
    (112, 7, 11),
    (128, 8, 8),
    (144, 8, 12),
    (160, 12, 12),
    (170, 15, 15),
    (176, 15, 11),
    (192, 15, 7),
    (208, 11, 7),
    (224, 11, 3),
    (240, 12, 0),
    (255, 15, 0),
];

#[test]
fn test_new_errors() {
    let new_test_cases = &[
        (0, Error::NotPositive),
        (3, Error::NotPowerOfTwo),
        (5, Error::NotPowerOfTwo),
    ];

    for (n, e) in new_test_cases {
        assert_eq!(Hilbert::new(*n).err().unwrap(), *e);
    }
}

#[test]
fn test_map_range_errors() {
    let test_cases = &[(0, None), (255, None), (256, Some(Error::OutOfRange))];

    let h = Hilbert::new(16).unwrap();

    for (n, e) in test_cases {
        assert_eq!(h.map(*n).err(), *e);
    }
}

#[test]
fn test_map_inverse_range_errors() {
    let test_cases = &[
        (0, 0, None),
        (15, 15, None),
        (16, 15, Some(Error::OutOfRange)),
        (15, 16, Some(Error::OutOfRange)),
    ];

    let h = Hilbert::new(16).unwrap();

    for (x, y, e) in test_cases {
        assert_eq!(h.map_inverse(*x, *y).err(), *e);
    }
}

#[test]
fn test_small_map() {
    let h = Hilbert::new(1).unwrap();
    assert_eq!(h.map(0), Ok((0, 0)));
    assert_eq!(h.map_inverse(0, 0), Ok(0));
}

#[test]
fn test_all_map_values() {
    let h = Hilbert::new(16).unwrap();

    for d in 0..h.size() {
        let (x, y) = h.map(d).unwrap();
        assert!(x < h.dimensions().0);
        assert!(y < h.dimensions().0);
        assert_eq!(d, h.map_inverse(x, y).unwrap());
    }
}

#[test]
fn test_map() {
    let h: Hilbert = Hilbert::new(16).unwrap();

    for (d, x, y) in TEST_CASES {
        assert_eq!(h.map(*d).unwrap(), (*x, *y));
    }
}

#[test]
fn test_map_inverse() {
    let h: Hilbert = Hilbert::new(16).unwrap();

    for (d, x, y) in TEST_CASES {
        assert_eq!(h.map_inverse(*x, *y).unwrap(), *d);
    }
}

#[test]
fn new_accepts_powers_of_two() {
    let mut n: u32 = 1;
    loop {
        let h = Hilbert::new(n).unwrap();
        assert_eq!(h.dimensions(), (n, n));
        if n == 1 << 31 {
            break;
        }
        n *= 2;
    }
    assert!(Hilbert::new(16).is_ok());
}

#[test]
fn new_rejects_other_sizes() {
    assert_eq!(Hilbert::new(0).err(), Some(Error::NotPositive));
    for n in [3u32, 5, 6, 7, 9, 12, 15, 17, 1000, 65535, 65537, u32::MAX] {
        assert_eq!(Hilbert::new(n).err(), Some(Error::NotPowerOfTwo));
    }
}

#[test]
fn degenerate_curve() {
    let h = Hilbert::new(1).unwrap();
    assert_eq!(h.map(0), Ok((0, 0)));
    assert_eq!(h.map_inverse(0, 0), Ok(0));
    assert_eq!(h.size(), 1);
    assert_eq!(h.dimensions(), (1, 1));
    assert_eq!(h.map(1), Err(Error::OutOfRange));
    assert_eq!(h.map_inverse(1, 0), Err(Error::OutOfRange));
    assert_eq!(h.map_inverse(0, 1), Err(Error::OutOfRange));
}

#[test]
fn curve_of_side_two() {
    let h = Hilbert::new(2).unwrap();
    assert_eq!(h.size(), 4);
    assert_eq!(h.map(0), Ok((0, 0)));
    assert_eq!(h.map(1), Ok((0, 1)));
    assert_eq!(h.map(2), Ok((1, 1)));
    assert_eq!(h.map(3), Ok((1, 0)));
    assert_eq!(h.map(4), Err(Error::OutOfRange));
    assert_eq!(h.map_inverse(0, 0), Ok(0));
    assert_eq!(h.map_inverse(0, 1), Ok(1));
    assert_eq!(h.map_inverse(1, 1), Ok(2));
    assert_eq!(h.map_inverse(1, 0), Ok(3));
}

#[test]
fn known_points_both_ways() {
    let h = Hilbert::new(16).unwrap();
    for (t, x, y) in [(0u32, 0u32, 0u32), (16, 4, 0), (128, 8, 8), (255, 15, 0)] {
        assert_eq!(h.map(t), Ok((x, y)));
        assert_eq!(h.map_inverse(x, y), Ok(t));
    }
}

#[test]
fn call_time_bounds() {
    let h = Hilbert::new(16).unwrap();
    assert_eq!(h.map(256), Err(Error::OutOfRange));
    assert_eq!(h.map(u32::MAX), Err(Error::OutOfRange));
    assert!(h.map(255).is_ok());
    assert_eq!(h.map_inverse(16, 15), Err(Error::OutOfRange));
    assert_eq!(h.map_inverse(15, 16), Err(Error::OutOfRange));
    assert_eq!(h.map_inverse(16, 16), Err(Error::OutOfRange));
    assert!(h.map_inverse(15, 15).is_ok());
}

#[test]
fn every_cell_is_visited_once() {
    let h = Hilbert::new(16).unwrap();
    let mut seen = vec![false; 256];
    for t in 0..256u32 {
        let (x, y) = h.map(t).unwrap();
        assert!(x < 16 && y < 16);
        let at = (y * 16 + x) as usize;
        assert!(!seen[at]);
        seen[at] = true;
        assert_eq!(h.map_inverse(x, y), Ok(t));
    }
    assert!(seen.iter().all(|s| *s));
}

#[test]
fn every_cell_maps_back() {
    let h = Hilbert::new(16).unwrap();
    for x in 0..16u32 {
        for y in 0..16u32 {
            let t = h.map_inverse(x, y).unwrap();
            assert!(t < 256);
            assert_eq!(h.map(t), Ok((x, y)));
        }
    }
}

#[test]
fn consecutive_distances_are_adjacent() {
    let h = Hilbert::new(16).unwrap();
    for t in 0..255u32 {
        let (x0, y0) = h.map(t).unwrap();
        let (x1, y1) = h.map(t + 1).unwrap();
        let dx = if x0 > x1 { x0 - x1 } else { x1 - x0 };
        let dy = if y0 > y1 { y0 - y1 } else { y1 - y0 };
        assert_eq!(dx.max(dy), 1);
        assert_eq!(dx + dy, 1);
    }
}

#[test]
fn curve_runs_from_corner_to_corner() {
    for n in [1u32, 2, 4, 8, 16, 32, 64] {
        let h = Hilbert::new(n).unwrap();
        assert_eq!(h.map(0), Ok((0, 0)));
        assert_eq!(h.map(n * n - 1), Ok((n - 1, 0)));
    }
}

#[test]
fn size_and_dimensions() {
    let h = Hilbert::new(16).unwrap();
    assert_eq!(h.size(), 256);
    assert_eq!(h.dimensions(), (16, 16));
    let big = Hilbert::new(32768).unwrap();
    assert_eq!(big.size(), 1 << 30);
    assert_eq!(big.dimensions(), (32768, 32768));
}

#[test]
fn largest_grid_whose_distances_fit() {
    let h = Hilbert::new(65536).unwrap();
    assert_eq!(h.map(0), Ok((0, 0)));
    assert_eq!(h.map(u32::MAX), Ok((65535, 0)));
    assert_eq!(h.map_inverse(65535, 0), Ok(u32::MAX));
    assert_eq!(h.map_inverse(65536, 0), Err(Error::OutOfRange));
    for t in [1u32, 2, 3, 4, 1000, 65535, 65536, 1 << 20, 0x8000_0000, 0xDEAD_BEEF] {
        let (x, y) = h.map(t).unwrap();
        assert!(x < 65536 && y < 65536);
        assert_eq!(h.map_inverse(x, y), Ok(t));
    }
}

#[test]
fn grid_larger_than_the_distances() {
    let h = Hilbert::new(1 << 31).unwrap();
    assert_eq!(h.map(0), Ok((0, 0)));
    assert_eq!(h.map(u32::MAX), Ok((0, 65535)));
    assert_eq!(h.map(3), Ok((1, 0)));
}

#[test]
fn rotate_leaves_upper_quadrants() {
    assert_eq!(rotate(4, 1, 2, false, true), (1, 2));
    assert_eq!(rotate(4, 1, 2, true, true), (1, 2));
}

#[test]
fn rotate_transposes_and_reflects() {
    assert_eq!(rotate(4, 1, 2, false, false), (2, 1));
    assert_eq!(rotate(4, 1, 2, true, false), (1, 2));
    assert_eq!(rotate(4, 0, 3, true, false), (0, 3));
    assert_eq!(rotate(4, 1, 3, true, false), (0, 2));
    assert_eq!(rotate(8, 0, 0, true, false), (7, 7));
    assert_eq!(rotate(1, 0, 0, true, false), (0, 0));
}
