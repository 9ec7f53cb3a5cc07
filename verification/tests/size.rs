use psi_ask::size::human;

fn by_floats(bytes: u64) -> String {
    let units = ["B", "K", "M", "G", "T"];
    let mut v = bytes as f64;
    let mut u = 0;
    while v >= 1024.0 && u < units.len() - 1 {
        v /= 1024.0;
        u += 1;
    }
    format!("{:.1}{}", v, units[u])
}

#[test]
fn sizes_for_people() {
    assert_eq!(human(0), "0.0B");
    assert_eq!(human(1023), "1023.0B");
    assert_eq!(human(1024), "1.0K");
    assert_eq!(human(1536), "1.5K");
    assert_eq!(human(1_048_575), "1024.0K");
    assert_eq!(human(5 * 1024 * 1024 * 1024), "5.0G");
    assert_eq!(human(u64::MAX), "16777216.0T");
}

#[test]
fn sizes_are_those_of_floating_point() {
    for n in 0..70_000u64 {
        assert_eq!(human(n), by_floats(n), "{}", n);
    }
    for bit in 0..64 {
        for d in 0..3000u64 {
            let n = (1u64 << bit).wrapping_add(d);
            assert_eq!(human(n), by_floats(n), "{}", n);
            let n = (1u64 << bit).wrapping_sub(d);
            assert_eq!(human(n), by_floats(n), "{}", n);
        }
    }
    // halves between two tenths
    for unit in [1u64 << 10, 1 << 20, 1 << 30, 1 << 40] {
        for k in 0..200u64 {
            let n = unit + unit / 20 * k + unit / 4;
            assert_eq!(human(n), by_floats(n), "{}", n);
        }
        assert_eq!(human(unit + unit / 4), by_floats(unit + unit / 4));
        assert_eq!(human(unit + unit / 4 * 3), by_floats(unit + unit / 4 * 3));
    }
    let mut seed: u64 = 1;
    for _ in 0..100_000 {
        seed = seed.wrapping_mul(6364136223846793005).wrapping_add(1442695040888963407);
        let n = seed >> (seed % 64);
        assert_eq!(human(n), by_floats(n), "{}", n);
    }
}

#[test]
fn the_next_unit_keeps_the_number() {
    for n in [1u64, 7, 1023, 1024, 1075, 999_999, 123_456_789, (1 << 40) - 1] {
        let (a, b) = (human(n), human(n * 1024));
        assert_eq!(a[..a.len() - 1], b[..b.len() - 1]);
        assert_ne!(a, b);
    }
}
