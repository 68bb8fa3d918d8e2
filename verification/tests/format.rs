use spirit::peers::{format_age, format_bytes};

fn float_format(bytes: u64) -> String {
    const KIB: f64 = 1024.0;
    const MIB: f64 = KIB * 1024.0;
    const GIB: f64 = MIB * 1024.0;
    let value = bytes as f64;
    if value >= GIB {
        format!("{:.2} GiB", value / GIB)
    } else if value >= MIB {
        format!("{:.2} MiB", value / MIB)
    } else if value >= KIB {
        format!("{:.1} KiB", value / KIB)
    } else {
        format!("{bytes} B")
    }
}

#[test]
fn human_byte_formatting_crosses_each_unit() {
    assert_eq!(format_bytes(512), "512 B");
    assert_eq!(format_bytes(2_048), "2.0 KiB");
    assert_eq!(format_bytes(17 * 1024 * 1024), "17.00 MiB");
}

#[test]
fn byte_formatting_rounds_as_the_double_does() {
    let mut samples: Vec<u64> = vec![
        0, 1, 1023, 1024, 1280, 1792, 1331, 1229, 1_048_575, 1_048_576, 1_179_648, 1_441_792,
        1_310_720, 1_073_741_823, 1_073_741_824, 1_207_959_552, 3_221_225_472, u64::MAX,
        u64::MAX - 1, 1 << 53, (1 << 53) + 1, (1 << 53) + 3, (1 << 60) + 12345, 999_999_999_999,
    ];
    let mut x: u64 = 0x9E37_79B9_7F4A_7C15;
    for _ in 0..20_000 {
        x ^= x << 13;
        x ^= x >> 7;
        x ^= x << 17;
        samples.push(x >> (x % 64));
        samples.push(x % 4_000_000);
    }
    for n in samples {
        assert_eq!(format_bytes(n), float_format(n), "for {n}");
    }
}

#[test]
fn ages_read_in_the_largest_whole_unit() {
    let second: u128 = 1_000_000_000;
    let now: u128 = 1_700_000_000 * second;
    assert_eq!(format_age(now, now), "just now");
    assert_eq!(format_age(now + 5 * second, now), "just now");
    assert_eq!(format_age(now - second, now), "just now");
    assert_eq!(format_age(now - 2 * second, now), "2s ago");
    assert_eq!(format_age(now - 59 * second, now), "59s ago");
    assert_eq!(format_age(now - 60 * second, now), "1m ago");
    assert_eq!(format_age(now - 3599 * second, now), "59m ago");
    assert_eq!(format_age(now - 3600 * second, now), "1h ago");
    assert_eq!(format_age(now - 86_399 * second, now), "23h ago");
    assert_eq!(format_age(now - 3 * 86_400 * second, now), "3d ago");
}
