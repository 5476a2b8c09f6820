use ferrumdb::units::format_bytes;

fn float_format(bytes: u64) -> String {
    if bytes < 1024 {
        format!("{} B", bytes)
    } else if bytes < 1024 * 1024 {
        format!("{:.1} KB", bytes as f64 / 1024.0)
    } else {
        format!("{:.1} MB", bytes as f64 / (1024.0 * 1024.0))
    }
}

#[test]
fn format_bytes_examples() {
    assert_eq!(format_bytes(0), "0 B");
    assert_eq!(format_bytes(1023), "1023 B");
    assert_eq!(format_bytes(1024), "1.0 KB");
    assert_eq!(format_bytes(1536), "1.5 KB");
    assert_eq!(format_bytes(1048576), "1.0 MB");
    assert_eq!(format_bytes(5 * 1048576 + 524288), "5.5 MB");
}

#[test]
fn format_bytes_agrees_with_float_formatting() {
    let mut samples: Vec<u64> = (0..5000).collect();
    samples.extend((1000..200_000).step_by(37));
    samples.extend([1280, 1332, 3840, 1048575, 1048576, 1153434, 1205862, 1258291]);
    let mut x: u64 = 1;
    while x < u64::MAX / 3 {
        samples.extend([x, x + 1, x.wrapping_sub(1), x * 3 / 2, x + x / 20]);
        x *= 2;
    }
    samples.extend([u64::MAX, u64::MAX - 1, (1u64 << 53) + 1, (1u64 << 53) + 3, (1u64 << 60) + 12345]);
    let mut seed: u64 = 0x9E3779B97F4A7C15;
    for _ in 0..20000 {
        seed ^= seed << 13;
        seed ^= seed >> 7;
        seed ^= seed << 17;
        samples.push(seed >> (seed % 60));
    }
    for b in samples {
        assert_eq!(format_bytes(b), float_format(b), "bytes = {}", b);
    }
}
