use codexsmtui::display::human_size;

/// The size text as the float formatting writes it.
fn by_float(size: u64) -> String {
    const KB: f64 = 1024.0;
    const MB: f64 = KB * 1024.0;
    if size < 1024 {
        format!("{size} B")
    } else if size < 1024 * 1024 {
        format!("{:.1} KB", size as f64 / KB)
    } else {
        format!("{:.1} MB", size as f64 / MB)
    }
}

#[test]
fn sizes_have_their_unit() {
    assert_eq!(human_size(0), "0 B");
    assert_eq!(human_size(1023), "1023 B");
    assert_eq!(human_size(1024), "1.0 KB");
    assert_eq!(human_size(1536), "1.5 KB");
    assert_eq!(human_size(1024 * 1024 - 1), "1024.0 KB");
    assert_eq!(human_size(1024 * 1024), "1.0 MB");
    assert_eq!(human_size(5 * 1024 * 1024 + 512 * 1024), "5.5 MB");
}

#[test]
fn halves_round_to_an_even_digit() {
    // 1280 bytes are 1.25 KB exactly, 3840 bytes 3.75 KB.
    assert_eq!(human_size(1280), by_float(1280));
    assert_eq!(human_size(3840), by_float(3840));
    assert_eq!(human_size(1280), "1.2 KB");
    assert_eq!(human_size(3840), "3.8 KB");
}

#[test]
fn sizes_match_float_formatting() {
    let mut size: u64 = 0;
    while size < 3 * 1024 * 1024 {
        assert_eq!(human_size(size), by_float(size), "size {size}");
        size += 37;
    }
    for k in 0..4096u64 {
        let size = 1024 + k * 128;
        assert_eq!(human_size(size), by_float(size), "size {size}");
        let size = 1024 * 1024 + k * 131072;
        assert_eq!(human_size(size), by_float(size), "size {size}");
    }
}

#[test]
fn huge_sizes_round_like_doubles() {
    let mut cases = vec![u64::MAX, u64::MAX - 1, 1 << 63, (1 << 63) + 1024, (1 << 63) + 1025];
    for shift in 52..64 {
        let base: u64 = 1 << shift;
        for delta in [0u64, 1, 2, 3, 511, 512, 513, 1023, 1024, 1025, 2047, 2048] {
            cases.push(base.wrapping_add(delta));
            cases.push(base.wrapping_sub(delta));
        }
    }
    for size in cases {
        assert_eq!(human_size(size), by_float(size), "size {size}");
    }
}
