use largest_dirs::size::{format_size, unit_for, Unit};

/// What fixed-point printing of a double gives for the same count.
fn by_double(size: u64) -> String {
    let kb: f64 = 1024.0;
    let mb: f64 = kb * 1024.0;
    let gb: f64 = mb * 1024.0;
    let tb: f64 = gb * 1024.0;
    let (value, unit) = if size >= tb as u64 {
        (size as f64 / tb, "TB")
    } else if size >= gb as u64 {
        (size as f64 / gb, "GB")
    } else if size >= mb as u64 {
        (size as f64 / mb, "MB")
    } else if size >= kb as u64 {
        (size as f64 / kb, "kB")
    } else {
        (size as f64, "B")
    };
    format!("{:.3} {}", value, unit)
}

#[test]
fn zero_bytes() {
    assert_eq!(format_size(0), "0.000 B");
}

#[test]
fn one_and_a_half_kilobytes() {
    assert_eq!(format_size(1536), "1.500 kB");
}

#[test]
fn one_gigabyte() {
    assert_eq!(format_size(1073741824), "1.000 GB");
}

#[test]
fn one_terabyte() {
    assert_eq!(format_size(1099511627776), "1.000 TB");
}

#[test]
fn one_and_a_half_megabytes() {
    assert_eq!(format_size(1572864), "1.500 MB");
}

#[test]
fn below_a_kilobyte_stays_in_bytes() {
    assert_eq!(format_size(1), "1.000 B");
    assert_eq!(format_size(500), "500.000 B");
    assert_eq!(format_size(1023), "1023.000 B");
}

#[test]
fn thresholds_are_powers_of_1024() {
    assert_eq!(format_size(1000), "1000.000 B");
    assert_eq!(format_size(1024), "1.000 kB");
    assert_eq!(format_size(1048575), "1023.999 kB");
    assert_eq!(format_size(1048576), "1.000 MB");
    assert_eq!(format_size(1073741823), "1024.000 MB");
    assert_eq!(format_size(1099511627775), "1024.000 GB");
}

#[test]
fn units_by_size() {
    assert_eq!(unit_for(0), Unit::B);
    assert_eq!(unit_for(1023), Unit::B);
    assert_eq!(unit_for(1024), Unit::KB);
    assert_eq!(unit_for(1048576), Unit::MB);
    assert_eq!(unit_for(1073741824), Unit::GB);
    assert_eq!(unit_for(1099511627776), Unit::TB);
    assert_eq!(unit_for(u64::MAX), Unit::TB);
    assert_eq!(Unit::KB.bytes(), 1024);
    assert_eq!(Unit::TB.bytes(), 1099511627776);
    assert_eq!(Unit::KB.label(), "kB");
    assert_eq!(Unit::B.label(), "B");
}

#[test]
fn a_tie_goes_to_the_even_thousandth() {
    // 1088 / 1024 = 1.0625 and 1120 / 1024 = 1.09375: the first lies
    // halfway between two thousandths, the second does not.
    assert_eq!(format_size(1088), "1.062 kB");
    assert_eq!(format_size(1120), "1.094 kB");
    // 1216 / 1024 = 1.1875: halfway again, now with an odd neighbour below.
    assert_eq!(format_size(1216), "1.188 kB");
}

#[test]
fn rounding_carries_into_the_whole_part() {
    // 2047 / 1024 = 1.99902...
    assert_eq!(format_size(2047), "1.999 kB");
    // 2097151 / 1048576 = 1.99999904...
    assert_eq!(format_size(2 * 1048576 - 1), "2.000 MB");
    // 1073741823 / 1048576 = 1023.99999904...
    assert_eq!(format_size(1073741823), "1024.000 MB");
}

#[test]
fn the_largest_count() {
    assert_eq!(format_size(u64::MAX), "16777216.000 TB");
    assert_eq!(format_size(u64::MAX), by_double(u64::MAX));
}

#[test]
fn agrees_with_a_double_on_small_counts() {
    let mut size: u64 = 0;
    while size < 70000 {
        assert_eq!(format_size(size), by_double(size), "size {}", size);
        size += 1;
    }
}

#[test]
fn agrees_with_a_double_around_powers_of_two() {
    let mut bit: u32 = 0;
    while bit < 64 {
        let base: u64 = 1u64 << bit;
        let mut delta: u64 = 0;
        while delta < 3000 {
            let up = base.saturating_add(delta);
            let down = base.saturating_sub(delta);
            assert_eq!(format_size(up), by_double(up), "size {}", up);
            assert_eq!(format_size(down), by_double(down), "size {}", down);
            delta += 1;
        }
        bit += 1;
    }
}

#[test]
fn agrees_with_a_double_on_scattered_counts() {
    // A multiplicative walk through the whole range of counts.
    let mut size: u64 = 1;
    let mut step: u64 = 0;
    while step < 200000 {
        size = size.wrapping_mul(6364136223846793005).wrapping_add(1442695040888963407);
        let shifted = size >> (step % 64);
        assert_eq!(format_size(shifted), by_double(shifted), "size {}", shifted);
        step += 1;
    }
}

#[test]
fn agrees_with_a_double_where_precision_ends() {
    // Beyond two to the power 53 a double no longer holds every count.
    let limit: u64 = 1u64 << 53;
    let mut around: u64 = limit - 5000;
    while around < limit + 5000 {
        assert_eq!(format_size(around), by_double(around), "size {}", around);
        around += 1;
    }
}

#[test]
fn agrees_with_a_double_next_to_the_thousandths() {
    // The counts halfway between two thousandths of a terabyte, from two
    // to the power 53 up to the largest count: next to them the rounding
    // of the count decides which thousandth is shown.
    let mut t: u128 = 0;
    while t < 2000 {
        let m: u128 = 8_192_000 + t * 8_384_000;
        let edge = ((2 * m + 1) * (1u128 << 36) / 125) as u64;
        let mut around: u64 = edge.saturating_sub(2100);
        let end: u64 = edge.saturating_add(2100);
        while around < end {
            assert_eq!(format_size(around), by_double(around), "size {}", around);
            around += 1;
        }
        t += 1;
    }
}

#[test]
fn the_rounding_of_the_count_shows() {
    // 36662116266318757 bytes are a little less than 33344.0005 TB, but
    // the nearest count that a double holds is a little more.
    assert_eq!(format_size(36662116266318757), "33344.001 TB");
    assert_eq!(format_size(36662116266318757), by_double(36662116266318757));
    assert_eq!(format_size(36662116266318756), "33344.000 TB");
}
