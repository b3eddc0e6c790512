use slowrm_lib::{Correction, Size, Unit};

fn bits(v: f64) -> u64 {
    v.to_bits()
}

fn value(b: u64) -> f64 {
    f64::from_bits(b)
}

#[test]
fn bytes() {
    let size = Size::bytes(42);
    assert_eq!(size.as_bytes(), 42);
    assert_eq!(size.to_string(), "42B");
}

#[test]
fn kilobytes() {
    let size = Size::kilobytes(bits(42.0));
    assert_eq!(value(size.as_kilobytes()), 42.0);
    assert_eq!(size.as_bytes(), 42 * 1024);
    assert_eq!(size.to_string(), "42KB");
}

#[test]
fn megabytes() {
    let size = Size::megabytes(bits(42.0));
    assert_eq!(value(size.as_megabytes()), 42.0);
    assert_eq!(value(size.as_kilobytes()), 42.0 * 1024.0);
    assert_eq!(size.as_bytes(), 42 * 1024 * 1024);
    assert_eq!(size.to_string(), "42MB");
}

#[test]
fn gigabytes() {
    let size = Size::gigabytes(bits(42.0));
    assert_eq!(value(size.as_gigabytes()), 42.0);
    assert_eq!(value(size.as_megabytes()), 42.0 * 1024.0);
    assert_eq!(value(size.as_kilobytes()), 42.0 * 1024.0 * 1024.0);
    assert_eq!(size.as_bytes(), 42 * 1024 * 1024 * 1024);
    assert_eq!(size.to_string(), "42GB");
}

#[test]
fn terabytes() {
    let size = Size::terabytes(bits(42.0));
    assert_eq!(value(size.as_terabytes()), 42.0);
    assert_eq!(value(size.as_gigabytes()), 42.0 * 1024.0);
    assert_eq!(value(size.as_megabytes()), 42.0 * 1024.0 * 1024.0);
    assert_eq!(value(size.as_kilobytes()), 42.0 * 1024.0 * 1024.0 * 1024.0);
    assert_eq!(size.as_bytes(), 42 * 1024 * 1024 * 1024 * 1024);
    assert_eq!(size.to_string(), "42TB");
}

#[test]
fn to_string() {
    let size = Size::gigabytes(bits(4.0)) + Size::terabytes(bits(5.0));
    assert_eq!(size.to_string(), "5.004TB");
}

#[test]
fn bytes_round_trip_values() {
    for b in [0u64, 1, 1023, 1024, 123_456_789, u64::MAX] {
        assert_eq!(Size::bytes(b).as_bytes(), b);
    }
}

#[test]
fn unit_round_trip_values() {
    for unit in [Unit::Kilobytes, Unit::Megabytes, Unit::Gigabytes, Unit::Terabytes] {
        for v in [0.0, 1.0, 1.5, 42.0, 1000.25] {
            let size = Size::from_unit(unit, bits(v));
            assert_eq!(value(size.as_unit(unit)), v);
        }
    }
}

#[test]
fn fractional_quantity_reads_back_rounded_down() {
    let size = Size::kilobytes(bits(0.3));
    assert_eq!(size.as_bytes(), 307);
    let back = value(size.as_kilobytes());
    assert_eq!(back, 307.0 / 1024.0);
    assert!(back <= 0.3 && 0.3 - back < 1.0 / 1024.0);
}

#[test]
fn fractional_quantity_is_truncated() {
    assert_eq!(Size::kilobytes(bits(1.5)).as_bytes(), 1536);
    assert_eq!(Size::kilobytes(bits(0.0001)).as_bytes(), 0);
    assert_eq!(Size::kilobytes(bits(0.5009765625)).as_bytes(), 513);
}

#[test]
fn negative_quantity_is_zero() {
    for unit in [Unit::Kilobytes, Unit::Megabytes, Unit::Gigabytes, Unit::Terabytes] {
        let (size, correction) = Size::from_unit_checked(unit, bits(-3.0));
        assert_eq!(size.as_bytes(), 0);
        assert_eq!(correction, Some(Correction::Negative));
    }
    let (size, correction) = Size::from_unit_checked(Unit::Kilobytes, bits(f64::NEG_INFINITY));
    assert_eq!(size.as_bytes(), 0);
    assert_eq!(correction, Some(Correction::Negative));
}

#[test]
fn too_large_quantity_is_max() {
    let (size, correction) = Size::from_unit_checked(Unit::Terabytes, bits(20_000_000.0));
    assert_eq!(size.as_bytes(), u64::MAX);
    assert_eq!(correction, Some(Correction::TooLarge));
    let (size, correction) = Size::from_unit_checked(Unit::Kilobytes, bits(f64::INFINITY));
    assert_eq!(size.as_bytes(), u64::MAX);
    assert_eq!(correction, Some(Correction::TooLarge));
    let (size, correction) = Size::from_unit_checked(Unit::Kilobytes, bits(f64::MAX));
    assert_eq!(size.as_bytes(), u64::MAX);
    assert_eq!(correction, Some(Correction::TooLarge));
}

#[test]
fn quantity_of_exactly_two_to_the_64_bytes() {
    let (size, correction) = Size::from_unit_checked(Unit::Terabytes, bits(16_777_216.0));
    assert_eq!(size.as_bytes(), u64::MAX);
    assert_eq!(correction, Some(Correction::TooLarge));
    let (size, correction) = Size::from_unit_checked(Unit::Terabytes, bits(16_777_215.0));
    assert_eq!(size.as_bytes(), u64::MAX - ((1 << 40) - 1));
    assert_eq!(correction, None);
}

#[test]
fn uncorrected_quantities() {
    let (size, correction) = Size::from_unit_checked(Unit::Gigabytes, bits(2.0));
    assert_eq!(size.as_bytes(), 2 * 1024 * 1024 * 1024);
    assert_eq!(correction, None);
    let (size, correction) = Size::from_unit_checked(Unit::Kilobytes, bits(-0.0));
    assert_eq!(size.as_bytes(), 0);
    assert_eq!(correction, None);
    let (size, correction) = Size::from_unit_checked(Unit::Kilobytes, bits(f64::NAN));
    assert_eq!(size.as_bytes(), 0);
    assert_eq!(correction, None);
    let (size, correction) = Size::from_unit_checked(Unit::Kilobytes, bits(f64::MIN_POSITIVE / 4.0));
    assert_eq!(size.as_bytes(), 0);
    assert_eq!(correction, None);
}

#[test]
fn display_picks_largest_unit() {
    assert_eq!(Size::bytes(0).to_string(), "0B");
    assert_eq!(Size::bytes(1023).to_string(), "1023B");
    assert_eq!(Size::bytes(1024).to_string(), "1KB");
    assert_eq!(Size::bytes(1536).to_string(), "1.5KB");
    assert_eq!(Size::bytes(1024 * 1024 - 1).to_string(), "1023.999KB");
    assert_eq!(Size::bytes(1024 * 1024).to_string(), "1MB");
    assert_eq!(Size::bytes(1 << 30).to_string(), "1GB");
    assert_eq!(Size::bytes(1 << 40).to_string(), "1TB");
    assert_eq!(Size::bytes(u64::MAX).to_string(), "16777216TB");
}

#[test]
fn display_rounds_half_to_even() {
    assert_eq!(Size::bytes(1088).to_string(), "1.062KB");
    assert_eq!(Size::bytes(1024 + 1024 * 3 / 4 + 64).to_string(), "1.812KB");
    assert_eq!(Size::bytes(1024 + 1).to_string(), "1.001KB");
    assert_eq!(Size::bytes(1024 * 1024 + 1024 * 102).to_string(), "1.1MB");
}

#[test]
fn large_sizes_convert_to_nearest_binary64() {
    assert_eq!(value(Size::bytes(u64::MAX).as_terabytes()), 16_777_216.0);
    assert_eq!(value(Size::bytes(0).as_kilobytes()), 0.0);
    assert_eq!(value(Size::bytes((1 << 53) + 1).as_kilobytes()), (1u64 << 43) as f64);
    assert_eq!(value(Size::bytes(512).as_kilobytes()), 0.5);
}

#[test]
fn addition() {
    let a = Size::bytes(40);
    let b = Size::bytes(2);
    assert_eq!((a + b).as_bytes(), 42);
    assert_eq!(a.checked_add(b).map(|s| s.as_bytes()), Some(42));
    let max = Size::bytes(u64::MAX);
    assert!(max.checked_add(Size::bytes(1)).is_none());
    assert_eq!((max + Size::bytes(1)).as_bytes(), u64::MAX);
    assert_eq!(max.saturating_add(Size::bytes(0)).as_bytes(), u64::MAX);
}
