use iresizer::error::ResizeError;
use iresizer::size::{parse_size, parse_size_spec, SizeSpec};

#[test]
fn percentage_scales_both_sides() {
    assert_eq!(parse_size("150%", 100, 200), Ok((150, 300)));
}

#[test]
fn absolute_size_ignores_original() {
    assert_eq!(parse_size("300x200", 100, 200), Ok((300, 200)));
    assert_eq!(parse_size("300x200", 7, 9), Ok((300, 200)));
}

#[test]
fn garbage_is_invalid_format() {
    assert_eq!(parse_size("abc", 100, 200), Err(ResizeError::InvalidSizeFormat));
}

#[test]
fn bad_height_is_invalid_dimension() {
    assert_eq!(parse_size("300xZZ", 100, 200), Err(ResizeError::InvalidDimension));
}

#[test]
fn percentage_rounds_toward_zero() {
    assert_eq!(parse_size("50%", 101, 3), Ok((50, 1)));
    assert_eq!(parse_size("33.3%", 1000, 10), Ok((333, 3)));
    assert_eq!(parse_size("0.5%", 1000, 199), Ok((5, 0)));
    assert_eq!(parse_size(".5%", 1000, 1000), Ok((5, 5)));
    assert_eq!(parse_size("5.%", 1000, 1000), Ok((50, 50)));
    assert_eq!(parse_size("+25%", 8, 4), Ok((2, 1)));
}

#[test]
fn percentage_with_many_fraction_digits() {
    assert_eq!(parse_size("99.99999999999999999999999999%", 100, 1), Ok((99, 0)));
    assert_eq!(parse_size("100.00000000000000000000000001%", 100, 3), Ok((100, 3)));
}

#[test]
fn zero_and_negative_percentages_give_zero() {
    assert_eq!(parse_size("0%", 640, 480), Ok((0, 0)));
    assert_eq!(parse_size("-50%", 640, 480), Ok((0, 0)));
}

#[test]
fn huge_percentage_stops_at_u32_max() {
    assert_eq!(parse_size("1000000000000%", 100, 0), Ok((u32::MAX, 0)));
    assert_eq!(
        parse_size("123456789012345678901234567890%", 1, 1),
        Ok((u32::MAX, u32::MAX))
    );
}

#[test]
fn trailing_percent_signs_are_all_removed() {
    assert_eq!(parse_size("50%%", 10, 20), Ok((5, 10)));
}

#[test]
fn malformed_percentages_are_invalid_format() {
    assert_eq!(parse_size("%", 10, 10), Err(ResizeError::InvalidSizeFormat));
    assert_eq!(parse_size("-%", 10, 10), Err(ResizeError::InvalidSizeFormat));
    assert_eq!(parse_size("1.2.3%", 10, 10), Err(ResizeError::InvalidSizeFormat));
    assert_eq!(parse_size("5x%", 10, 10), Err(ResizeError::InvalidSizeFormat));
    assert_eq!(parse_size("50 %", 10, 10), Err(ResizeError::InvalidSizeFormat));
    assert_eq!(parse_size("1e%", 10, 10), Err(ResizeError::InvalidSizeFormat));
    assert_eq!(parse_size("e5%", 10, 10), Err(ResizeError::InvalidSizeFormat));
    assert_eq!(parse_size("1e5e3%", 10, 10), Err(ResizeError::InvalidSizeFormat));
    assert_eq!(parse_size("infinite%", 10, 10), Err(ResizeError::InvalidSizeFormat));
    assert_eq!(parse_size("300x200%", 10, 10), Err(ResizeError::InvalidSizeFormat));
}

#[test]
fn surrounding_white_space_is_trimmed_before_the_percent_test() {
    assert_eq!(parse_size(" 5%", 10, 10), Ok((0, 0)));
    assert_eq!(parse_size(" 50% ", 100, 200), Ok((50, 100)));
    assert_eq!(parse_size("\t25%\n", 8, 4), Ok((2, 1)));
    assert_eq!(parse_size("5x5% ", 100, 200), Err(ResizeError::InvalidSizeFormat));
    assert_eq!(parse_size(" 300x200", 1, 1), Err(ResizeError::InvalidDimension));
    assert_eq!(parse_size("   ", 1, 1), Err(ResizeError::InvalidSizeFormat));
}

#[test]
fn percentage_exponents_are_exact() {
    assert_eq!(parse_size("1e2%", 100, 200), Ok((100, 200)));
    assert_eq!(parse_size("1.5E+2%", 100, 200), Ok((150, 300)));
    assert_eq!(parse_size("5e-1%", 1000, 199), Ok((5, 0)));
    assert_eq!(parse_size("1e11%", 1, 0), Ok((1_000_000_000, 0)));
    assert_eq!(parse_size("1e12%", 1, 0), Ok((u32::MAX, 0)));
    assert_eq!(parse_size("1e99999999999999999999999%", 1, 0), Ok((u32::MAX, 0)));
    assert_eq!(parse_size("1e-99999999999999999999999%", 4000000000, 7), Ok((0, 0)));
    assert_eq!(parse_size("0e99%", 100, 100), Ok((0, 0)));
    assert_eq!(parse_size("2500e-2%", 8, 4), Ok((2, 1)));
}

#[test]
fn infinite_and_nan_percentages() {
    assert_eq!(parse_size("inf%", 5, 0), Ok((u32::MAX, 0)));
    assert_eq!(parse_size("+Infinity%", 1, 2), Ok((u32::MAX, u32::MAX)));
    assert_eq!(parse_size("-INF%", 5, 5), Ok((0, 0)));
    assert_eq!(parse_size("NaN%", 5, 5), Ok((0, 0)));
}

#[test]
fn dimension_sides_follow_u32_syntax() {
    assert_eq!(parse_size("+5x7", 1, 1), Ok((5, 7)));
    assert_eq!(parse_size("0x0", 1, 1), Ok((0, 0)));
    assert_eq!(parse_size("4294967295x1", 1, 1), Ok((u32::MAX, 1)));
    assert_eq!(parse_size("4294967296x1", 1, 1), Err(ResizeError::InvalidDimension));
    assert_eq!(parse_size("x5", 1, 1), Err(ResizeError::InvalidDimension));
    assert_eq!(parse_size("5x", 1, 1), Err(ResizeError::InvalidDimension));
    assert_eq!(parse_size("-5x5", 1, 1), Err(ResizeError::InvalidDimension));
    assert_eq!(parse_size("5 x5", 1, 1), Err(ResizeError::InvalidDimension));
}

#[test]
fn two_separators_are_invalid_format() {
    assert_eq!(parse_size("1x2x3", 1, 1), Err(ResizeError::InvalidSizeFormat));
    assert_eq!(parse_size("", 1, 1), Err(ResizeError::InvalidSizeFormat));
    assert_eq!(parse_size("800X600", 1, 1), Err(ResizeError::InvalidSizeFormat));
}

#[test]
fn one_spec_serves_every_image() {
    let spec = parse_size_spec("50%").unwrap();
    assert_eq!(spec.target_dims(100, 200), (50, 100));
    assert_eq!(spec.target_dims(33, 7), (16, 3));
    let spec = parse_size_spec("64x48").unwrap();
    assert!(matches!(spec, SizeSpec::Absolute(64, 48)));
    assert_eq!(spec.target_dims(1000, 1), (64, 48));
}
