use mandelbrot::parse_pair;

#[test]
fn missing_separator_yields_none() {
    assert_eq!(parse_pair::<i64>("34", ','), None);
    assert_eq!(parse_pair::<i64>("", ','), None);
    assert_eq!(parse_pair::<i64>("10x20", ','), None);
}

#[test]
fn integer_pair_round_trip() {
    let a: i64 = -17;
    let b: i64 = 42;
    let s = format!("{},{}", a, b);
    assert_eq!(parse_pair::<i64>(&s, ','), Some((a, b)));
    let c: u64 = 400;
    let d: u64 = 600;
    let t = format!("{}x{}", c, d);
    assert_eq!(parse_pair::<u64>(&t, 'x'), Some((c, d)));
}

#[test]
fn whitespace_around_fields_is_ignored() {
    assert_eq!(parse_pair::<i64>(" 3 , 4 ", ','), Some((3, 4)));
    assert_eq!(parse_pair::<i64>("\t3,4\n", ','), Some((3, 4)));
    assert_eq!(parse_pair::<i64>("\u{2009}7,\u{00A0}8\u{3000}", ','), Some((7, 8)));
}

#[test]
fn signs_and_dimensions() {
    assert_eq!(parse_pair::<u64>("400x600", 'x'), Some((400, 600)));
    assert_eq!(parse_pair::<i64>("+3,-4", ','), Some((3, -4)));
    assert_eq!(parse_pair::<u64>("+3,4", ','), Some((3, 4)));
    assert_eq!(parse_pair::<u64>("-3,4", ','), None);
    assert_eq!(parse_pair::<i64>("007,08", ','), Some((7, 8)));
}

#[test]
fn field_conversion_failures() {
    assert_eq!(parse_pair::<i64>(",5", ','), None);
    assert_eq!(parse_pair::<i64>("5,", ','), None);
    assert_eq!(parse_pair::<i64>("a,5", ','), None);
    assert_eq!(parse_pair::<i64>("5,b", ','), None);
    assert_eq!(parse_pair::<i64>("1,2,3", ','), None);
    assert_eq!(parse_pair::<i64>("1.5,2", ','), None);
    assert_eq!(parse_pair::<i64>("+,4", ','), None);
    assert_eq!(parse_pair::<i64>("-,4", ','), None);
}

#[test]
fn repeated_calls_agree() {
    let first = parse_pair::<i64>("5,6", ',');
    let second = parse_pair::<i64>("5,6", ',');
    assert_eq!(first, second);
    assert_eq!(first, Some((5, 6)));
}

#[test]
fn sixty_four_bit_bounds() {
    assert_eq!(parse_pair::<i64>("9223372036854775807,0", ','), Some((i64::MAX, 0)));
    assert_eq!(parse_pair::<i64>("-9223372036854775808,0", ','), Some((i64::MIN, 0)));
    assert_eq!(parse_pair::<i64>("9223372036854775808,0", ','), None);
    assert_eq!(parse_pair::<i64>("0,-9223372036854775809", ','), None);
    assert_eq!(parse_pair::<u64>("18446744073709551615,0", ','), Some((u64::MAX, 0)));
    assert_eq!(parse_pair::<u64>("18446744073709551616,0", ','), None);
}
