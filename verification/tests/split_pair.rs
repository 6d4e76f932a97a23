use mandelbrot::split_pair;

#[test]
fn split_keeps_fields_verbatim() {
    let (l, r) = split_pair("1.5,-0.3", ',').unwrap();
    assert_eq!(l, "1.5");
    assert_eq!(r, "-0.3");
}

#[test]
fn split_without_separator_yields_none() {
    assert_eq!(split_pair("garbage", ','), None);
    assert_eq!(split_pair("", ','), None);
}

#[test]
fn split_uses_first_separator_and_trims() {
    let (l, r) = split_pair("  re , im,rest ", ',').unwrap();
    assert_eq!(l, "re");
    assert_eq!(r, "im,rest");
    let (l, r) = split_pair(" , ", ',').unwrap();
    assert_eq!(l, "");
    assert_eq!(r, "");
}
