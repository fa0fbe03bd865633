use metaballs::resolution::area;
use metaballs::resolution::parse_resolution;

#[test]
fn parse_default_resolution() {
    let r = parse_resolution(&String::from("506x253"));
    assert_eq!(r, (506, 253));
}

#[test]
fn parse_square_resolution() {
    let r = parse_resolution(&String::from("1x1"));
    assert_eq!(r, (1, 1));
}

#[test]
fn parse_ignores_after_second_separator() {
    let r = parse_resolution(&String::from("10x20x30"));
    assert_eq!(r, (10, 20));
}

#[test]
fn parse_large_values() {
    let r = parse_resolution(&String::from("2147483647x2"));
    assert_eq!(r, (2147483647, 2));
}

#[test]
fn parse_leading_zeros() {
    let r = parse_resolution(&String::from("0640x0480"));
    assert_eq!(r, (640, 480));
}

#[test]
fn area_counts_pixels() {
    assert_eq!(area((506, 253)), 506 * 253);
    assert_eq!(area((0, 100)), 0);
    assert_eq!(area((1, 1)), 1);
}
