use metaballs::color::checker_color;
use metaballs::color::color_from_u32;

#[test]
fn unpack_little_endian_bytes() {
    assert_eq!(color_from_u32(0xff772884), [0x84, 0x28, 0x77, 0xff]);
    assert_eq!(color_from_u32(0xffffffff), [0xff, 0xff, 0xff, 0xff]);
    assert_eq!(color_from_u32(0xff000000), [0x00, 0x00, 0x00, 0xff]);
    assert_eq!(color_from_u32(0), [0, 0, 0, 0]);
}

#[test]
fn even_cells_are_white() {
    assert_eq!(checker_color(0, 0), [0xff, 0xff, 0xff, 0xff]);
    assert_eq!(checker_color(3, 5), [0xff, 0xff, 0xff, 0xff]);
    assert_eq!(checker_color(2, 4), [0xff, 0xff, 0xff, 0xff]);
}

#[test]
fn odd_cells_are_black() {
    assert_eq!(checker_color(0, 1), [0x00, 0x00, 0x00, 0xff]);
    assert_eq!(checker_color(2, 5), [0x00, 0x00, 0x00, 0xff]);
}

#[test]
fn negative_cells_keep_the_pattern() {
    assert_eq!(checker_color(-1, 0), [0x00, 0x00, 0x00, 0xff]);
    assert_eq!(checker_color(-1, 1), [0xff, 0xff, 0xff, 0xff]);
    assert_eq!(checker_color(-2, -4), [0xff, 0xff, 0xff, 0xff]);
    assert_eq!(checker_color(-3, 2), [0x00, 0x00, 0x00, 0xff]);
}
