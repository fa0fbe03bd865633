use metaballs::buffer::pixel;
use metaballs::buffer::Buffer;

#[test]
fn new_buffer_is_zeroed() {
    let b = Buffer::new((4, 3));
    assert_eq!(b.width(), 4);
    assert_eq!(b.height(), 3);
    assert_eq!(b.data().len(), 4 * 3 * 4);
    assert!(b.data().iter().all(|&byte| byte == 0));
}

#[test]
fn zero_size_frame_has_no_bytes() {
    let b = Buffer::new((0, 0));
    assert_eq!(b.data().len(), 0);
}

#[test]
fn pixel_writes_four_bytes_in_place() {
    let mut b = Buffer::new((4, 3));
    let color = [10u8, 20, 30, 40];
    pixel(&mut b, 2, 1, &color);
    let index = ((2 + 1 * 4) * 4) as usize;
    assert_eq!(&b.data()[index..index + 4], &color[..]);
}

#[test]
fn pixel_leaves_other_bytes_alone() {
    let mut b = Buffer::new((4, 3));
    pixel(&mut b, 2, 1, &[1u8, 2, 3, 4]);
    let index = ((2 + 1 * 4) * 4) as usize;
    for (i, &byte) in b.data().iter().enumerate() {
        if i < index || i >= index + 4 {
            assert_eq!(byte, 0);
        }
    }
}

#[test]
fn pixel_overwrites_previous_color() {
    let mut b = Buffer::new((2, 2));
    pixel(&mut b, 0, 0, &[9u8, 9, 9, 9]);
    pixel(&mut b, 0, 0, &[5u8, 6, 7, 8]);
    assert_eq!(&b.data()[0..4], &[5u8, 6, 7, 8][..]);
}

#[test]
fn corner_pixels_land_at_the_run_ends() {
    let mut b = Buffer::new((3, 2));
    pixel(&mut b, 0, 0, &[1u8, 1, 1, 1]);
    pixel(&mut b, 2, 1, &[2u8, 2, 2, 2]);
    assert_eq!(&b.data()[0..4], &[1u8, 1, 1, 1][..]);
    let last = b.data().len() - 4;
    assert_eq!(&b.data()[last..], &[2u8, 2, 2, 2][..]);
}
