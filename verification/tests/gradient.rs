use metaballs::gradient::metallic;
use metaballs::gradient::Gradient;

#[test]
fn stops_keep_registration_order() {
    let mut g = Gradient::new();
    assert_eq!(g.stop_count(), 0);
    g.add_stop(0xff0000ff);
    g.add_stop(0x80ff0000);
    assert_eq!(g.stop_count(), 2);
    assert_eq!(g.stop(0), [0xff, 0x00, 0x00, 0xff]);
    assert_eq!(g.stop(1), [0x00, 0x00, 0xff, 0x80]);
}

#[test]
fn metallic_has_its_six_stops() {
    let g = metallic();
    assert_eq!(g.stop_count(), 6);
    assert_eq!(g.stop(0), [0x84, 0x28, 0x77, 0xff]);
    assert_eq!(g.stop(1), [0xfb, 0xc0, 0xdf, 0xff]);
    assert_eq!(g.stop(2), [0x96, 0x29, 0x84, 0xff]);
    assert_eq!(g.stop(3), [0x77, 0x1d, 0x67, 0xff]);
    assert_eq!(g.stop(4), [0x4d, 0x10, 0x42, 0xff]);
    assert_eq!(g.stop(5), [0xe9, 0xb4, 0xd3, 0xff]);
}
