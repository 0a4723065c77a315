use soft::color::Color;

#[test]
fn rgb_is_opaque() {
    assert_eq!(Color::RGB(44, 56, 80), Color { r: 44, g: 56, b: 80, a: 255 });
    assert_eq!(Color::RGB(0, 0, 0).a, 255);
}

#[test]
fn rgba_keeps_alpha() {
    assert_eq!(Color::RGBA(88, 112, 160, 120), Color { r: 88, g: 112, b: 160, a: 120 });
}

#[test]
fn packing_puts_red_lowest() {
    assert_eq!(Color::RGBA(0x11, 0x22, 0x33, 0x44).as_u32(), 0x4433_2211);
    assert_eq!(Color::RGB(255, 0, 0).as_u32(), 0xff00_00ff);
    assert_eq!(Color::RGBA(0, 0, 0, 0).as_u32(), 0);
}

#[test]
fn unpacking_reads_red_lowest() {
    assert_eq!(Color::U32(0x4433_2211), Color::RGBA(0x11, 0x22, 0x33, 0x44));
    assert_eq!(Color::U32(u32::MAX), Color::RGB(255, 255, 255));
}

#[test]
fn packing_round_trip() {
    for w in [0u32, 1, 0xdead_beef, 0x0102_0304, u32::MAX] {
        assert_eq!(Color::U32(w).as_u32(), w);
    }
    let c = Color::RGBA(9, 8, 7, 6);
    assert_eq!(Color::U32(c.as_u32()), c);
}
