use pixel_editor::Color;

#[test]
fn from_hex_reads_channels() {
    let c = Color::from_hex("ff8000").unwrap();
    assert_eq!(c, Color::new(255, 128, 0, 255));
    let d = Color::from_hex("123456").unwrap();
    assert_eq!(d, Color::new(0x12, 0x34, 0x56, 255));
    let e = Color::from_hex("0").unwrap();
    assert_eq!(e, Color::new(0, 0, 0, 255));
}

#[test]
fn from_hex_rejects_bad_text() {
    assert!(Color::from_hex("zz").is_err());
    assert!(Color::from_hex("").is_err());
    assert!(Color::from_hex("#ffffff").is_err());
    assert!(Color::from_hex("100000000").is_err());
}

#[test]
fn named_colors() {
    assert_eq!(Color::black(), Color::new(0, 0, 0, 255));
    assert_eq!(Color::white(), Color::new(255, 255, 255, 255));
    assert_eq!(Color::gray(), Color::new(150, 150, 150, 255));
    assert_eq!(Color::transparent(), Color::new(0, 0, 0, 0));
}
