use pixel_editor::{Color, Image, ImageIoError, ImageRect, Layer};

#[test]
fn png_round_trip_keeps_pixels() {
    let mut img = Image::new(3, 2);
    img.layers[0].draw_pixel(0, 0, Color::new(255, 0, 0, 255));
    img.layers[0].draw_pixel(2, 1, Color::new(1, 2, 3, 255));
    img.add_layer();
    img.layers[1].draw_pixel(1, 0, Color::new(0, 200, 0, 255));
    let png = img.encode_png().unwrap();
    assert_ne!(png, img.raw_data());
    let back = Image::from_encoded(&png).unwrap();
    assert_eq!((back.rect.w, back.rect.h), (3, 2));
    assert_eq!(back.layers.len(), 1);
    assert_eq!(back.raw_data(), img.raw_data());
}

#[test]
fn decoding_garbage_fails() {
    assert_eq!(Image::from_encoded(&[1, 2, 3, 4]).err(), Some(ImageIoError::Decode));
    assert_eq!(Layer::from_encoded(0, 0, &[]).err(), Some(ImageIoError::Decode));
}

#[test]
fn layer_from_encoded_is_placed() {
    let img = Image::new(2, 3);
    let png = img.encode_png().unwrap();
    let l = Layer::from_encoded(5, -4, &png).unwrap();
    assert_eq!(l.z_index, 0);
    assert_eq!(Layer::from_encoded(i32::MAX - 1, 0, &png).err(), Some(ImageIoError::TooLarge));
    assert_eq!((l.rect.x, l.rect.y, l.rect.w, l.rect.h), (5, -4, 2, 3));
    assert!(l.data.iter().all(|c| *c == Color::white()));
}

#[test]
fn from_rgba8_reads_channels_in_order() {
    let bytes = vec![1, 2, 3, 4, 5, 6, 7, 8];
    let l = Layer::from_rgba8(0, 0, 2, 1, &bytes).unwrap();
    assert_eq!(l.data, vec![Color::new(1, 2, 3, 4), Color::new(5, 6, 7, 8)]);
    assert!(l.dirty_rect.is_empty_rect());
    let img = Image::from_rgba8(2, 1, &vec![9, 9, 9, 255, 0, 0, 0, 255]).unwrap();
    assert_eq!(img.raw_data(), vec![9, 9, 9, 255, 0, 0, 0, 255]);
    assert_eq!(img.rect, ImageRect::new(0, 0, 2, 1));
}

#[test]
fn from_rgba8_checks_sizes() {
    assert_eq!(Layer::from_rgba8(0, 0, 2, 1, &vec![1, 2, 3]).err(), Some(ImageIoError::Decode));
    assert_eq!(
        Layer::from_rgba8(i32::MAX, 0, 2, 1, &vec![0; 8]).err(),
        Some(ImageIoError::TooLarge)
    );
    assert_eq!(Image::from_rgba8(1, 1, &vec![]).err(), Some(ImageIoError::Decode));
}

#[test]
fn translucent_pixels_are_saved_composited() {
    let img = Image::from_rgba8(1, 1, &vec![0, 0, 0, 128]).unwrap();
    assert_eq!(img.raw_data(), vec![128, 128, 128, 191]);
}
