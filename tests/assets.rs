use mpq::assets::{FontColor, FontSize, Frame, Image, ImageArray, Looping, Material};

#[test]
fn font_sizes_and_colors() {
    assert_eq!(FontSize::Size16.points(), 16);
    assert_eq!(FontSize::Size24.points(), 24);
    assert_eq!(FontSize::Size30.points(), 30);
    assert_eq!(FontSize::Size42.points(), 42);
    assert_eq!(FontColor::Grey.suffix(), 'g');
    assert_eq!(FontColor::Silver.suffix(), 's');
    assert_eq!(FontColor::Yellow.suffix(), 'y');
}

#[test]
fn image_array_frames() {
    let pixels: Vec<u8> = (0..2 * 6 * 4).map(|i| i as u8).collect();
    let image = Image { width: 2, height: 6, pixels };
    assert_eq!(image.dimensions(), (2, 6));
    let frames = ImageArray::from_image(image, 3).unwrap();
    assert_eq!(frames.dimensions(), (2, 2));
    let second = frames.get(1).unwrap();
    let expected: Vec<u8> = (16..32).collect();
    assert_eq!(second, &expected[..]);
    assert!(frames.get(3).is_none());
}

#[test]
fn image_array_rejects_bad_input() {
    let image = Image { width: 2, height: 2, pixels: vec![0; 15] };
    assert!(ImageArray::from_image(image, 1).is_none());
    let image = Image { width: 2, height: 2, pixels: vec![0; 16] };
    assert!(ImageArray::from_image(image, 0).is_none());
}

#[test]
fn frames_and_enums() {
    let f = Frame::from(7usize);
    assert_eq!(f, Frame(7));
    assert_eq!(f.index(), 7);
    assert_ne!(Looping::Loop, Looping::OneShot);
    assert_ne!(Material::Color, Material::Textured);
}
