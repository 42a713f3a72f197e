use lbs::tray::{rgba_to_argb, tray_icons};
use std::io::Cursor;

#[test]
fn pixels_move_alpha_first() {
    assert_eq!(rgba_to_argb(&vec![1, 2, 3, 4, 5, 6, 7, 8, 9]), vec![4, 1, 2, 3, 8, 5, 6, 7]);
    assert!(rgba_to_argb(&vec![1, 2]).is_empty());
}

#[test]
fn tray_icon_from_png() {
    let img = image::RgbaImage::from_raw(2, 1, vec![10, 20, 30, 40, 50, 60, 70, 80]).unwrap();
    let mut png = Cursor::new(Vec::new());
    img.write_to(&mut png, image::ImageFormat::Png).unwrap();
    let icons = tray_icons(png.get_ref());
    assert_eq!(icons.len(), 1);
    assert_eq!((icons[0].width, icons[0].height), (2, 1));
    assert_eq!(icons[0].data, vec![40, 10, 20, 30, 80, 50, 60, 70]);
    assert!(tray_icons(b"not an image").is_empty());
}

#[test]
fn tray_icon_has_four_bytes_per_pixel() {
    let img = image::RgbImage::from_raw(3, 2, vec![1; 18]).unwrap();
    let mut png = Cursor::new(Vec::new());
    img.write_to(&mut png, image::ImageFormat::Png).unwrap();
    let icons = tray_icons(png.get_ref());
    assert_eq!(icons.len(), 1);
    assert_eq!((icons[0].width, icons[0].height), (3, 2));
    assert_eq!(icons[0].data.len(), 4 * 3 * 2);
    assert_eq!(&icons[0].data[0..4], &[255, 1, 1, 1]);
}
