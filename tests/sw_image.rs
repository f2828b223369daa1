use voxel_map::sw_image::{Pixel, SwImage};

const CLEAR: Pixel = Pixel { r: 0, g: 0, b: 0, a: 0 };

#[test]
fn new_image_is_transparent() {
    let img = SwImage::new(3, 2);
    assert_eq!(img.width(), 3);
    assert_eq!(img.height(), 2);
    assert_eq!(img.pixels().len(), 6);
    assert!(img.pixels().iter().all(|p| *p == CLEAR));
}

#[test]
fn empty_image_has_no_pixels() {
    let img = SwImage::new(0, 5);
    assert_eq!(img.pixels().len(), 0);
}

#[test]
fn set_pixel_goes_row_by_row() {
    let mut img = SwImage::new(4, 3);
    let red = Pixel { r: 255, g: 0, b: 0, a: 255 };
    img.set_pixel(1, 2, red);
    assert_eq!(img.pixel(1, 2), red);
    assert_eq!(img.pixels()[2 * 4 + 1], red);
    assert_eq!(img.pixels().iter().filter(|p| **p == red).count(), 1);
    assert_eq!(img.pixel(2, 1), CLEAR);
}
