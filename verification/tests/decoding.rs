use std::io::Cursor;

use image::{DynamicImage, GrayImage, ImageOutputFormat, RgbaImage};
use image_binarization::image::Image;

fn png_of(picture: DynamicImage) -> Vec<u8> {
    let mut bytes = Vec::new();
    picture.write_to(&mut Cursor::new(&mut bytes), ImageOutputFormat::Png).unwrap();
    bytes
}

#[test]
fn new_with_data_decodes_a_png() {
    let pixels = vec![10, 20, 30, 255, 200, 100, 50, 128, 0, 0, 0, 0];
    let png = png_of(DynamicImage::ImageRgba8(RgbaImage::from_raw(3, 1, pixels.clone()).unwrap()));
    assert_ne!(png, pixels);
    let img = Image::new_with_data(png).unwrap();
    assert_eq!(img.get_width(), 3);
    assert_eq!(img.get_height(), 1);
    assert_eq!(img.get_data_ref(), &pixels);
}

#[test]
fn new_with_data_expands_gray_to_four_channels() {
    let png = png_of(DynamicImage::ImageLuma8(GrayImage::from_raw(1, 2, vec![10, 200]).unwrap()));
    let img = Image::new_with_data(png).unwrap();
    assert_eq!(img.get_width(), 1);
    assert_eq!(img.get_height(), 2);
    assert_eq!(img.get_data_ref(), &vec![10, 10, 10, 255, 200, 200, 200, 255]);
}

#[test]
fn new_with_data_decodes_a_bitmap() {
    let pixels = vec![1, 2, 3, 255, 4, 5, 6, 255, 7, 8, 9, 255, 10, 11, 12, 255];
    let mut bmp = Vec::new();
    DynamicImage::ImageRgba8(RgbaImage::from_raw(2, 2, pixels.clone()).unwrap())
        .write_to(&mut Cursor::new(&mut bmp), ImageOutputFormat::Bmp)
        .unwrap();
    let img = Image::new_with_data(bmp).unwrap();
    assert_eq!(img.get_width(), 2);
    assert_eq!(img.get_height(), 2);
    assert_eq!(img.get_data_ref(), &pixels);
}

#[test]
fn new_with_data_gives_nothing_for_bytes_that_are_no_image() {
    assert!(Image::new_with_data(Vec::new()).is_none());
    assert!(Image::new_with_data(vec![1, 2, 3, 4, 5]).is_none());
    assert!(Image::new_with_data(b"not a picture at all, only text".to_vec()).is_none());
}

#[test]
fn new_with_data_gives_nothing_for_a_truncated_png() {
    let png = png_of(DynamicImage::ImageRgba8(RgbaImage::from_raw(2, 2, vec![7; 16]).unwrap()));
    let half = png[..png.len() / 2].to_vec();
    assert!(Image::new_with_data(half).is_none());
}

#[test]
fn decoded_image_goes_through_the_operations() {
    let png = png_of(DynamicImage::ImageLuma8(GrayImage::from_raw(2, 1, vec![10, 200]).unwrap()));
    let img = Image::new_with_data(png).unwrap();
    assert_eq!(
        img.threshold((50, 255)).get_data_ref(),
        &vec![0, 0, 0, 255, 255, 255, 255, 255]
    );
}
