use image_binarization::image::Image;
use image_binarization::normalize::{equalization_table, stretch_table};

fn six_pixels() -> Image {
    Image::from_rgba8(
        3,
        2,
        vec![
            0, 50, 100, 255, 10, 60, 110, 128, 20, 70, 120, 0, 30, 80, 130, 7, 30, 90, 140, 9, 250,
            100, 150, 1,
        ],
    )
    .unwrap()
}

fn gray_image(levels: &[u8]) -> Image {
    let mut data = Vec::new();
    for &v in levels {
        data.extend_from_slice(&[v, v, v, 255]);
    }
    Image::from_rgba8(levels.len() as u32, 1, data).unwrap()
}

fn red_levels(img: &Image) -> Vec<u8> {
    img.get_data_ref().chunks(4).map(|p| p[0]).collect()
}

#[test]
fn equalize_spreads_each_channel() {
    let out = six_pixels().get_equalized_image();
    assert_eq!(out.get_width(), 3);
    assert_eq!(out.get_height(), 2);
    assert_eq!(
        out.get_data_ref(),
        &vec![
            0, 43, 43, 255, 51, 85, 85, 128, 102, 128, 128, 0, 204, 170, 170, 7, 204, 213, 213, 9,
            255, 255, 255, 1
        ]
    );
}

#[test]
fn equalize_rounds_halves_up() {
    assert_eq!(red_levels(&gray_image(&[1, 2]).get_equalized_image()), vec![128, 255]);
    assert_eq!(red_levels(&gray_image(&[0, 1, 2]).get_equalized_image()), vec![0, 128, 255]);
}

#[test]
fn equalize_leaves_out_the_pixels_at_level_zero() {
    assert_eq!(
        red_levels(&gray_image(&[0, 0, 1, 2, 3, 3]).get_equalized_image()),
        vec![0, 0, 64, 128, 255, 255]
    );
}

#[test]
fn equalize_keeps_a_channel_that_is_zero_everywhere() {
    let img = Image::from_rgba8(2, 1, vec![0, 5, 9, 1, 0, 9, 9, 2]).unwrap();
    assert_eq!(img.get_equalized_image().get_data_ref(), &vec![0, 128, 255, 1, 0, 255, 255, 2]);
}

#[test]
fn equalize_of_one_pixel() {
    let img = Image::from_rgba8(1, 1, vec![9, 0, 200, 9]).unwrap();
    assert_eq!(img.get_equalized_image().get_data_ref(), &vec![255, 0, 255, 9]);
}

#[test]
fn equalize_of_an_image_without_pixels() {
    let img = Image::from_rgba8(0, 0, Vec::new()).unwrap();
    let out = img.get_equalized_image();
    assert_eq!(out.get_width(), 0);
    assert_eq!(out.get_height(), 0);
    assert!(out.get_data_ref().is_empty());
}

#[test]
fn equalize_twice_may_differ_from_once() {
    let mut levels = vec![30u8; 1020];
    levels[0] = 10;
    levels[1] = 20;
    let once = gray_image(&levels).get_equalized_image();
    let twice = once.get_equalized_image();
    assert_eq!(&once.get_data_ref()[..12], &[0, 0, 0, 255, 1, 1, 1, 255, 255, 255, 255, 255]);
    assert_eq!(&twice.get_data_ref()[..12], &[0, 0, 0, 255, 0, 0, 0, 255, 255, 255, 255, 255]);
    assert_ne!(once.get_data_ref(), twice.get_data_ref());
}

#[test]
fn equalize_does_not_change_its_input() {
    let img = six_pixels();
    let before = img.get_data_ref().clone();
    let _ = img.get_equalized_image();
    let _ = img.get_stretched_image();
    assert_eq!(img.get_data_ref(), &before);
}

#[test]
fn equalization_table_follows_the_cumulative_counts() {
    let mut h = [0u32; 256];
    h[0] = 2;
    h[1] = 1;
    h[2] = 1;
    h[3] = 2;
    let t = equalization_table(&h);
    assert_eq!(&t[..5], &[0, 64, 128, 255, 255]);
    assert_eq!(t[255], 255);
}

#[test]
fn equalization_table_of_a_histogram_with_level_zero_only() {
    let mut h = [0u32; 256];
    h[0] = 7;
    let t = equalization_table(&h);
    for v in 0..256 {
        assert_eq!(t[v] as usize, v);
    }
}

#[test]
fn equalization_table_of_full_buckets() {
    let t = equalization_table(&[u32::MAX; 256]);
    assert_eq!(t[0], 0);
    assert_eq!(t[1], 1);
    assert_eq!(t[128], 128);
    assert_eq!(t[255], 255);
}

#[test]
fn stretch_draws_each_channel_over_the_full_range() {
    let out = six_pixels().get_stretched_image();
    assert_eq!(out.get_width(), 3);
    assert_eq!(out.get_height(), 2);
    assert_eq!(
        out.get_data_ref(),
        &vec![
            0, 0, 0, 255, 10, 51, 51, 128, 20, 102, 102, 0, 30, 153, 153, 7, 30, 204, 204, 9, 255,
            255, 255, 1
        ]
    );
}

#[test]
fn stretch_cuts_fractions_off() {
    assert_eq!(red_levels(&gray_image(&[10, 20, 30, 40]).get_stretched_image()), vec![0, 85, 170, 255]);
    assert_eq!(red_levels(&gray_image(&[1, 2, 4]).get_stretched_image()), vec![0, 85, 255]);
    assert_eq!(red_levels(&gray_image(&[0, 1, 3]).get_stretched_image()), vec![0, 85, 255]);
    assert_eq!(red_levels(&gray_image(&[0, 2, 3]).get_stretched_image()), vec![0, 170, 255]);
}

#[test]
fn stretch_leaves_a_constant_channel_unchanged() {
    let img = Image::from_rgba8(3, 1, vec![7, 0, 10, 255, 7, 100, 20, 255, 7, 200, 30, 255]).unwrap();
    assert_eq!(
        img.get_stretched_image().get_data_ref(),
        &vec![7, 0, 0, 255, 7, 127, 127, 255, 7, 255, 255, 255]
    );
}

#[test]
fn stretch_of_a_constant_image_is_the_image() {
    let img = gray_image(&[200, 200, 200]);
    assert_eq!(img.get_stretched_image().get_data_ref(), img.get_data_ref());
    let img = Image::from_rgba8(1, 1, vec![9, 9, 9, 9]).unwrap();
    assert_eq!(img.get_stretched_image().get_data_ref(), &vec![9, 9, 9, 9]);
}

#[test]
fn stretch_of_an_image_without_pixels() {
    let img = Image::from_rgba8(4, 0, Vec::new()).unwrap();
    let out = img.get_stretched_image();
    assert_eq!(out.get_width(), 4);
    assert_eq!(out.get_height(), 0);
    assert!(out.get_data_ref().is_empty());
}

#[test]
fn stretch_of_a_full_range_image_is_the_image() {
    let img = gray_image(&[0, 17, 128, 255]);
    assert_eq!(img.get_stretched_image().get_data_ref(), img.get_data_ref());
}

#[test]
fn stretch_table_keeps_the_levels_outside_the_range() {
    let mut h = [0u32; 256];
    h[100] = 1;
    h[150] = 4;
    h[200] = 1;
    let t = stretch_table(&h);
    assert_eq!(t[100], 0);
    assert_eq!(t[150], 127);
    assert_eq!(t[200], 255);
    assert_eq!(t[101], 2);
    assert_eq!(t[99], 99);
    assert_eq!(t[201], 201);
    assert_eq!(t[0], 0);
    assert_eq!(t[255], 255);
}

#[test]
fn stretch_table_of_an_empty_histogram_keeps_every_level() {
    let t = stretch_table(&[0u32; 256]);
    for v in 0..256 {
        assert_eq!(t[v] as usize, v);
    }
}
