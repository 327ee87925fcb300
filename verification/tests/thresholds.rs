use image_binarization::image::{gray_level, Image};

fn two_pixels() -> Image {
    Image::from_rgba8(2, 1, vec![10, 10, 10, 255, 200, 200, 200, 255]).unwrap()
}

fn six_pixels() -> Image {
    Image::from_rgba8(
        3,
        2,
        vec![
            0, 50, 100, 255, 10, 60, 110, 128, 20, 70, 120, 0, 30, 80, 130, 7, 30, 90, 140, 9, 250,
            100, 150, 1,
        ],
    )
    .unwrap()
}

#[test]
fn threshold_splits_dark_from_bright() {
    let out = two_pixels().threshold((50, 255));
    assert_eq!(out.get_width(), 2);
    assert_eq!(out.get_height(), 1);
    assert_eq!(out.get_data_ref(), &vec![0, 0, 0, 255, 255, 255, 255, 255]);
}

#[test]
fn threshold_full_range_is_white_with_alpha_kept() {
    let out = six_pixels().threshold((0, 255));
    assert_eq!(
        out.get_data_ref(),
        &vec![
            255, 255, 255, 255, 255, 255, 255, 128, 255, 255, 255, 0, 255, 255, 255, 7, 255, 255,
            255, 9, 255, 255, 255, 1
        ]
    );
}

#[test]
fn threshold_empty_range_is_black_with_alpha_kept() {
    let out = six_pixels().threshold((200, 100));
    assert_eq!(
        out.get_data_ref(),
        &vec![0, 0, 0, 255, 0, 0, 0, 128, 0, 0, 0, 0, 0, 0, 0, 7, 0, 0, 0, 9, 0, 0, 0, 1]
    );
    let out = six_pixels().threshold((1, 0));
    assert!(out.get_data_ref().chunks(4).all(|p| p[0] == 0 && p[1] == 0 && p[2] == 0));
}

#[test]
fn threshold_takes_a_pixel_with_any_channel_in_range() {
    let out = six_pixels().threshold((100, 110));
    assert_eq!(
        out.get_data_ref(),
        &vec![
            255, 255, 255, 255, 255, 255, 255, 128, 0, 0, 0, 0, 0, 0, 0, 7, 0, 0, 0, 9, 255, 255,
            255, 1
        ]
    );
}

#[test]
fn threshold_ends_are_inclusive() {
    let img = Image::from_rgba8(3, 1, vec![49, 0, 0, 1, 50, 0, 0, 2, 51, 0, 0, 3]).unwrap();
    assert_eq!(
        img.threshold((50, 50)).get_data_ref(),
        &vec![0, 0, 0, 1, 255, 255, 255, 2, 0, 0, 0, 3]
    );
    assert_eq!(
        img.threshold((1, 49)).get_data_ref(),
        &vec![255, 255, 255, 1, 0, 0, 0, 2, 0, 0, 0, 3]
    );
}

#[test]
fn threshold_does_not_look_at_alpha() {
    let img = Image::from_rgba8(1, 1, vec![0, 0, 0, 100]).unwrap();
    assert_eq!(img.threshold((100, 100)).get_data_ref(), &vec![0, 0, 0, 100]);
}

#[test]
fn threshold_of_an_image_without_pixels() {
    let img = Image::from_rgba8(0, 3, Vec::new()).unwrap();
    let out = img.threshold((0, 255));
    assert_eq!(out.get_width(), 0);
    assert_eq!(out.get_height(), 3);
    assert!(out.get_data_ref().is_empty());
}

#[test]
fn threshold_does_not_change_its_input() {
    let img = two_pixels();
    let _ = img.threshold((0, 255));
    assert_eq!(img.get_data_ref(), &vec![10, 10, 10, 255, 200, 200, 200, 255]);
}

#[test]
fn threshold_from_the_gray_level_of_a_pixel_turns_it_white() {
    for pixel in [[0u8, 0, 0, 9], [255, 0, 0, 9], [0, 255, 0, 9], [0, 0, 255, 9], [13, 200, 77, 9]] {
        let level = gray_level(pixel[0], pixel[1], pixel[2]);
        let img = Image::from_rgba8(1, 1, pixel.to_vec()).unwrap();
        assert_eq!(img.threshold((level, 255)).get_data_ref(), &vec![255, 255, 255, 9]);
    }
}
