use image_binarization::histogram::{histogram_sum, level_range};
use image_binarization::image::{gray_level, ColorComponent, Image};

fn two_pixels() -> Image {
    Image::from_rgba8(2, 1, vec![10, 10, 10, 255, 200, 200, 200, 255]).unwrap()
}

fn six_pixels() -> Image {
    Image::from_rgba8(
        3,
        2,
        vec![
            0, 50, 100, 255, 10, 60, 110, 128, 20, 70, 120, 0, 30, 80, 130, 7, 30, 90, 140, 9, 250,
            100, 150, 1,
        ],
    )
    .unwrap()
}

#[test]
fn from_rgba8_keeps_dimensions_and_bytes() {
    let img = six_pixels();
    assert_eq!(img.get_width(), 3);
    assert_eq!(img.get_height(), 2);
    assert_eq!(img.get_data_ref().len(), 24);
    assert_eq!(img.get_data_ref()[20], 250);
}

#[test]
fn from_rgba8_rejects_a_buffer_of_the_wrong_length() {
    assert!(Image::from_rgba8(2, 1, vec![0; 7]).is_none());
    assert!(Image::from_rgba8(2, 1, vec![0; 9]).is_none());
    assert!(Image::from_rgba8(2, 2, vec![0; 8]).is_none());
    assert!(Image::from_rgba8(0, 0, vec![0; 4]).is_none());
}

#[test]
fn from_rgba8_rejects_more_pixels_than_32_bits_count() {
    assert!(Image::from_rgba8(65536, 65536, Vec::new()).is_none());
    assert!(Image::from_rgba8(u32::MAX, u32::MAX, Vec::new()).is_none());
}

#[test]
fn from_rgba8_accepts_an_image_without_pixels() {
    let img = Image::from_rgba8(0, 5, Vec::new()).unwrap();
    assert_eq!(img.get_width(), 0);
    assert_eq!(img.get_height(), 5);
    assert!(img.get_data_ref().is_empty());
}

#[test]
fn clone_is_the_same_image() {
    let img = six_pixels();
    let copy = img.clone();
    assert_eq!(copy.get_width(), 3);
    assert_eq!(copy.get_height(), 2);
    assert_eq!(copy.get_data_ref(), img.get_data_ref());
}

#[test]
fn component_offsets_follow_the_byte_order() {
    assert_eq!(ColorComponent::Red.offset(), 0);
    assert_eq!(ColorComponent::Green.offset(), 1);
    assert_eq!(ColorComponent::Blue.offset(), 2);
    assert_eq!(ColorComponent::Alpha.offset(), 3);
}

#[test]
fn channel_histogram_counts_each_level() {
    let h = six_pixels().get_histogram();
    assert_eq!(h.red[0], 1);
    assert_eq!(h.red[10], 1);
    assert_eq!(h.red[20], 1);
    assert_eq!(h.red[30], 2);
    assert_eq!(h.red[250], 1);
    assert_eq!(h.red[255], 0);
    assert_eq!(h.green[50], 1);
    assert_eq!(h.green[100], 1);
    assert_eq!(h.blue[100], 1);
    assert_eq!(h.blue[150], 1);
    assert_eq!(h.blue[7], 0);
}

#[test]
fn channel_histogram_ignores_alpha() {
    let h = six_pixels().get_histogram();
    assert!(h.get(&ColorComponent::Alpha).is_none());
    assert_eq!(h.get(&ColorComponent::Red), Some(&h.red));
    assert_eq!(h.get(&ColorComponent::Green), Some(&h.green));
    assert_eq!(h.get(&ColorComponent::Blue), Some(&h.blue));
    assert_eq!(h.red[128], 0);
    assert_eq!(h.green[128], 0);
    assert_eq!(h.blue[128], 0);
}

#[test]
fn channel_histograms_add_up_to_the_pixel_count() {
    let h = six_pixels().get_histogram();
    assert_eq!(histogram_sum(&h.red), 6);
    assert_eq!(histogram_sum(&h.green), 6);
    assert_eq!(histogram_sum(&h.blue), 6);
    let h = two_pixels().get_histogram();
    assert_eq!(h.red.iter().map(|&c| c as u64).sum::<u64>(), 2);
    assert_eq!(h.green.iter().map(|&c| c as u64).sum::<u64>(), 2);
    assert_eq!(h.blue.iter().map(|&c| c as u64).sum::<u64>(), 2);
}

#[test]
fn grayscale_histogram_adds_up_to_the_pixel_count() {
    assert_eq!(histogram_sum(&six_pixels().get_grayscale_histogram()), 6);
    assert_eq!(histogram_sum(&two_pixels().get_grayscale_histogram()), 2);
}

#[test]
fn histograms_of_an_image_without_pixels_are_zero() {
    let img = Image::from_rgba8(0, 0, Vec::new()).unwrap();
    let h = img.get_histogram();
    assert!(h.red.iter().all(|&c| c == 0));
    assert!(h.green.iter().all(|&c| c == 0));
    assert!(h.blue.iter().all(|&c| c == 0));
    assert!(img.get_grayscale_histogram().iter().all(|&c| c == 0));
}

#[test]
fn grayscale_histogram_counts_gray_levels() {
    let h = six_pixels().get_grayscale_histogram();
    for level in [42usize, 52, 62, 72, 80, 135] {
        assert_eq!(h[level], 1);
    }
    assert_eq!(h[0], 0);
    let h = two_pixels().get_grayscale_histogram();
    assert_eq!(h[10], 1);
    assert_eq!(h[200], 1);
    assert_eq!(h[9], 0);
}

#[test]
fn gray_level_is_the_weighted_sum_cut_off() {
    assert_eq!(gray_level(0, 0, 0), 0);
    assert_eq!(gray_level(255, 255, 255), 255);
    assert_eq!(gray_level(255, 0, 0), 54);
    assert_eq!(gray_level(0, 255, 0), 182);
    assert_eq!(gray_level(0, 0, 255), 18);
    assert_eq!(gray_level(1, 2, 3), 1);
    assert_eq!(gray_level(6, 88, 94), 71);
}

#[test]
fn gray_level_of_a_gray_pixel_is_its_level() {
    for v in 0..=255u8 {
        assert_eq!(gray_level(v, v, v), v);
    }
}

#[test]
fn level_range_spans_the_counted_levels() {
    let h = six_pixels().get_histogram();
    assert_eq!(level_range(&h.red), (0, 250));
    assert_eq!(level_range(&h.green), (50, 100));
    assert_eq!(level_range(&h.blue), (100, 150));
}

#[test]
fn level_range_of_an_empty_histogram() {
    assert_eq!(level_range(&[0u32; 256]), (255, 0));
}

#[test]
fn level_range_at_the_ends() {
    let mut h = [0u32; 256];
    h[255] = 3;
    assert_eq!(level_range(&h), (255, 255));
    h[0] = 1;
    assert_eq!(level_range(&h), (0, 255));
    let mut h = [0u32; 256];
    h[0] = 9;
    assert_eq!(level_range(&h), (0, 0));
}

#[test]
fn histogram_sum_holds_more_than_32_bits() {
    let h = [u32::MAX; 256];
    assert_eq!(histogram_sum(&h), 256 * (u32::MAX as u64));
}
