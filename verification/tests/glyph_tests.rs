use sigmar::glyphs::{best_match, matching_pixels, Sample};
use sigmar::marble::Marble;

fn image(bits: &str) -> Vec<bool> {
    bits.chars().map(|c| c == '1').collect()
}

#[test]
fn matching_pixels_counts_pixels_set_in_both() {
    assert_eq!(matching_pixels(&image("110101"), &image("100111")), 3);
    assert_eq!(matching_pixels(&image("0000"), &image("1111")), 0);
    assert_eq!(matching_pixels(&image("1111"), &image("0000")), 0);
    assert_eq!(matching_pixels(&image("1111"), &image("1111")), 4);
    assert_eq!(matching_pixels(&image(""), &image("")), 0);
}

#[test]
fn matching_pixels_reads_the_second_image_only_under_set_pixels() {
    assert_eq!(matching_pixels(&image("1100"), &image("11")), 2);
    assert_eq!(matching_pixels(&image("10"), &image("1111")), 1);
}

#[test]
fn best_match_is_the_first_sample_with_the_most_common_pixels() {
    let font: Vec<Sample> = vec![
        (Marble::Salt, image("110000")),
        (Marble::Air, image("111100")),
        (Marble::Fire, image("001111")),
        (Marble::Lead, image("111111")),
    ];
    assert_eq!(best_match(&image("111100"), &font), Marble::Air);
    assert_eq!(best_match(&image("000011"), &font), Marble::Fire);
    assert_eq!(best_match(&image("110000"), &font), Marble::Salt);
    assert_eq!(best_match(&image("111111"), &font), Marble::Lead);
    assert_eq!(best_match(&image("100001"), &font), Marble::Lead);
}

#[test]
fn best_match_is_empty_where_nothing_matches() {
    let font: Vec<Sample> = vec![(Marble::Salt, image("1100")), (Marble::Air, image("0110"))];
    assert_eq!(best_match(&image("0001"), &font), Marble::Empty);
    assert_eq!(best_match(&image("0000"), &font), Marble::Empty);
    assert_eq!(best_match(&image("1111"), &Vec::new()), Marble::Empty);
}
