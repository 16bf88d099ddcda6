use pathtracer::scene::environment_texel;

#[test]
fn texel_reads_the_flipped_row() {
    // a 2 x 2 backdrop, stored top row first
    let data: Vec<u8> = (0..12).collect();
    // elevation row 0 is the bottom of the image, i.e. stored row 1
    assert_eq!(environment_texel(2, 2, &data, 0, 0), (6, 7, 8));
    assert_eq!(environment_texel(2, 2, &data, 1, 0), (9, 10, 11));
    // elevation row 1 is the top of the image, i.e. stored row 0
    assert_eq!(environment_texel(2, 2, &data, 0, 1), (0, 1, 2));
    assert_eq!(environment_texel(2, 2, &data, 1, 1), (3, 4, 5));
}

#[test]
fn texel_of_a_single_pixel_backdrop() {
    let data: Vec<u8> = vec![128, 128, 128];
    assert_eq!(environment_texel(1, 1, &data, 0, 0), (128, 128, 128));
}
