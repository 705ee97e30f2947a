use clip_cli::frame::{
    crop_plane, crop_x_for_center, largest_face, mobile_crop_geometry, mobile_crop_width, pack_rows,
    TooNarrow,
};

#[test]
fn crop_width_matches_floating_point_rounding() {
    for h in [0u32, 1, 2, 3, 4, 5, 7, 8, 9, 240, 360, 720, 1080, 1081, 1919, 2160, 4321, 65535, u32::MAX] {
        let expected = (((h as f64 * 9.0 / 16.0).round() as u32) & !1).max(2);
        assert_eq!(mobile_crop_width(h), expected, "height {h}");
    }
}

#[test]
fn crop_geometry_of_landscape_and_narrow_pictures() {
    assert_eq!(mobile_crop_geometry(1920, 1080), Ok((608, 1080)));
    assert_eq!(mobile_crop_geometry(320, 240), Ok((134, 240)));
    assert_eq!(mobile_crop_geometry(608, 1080), Err(TooNarrow { needed_width: 610 }));
    assert_eq!(mobile_crop_geometry(100, 1080), Err(TooNarrow { needed_width: 610 }));
}

#[test]
fn crop_window_stays_inside_and_even() {
    assert_eq!(crop_x_for_center(960, 1920, 608), 656);
    assert_eq!(crop_x_for_center(961, 1920, 608), 656);
    assert_eq!(crop_x_for_center(963, 1920, 608), 658);
    assert_eq!(crop_x_for_center(0, 1920, 608), 0);
    assert_eq!(crop_x_for_center(-500, 1920, 608), 0);
    assert_eq!(crop_x_for_center(5000, 1920, 608), 1312);
    assert_eq!(crop_x_for_center(1919, 1921, 608), 1312);
}

#[test]
fn crop_copies_the_window_of_each_plane() {
    // A 6x4 luma plane with stride 8, and 3x2 chroma planes with stride 4.
    let luma: Vec<u8> = (0..32).collect();
    let mut dst = vec![0u8; 4 * 4];
    crop_plane(0, &luma, 8, &mut dst, 4, 2, 4, 4);
    assert_eq!(dst, vec![2, 3, 4, 5, 10, 11, 12, 13, 18, 19, 20, 21, 26, 27, 28, 29]);

    let chroma: Vec<u8> = (100..108).collect();
    let mut dst = vec![0u8; 2 * 2];
    crop_plane(1, &chroma, 4, &mut dst, 2, 2, 4, 4);
    assert_eq!(dst, vec![101, 102, 105, 106]);
}

#[test]
fn packing_drops_row_padding() {
    let raw: Vec<u8> = (0..12).collect();
    assert_eq!(pack_rows(&raw, 4, 3, 3), vec![0, 1, 2, 4, 5, 6, 8, 9, 10]);
    assert_eq!(pack_rows(&raw, 3, 3, 2), vec![0, 1, 2, 3, 4, 5]);
    assert_eq!(pack_rows(&raw, 5, 2, 0), Vec::<u8>::new());
}

#[test]
fn largest_face_is_the_last_of_the_biggest() {
    assert_eq!(largest_face(&[]), None);
    assert_eq!(largest_face(&[(10, 10), (20, 5), (5, 30), (1, 1)]), Some(2));
    assert_eq!(largest_face(&[(10, 10), (20, 5), (25, 4)]), Some(2));
    // Agrees with Iterator::max_by_key.
    let faces = [(3u32, 4u32), (6, 2), (2, 6), (1, 1)];
    let expected = faces.iter().enumerate().max_by_key(|(_, f)| f.0 * f.1).map(|(i, _)| i);
    assert_eq!(largest_face(&faces), expected);
}

#[test]
fn crop_leaves_the_rest_of_the_destination() {
    let src: Vec<u8> = (0..40).collect();
    let mut dst = vec![255u8; 4 * 6];
    // A 2 x 3 window at column 1, copied into rows of 6 bytes.
    crop_plane(0, &src, 10, &mut dst, 6, 1, 2, 3);
    assert_eq!(
        dst,
        vec![1, 2, 255, 255, 255, 255, 11, 12, 255, 255, 255, 255, 21, 22, 255, 255, 255, 255, 255, 255, 255, 255, 255, 255]
    );
}
