use pride_kitchen::color::reduce_strain;

#[test]
fn gray_color_is_stable() {
    // an already-gray color stays gray: its luminance 128/255 is inside
    // the clamp range [0.20, 0.85], so the color is returned unchanged
    assert_eq!(reduce_strain("#808080"), "#808080");
}

#[test]
fn black_is_lifted_to_minimum_gray() {
    // luminance 0 clamps to 0.20, i.e. channel value 51 = 0x33
    assert_eq!(reduce_strain("#000000"), "#333333");
}

#[test]
fn white_is_lowered_to_maximum_gray() {
    // luminance 1 clamps to 0.85, i.e. channel value 217 = 0xD9
    assert_eq!(reduce_strain("#FFFFFF"), "#D9D9D9");
}

#[test]
fn pure_red_is_softened() {
    // saturation 1 clamps to 0.80, lightness 0.5 stays: channels become
    // (0.9, 0.1, 0.1) * 255, rounded half away from zero
    assert_eq!(reduce_strain("#FF0000"), "#E61A1A");
}

#[test]
fn pure_green_is_softened() {
    assert_eq!(reduce_strain("#00FF00"), "#1AE61A");
}

#[test]
fn pure_blue_is_softened() {
    assert_eq!(reduce_strain("#0000FF"), "#1A1AE6");
}

#[test]
fn lowercase_digits_are_accepted() {
    assert_eq!(reduce_strain("#ff0000"), "#E61A1A");
}

#[test]
fn mid_saturation_blue_is_softened() {
    // max = 205 (blue), min = 10: lightness 215/510 stays inside
    // [0.30, 0.80], saturation 195/215 clamps to 0.80, hue is untouched
    assert_eq!(reduce_strain("#0A7CCD"), "#167AC2");
}

#[test]
fn near_gray_uses_the_gray_path() {
    // all pairwise channel differences are at most 5/255 < 0.02, so the
    // mean luminance 251/255 is clamped to 0.85
    assert_eq!(reduce_strain("#FAFAF5"), "#D9D9D9");
}
