use grephite::color::Color;
use grephite::color::color_from_hex;

#[test]
fn three_six_and_eight_digit_forms_agree_on_red() {
    let red = Color { r: 255, g: 0, b: 0, a: 255 };
    assert_eq!(color_from_hex("#f00"), Some(red));
    assert_eq!(color_from_hex("#ff0000"), Some(red));
    assert_eq!(color_from_hex("#ff0000ff"), Some(red));
}

#[test]
fn leading_hash_is_optional() {
    assert_eq!(color_from_hex("ff0000"), color_from_hex("#ff0000"));
    assert_eq!(color_from_hex("0f0"), Some(Color { r: 0, g: 255, b: 0, a: 255 }));
}

#[test]
fn half_alpha_red_parses_exactly() {
    assert_eq!(
        color_from_hex("#ff000080"),
        Some(Color { r: 255, g: 0, b: 0, a: 0x80 })
    );
}

#[test]
fn short_form_doubles_its_digits() {
    assert_eq!(color_from_hex("#1a9"), color_from_hex("#11aa99"));
    assert_eq!(
        color_from_hex("#abc"),
        Some(Color { r: 0xaa, g: 0xbb, b: 0xcc, a: 255 })
    );
}

#[test]
fn upper_case_digits_parse_too() {
    assert_eq!(
        color_from_hex("#A0B1C2"),
        Some(Color { r: 0xa0, g: 0xb1, b: 0xc2, a: 255 })
    );
}

#[test]
fn malformed_specifications_yield_none() {
    assert_eq!(color_from_hex("banana"), None);
    assert_eq!(color_from_hex("#12"), None);
    assert_eq!(color_from_hex(""), None);
    assert_eq!(color_from_hex("#"), None);
    assert_eq!(color_from_hex("#12345"), None);
    assert_eq!(color_from_hex("#1234567"), None);
    assert_eq!(color_from_hex("#gg0000"), None);
    assert_eq!(color_from_hex("#ff00zz"), None);
}

#[test]
fn black_is_opaque() {
    assert_eq!(Color::black(), Color { r: 0, g: 0, b: 0, a: 255 });
}
