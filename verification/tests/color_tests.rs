use lykoi_data::color::from_hex_str;

fn to_float(channels: (u8, u8, u8)) -> (f32, f32, f32) {
    (
        channels.0 as f32 / 255.0,
        channels.1 as f32 / 255.0,
        channels.2 as f32 / 255.0,
    )
}

#[test]
fn test_main() {
    let c = from_hex_str("#000").expect("parse failed");
    assert_eq!(to_float(c), (0.0, 0.0, 0.0));
    let c = from_hex_str("#fff0").expect("parse failed");
    assert_eq!(to_float(c), (1.0, 1.0, 1.0));
    let c = from_hex_str("#ff00ff").expect("parse failed");
    assert_eq!(to_float(c), (1.0, 0.0, 1.0));
}

#[test]
fn color_short_form_scales_by_17() {
    assert_eq!(from_hex_str("#1af"), Some((0x11, 0xaa, 0xff)));
}

#[test]
fn color_long_forms_and_alpha() {
    assert_eq!(from_hex_str("12345678"), Some((0x12, 0x34, 0x56)));
    assert_eq!(from_hex_str("#AbCdEf"), Some((0xab, 0xcd, 0xef)));
}

#[test]
fn color_rejects_bad_input() {
    assert_eq!(from_hex_str(""), None);
    assert_eq!(from_hex_str("#12345"), None);
    assert_eq!(from_hex_str("#ggg"), None);
    // The alpha digits must parse even though they are dropped.
    assert_eq!(from_hex_str("#fffx"), None);
    assert_eq!(from_hex_str("#ff00ffzz"), None);
}
