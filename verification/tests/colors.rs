use garage_sale_gen::colors::{fnv1a64, parse_hsl, rgb_to_hex, word_to_hsl_color, HSLColor};

fn hsl(hue: u16, saturation: u8, lightness: u8) -> HSLColor {
    HSLColor { hue, saturation, lightness }
}

#[test]
fn new_wraps_hue_and_caps_percentages() {
    assert_eq!(HSLColor::new(370, 120, 101), hsl(10, 100, 100));
    assert_eq!(HSLColor::new(359, 100, 0), hsl(359, 100, 0));
    assert_eq!(HSLColor::new(720, 55, 40), hsl(0, 55, 40));
}

#[test]
fn invert_turns_hue_and_mirrors_lightness() {
    assert_eq!(HSLColor::new(200, 50, 30).invert(), hsl(20, 50, 70));
    assert_eq!(HSLColor::new(0, 0, 0).invert(), hsl(180, 0, 100));
    // a lightness above 100 saturates to 0
    assert_eq!(hsl(10, 20, 150).invert(), hsl(190, 20, 0));
}

#[test]
fn invert_twice_gives_the_color_back() {
    for &(h, s, l) in &[(0u16, 0u8, 0u8), (17, 60, 45), (359, 100, 100), (180, 33, 50)] {
        let c = HSLColor::new(h, s, l);
        assert_eq!(c.invert().invert(), c);
    }
}

#[test]
fn css_text_of_a_color() {
    assert_eq!(hsl(210, 60, 50).to_css(), "hsl(210 60% 50%)");
    assert_eq!(hsl(0, 0, 0).to_css(), "hsl(0 0% 0%)");
}

#[test]
fn css_text_reads_back() {
    for &(h, s, l) in &[(0u16, 0u8, 0u8), (210, 60, 50), (359, 100, 100), (7, 9, 10)] {
        let c = HSLColor::new(h, s, l);
        assert_eq!(parse_hsl(&c.to_css()), Ok(c));
    }
}

#[test]
fn parse_hsl_accepts_commas_and_whitespace() {
    assert_eq!(parse_hsl("hsl(210 60% 50%)"), Ok(hsl(210, 60, 50)));
    assert_eq!(parse_hsl("  hsl(210, 60%, 50%)\n"), Ok(hsl(210, 60, 50)));
    assert_eq!(parse_hsl("hsl(+5 2% 3%)"), Ok(hsl(5, 2, 3)));
    // values are normalized as `new` does
    assert_eq!(parse_hsl("hsl(400 160% 50%)"), Ok(hsl(40, 100, 50)));
}

#[test]
fn parse_hsl_errors() {
    assert_eq!(parse_hsl("rgb(1, 2, 3)"), Err("expected hsl(...)".to_string()));
    assert_eq!(parse_hsl("hsl(1 2% 3%"), Err("expected hsl(...)".to_string()));
    assert_eq!(parse_hsl("hsl(1 2%)"), Err("expected 3 values: H S% L%".to_string()));
    assert_eq!(parse_hsl("hsl(x 2% 3%)"), Err("bad hue".to_string()));
    assert_eq!(parse_hsl("hsl(70000 2% 3%)"), Err("bad hue".to_string()));
    assert_eq!(parse_hsl("hsl(1 2 3%)"), Err("S must end with %".to_string()));
    assert_eq!(parse_hsl("hsl(1 2% 3)"), Err("L must end with %".to_string()));
    assert_eq!(parse_hsl("hsl(1 300% 3%)"), Err("bad saturation".to_string()));
    assert_eq!(parse_hsl("hsl(1 2% y%)"), Err("bad lightness".to_string()));
}

#[test]
fn fnv1a64_known_values() {
    assert_eq!(fnv1a64(b""), 0xcbf29ce484222325);
    assert_eq!(fnv1a64(b"a"), 0xaf63dc4c8601ec8c);
    assert_eq!(fnv1a64(b"foobar"), 0x85944171f73967e8);
}

#[test]
fn word_color_comes_from_the_hash() {
    // fnv1a64("a") = 0xaf63dc4c8601ec8c: hue 0xec8c % 360, saturation 55 + 0x01 % 31,
    // lightness 40 + 0x86 % 21
    assert_eq!(word_to_hsl_color("a"), hsl(76, 56, 48));
    assert_eq!(word_to_hsl_color("garage"), word_to_hsl_color("garage"));
}

#[test]
fn word_colors_stay_in_range() {
    for w in ["", "a", "rust", "garage sale", "ünïcödé", "0123456789"] {
        let c = word_to_hsl_color(w);
        assert!(c.hue < 360);
        assert!((55..=85).contains(&c.saturation));
        assert!((40..=60).contains(&c.lightness));
    }
}

#[test]
fn hex_text_of_red_green_blue() {
    assert_eq!(rgb_to_hex(255, 0, 171), "#FF00AB");
    assert_eq!(rgb_to_hex(0, 0, 0), "#000000");
    assert_eq!(rgb_to_hex(18, 52, 86), "#123456");
}
