//! The HSL to RGB conversion, held against its fixed stops and
//! against the colorsys crate's floating-point conversion.

use tmux_applets::colour::{hsl_to_rgb, Hsl, Rgb};
use tmux_applets::common::{fraction_rgb, Fraction};
use tmux_applets::fixed::Fixed;

#[test]
fn test_hsl_to_rgb_red() {
    let hsl = Hsl::from_whole(0, 100, 50);
    let rgb = hsl_to_rgb(&hsl);
    assert_eq!((255, 0, 0), (rgb.r, rgb.g, rgb.b));
}

#[test]
fn test_hsl_to_rgb_green() {
    let hsl = Hsl::from_whole(120, 100, 50);
    let rgb = hsl_to_rgb(&hsl);
    assert_eq!((0, 255, 0), (rgb.r, rgb.g, rgb.b));
}

#[test]
fn test_hsl_to_rgb_more_stops() {
    // yellow, white, black, gray
    assert_eq!(
        Rgb { r: 255, g: 255, b: 0 },
        hsl_to_rgb(&Hsl::from_whole(60, 100, 50))
    );
    assert_eq!(
        Rgb { r: 255, g: 255, b: 255 },
        hsl_to_rgb(&Hsl::from_whole(300, 100, 100))
    );
    assert_eq!(Rgb { r: 0, g: 0, b: 0 }, hsl_to_rgb(&Hsl::from_whole(300, 100, 0)));
    assert_eq!(
        Rgb { r: 128, g: 128, b: 128 },
        hsl_to_rgb(&Hsl::from_whole(45, 0, 50))
    );
}

#[test]
fn test_hex_string() {
    let rgb = Rgb { r: 0, g: 255, b: 0 };
    assert_eq!("00ff00", rgb.to_hex_string());
    let rgb = Rgb { r: 255, g: 204, b: 10 };
    assert_eq!("ffcc0a", rgb.to_hex_string());
}

#[test]
fn test_extreme_fractions_default_options() {
    // fraction zero renders green, fraction one red, for any denominator
    for den in [1u32, 2, 7, 100, 1000, u32::MAX] {
        let green = fraction_rgb(Fraction { num: 0, den }, None, None);
        assert_eq!(Rgb { r: 0, g: 255, b: 0 }, green);
        let red = fraction_rgb(Fraction { num: den, den }, None, None);
        assert_eq!(Rgb { r: 255, g: 0, b: 0 }, red);
    }
}

#[test]
fn test_fraction_rgb_with_options() {
    // fraction 0.6 maps to hue 48; with full saturation at half
    // lightness that is exactly (255, 204, 0)
    let f = Fraction { num: 600, den: 1000 };
    let rgb = fraction_rgb(f, None, None);
    assert_eq!(Rgb { r: 255, g: 204, b: 0 }, rgb);
    // zero saturation turns any hue gray
    let gray = fraction_rgb(f, Some(Fixed::from_whole(0)), None);
    assert_eq!(Rgb { r: 128, g: 128, b: 128 }, gray);
}

fn colorsys_hex(h: f64, s: f64, l: f64) -> String {
    let hsl = colorsys::Hsl::from((h, s, l));
    let rgb = colorsys::Rgb::from(&hsl);
    let hex = rgb.to_hex_string();
    hex.trim_start_matches('#').to_string()
}

#[test]
fn test_matches_colorsys() {
    // whole-number stops away from rounding ties: the exact integer
    // conversion and colorsys's floating-point one agree digit for digit
    let cases: [(u32, u32, u32); 12] = [
        (0, 100, 50),
        (48, 100, 50),
        (60, 100, 50),
        (120, 100, 50),
        (132, 80, 60),
        (180, 60, 40),
        (240, 100, 50),
        (252, 35, 65),
        (300, 100, 50),
        (360, 100, 50),
        (96, 0, 50),
        (204, 100, 28),
    ];
    for (h, s, l) in cases {
        let mine = hsl_to_rgb(&Hsl::from_whole(h, s, l)).to_hex_string();
        let theirs = colorsys_hex(h as f64, s as f64, l as f64);
        assert_eq!(mine, theirs, "hsl({h}, {s}, {l})");
    }
}
