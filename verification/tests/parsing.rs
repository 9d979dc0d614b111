//! Colour-parameter, integer and meminfo parsing.

use tmux_applets::common::{parse_colour_param, parse_u32, pct_round, Fraction};
use tmux_applets::cpu::parse_freq_value;
use tmux_applets::fixed::Fixed;
use tmux_applets::mem::parse_meminfo;

#[test]
fn test_parse_colour_param_match() {
    let v = parse_colour_param("s:50.0", "s");
    assert_eq!(Some(Fixed { neg: false, units: 500_000_000 }), v);
    assert!(v.unwrap().in_range());
}

#[test]
fn test_parse_colour_param_wrong_key() {
    assert_eq!(None, parse_colour_param("s:50.0", "l"));
    assert_eq!(None, parse_colour_param("x:50", "s"));
    assert_eq!(None, parse_colour_param("x:50", "l"));
}

#[test]
fn test_parse_colour_param_malformed() {
    assert_eq!(None, parse_colour_param("s:abc", "s"));
    assert_eq!(None, parse_colour_param("s", "s"));
    assert_eq!(None, parse_colour_param("s:1:2", "s"));
    assert_eq!(None, parse_colour_param("s:", "s"));
    assert_eq!(None, parse_colour_param("s:.", "s"));
    assert_eq!(None, parse_colour_param("s:1e5", "s"));
    assert_eq!(None, parse_colour_param("pct-text", "s"));
    assert_eq!(None, parse_colour_param("", "s"));
}

#[test]
fn test_parse_colour_param_decimal_shapes() {
    assert_eq!(Some(Fixed { neg: false, units: 5_000_000 }), parse_colour_param("s:.5", "s"));
    assert_eq!(Some(Fixed { neg: false, units: 50_000_000 }), parse_colour_param("s:5.", "s"));
    assert_eq!(Some(Fixed { neg: false, units: 30_000_000 }), parse_colour_param("s:+3", "s"));
    assert_eq!(Some(Fixed { neg: true, units: 10_000_000 }), parse_colour_param("s:-1", "s"));
    // negative zero is plain zero, and in range
    assert_eq!(Some(Fixed { neg: false, units: 0 }), parse_colour_param("s:-0.0", "s"));
    // fractional digits beyond the seventh are dropped
    assert_eq!(
        Some(Fixed { neg: false, units: 1_234_567 }),
        parse_colour_param("s:0.12345678", "s")
    );
}

#[test]
fn test_parse_colour_param_out_of_range_value() {
    let v = parse_colour_param("s:150", "s").unwrap();
    assert_eq!(Fixed { neg: false, units: 1_500_000_000 }, v);
    assert!(!v.in_range());
    let w = parse_colour_param("l:-3.5", "l").unwrap();
    assert_eq!(Fixed { neg: true, units: 35_000_000 }, w);
    assert!(!w.in_range());
    // a value too large for the fixed point saturates, far out of range
    let s = parse_colour_param("s:99999999999999999999999", "s").unwrap();
    assert_eq!(u64::MAX, s.units);
    assert!(!s.in_range());
}

#[test]
fn test_parse_u32() {
    assert_eq!(Some(0), parse_u32("0"));
    assert_eq!(Some(1234), parse_u32("1234"));
    assert_eq!(Some(12), parse_u32("+12"));
    assert_eq!(Some(u32::MAX), parse_u32("4294967295"));
    assert_eq!(None, parse_u32("4294967296"));
    assert_eq!(None, parse_u32(""));
    assert_eq!(None, parse_u32("+"));
    assert_eq!(None, parse_u32("12a"));
    assert_eq!(None, parse_u32("-1"));
    assert_eq!(None, parse_u32("1 2"));
}

#[test]
fn test_parse_freq_value() {
    assert_eq!(Some(2_400_000), parse_freq_value("2400000\n"));
    assert_eq!(Some(800_000), parse_freq_value("800000"));
    assert_eq!(Some(3), parse_freq_value("3 \t\n"));
    assert_eq!(None, parse_freq_value("\n"));
    assert_eq!(None, parse_freq_value("12 34\n"));
}

#[test]
fn test_parse_meminfo_counts() {
    let text = "MemTotal:       16384256 kB\nMemFree:         8123456 kB\nMemAvailable:   12288192 kB\nBuffers:          123456 kB\n";
    let m = parse_meminfo(text);
    assert_eq!(16384256, m.total);
    assert_eq!(12288192, m.available);
    assert_eq!(16384256 - 12288192, m.used);
}

#[test]
fn test_parse_meminfo_missing_labels() {
    let m = parse_meminfo("Foo:  1 kB\nBar:  2 kB\n");
    assert_eq!(0, m.total);
    assert_eq!(0, m.available);
    assert_eq!(0, m.used);
}

#[test]
fn test_parse_meminfo_first_labels_win_once_both_seen() {
    let text = "MemTotal: 1000 kB\nMemAvailable: 400 kB\nMemTotal: 1 kB\n";
    let m = parse_meminfo(text);
    assert_eq!(1000, m.total);
    assert_eq!(400, m.available);
    assert_eq!(600, m.used);
}

#[test]
fn test_parse_meminfo_unparsable_value_is_zero() {
    let m = parse_meminfo("MemTotal: lots kB\nMemAvailable: 400 kB\n");
    assert_eq!(0, m.total);
    assert_eq!(400, m.available);
    assert_eq!(0, m.used);
}

#[test]
fn test_pct_round() {
    assert_eq!(60, pct_round(&Fraction::new(600, 1000).unwrap()));
    assert_eq!(0, pct_round(&Fraction::new(0, 7).unwrap()));
    assert_eq!(100, pct_round(&Fraction::new(7, 7).unwrap()));
    assert_eq!(50, pct_round(&Fraction::new(1, 2).unwrap()));
    assert_eq!(33, pct_round(&Fraction::new(1, 3).unwrap()));
    // exactly half a percent rounds up
    assert_eq!(1, pct_round(&Fraction::new(1, 200).unwrap()));
    // the bounds are checked
    assert_eq!(None, Fraction::new(5, 0));
    assert_eq!(None, Fraction::new(8, 7));
}
