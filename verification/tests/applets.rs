//! The three applets, end to end: arguments in, markup out.

use tmux_applets::common::{ColourWarning, ParamKind};
use tmux_applets::cpu::{self, CPUAppletError, CPUInfo};
use tmux_applets::fixed::Fixed;
use tmux_applets::mem::{self, normalise_mem_usage, parse_meminfo, MemAppletError};
use tmux_applets::ping::{self, host_of_args, PingAppletError};

fn argv(args: &[&str]) -> Vec<String> {
    args.iter().map(|a| a.to_string()).collect()
}

#[test]
fn test_normalise_cur_freq() {
    let f = |min_freq: u32, max_freq: u32, cur_freq: u32| -> f32 {
        let fr = cpu::normalise_cur_freq(&CPUInfo { min_freq, max_freq, cur_freq }).unwrap();
        fr.num as f32 / fr.den as f32
    };
    assert_eq!(0.0, f(100, 200, 99));
    assert_eq!(0.0, f(100, 200, 100));
    assert_eq!(0.5, f(100, 200, 150));
    assert_eq!(1.0, f(100, 200, 201));
}

#[test]
fn test_normalise_cur_freq_degenerate_range() {
    let r = cpu::normalise_cur_freq(&CPUInfo { min_freq: 200, max_freq: 200, cur_freq: 200 });
    assert_eq!(Err(CPUAppletError::CPUInfo), r);
}

#[test]
fn test_cpu_info_combines_readings() {
    let ok = cpu::cpu_info(Some(100), Some(200), Some(150));
    assert_eq!(
        Ok(CPUInfo { min_freq: 100, max_freq: 200, cur_freq: 150 }),
        ok
    );
    assert_eq!(Err(CPUAppletError::CPUInfo), cpu::cpu_info(None, Some(200), Some(150)));
    assert_eq!(Err(CPUAppletError::CPUInfo), cpu::cpu_info(Some(100), Some(200), None));
}

#[test]
fn test_cpu_applet_blocks() {
    let infos = vec![
        CPUInfo { min_freq: 100, max_freq: 200, cur_freq: 150 },
        CPUInfo { min_freq: 100, max_freq: 200, cur_freq: 150 },
    ];
    let (out, warnings) = cpu::applet(&argv(&[]), &infos).unwrap();
    assert_eq!("#[bg=ffff00]  #[bg=ffff00]  #[default]\n", out);
    assert!(warnings.is_empty());
}

#[test]
fn test_cpu_applet_no_processors() {
    let (out, _) = cpu::applet(&argv(&[]), &vec![]).unwrap();
    assert_eq!("#[default]\n", out);
}

#[test]
fn test_cpu_applet_degenerate_range_fails() {
    let infos = vec![
        CPUInfo { min_freq: 100, max_freq: 200, cur_freq: 150 },
        CPUInfo { min_freq: 300, max_freq: 300, cur_freq: 300 },
    ];
    assert_eq!(Err(CPUAppletError::CPUInfo), cpu::applet(&argv(&[]), &infos));
}

#[test]
fn test_read_mem_info() {
    let text = "MemTotal:       16384256 kB\nMemFree:         8123456 kB\nMemAvailable:   12288192 kB\n";
    let m = parse_meminfo(text);
    assert_ne!(0, m.total);
    assert_ne!(0, m.available);
    assert_ne!(0, m.used);
    println!("mem_info: {:?}", m);
}

#[test]
fn test_mem_fraction_round_trip() {
    let m = parse_meminfo("MemTotal: 1000 kB\nMemAvailable: 400 kB\n");
    assert_eq!(600, m.used);
    let f = normalise_mem_usage(&m).unwrap();
    assert_eq!(0.6, f.num as f32 / f.den as f32);
}

#[test]
fn test_mem_zero_total_is_collection_failure() {
    let m = parse_meminfo("MemAvailable: 400 kB\n");
    assert_eq!(
        Err(MemAppletError::MemInfoUnavailable),
        normalise_mem_usage(&m)
    );
}

#[test]
fn test_mem_applet_renders_block() {
    let text = "MemTotal: 1000 kB\nMemAvailable: 400 kB\n";
    let (out, warnings) = mem::applet(&argv(&[]), Some(text)).unwrap();
    assert_eq!("#[bg=ffcc00]  #[default]\n", out);
    assert!(warnings.is_empty());
}

#[test]
fn test_mem_applet_pct_text() {
    let text = "MemTotal: 1000 kB\nMemAvailable: 400 kB\n";
    let (out, _) = mem::applet(&argv(&["pct-text"]), Some(text)).unwrap();
    assert_eq!("#[bg=ffcc00]60#[default]\n", out);
    let (out, _) = mem::applet(
        &argv(&["pct-text"]),
        Some("MemTotal: 1000 kB\nMemAvailable: 960 kB\n"),
    )
    .unwrap();
    assert_eq!(" 4", &out[12..14]);
}

#[test]
fn test_mem_applet_unreadable_source() {
    assert_eq!(
        Err(MemAppletError::MemInfoUnavailable),
        mem::applet(&argv(&[]), None)
    );
}

#[test]
fn test_mem_applet_missing_labels() {
    let r = mem::applet(&argv(&[]), Some("Foo: 1 kB\nBar: 2 kB\n"));
    assert_eq!(Err(MemAppletError::MemInfoUnavailable), r);
}

#[test]
fn test_out_of_range_saturation_keeps_default() {
    let text = "MemTotal: 1000 kB\nMemAvailable: 1000 kB\n";
    let (with_bad, warnings) = mem::applet(&argv(&["s:150"]), Some(text)).unwrap();
    let (plain, _) = mem::applet(&argv(&[]), Some(text)).unwrap();
    assert_eq!(plain, with_bad);
    assert_eq!(
        vec![ColourWarning {
            kind: ParamKind::Saturation,
            value: Fixed { neg: false, units: 1_500_000_000 },
        }],
        warnings
    );
}

#[test]
fn test_in_range_saturation_changes_colour() {
    let text = "MemTotal: 1000 kB\nMemAvailable: 1000 kB\n";
    let (with_s, warnings) = mem::applet(&argv(&["s:0"]), Some(text)).unwrap();
    let (plain, _) = mem::applet(&argv(&[]), Some(text)).unwrap();
    assert!(warnings.is_empty());
    assert_ne!(plain, with_s);
    assert_eq!("#[bg=808080]  #[default]\n", with_s);
}

#[test]
fn test_last_parameter_wins() {
    let text = "MemTotal: 1000 kB\nMemAvailable: 1000 kB\n";
    let (out, _) = mem::applet(&argv(&["s:70", "s:0"]), Some(text)).unwrap();
    assert_eq!("#[bg=808080]  #[default]\n", out);
}

#[test]
fn test_ping_applet_reachable_green() {
    let (out, warnings) = ping::applet(&argv(&["example.com"]), true).unwrap();
    assert_eq!("#[bg=00ff00]  #[default]", out);
    assert!(warnings.is_empty());
}

#[test]
fn test_ping_applet_unreachable_red() {
    let (out, _) = ping::applet(&argv(&["example.com"]), false).unwrap();
    assert_eq!("#[bg=ff0000]  #[default]", out);
}

#[test]
fn test_ping_applet_missing_host() {
    assert_eq!(
        Err(PingAppletError::PingMissingHost),
        ping::applet(&argv(&["s:50.0"]), true)
    );
    assert_eq!(
        Err(PingAppletError::PingMissingHost),
        ping::applet(&argv(&[]), false)
    );
}

#[test]
fn test_ping_host_selection() {
    assert_eq!(None, host_of_args(&argv(&["s:50.0", "pct-text"])));
    assert_eq!(
        Some("example.com".to_string()),
        host_of_args(&argv(&["s:50.0", "example.com", "extra.example"]))
    );
    assert_eq!(
        Some("example.com".to_string()),
        host_of_args(&argv(&["", "example.com"]))
    );
}

#[test]
fn test_repeated_invocations_identical() {
    let args = argv(&["s:80", "l:40.5", "pct-text"]);
    let text = "MemTotal: 1000 kB\nMemAvailable: 400 kB\n";
    let infos = vec![CPUInfo { min_freq: 100, max_freq: 200, cur_freq: 173 }];
    assert_eq!(
        cpu::applet(&args, &infos).unwrap(),
        cpu::applet(&args, &infos).unwrap()
    );
    assert_eq!(
        mem::applet(&args, Some(text)).unwrap(),
        mem::applet(&args, Some(text)).unwrap()
    );
    assert_eq!(
        ping::applet(&argv(&["h.example"]), false).unwrap(),
        ping::applet(&argv(&["h.example"]), false).unwrap()
    );
}
