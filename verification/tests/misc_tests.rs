use ctrl_space::compositor::Rgb;
use ctrl_space::config::{
    parse_hex_color, config_path, data_path, decide_config_create, CreateConfigResult, Config,
    Appearance,
};
use ctrl_space::launch::{normalize_command, is_windows_exe, record_launch, LaunchResult};
use ctrl_space::frequency::Frequency;
use ctrl_space::catalog::build_catalog;
use ctrl_space::monitor::{pick_monitor, CrtcInfo, MonitorGeometry};

#[test]
fn hex_colors_parse_or_fall_back() {
    assert_eq!(parse_hex_color("#FFaa00"), Some(Rgb { r: 255, g: 170, b: 0 }));
    assert_eq!(parse_hex_color("#000000"), Some(Rgb { r: 0, g: 0, b: 0 }));
    assert_eq!(parse_hex_color("FFaa00"), None);
    assert_eq!(parse_hex_color("#FFaa0"), None);
    assert_eq!(parse_hex_color("#FFaa001"), None);
    assert_eq!(parse_hex_color("#GGxxzz"), None);
    assert_eq!(parse_hex_color(""), None);
}

#[test]
fn default_appearance_colors_parse() {
    let a = Appearance::default();
    assert_eq!(parse_hex_color(&a.foreground), Some(Rgb { r: 0xF8, g: 0xF8, b: 0xF2 }));
    assert_eq!(parse_hex_color(&a.background), Some(Rgb { r: 0x21, g: 0x22, b: 0x2C }));
    assert_eq!(parse_hex_color(&a.prompt_color), Some(Rgb { r: 0xBD, g: 0x93, b: 0xF9 }));
    assert_eq!(a.font_size, 10);
    let c = Config::default();
    assert_eq!(c.appearance.font_family, "Monospace");
}

#[test]
fn paths_join_the_directory() {
    assert_eq!(config_path("/home/u/.config/app"), "/home/u/.config/app/config.toml");
    assert_eq!(data_path("/home/u/.config/app"), "/home/u/.config/app/freq.txt");
}

#[test]
fn config_create_decision() {
    let created = decide_config_create("p".to_string(), false, false, false);
    assert!(matches!(created, CreateConfigResult::Created(_)));
    let needs = decide_config_create("p".to_string(), true, false, false);
    assert!(matches!(needs, CreateConfigResult::NeedsConfirmation(_)));
    let same = decide_config_create("p".to_string(), true, true, false);
    assert!(matches!(same, CreateConfigResult::Created(_)));
    let forced = decide_config_create("p".to_string(), true, false, true);
    assert!(matches!(forced, CreateConfigResult::Created(_)));
}

#[test]
fn command_lines_normalize() {
    let r = normalize_command(&"  firefox   --new-tab  ".to_string());
    let (program, normalized) = r.unwrap();
    assert_eq!(program, "firefox");
    assert_eq!(normalized, "firefox --new-tab");
    assert!(normalize_command(&"   ".to_string()).is_none());
    assert!(normalize_command(&"".to_string()).is_none());
}

#[test]
fn windows_executables_are_detected_case_insensitively() {
    assert!(is_windows_exe(&"C:/Tools/App.EXE".to_string()));
    assert!(is_windows_exe(&"app.exe".to_string()));
    assert!(!is_windows_exe(&"app.ex".to_string()));
    assert!(!is_windows_exe(&"exe".to_string()));
    assert!(!is_windows_exe(&"app.exe.bak".to_string()));
}

#[test]
fn launches_record_frequency_only_on_success() {
    let mut freq = Frequency::empty();
    record_launch(
        &mut freq,
        &LaunchResult { success: true, command: "vim".to_string(), needs_delay: false },
    );
    assert_eq!(freq.get(&"vim".to_string()), 1);
    record_launch(
        &mut freq,
        &LaunchResult { success: false, command: "vim".to_string(), needs_delay: false },
    );
    assert_eq!(freq.get(&"vim".to_string()), 1);
    record_launch(
        &mut freq,
        &LaunchResult { success: true, command: "".to_string(), needs_delay: false },
    );
    assert_eq!(freq.get(&"".to_string()), 0);
}

#[test]
fn catalog_dedups_and_sorts() {
    let names = vec!["vim".to_string(), "abc".to_string(), "vim".to_string(), "Ab".to_string()];
    let r = build_catalog(names);
    assert_eq!(r, vec!["Ab".to_string(), "abc".to_string(), "vim".to_string()]);
}

#[test]
fn monitor_selection_prefers_the_focused_region() {
    let crtcs = vec![
        CrtcInfo { x: 0, y: 0, width: 0, height: 0 },  // disabled
        CrtcInfo { x: 0, y: 0, width: 1920, height: 1080 },
        CrtcInfo { x: 1920, y: 0, width: 1280, height: 1024 },
    ];
    let m = pick_monitor(Some((2000, 100)), &crtcs, 3200);
    assert_eq!(m, MonitorGeometry { x: 1920, y: 0, width: 1280 });
    // a focus point outside every region falls back to the first enabled one
    let m2 = pick_monitor(Some((-50, -50)), &crtcs, 3200);
    assert_eq!(m2, MonitorGeometry { x: 0, y: 0, width: 1920 });
    // no focus point: the full screen at the origin
    let m3 = pick_monitor(None, &crtcs, 3200);
    assert_eq!(m3, MonitorGeometry { x: 0, y: 0, width: 3200 });
    // nothing enabled at all
    let m4 = pick_monitor(Some((5, 5)), &vec![CrtcInfo { x: 0, y: 0, width: 0, height: 0 }], 800);
    assert_eq!(m4, MonitorGeometry { x: 0, y: 0, width: 800 });
}
