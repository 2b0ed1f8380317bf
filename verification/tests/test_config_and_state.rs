use kirialsd::config::{get_default_config_path, CliArgs, DaemonConfig, LogLevel, DEFAULT_CONFIG_TEMPLATE};
use kirialsd::double::Double;
use kirialsd::state::{parse_state, LoadPlan, Reading, StateManager, StateRecord};
use toml::{Table, Value};

fn d(x: f64) -> Double {
    Double::from_bits(x.to_bits())
}

fn f(x: Double) -> f64 {
    f64::from_bits(x.to_bits())
}

fn all(v: &[f64]) -> Vec<Double> {
    v.iter().map(|&x| d(x)).collect()
}

fn floats(v: &[Double]) -> Vec<f64> {
    v.iter().map(|&x| f(x)).collect()
}

fn to_table(cfg: &DaemonConfig) -> Table {
    let mut t = Table::new();
    let points = cfg.lux_points.iter().map(|&x| Value::Float(f(x))).collect();
    t.insert("lux_points".to_string(), Value::Array(points));
    if let Some(m) = cfg.max_lux {
        t.insert("max_lux".to_string(), Value::Float(f(m)));
    }
    t.insert("lux_hysteresis_ratio".to_string(), Value::Float(f(cfg.lux_hysteresis_ratio)));
    t.insert("lux_hysteresis_abs".to_string(), Value::Float(f(cfg.lux_hysteresis_abs)));
    t.insert("auto_adjust_delay_ms".to_string(), Value::Integer(cfg.auto_adjust_delay_ms as i64));
    t.insert("transition_duration_ms".to_string(), Value::Integer(cfg.transition_duration_ms as i64));
    t.insert("min_transition_duration_ms".to_string(), Value::Integer(cfg.min_transition_duration_ms as i64));
    t.insert("adaptive_transition".to_string(), Value::Boolean(cfg.adaptive_transition));
    t.insert("shutter_threshold".to_string(), Value::Float(f(cfg.shutter_threshold)));
    t.insert("default_learning".to_string(), Value::Boolean(cfg.default_learning));
    t.insert("default_adjust_enabled".to_string(), Value::Boolean(cfg.default_adjust_enabled));
    t.insert("min_brightness_percent".to_string(), Value::Float(f(cfg.min_brightness_percent)));
    t.insert("max_brightness_percent".to_string(), Value::Float(f(cfg.max_brightness_percent)));
    if let Some(name) = &cfg.backlight_device {
        t.insert("backlight_device".to_string(), Value::String(name.clone()));
    }
    t.insert("poll_interval_ms".to_string(), Value::Integer(cfg.poll_interval_ms));
    t
}

/// A configuration with the settings of a table, the defaults where they are missing.
fn from_table(t: &Table) -> DaemonConfig {
    let mut cfg = DaemonConfig::default();
    let float = |key: &str, or: Double| t.get(key).map_or(or, |v| d(v.as_float().unwrap()));
    let whole = |key: &str, or: u64| t.get(key).map_or(or, |v| v.as_integer().unwrap() as u64);
    let flag = |key: &str, or: bool| t.get(key).map_or(or, |v| v.as_bool().unwrap());
    if let Some(points) = t.get("lux_points") {
        cfg.lux_points = points.as_array().unwrap().iter().map(|v| d(v.as_float().unwrap())).collect();
    }
    cfg.max_lux = t.get("max_lux").map(|v| d(v.as_float().unwrap()));
    cfg.lux_hysteresis_ratio = float("lux_hysteresis_ratio", cfg.lux_hysteresis_ratio);
    cfg.lux_hysteresis_abs = float("lux_hysteresis_abs", cfg.lux_hysteresis_abs);
    cfg.auto_adjust_delay_ms = whole("auto_adjust_delay_ms", cfg.auto_adjust_delay_ms);
    cfg.transition_duration_ms = whole("transition_duration_ms", cfg.transition_duration_ms);
    cfg.min_transition_duration_ms = whole("min_transition_duration_ms", cfg.min_transition_duration_ms);
    cfg.adaptive_transition = flag("adaptive_transition", cfg.adaptive_transition);
    cfg.shutter_threshold = float("shutter_threshold", cfg.shutter_threshold);
    cfg.default_learning = flag("default_learning", cfg.default_learning);
    cfg.default_adjust_enabled = flag("default_adjust_enabled", cfg.default_adjust_enabled);
    cfg.min_brightness_percent = float("min_brightness_percent", cfg.min_brightness_percent);
    cfg.max_brightness_percent = float("max_brightness_percent", cfg.max_brightness_percent);
    cfg.backlight_device = t.get("backlight_device").map(|v| v.as_str().unwrap().to_string());
    cfg.poll_interval_ms = t.get("poll_interval_ms").map_or(cfg.poll_interval_ms, |v| v.as_integer().unwrap());
    cfg
}

#[test]
fn test_config_defaults_and_serialization() {
    let cfg = DaemonConfig::default();
    assert_eq!(f(cfg.effective_max_lux()), 1000.0);
    assert_eq!(cfg.lux_points.len(), 8);
    assert_eq!(f(cfg.min_brightness_percent), 2.0);
    assert_eq!(f(cfg.max_brightness_percent), 100.0);
    assert_eq!(cfg.poll_interval_ms, 1000);
    assert!(cfg.default_learning);
    assert!(cfg.default_adjust_enabled);

    let toml_str = toml::to_string_pretty(&to_table(&cfg)).expect("Serialize to TOML");
    let parsed = from_table(&toml_str.parse::<Table>().expect("Deserialize from TOML"));

    assert_eq!(f(parsed.effective_max_lux()), f(cfg.effective_max_lux()));
    assert_eq!(floats(&parsed.lux_points), floats(&cfg.lux_points));
    assert_eq!(f(parsed.lux_hysteresis_ratio), f(cfg.lux_hysteresis_ratio));
    assert_eq!(parsed.auto_adjust_delay_ms, cfg.auto_adjust_delay_ms);
    assert_eq!(parsed.poll_interval_ms, 1000);

    // Disabling poll with -1
    let disabled_toml = toml_str.replace("poll_interval_ms = 1000", "poll_interval_ms = -1");
    let parsed_disabled = from_table(&disabled_toml.parse::<Table>().expect("Deserialize disabled poll"));
    assert_eq!(parsed_disabled.poll_interval_ms, -1);
}

#[test]
fn test_config_load_or_create() {
    // The template is written with the default configuration
    let (cfg, write_template) = DaemonConfig::load_or_create(None);
    assert!(write_template);
    assert_eq!(f(cfg.effective_max_lux()), 1000.0);

    // Modify a field in the text and reload
    let modified_toml = DEFAULT_CONFIG_TEMPLATE.replace("transition_duration_ms = 1500", "transition_duration_ms = 3000");
    let (reloaded, write_template) =
        DaemonConfig::load_or_create(Some(from_table(&modified_toml.parse::<Table>().unwrap())));
    assert!(!write_template);
    assert_eq!(reloaded.transition_duration_ms, 3000);
}

#[test]
fn the_template_holds_the_defaults() {
    let table = DEFAULT_CONFIG_TEMPLATE.parse::<Table>().unwrap();
    assert_eq!(table, to_table(&DaemonConfig::default()));
}

#[test]
fn validation_moves_settings_into_their_ranges() {
    let mut cfg = DaemonConfig::default();
    cfg.lux_points = all(&[50.0, f64::NAN, -1.0, 0.0, 50.0, 20.0, -0.0]);
    cfg.max_lux = Some(d(0.0));
    cfg.lux_hysteresis_ratio = d(0.0);
    cfg.lux_hysteresis_abs = d(f64::NAN);
    cfg.auto_adjust_delay_ms = 3;
    cfg.transition_duration_ms = 10;
    cfg.min_transition_duration_ms = 5000;
    cfg.shutter_threshold = d(7.0);
    cfg.min_brightness_percent = d(60.0);
    cfg.max_brightness_percent = d(10.0);
    cfg.validate();
    assert_eq!(floats(&cfg.lux_points), vec![0.0, 20.0, 50.0]);
    assert_eq!(cfg.max_lux, None);
    assert_eq!(f(cfg.effective_max_lux()), 50.0);
    assert_eq!(f(cfg.lux_hysteresis_ratio), 0.01);
    assert_eq!(f(cfg.lux_hysteresis_abs), 0.0);
    assert_eq!(cfg.auto_adjust_delay_ms, 50);
    assert_eq!(cfg.transition_duration_ms, 50);
    assert_eq!(cfg.min_transition_duration_ms, 50);
    assert_eq!(f(cfg.shutter_threshold), 1.0);
    assert_eq!(f(cfg.min_brightness_percent), 60.0);
    assert_eq!(f(cfg.max_brightness_percent), 60.0);
    // once more changes nothing
    let points = floats(&cfg.lux_points);
    cfg.validate();
    assert_eq!(floats(&cfg.lux_points), points);
    assert_eq!(cfg.min_transition_duration_ms, 50);
    assert_eq!(f(cfg.max_brightness_percent), 60.0);
}

#[test]
fn too_few_points_become_the_default_ones() {
    let mut cfg = DaemonConfig::default();
    cfg.lux_points = all(&[5.0, 5.0, -3.0]);
    cfg.min_transition_duration_ms = 1;
    cfg.max_lux = Some(d(250.0));
    cfg.validate();
    assert_eq!(floats(&cfg.lux_points), vec![0.0, 15.0, 35.0, 70.0, 100.0, 300.0, 600.0, 1000.0]);
    assert_eq!(cfg.min_transition_duration_ms, 20);
    assert_eq!(f(cfg.effective_max_lux()), 250.0);
    cfg.lux_points = vec![];
    cfg.max_lux = None;
    assert_eq!(f(cfg.effective_max_lux()), 1000.0);
}

fn parse(args: &[&str]) -> CliArgs {
    CliArgs::parse(&args.iter().map(|s| s.to_string()).collect(), "default.toml".to_string())
}

#[test]
fn command_lines() {
    let a = parse(&[]);
    assert_eq!(a.config_path, "default.toml");
    assert_eq!(a.log_level, LogLevel::Info);
    assert!(!a.dry_run && !a.status_mode && !a.show_help && !a.show_version);
    let a = parse(&["-c", "x.toml", "--dry-run", "-v", "--status"]);
    assert_eq!(a.config_path, "x.toml");
    assert_eq!(a.log_level, LogLevel::Debug);
    assert!(a.dry_run && a.status_mode);
    assert_eq!(parse(&["-vv"]).log_level, LogLevel::Trace);
    assert_eq!(parse(&["-vvv"]).log_level, LogLevel::Trace);
    assert_eq!(parse(&["--trace", "-q"]).log_level, LogLevel::Off);
    assert_eq!(parse(&["--quiet", "debug"]).log_level, LogLevel::Debug);
    assert_eq!(parse(&["TRACE", "nonsense"]).log_level, LogLevel::Trace);
    assert!(parse(&["--get-lux"]).status_mode && parse(&["-s"]).status_mode);
    assert!(parse(&["-h"]).show_help && parse(&["--help"]).show_help);
    assert!(parse(&["-V"]).show_version && parse(&["--version"]).show_version);
    assert_eq!(parse(&["--config"]).config_path, "default.toml");
    assert_eq!(parse(&["--config", "-h"]).config_path, "-h");
    assert!(!parse(&["--config", "-h"]).show_help);
}

#[test]
fn log_levels_by_name() {
    assert_eq!(LogLevel::from_str("info"), LogLevel::Info);
    assert_eq!(LogLevel::from_str("DeBuG"), LogLevel::Debug);
    assert_eq!(LogLevel::from_str("TRACE"), LogLevel::Trace);
    assert_eq!(LogLevel::from_str("off"), LogLevel::Off);
    assert_eq!(LogLevel::from_str(""), LogLevel::Off);
    // the Kelvin sign and the dotted capital I have lower cases beyond ASCII
    assert_eq!(LogLevel::from_str("\u{130}NFO"), LogLevel::Off);
    assert_eq!(LogLevel::from_lowercase("INFO"), LogLevel::Off);
    assert!(LogLevel::Off < LogLevel::Info && LogLevel::Debug < LogLevel::Trace);
}

#[test]
fn paths_below_the_home_directory() {
    assert_eq!(get_default_config_path(Some("/x"), Some("/home/u")), "/x/kirialsd/config.toml");
    assert_eq!(get_default_config_path(None, Some("/home/u")), "/home/u/.config/kirialsd/config.toml");
    assert_eq!(get_default_config_path(None, None), "./.config/kirialsd/config.toml");
    assert_eq!(get_default_config_path(Some("/x/"), None), "/x/kirialsd/config.toml");
    assert_eq!(StateManager::new(Some("/s"), None).state_path, "/s/kirialsd/curve_y.conf");
    assert_eq!(StateManager::new(None, Some("/home/u")).state_path, "/home/u/.local/state/kirialsd/curve_y.conf");
}

// The state file as the daemon keeps it, but for the disk.

fn save(lux: &[f64], y: &[f64]) -> String {
    let lux: Vec<String> = lux.iter().map(|x| format!("{:.1}", x)).collect();
    let y: Vec<String> = y.iter().map(|x| format!("{:.4}", x)).collect();
    StateManager::save(&lux, &y)
}

fn number(s: &str) -> Option<Double> {
    s.parse::<f64>().ok().map(d)
}

fn readings(content: &str) -> Vec<Reading> {
    parse_state(content)
        .iter()
        .map(|r| match r {
            StateRecord::Pair(lux, y) => Reading::Pair(number(lux), number(y)),
            StateRecord::Single(y) => Reading::Single(number(y)),
        })
        .collect()
}

/// The levels that a start takes from the file, and the text of the file after it.
fn load_or_init(content: Option<&str>, lux_points: &[f64]) -> (Vec<f64>, String) {
    let points = all(lux_points);
    let read = content.map(readings);
    let levels = match StateManager::load_or_init(read.as_ref(), &points) {
        LoadPlan::Keep(y) => return (floats(&y), content.unwrap().to_string()),
        LoadPlan::Adopt(y) => floats(&y),
        LoadPlan::Resample { lux, y } => {
            assert!(StateManager::can_resample(&lux, &y, &points));
            floats(&StateManager::resample(&lux, &y, &points))
        }
        LoadPlan::ResampleLegacy { y } => {
            let log_max = d(f(StateManager::legacy_log_argument(&points)).ln());
            let powers: Vec<Double> =
                StateManager::legacy_exponents(y.len(), log_max).iter().map(|&x| d(f(x).exp())).collect();
            floats(&StateManager::resample(&StateManager::legacy_lux(&powers, &points), &y, &points))
        }
        LoadPlan::Defaults { count } => {
            let powers: Vec<Double> =
                StateManager::default_places(count).iter().map(|&x| d(f(x).powf(1.8))).collect();
            floats(&StateManager::generate_default_y(count, &powers))
        }
    };
    let text = save(lux_points, &levels);
    (levels, text)
}

#[test]
fn test_state_saving_and_loading() {
    let lux_points_8 = vec![0.0, 10.0, 30.0, 70.0, 150.0, 300.0, 600.0, 1000.0];
    let (initial_y, _) = load_or_init(None, &lux_points_8);
    assert_eq!(initial_y.len(), 8);

    // Modify values and save
    let mut modified_y = initial_y.clone();
    modified_y[2] = 0.42; // At 30.0 lux
    let file = save(&lux_points_8, &modified_y);

    // Reload and check
    let (reloaded, file) = load_or_init(Some(&file), &lux_points_8);
    assert_eq!(reloaded.len(), 8);
    assert!((reloaded[2] - 0.42).abs() < 1e-4);

    // Resampling when point count changes: from 8 to 12 points
    let lux_points_12 = vec![0.0, 5.0, 10.0, 20.0, 30.0, 50.0, 70.0, 100.0, 150.0, 300.0, 600.0, 1000.0];
    let (resampled, file) = load_or_init(Some(&file), &lux_points_12);
    assert_eq!(resampled.len(), 12);
    // User calibration is preserved and resampled
    assert!(!file.is_empty());
    assert!((resampled[0] - reloaded[0]).abs() < 1e-3);
    // Point 4 in 12-point array corresponds to 30.0 lux, where user calibrated 0.42
    assert!((resampled[4] - 0.42).abs() < 1e-3);
    assert!((resampled[11] - reloaded[7]).abs() < 1e-3);
}

#[test]
fn a_saved_file_reads_back() {
    let text = save(&[0.0, 15.0, 1000.0], &[0.05, 0.12345, 1.0]);
    assert_eq!(
        text,
        "# kirialsd calibrated curve: <lux> <brightness_fraction (0.01-1.00)>\n0.0 0.0500\n15.0 0.1235\n1000.0 1.0000\n"
    );
    let (levels, after) = load_or_init(Some(&text), &[0.0, 15.0, 1000.0]);
    assert_eq!(levels, vec![0.05, 0.1235, 1.0]);
    assert_eq!(after, text);
}

#[test]
fn default_levels() {
    let (levels, text) = load_or_init(None, &[0.0, 15.0, 35.0, 70.0, 100.0, 300.0, 600.0, 1000.0]);
    for i in 0..8 {
        let y: f64 = 0.05 + (1.0 - 0.05) * (i as f64 / 7.0).powf(1.8);
        assert_eq!(levels[i], (y * 1000.0).round() / 1000.0);
    }
    assert!(text.contains("1000.0 1.0000\n"));
    assert_eq!(floats(&StateManager::generate_default_y(0, &vec![])), vec![0.05, 1.0]);
    assert_eq!(floats(&StateManager::generate_default_y(1, &vec![])), vec![0.5]);
    // a file that says nothing counts as none
    let (again, _) = load_or_init(Some("# nothing\n\n  \nx y\n"), &[0.0, 15.0, 35.0, 70.0, 100.0, 300.0, 600.0, 1000.0]);
    assert_eq!(again, levels);
}

#[test]
fn records_of_a_file() {
    let r = parse_state("  # comment\r\n\t10.5   0.3 more words\r\n0.7\n#0.1 0.2\n\nabc 0.5\nlast");
    assert_eq!(r.len(), 4);
    assert!(matches!(&r[0], StateRecord::Pair(a, b) if a == "10.5" && b == "0.3"));
    assert!(matches!(&r[1], StateRecord::Single(a) if a == "0.7"));
    assert!(matches!(&r[2], StateRecord::Pair(a, b) if a == "abc" && b == "0.5"));
    assert!(matches!(&r[3], StateRecord::Single(a) if a == "last"));
}

#[test]
fn older_files_with_levels_alone() {
    let points = [0.0, 10.0, 100.0];
    let (levels, text) = load_or_init(Some("0.1\n0.2\n5.0\n"), &points);
    assert_eq!(levels, vec![0.1, 0.2, 1.0]);
    assert_eq!(text, save(&points, &levels));
    // another number of levels is resampled over logarithmic light
    let (levels, _) = load_or_init(Some("0.1\n0.2\n0.6\n0.9\n"), &points);
    assert_eq!(levels.len(), 3);
    assert_eq!(levels[0], 0.1);
    assert_eq!(levels[2], 0.9);
    assert!(levels[1] > 0.2 && levels[1] < 0.6);
}

#[test]
fn a_single_record_cannot_be_resampled() {
    let points = all(&[0.0, 100.0]);
    assert!(!StateManager::can_resample(&all(&[5.0]), &all(&[0.5]), &points));
    assert!(!StateManager::can_resample(&all(&[5.0, f64::NAN]), &all(&[0.5, 0.6]), &points));
    assert!(StateManager::can_resample(&all(&[5.0, 500.0]), &all(&[0.5, 0.6]), &points));
}

#[test]
fn resampling_keeps_levels_in_thousandths() {
    let text = "0.0 0.0512\n30.0 0.4237\n1000.0 0.9996\n";
    let (levels, _) = load_or_init(Some(text), &[0.0, 10.0, 30.0, 500.0, 1000.0]);
    assert_eq!(levels[0], 0.051);
    assert_eq!(levels[2], 0.424);
    assert_eq!(levels[4], 1.0);
    assert!(levels[0] <= levels[1] && levels[1] <= levels[2] && levels[2] <= levels[3]);
}

#[test]
fn resampling_to_a_shorter_range_keeps_the_calibration() {
    let text = "0.0 0.05\n500.0 0.4\n1000.0 1.0\n";
    assert_eq!(load_or_init(Some(text), &[0.0, 500.0]).0, vec![0.05, 0.4]);
    // in any order of the file, and with lights far beyond the points
    let text = "100000.0 1.0\n30.0 0.2\n0.0 0.05\n500.0 0.4\n";
    assert_eq!(load_or_init(Some(text), &[0.0, 30.0, 500.0]).0, vec![0.05, 0.2, 0.4]);
    // an endless light counts as the end of the range
    let text = "0.0 0.05\n500.0 0.4\ninf 0.4\n";
    assert_eq!(load_or_init(Some(text), &[0.0, 500.0]).0, vec![0.05, 0.4]);
}

#[test]
fn older_levels_end_at_the_last_point() {
    for last in [7.0, 100.0, 333.3, 1000.0, 65535.0] {
        let (levels, _) = load_or_init(Some("0.1\n0.2\n0.5\n0.9995\n"), &[0.0, last]);
        assert_eq!(levels, vec![0.1, 1.0]);
    }
    let powers = all(&[1.0, 11.0, 101.5]);
    let lux = StateManager::legacy_lux(&powers, &all(&[0.0, 100.0]));
    assert_eq!(floats(&lux), vec![0.0, 10.0, 100.0]);
}

#[test]
fn saved_levels_come_back_as_they_are_written() {
    let lux: Vec<f64> = (0..40).map(|i| i as f64 * 2.5).collect();
    let y: Vec<f64> = (0..40).map(|i| 0.01 + i as f64 * 0.0253217).collect();
    let file = save(&lux, &y);
    let (levels, after) = load_or_init(Some(&file), &lux);
    assert_eq!(after, file);
    for i in 0..40 {
        assert!((levels[i] - y[i].min(1.0)).abs() <= 0.00005 + 1e-9);
    }
}

#[test]
fn the_template_gives_the_first_configuration_again() {
    let (first, write) = DaemonConfig::load_or_create(None);
    assert!(write);
    let read = from_table(&DEFAULT_CONFIG_TEMPLATE.parse::<Table>().unwrap());
    let (second, write) = DaemonConfig::load_or_create(Some(read));
    assert!(!write);
    assert_eq!(to_table(&second), to_table(&first));
}

#[test]
fn a_load_gives_a_level_for_each_point() {
    let points = [0.0, 10.0, 30.0, 100.0, 1000.0];
    let files = [
        None,
        Some("# nothing\n"),
        Some("0.0 0.0001\n10.0 0.3\n30.0 0.3\n100.0 0.5\n1000.0 9\n"),
        Some("0.0 0.0001\n2000.0 7\n"),
        Some("5.0 0.01\n7.0 0.0104\n9.0 0.9996\n"),
        Some("0.1\n0.2\n0.3\n0.4\n2\n"),
        Some("-1\n0.2\n2\n"),
    ];
    for file in files {
        let (levels, _) = load_or_init(file, &points);
        assert_eq!(levels.len(), 5);
        assert!(levels.iter().all(|&y| y >= 0.01 && y <= 1.0));
    }
    assert_eq!(load_or_init(Some("0.0 0.0001\n2000.0 7\n"), &points).0[0], 0.01);
}

#[test]
fn numbers_of_a_file_are_held_to_their_ranges() {
    let text = "-5.0 0.001\n100.0 7\nnan 0.5\n5 nan\n";
    let plan = StateManager::load_or_init(Some(&readings(text)), &all(&[0.0, 100.0]));
    assert!(matches!(plan, LoadPlan::Keep(y) if floats(&y) == vec![0.01, 1.0]));
    let plan = StateManager::load_or_init(Some(&readings(text)), &all(&[0.0, 100.02]));
    assert!(matches!(plan, LoadPlan::Resample { lux, y } if floats(&lux) == vec![0.0, 100.0] && floats(&y) == vec![0.01, 1.0]));
}
