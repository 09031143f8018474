use score::{ComponentID, Config, Effector, FloatValue, IntValue, LogLevel, Simulation, StringValue, Store, Time};

#[test]
fn max_secs_with_suffixes() {
    let mut config = Config::new();
    assert_eq!(config.parse_max_secs("90s"), None);
    let s = config.max_secs.as_ref().unwrap();
    assert_eq!((s.num(), s.den()), (90, 1));
    assert_eq!(config.parse_max_secs("1.5h"), None);
    let s = config.max_secs.as_ref().unwrap();
    assert_eq!((s.num(), s.den()), (54000, 10));
    config.time_units = 1000;
    assert_eq!(config.max_time(), 5_400_000);
    assert_eq!(config.parse_max_secs("2w"), None);
    assert_eq!(config.max_secs.as_ref().unwrap().num(), 1_209_600);
}

#[test]
fn max_secs_errors() {
    let mut config = Config::new();
    assert_eq!(config.parse_max_secs("10x"), Some("--max-secs should have an s, m, h, d, or w suffix"));
    assert_eq!(config.parse_max_secs("ten s"), Some("--max-secs should have a decimal value followed by a suffix"));
    assert_eq!(config.parse_max_secs("s"), Some("--max-secs should have a decimal value followed by a suffix"));
    assert_eq!(config.parse_max_secs(""), Some("--max-secs should have a decimal value followed by a suffix"));
    assert_eq!(config.parse_max_secs("1.2.3s"), Some("--max-secs should have a decimal value followed by a suffix"));
    assert_eq!(
        config.parse_max_secs("99999999999999999999999s"),
        Some("--max-secs should have a decimal value followed by a suffix")
    );
    assert!(config.max_secs.is_none());
}

#[test]
fn log_level_option() {
    let mut config = Config::new();
    assert_eq!(config.parse_log_level("debug"), None);
    assert_eq!(config.log_level, LogLevel::Debug);
    assert!(config.parse_log_level("chatty").is_some());
    assert_eq!(config.log_level, LogLevel::Debug);
}

#[test]
fn log_level_overrides() {
    let mut config = Config::new();
    assert_eq!(config.parse_log_levels(vec!["debug:worker*", "error:db?", "excessive:worker*"]), None);
    let got: Vec<(String, LogLevel)> = config.log_levels.clone();
    assert_eq!(got, vec![("worker*".to_string(), LogLevel::Excessive), ("db?".to_string(), LogLevel::Error)]);
    assert_eq!(
        config.parse_log_levels(vec!["debug"]),
        Some("--log=debug should be formatted as LEVEL:GLOB".to_string())
    );
    assert_eq!(
        config.parse_log_levels(vec!["info:a***"]),
        Some("--log=info:a*** has a malformed glob".to_string())
    );
    assert_eq!(
        config.parse_log_levels(vec!["loud:a"]),
        Some("--log-level should be error, warning, info, debug, or excessive".to_string())
    );
}

#[test]
fn value_handles_write_through_the_effector() {
    let mut eff: Effector<()> = Effector::new();
    IntValue {}.set_value(&mut eff, "count", 3).unwrap();
    FloatValue {}.set_value(&mut eff, "speed", 0.5f64.to_bits()).unwrap();
    StringValue {}.set_value(&mut eff, "label", "fast").unwrap();
    assert_eq!(eff.store.get_int("count").unwrap(), 3);
    assert_eq!(f64::from_bits(eff.store.get_float("speed").unwrap()), 0.5);
    assert_eq!(eff.store.get_string("label").unwrap(), "fast");
    assert!(IntValue {}.set_value(&mut eff, "count", 4).is_err());
}

#[test]
fn keys_under_removed_components() {
    let mut store = Store::new();
    store.set_int("world.a.removed", 1, Time(5)).unwrap();
    store.set_int("world.b.removed", 0, Time(5)).unwrap();
    store.set_int("world.a.x", 1, Time(1)).unwrap();
    assert!(store.is_removed_key("world.a.x"));
    assert!(store.is_removed_key("world.a.child.y"));
    assert!(store.is_removed_key("world.a.removed"));
    assert!(!store.is_removed_key("world.ab.x"));
    assert!(!store.is_removed_key("world.b.x"));
    assert!(!store.is_removed_key("world.x"));
}

#[test]
fn kernel_writes_between_instants() {
    let mut sim: Simulation<()> = Simulation::new(Config::new());
    sim.add_active_component("solo", ComponentID::none()).unwrap();
    sim.set_int("solo.speed", 4).unwrap();
    sim.set_string("solo.name", "s").unwrap();
    sim.set_float("solo.x", 1.0f64.to_bits()).unwrap();
    assert_eq!(sim.store().get_int("solo.speed").unwrap(), 4);
    assert!(sim.set_int("solo.speed", 5).is_err());
    assert_eq!(sim.store().edition(), 3);
}

#[test]
fn max_secs_takes_no_exponent_or_sign() {
    let mut config = Config::new();
    assert!(config.parse_max_secs("1e3s").is_some());
    assert!(config.parse_max_secs("+5s").is_some());
    assert!(config.parse_max_secs("-5s").is_some());
    assert!(config.max_secs.is_none());
    assert_eq!(config.parse_max_secs(".5m"), None);
    let s = config.max_secs.as_ref().unwrap();
    assert_eq!((s.num(), s.den()), (300, 10));
}
