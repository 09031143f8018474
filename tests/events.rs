use score::{
    delivery_time, do_parse_log_level, log_levels, time_suffixes, Config, Delay, Effector, Event, LogLevel, Secs,
    SimError, Time,
};

#[test]
fn event_names_must_not_be_empty() {
    match Event::<()>::new("") {
        Err(SimError::InvalidName { name }) => assert_eq!(name, ""),
        _ => panic!("expected an invalid name"),
    }
    let e: Event<i32> = Event::with_port_payload("go", "left", 3).unwrap();
    assert_eq!(e.name, "go");
    assert_eq!(e.port_name, "left");
    assert_eq!(e.payload, Some(3));
    let b: Event<i32> = Event::with_box("boxed", Box::new(9)).unwrap();
    assert_eq!(b.payload, Some(9));
}

#[test]
fn payloads_are_borrowed_or_taken() {
    let mut e: Event<String> = Event::with_payload("text", "hi".to_string()).unwrap();
    assert_eq!(e.payload_ref("want text").unwrap(), "hi");
    assert_eq!(*e.take_payload().unwrap(), "hi");
    match e.payload_ref("want text") {
        Err(SimError::Payload { event, message }) => {
            assert_eq!(event, "text");
            assert_eq!(message, "want text");
        }
        _ => panic!("expected a payload error"),
    }
    assert!(e.take_payload().is_err());
}

#[test]
fn effector_records_effects() {
    let mut eff: Effector<()> = Effector::new();
    eff.log(LogLevel::Warning, "careful");
    eff.set_int("n", 1).unwrap();
    assert_eq!(eff.set_int("n", 2), Err(SimError::AlreadySet { key: "n".to_string() }));
    assert_eq!(eff.set_string("", "x"), Err(SimError::InvalidKey));
    eff.exit();
    eff.remove();
    assert_eq!(eff.logs.len(), 1);
    assert_eq!(eff.logs[0].message, "careful");
    assert!(eff.exit && eff.removed);
}

#[test]
fn delivery_times() {
    let now = Time(100);
    assert_eq!(delivery_time(now, &Delay::Immediate, 1000).0, 101);
    assert_eq!(delivery_time(now, &Delay::After(Secs::new(3, 2)), 1000).0, 1600);
    assert_eq!(delivery_time(now, &Delay::After(Secs::new(1, 3)), 1000).0, 433);
    assert_eq!(delivery_time(now, &Delay::After(Secs::new(1, 10_000)), 1000).0, 101);
    assert_eq!(delivery_time(Time(i64::MAX - 1), &Delay::After(Secs::whole(5)), 1000).0, i64::MAX);
}

#[test]
fn log_level_names() {
    assert_eq!(LogLevel::with_str("ERROR"), Some(LogLevel::Error));
    assert_eq!(LogLevel::with_str("Excessive"), Some(LogLevel::Excessive));
    assert_eq!(LogLevel::with_str("loud"), None);
    assert_eq!(do_parse_log_level("debug"), Ok(LogLevel::Debug));
    assert!(do_parse_log_level("Debug").is_err());
    assert_eq!(LogLevel::Warning.name(), "warning");
    assert!(LogLevel::Error.within(LogLevel::Info));
    assert!(!LogLevel::Excessive.within(LogLevel::Debug));
    assert_eq!(log_levels(), "error, warning, info, debug, or excessive");
    assert_eq!(time_suffixes(), "s, m, h, d, or w");
}

#[test]
fn config_defaults() {
    let mut config = Config::new();
    assert_eq!(config.time_units, 1_000_000);
    assert_eq!(config.max_time(), i64::MAX);
    config.time_units = 1000;
    config.max_secs = Some(Secs::new(5, 2));
    assert_eq!(config.max_time(), 2500);
    assert_eq!(config.max_log_path, 20);
    assert_eq!(config.worker_timeout_ms, 5000);
}
