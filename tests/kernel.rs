use score::{
    get_seed, init_event_name, ComponentID, Config, Effector, Event, InPort, LogLine, OutPort, Secs,
    SimError, SimState, Simulation, Step,
};

/// Drives a simulation to its end, answering each event with `worker`. Returns the exit
/// reason, the log lines and the dispatched (number, target, name) triples.
fn drive<P, F>(sim: &mut Simulation<P>, mut worker: F) -> (String, Vec<LogLine>, Vec<(u64, usize, String)>)
where
    F: FnMut(&SimState, ComponentID, Event<P>) -> Effector<P>,
{
    let mut logs = Vec::new();
    let mut seen = Vec::new();
    loop {
        match sim.step().unwrap() {
            Step::Done { reason } => return (reason, logs, seen),
            Step::Dispatch { time: _, deliveries } => {
                let mut effects = Vec::new();
                for d in deliveries {
                    seen.push((d.number, d.target.0, d.event.name.clone()));
                    let state = sim.snapshot();
                    let eff = worker(&state, d.target, d.event);
                    drop(state);
                    effects.push((d.target, eff));
                }
                logs.extend(sim.complete(effects).unwrap());
            }
        }
    }
}

fn config_ms() -> Config {
    let mut config = Config::new();
    config.time_units = 1000;
    config.seed = 42;
    config
}

#[test]
fn single_component_timer() {
    let mut config = config_ms();
    config.max_secs = Some(Secs::whole(3));
    let mut sim: Simulation<()> = Simulation::new(config);
    let (root, _) = sim.add_active_component("timer", ComponentID::none()).unwrap();
    let (reason, _, _) = drive(&mut sim, |state, id, event| {
        let mut eff = Effector::new();
        if event.name == "init 0" || event.name == "tick" {
            eff.schedule_after_secs(Event::new("tick").unwrap(), id, Secs::whole(1));
        }
        if event.name == "tick" {
            let previous = state.get_int(id, "count").unwrap_or(0);
            eff.set_int("count", previous + 1).unwrap();
        }
        eff
    });
    assert_eq!(reason, "reached max_secs");
    assert_eq!(sim.store().get_int("timer.count").unwrap(), 3);
    let slot = sim.store().int_slots().iter().find(|s| s.key == "timer.count").unwrap();
    assert_eq!(slot.time.0, 3000);
    assert_eq!(sim.current_time().0, 3000);
    assert!(sim.is_active(root));
}

fn ping_pong(exchanges: usize) -> (String, Vec<(u64, usize, String)>, u64) {
    let mut sim: Simulation<()> = Simulation::new(config_ms());
    let root = sim.add_component("world", ComponentID::none()).unwrap();
    let (a, _) = sim.add_active_component("a", root).unwrap();
    let (b, _) = sim.add_active_component("b", root).unwrap();
    let mut pongs = 0;
    let (reason, _, seen) = drive(&mut sim, |_, id, event| {
        let mut eff = Effector::new();
        if id == a && event.name == "init 0" {
            eff.schedule_immediately(Event::new("ping").unwrap(), b);
        } else if id == b && event.name == "ping" {
            eff.schedule_immediately(Event::new("pong").unwrap(), a);
        } else if id == a && event.name == "pong" {
            pongs += 1;
            if pongs == exchanges {
                eff.exit();
            } else {
                eff.schedule_immediately(Event::new("ping").unwrap(), b);
            }
        }
        eff
    });
    (reason, seen, sim.finger_print())
}

#[test]
fn two_component_ping_pong() {
    let (reason, seen, _) = ping_pong(10);
    assert_eq!(reason, "effector.exit was called");
    let pings = seen.iter().filter(|s| s.2 == "ping").count();
    let pongs = seen.iter().filter(|s| s.2 == "pong").count();
    assert_eq!(pings, 10);
    assert_eq!(pongs, 10);
    for w in seen.windows(2) {
        assert!(w[0].0 < w[1].0);
    }
}

#[test]
fn determinism_with_same_seed() {
    let (_, first, fp1) = ping_pong(7);
    let (_, second, fp2) = ping_pong(7);
    assert_eq!(fp1, fp2);
    assert_eq!(first, second);
    let (_, _, fp3) = ping_pong(8);
    assert_ne!(fp1, fp3);
}

#[test]
fn finger_print_of_one_init_event() {
    let mut sim: Simulation<()> = Simulation::new(config_ms());
    sim.add_active_component("solo", ComponentID::none()).unwrap();
    let (reason, _, seen) = drive(&mut sim, |_, _, _| Effector::new());
    assert_eq!(reason, "no events");
    assert_eq!(seen.len(), 1);
    // "init 0" = 105 + 110 + 105 + 116 + 32 + 48; time 0; target 0.
    assert_eq!(sim.finger_print(), 516);
}

#[test]
fn one_writer_per_key_and_instant() {
    let mut sim: Simulation<()> = Simulation::new(config_ms());
    let root = sim.add_component("world", ComponentID::none()).unwrap();
    let (a, _) = sim.add_active_component("a", root).unwrap();
    let (b, _) = sim.add_active_component("b", root).unwrap();
    let mut editions = Vec::new();
    let mut instants = 0;
    let (reason, _, _) = drive(&mut sim, |state, id, event| {
        let mut eff = Effector::new();
        if id == a {
            editions.push(state.store.edition());
        }
        let n: i64 = if event.name == "init 0" { 0 } else { event.name.len() as i64 };
        eff.set_int("x", n + instants).unwrap();
        if id == b {
            instants += 1;
        }
        if instants < 4 {
            eff.schedule_after_secs(Event::new("again").unwrap(), id, Secs::whole(1));
        }
        eff
    });
    assert_eq!(reason, "no events");
    assert!(sim.store().contains("world.a.x"));
    assert!(sim.store().contains("world.b.x"));
    for w in editions.windows(2) {
        assert_eq!(w[1] - w[0], 2);
    }
}

#[test]
fn conflicting_writes_stop_the_run() {
    let mut sim: Simulation<()> = Simulation::new(config_ms());
    let (root, _) = sim.add_active_component("solo", ComponentID::none()).unwrap();
    sim.step().unwrap();
    let mut e1: Effector<()> = Effector::new();
    e1.set_int("x", 1).unwrap();
    let mut e2: Effector<()> = Effector::new();
    e2.set_int("x", 2).unwrap();
    match sim.complete(vec![(root, e1), (root, e2)]) {
        Err(SimError::AlreadySet { key }) => assert_eq!(key, "solo.x"),
        _ => panic!("expected a conflict"),
    }
}

#[test]
fn remove_cascades() {
    let mut sim: Simulation<()> = Simulation::new(config_ms());
    let (p, _) = sim.add_active_component("p", ComponentID::none()).unwrap();
    let (c, _) = sim.add_active_component("c", p).unwrap();
    let mut child_events_after = 0;
    let (reason, _, _) = drive(&mut sim, |state, id, event| {
        let mut eff = Effector::new();
        let now = event.name.clone();
        if id == p && event.name == "init 0" {
            eff.schedule_after_secs(Event::new("die").unwrap(), p, Secs::new(5, 1000));
            eff.schedule_after_secs(Event::new("ping").unwrap(), c, Secs::new(7, 1000));
        } else if id == p && event.name == "die" {
            eff.remove();
        } else if id == c && now == "ping" {
            child_events_after += 1;
            eff.set_int("touched", 1).unwrap();
        }
        let _ = state;
        eff
    });
    assert_eq!(reason, "no events");
    assert_eq!(child_events_after, 0);
    assert_eq!(sim.store().get_int("p.removed").unwrap(), 1);
    assert_eq!(sim.store().get_int("p.c.removed").unwrap(), 1);
    assert!(!sim.store().contains("p.c.touched"));
    assert!(sim.is_removed(p));
    assert!(sim.is_removed(c));
}

#[test]
fn effectors_of_removed_components_are_ignored() {
    let mut sim: Simulation<()> = Simulation::new(config_ms());
    let (p, _) = sim.add_active_component("p", ComponentID::none()).unwrap();
    sim.step().unwrap();
    let mut eff: Effector<()> = Effector::new();
    eff.remove();
    sim.complete(vec![(p, eff)]).unwrap();
    let mut late: Effector<()> = Effector::new();
    late.set_int("x", 1).unwrap();
    late.log(score::LogLevel::Info, "hello");
    late.exit();
    let logs = sim.complete(vec![(p, late)]).unwrap();
    assert!(logs.is_empty());
    assert!(!sim.store().contains("p.x"));
    assert!(sim.exited().is_none());
}

#[test]
fn init_rounds_reach_every_active_component_once() {
    let mut config = config_ms();
    config.num_init_stages = 3;
    let mut sim: Simulation<()> = Simulation::new(config);
    let root = sim.add_component("world", ComponentID::none()).unwrap();
    sim.add_active_component("a", root).unwrap();
    sim.add_component("passive", root).unwrap();
    sim.add_active_component("b", root).unwrap();
    let (reason, _, seen) = drive(&mut sim, |_, _, _| Effector::new());
    assert_eq!(reason, "no events");
    let got: Vec<(usize, String)> = seen.iter().map(|s| (s.1, s.2.clone())).collect();
    let want: Vec<(usize, String)> = vec![
        (1, "init 0".to_string()),
        (3, "init 0".to_string()),
        (1, "init 1".to_string()),
        (3, "init 1".to_string()),
        (1, "init 2".to_string()),
        (3, "init 2".to_string()),
    ];
    assert_eq!(got, want);
    assert_eq!(sim.current_time().0, 0);
}

#[test]
fn exit_during_init() {
    let mut config = config_ms();
    config.num_init_stages = 2;
    let mut sim: Simulation<()> = Simulation::new(config);
    sim.add_active_component("solo", ComponentID::none()).unwrap();
    let (reason, _, seen) = drive(&mut sim, |_, _, _| {
        let mut eff = Effector::new();
        eff.exit();
        eff
    });
    assert_eq!(reason, "Effector.exit was called during initialization");
    assert_eq!(seen.len(), 2);
}

#[test]
fn events_to_passive_components_are_fatal() {
    let mut sim: Simulation<()> = Simulation::new(config_ms());
    let root = sim.add_component("world", ComponentID::none()).unwrap();
    let (a, _) = sim.add_active_component("a", root).unwrap();
    sim.step().unwrap();
    let mut eff: Effector<()> = Effector::new();
    eff.schedule_immediately(Event::new("hello").unwrap(), root);
    sim.complete(vec![(a, eff)]).unwrap();
    match sim.step() {
        Err(SimError::InactiveTarget { target, event }) => {
            assert_eq!(target, 0);
            assert_eq!(event, "hello");
        }
        _ => panic!("expected an inactive target"),
    }
}

#[test]
fn schedule_delays_round_down_but_not_below_one_tick() {
    let mut sim: Simulation<()> = Simulation::new(config_ms());
    let (a, _) = sim.add_active_component("a", ComponentID::none()).unwrap();
    sim.step().unwrap();
    let mut eff: Effector<()> = Effector::new();
    eff.schedule_after_secs(Event::new("half").unwrap(), a, Secs::new(1, 2));
    eff.schedule_after_secs(Event::new("tiny").unwrap(), a, Secs::new(1, 1_000_000));
    eff.schedule_immediately(Event::new("now").unwrap(), a);
    sim.complete(vec![(a, eff)]).unwrap();
    let mut times = Vec::new();
    for _ in 0..2 {
        if let Step::Dispatch { time, deliveries } = sim.step().unwrap() {
            let names: Vec<String> = deliveries.iter().map(|d| d.event.name.clone()).collect();
            times.push((time.0, names));
            sim.complete(Vec::new()).unwrap();
        }
    }
    assert_eq!(times[0].0, 1);
    assert_eq!(times[0].1.len(), 2);
    assert_eq!(times[1], (500, vec!["half".to_string()]));
}

#[test]
fn port_tagging() {
    let mut sim: Simulation<String> = Simulation::new(config_ms());
    let root = sim.add_component("world", ComponentID::none()).unwrap();
    let (s, _) = sim.add_active_component("s", root).unwrap();
    let (r, _) = sim.add_active_component("r", root).unwrap();
    let inbound: InPort<String> = InPort::with_port_name(r, "upper");
    let mut out: OutPort<String> = OutPort::new();
    assert!(!out.is_connected());
    out.connect_to(&inbound);
    assert!(out.is_connected());
    let mut received = Vec::new();
    drive(&mut sim, |_, id, event| {
        let mut eff = Effector::new();
        if id == s && event.name == "init 0" {
            out.send_payload(&mut eff, "text", "hi".to_string()).unwrap();
        } else if id == r && event.name != "init 0" {
            let text = event.payload_ref("text payload").unwrap().clone();
            received.push((event.name.clone(), event.port_name.clone(), text));
        }
        eff
    });
    assert_eq!(received, vec![("text".to_string(), "upper".to_string(), "hi".to_string())]);
}

#[test]
fn unconnected_ports_refuse_to_send() {
    let out: OutPort<()> = OutPort::new();
    let mut eff: Effector<()> = Effector::new();
    assert_eq!(out.send(&mut eff, "x"), Err(SimError::DisconnectedPort));
    assert!(eff.events.is_empty());
}

#[test]
fn snapshots_block_changes() {
    let mut sim: Simulation<()> = Simulation::new(config_ms());
    let (a, _) = sim.add_active_component("a", ComponentID::none()).unwrap();
    sim.step().unwrap();
    let state = sim.snapshot();
    assert!(state.components.len() == 1);
    let mut eff: Effector<()> = Effector::new();
    eff.set_int("x", 1).unwrap();
    assert_eq!(sim.complete(vec![(a, eff)]).unwrap_err(), SimError::SnapshotRetained);
    assert_eq!(sim.add_component("b", a).unwrap_err(), SimError::SnapshotRetained);
    drop(state);
    assert!(sim.add_component("b", a).is_ok());
}

#[test]
fn snapshot_reads_component_keys() {
    let mut sim: Simulation<()> = Simulation::new(config_ms());
    let root = sim.add_component("world", ComponentID::none()).unwrap();
    let (a, _) = sim.add_active_component("a", root).unwrap();
    let mut eff: Effector<()> = Effector::new();
    eff.set_string("display-name", "A").unwrap();
    eff.set_float("display-location-x", 1.5f64.to_bits()).unwrap();
    sim.apply(a, eff).unwrap();
    let state = sim.snapshot();
    assert_eq!(state.get_string(a, "display-name").unwrap(), "A");
    assert_eq!(f64::from_bits(state.get_float(a, "display-location-x").unwrap()), 1.5);
    assert!(state.contains(a, "display-name"));
    assert!(!state.was_removed(a));
    assert!(state.get_int(a, "display-name").is_err());
}

#[test]
fn seeds_are_offset_by_id() {
    assert_eq!(get_seed(42, 0, 3), 45);
    assert_eq!(get_seed(0, 7, 3), 10);
    let mut sim: Simulation<()> = Simulation::new(config_ms());
    let (_, seed0) = sim.add_active_component("a", ComponentID::none()).unwrap();
    let root = ComponentID(0);
    let (_, seed1) = sim.add_active_component("b", root).unwrap();
    assert_eq!((seed0, seed1), (42, 43));
}

#[test]
fn init_names_count_in_decimal() {
    assert_eq!(init_event_name(0), "init 0");
    assert_eq!(init_event_name(12), "init 12");
    assert_eq!(init_event_name(4_000_000_000), "init 4000000000");
}

#[test]
fn earlier_times_dispatch_first() {
    let mut sim: Simulation<()> = Simulation::new(config_ms());
    let (a, _) = sim.add_active_component("a", ComponentID::none()).unwrap();
    sim.step().unwrap();
    let mut eff: Effector<()> = Effector::new();
    eff.schedule_after_secs(Event::new("third").unwrap(), a, Secs::whole(3));
    eff.schedule_after_secs(Event::new("first").unwrap(), a, Secs::whole(1));
    eff.schedule_after_secs(Event::new("second").unwrap(), a, Secs::whole(2));
    eff.schedule_after_secs(Event::new("first-too").unwrap(), a, Secs::whole(1));
    sim.complete(vec![(a, eff)]).unwrap();
    let mut order = Vec::new();
    while let Step::Dispatch { time, deliveries } = sim.step().unwrap() {
        let names: Vec<String> = deliveries.iter().map(|d| d.event.name.clone()).collect();
        order.push((time.0, names));
        sim.complete(Vec::new()).unwrap();
    }
    assert_eq!(
        order,
        vec![
            (1000, vec!["first".to_string(), "first-too".to_string()]),
            (2000, vec!["second".to_string()]),
            (3000, vec!["third".to_string()]),
        ]
    );
    assert_eq!(sim.exited().unwrap(), "no events");
}

#[test]
fn clock_seeds_stay_below_a_second_of_nanoseconds() {
    let mut config = Config::new();
    config.seed = 0;
    let mut sim: Simulation<()> = Simulation::new(config);
    let (_, seed0) = sim.add_active_component("a", ComponentID::none()).unwrap();
    let (_, seed1) = sim.add_active_component("b", ComponentID(0)).unwrap();
    assert!(seed0 < 1_000_000_000);
    assert!(seed1 < 1_000_000_001);
}

#[test]
fn removal_writes_happen_at_the_removal_time() {
    let mut sim: Simulation<()> = Simulation::new(config_ms());
    let (p, _) = sim.add_active_component("p", ComponentID::none()).unwrap();
    let (c, _) = sim.add_active_component("c", p).unwrap();
    sim.step().unwrap();
    let mut eff: Effector<()> = Effector::new();
    eff.schedule_after_secs(Event::new("die").unwrap(), p, Secs::new(5, 1000));
    sim.complete(vec![(p, eff)]).unwrap();
    sim.step().unwrap();
    let mut eff: Effector<()> = Effector::new();
    eff.set_int("last", 9).unwrap();
    eff.remove();
    sim.complete(vec![(p, eff)]).unwrap();
    let store = sim.store();
    for key in ["p.removed", "p.c.removed", "p.last"] {
        let slot = store.int_slots().iter().find(|s| s.key == key).unwrap();
        assert_eq!(slot.time.0, 5);
    }
    assert!(sim.is_removed(c));
}
