//! score is a general purpose discrete event simulation kernel.
//!
//! *   `Components` define the structure of a simulation as a tree of named components.
//! *   `Event`s are named messages delivered to a component at a specific `Time`.
//! *   The `Store` is where components persist state, one value per key and instant.
//! *   Components answer each event with an `Effector`: a staged batch of side effects.
//! *   `Simulation` orders events by time, hands out each instant's events together and
//!     applies the returned effectors atomically before time advances.
pub mod component;
pub mod components;
pub mod config;
pub mod effector;
pub mod error;
pub mod event;
pub mod logging;
pub mod names;
pub mod ports;
pub mod scheduler;
pub mod sim_time;
pub mod simulation;
pub mod store;
pub mod values;

pub use component::{Component, ComponentID, NO_COMPONENT_INDEX};
pub use components::{Components, ComponentsIterator};
pub use config::{time_suffixes, Config};
pub use effector::{Effector, LogRecord};
pub use error::SimError;
pub use event::Event;
pub use logging::{do_parse_log_level, log_levels, LogLevel};
pub use names::{is_valid_name, is_valid_name_char};
pub use ports::{InPort, OutPort};
pub use scheduler::{ScheduledEntry, Scheduler};
pub use sim_time::{delivery_time, Delay, Secs, Time};
pub use simulation::{get_seed, init_event_name, Delivery, LogLine, SimState, Simulation, Step};
pub use store::{Slot, Store};
pub use values::{FloatValue, IntValue, StringValue};
