//! A keyboard remapper for Linux evdev devices, without the devices.
//!
//! The crate holds the rules and the state machine: which keys are down on
//! the physical keyboard, which rule applies, and what is written to the
//! virtual keyboard for each event. A program around it grabs the device,
//! creates the virtual one and moves the events.
//!
//! - [`keyset`]: sets of key codes.
//! - [`keys`]: the values of key events and the conventional modifiers.
//! - [`mapping`]: the rules, and the table that answers the engine's lookups.
//! - [`engine`]: the state machine between the source and the sink.
//! - [`sink`]: a model of the virtual device and what the engine guarantees to it.
//! - [`device`]: choosing the device and waiting for it.
//! - [`supervisor`]: the decisions of the loop around the engine.
//! - [`config`]: the configuration and its check.
//! - [`names`]: the listing of key names.

pub mod config;
pub mod device;
pub mod engine;
pub mod keys;
pub mod keyset;
pub mod mapping;
pub mod names;
pub mod sink;
pub mod supervisor;
