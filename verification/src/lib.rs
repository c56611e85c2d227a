//! A three-rotor cipher machine with reflector and plugboard.

pub mod alphabet;
pub mod wiring;
pub mod settings;
pub mod cipher;
pub mod config;
pub mod machine;
pub mod reciprocity;
pub mod keyfile;
