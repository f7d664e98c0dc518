//! Turns shell-style `KEY=VALUE` profile files into one PHP configuration
//! artifact, grouped by virtualization engine.
//!
//! The pipeline: [`config`] parses each profile file's text into a key/value
//! mapping; [`engines`] holds the closed engine registry and distributes the
//! parsed profiles over the engines by their `<engine-id>_active` flags;
//! [`keyspec`] reads the comma-separated key specification that names the
//! fields to extract; [`sizes`] converts human-readable sizes (`100m`, `1g`)
//! into byte counts; and [`emit`] serializes everything — fields sorted
//! alphabetically, strings escaped — into the final artifact. [`escape`] and
//! [`text`] carry the shared string machinery.

pub mod config;
pub mod emit;
pub mod engines;
pub mod escape;
pub mod keyspec;
pub mod sizes;
pub mod text;
