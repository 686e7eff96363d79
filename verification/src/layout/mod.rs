//! Turning another process's bytes into typed records: code over a [`memory::Memory`], so every
//! path runs on synthetic memory as it runs on the game's.

pub mod bytes;
pub mod cpython;
pub mod fixture;
pub mod limits;
pub mod memory;
pub mod scan;
pub mod souls;
pub mod synthetic;
