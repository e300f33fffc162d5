//! Settings of Swift Navigation devices: the settings table, the values a
//! setting can take, the messages of the settings exchange and the
//! decisions of the client that reads and writes settings.

pub mod client;
pub mod error;
pub mod setting;
pub mod text;
pub mod wire;

pub use client::Entry;
pub use error::Error;
pub use setting::{load, Setting, SettingKind, SettingRegistry, SettingValue};
