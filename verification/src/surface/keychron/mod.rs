//! Keychron Ultra keyboards, over the Launcher's raw-HID interface.

pub mod firmware;
pub mod frame;
pub mod hid;
pub mod protocol;
pub mod session;
pub mod stored;
pub mod surface;
