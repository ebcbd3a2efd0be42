//! Corsair keyboards, through the iCUE SDK.

pub mod palette;
pub mod surface;
