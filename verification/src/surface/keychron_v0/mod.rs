//! The Keychron V0 Ultra numpad: a second Keychron surface, on the same
//! protocol, with a different shape — the four top shape keys are a **top
//! line** showing one agent in the classic four-key lane patterns, and M1–M5
//! are an **agent column**, one key per lane.

pub mod foreground;
pub mod surface;
