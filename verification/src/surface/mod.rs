//! The things that show lanes: keyboards, a numpad, a deck, a window.

pub mod corsair;
pub mod keychron;
pub mod keychron_v0;
pub mod monitor;
pub mod pace;
pub mod palette;
pub mod scene;
pub mod streamdeck;
