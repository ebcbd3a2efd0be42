pub mod canvas;
pub mod device;
pub mod layout;
pub mod letters;
pub mod light;
pub mod live;
pub mod surface;
