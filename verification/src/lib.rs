//! Brightness control from ambient light.

pub mod algebra;
pub mod als;
pub mod als_laws;
pub mod backlight;
pub mod backlight_laws;
pub mod between;
pub mod choice_laws;
pub mod circle_laws;
pub mod config;
pub mod config_laws;
pub mod cubic;
pub mod curve;
pub mod curve_laws;
pub mod daemon_laws;
pub mod double;
pub mod engine;
pub mod engine_laws;
pub mod filter;
pub mod learning_laws;
pub mod lesson;
pub mod lesson_laws;
pub mod limits;
pub mod line_laws;
pub mod load_laws;
pub mod measure;
pub mod monotone;
pub mod motion_laws;
pub mod scale_laws;
pub mod spacing;
pub mod spline_laws;
pub mod state;
pub mod state_laws;
pub mod stored_laws;
pub mod tangents;
pub mod text;
pub mod text_laws;
