pub mod calculations;
pub mod fno;
pub mod solver;
pub mod web;

pub use web::ModelPreset;
