//! Sorting of ROM sets by region and the wbfs/iso conversions around `wit`.
pub mod text;
pub mod path;
pub mod pattern;
pub mod model;
pub mod sort_roms;
pub mod wit;
pub mod sort_laws;
