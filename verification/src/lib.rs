pub mod version;
pub mod vpm;
pub mod cli;
pub mod gui;
pub mod text;
pub mod address;
pub mod installer;
pub mod linkage;
pub mod release;
