pub mod dizzy;
pub mod righty;
pub mod rusty;
