pub mod auth;
pub mod cell_grid;
pub mod fifo_queue;
pub mod flood_fill;
pub mod graph;
pub mod logic;
pub mod movement_set;
pub mod request;
pub mod response;
pub mod search;
pub mod snakes;
pub mod walk;
