pub mod config;
pub mod coords;
pub mod grid;
pub mod laws;
pub mod game;
pub mod store;
pub mod test_utils;
pub mod tilemap;
mod trusted;
pub mod user;
pub mod utils;
pub mod websocket;

pub use coords::AxialCoords;
pub use coords::CubeCoords;
