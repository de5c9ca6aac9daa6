pub mod drive;
pub mod generator;
pub mod sim;

pub use drive::Drive;
pub use generator::Gen;
pub use sim::{RaidMode, RaidSim, RaidState};
pub mod table;
