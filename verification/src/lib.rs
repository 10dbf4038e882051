//! Verified core logic of a hex-grid strategy game: hex-grid geometry and
//! path finding, item storage and construction supply on the sector map,
//! planet buildings and mining, colour settings and editor selection state.

pub mod cad;
pub mod construction;
pub mod hex;
pub mod map_common;
pub mod mining;
pub mod planet;
pub mod route;
pub mod sector;
pub mod settings;
pub mod storage;
pub mod supply;
pub mod text;
pub mod ui;
pub mod units;
