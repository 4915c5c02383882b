//! Game arenas and the players that decide in them, and the memories that steer pruners.

pub mod bomber;
pub mod delta_mem;
pub mod go;
