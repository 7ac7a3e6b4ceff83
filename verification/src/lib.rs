//! Firmware updates for vehicle ECUs over CAN.

pub mod can;
pub mod config;
pub mod crc;
pub mod crc_laws;
pub mod ecu_laws;
pub mod elf;
pub mod elf_laws;
pub mod firmware;
pub mod firmware_laws;
pub mod flash;
pub mod hex;
pub mod hex_file;
pub mod hex_laws;
pub mod memory;
pub mod protocol;
pub mod text;
pub mod text_laws;
pub mod types;
