//! Splitting MMIO transfers into single accesses of 8, 16, 32 and 64 bits.
//!
//! An MMIO access must be a single load or store of a known width. Values of
//! other sizes are moved as a run of such accesses, each as wide as the bytes
//! still to move allow. This crate states that schedule (`chunk`), the byte
//! layout of each access value in memory (`repr`), the accesses a transfer
//! makes (`trace`), and drives a device through it (`custom_mmio`,
//! `volatile_backend`).

pub mod chunk;
pub mod repr;
pub mod trace;
pub mod custom_mmio;
pub mod device;
pub mod volatile_backend;
