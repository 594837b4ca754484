//! Storage stack of a small single-address-space kernel: a two-tier physical
//! memory allocator, a legacy virtio block driver and a read-only Minix-style
//! filesystem, each written against explicitly owned state and verified.

pub mod config;
pub mod debug;
pub mod memory;
pub mod allocator;
pub mod allocator_laws;
pub mod block;
pub mod buffer;
pub mod disk;
pub mod minixfs3;
pub mod minixfs3_laws;
pub mod path_cache;
pub mod virtio;
