//! A model of a handheld-console operating system kernel: kernel objects,
//! handles, threads and their wake-up protocol, IPC message encoding and the
//! physical page allocator, each with its contract proved by Verus.

pub mod errors;
pub mod formats;
pub mod guest;
pub mod handler;
pub mod ipc;
pub mod kernel;
pub mod kmm;
pub mod le;
pub mod loader;
pub mod memory;
pub mod object;
pub mod object_table;
pub mod ports;
pub mod svc;
pub mod services;
pub mod sync;
pub mod thread;
pub mod types;
