//! Verified core of the 4Leaf browser emulator: GDI rectangle and region
//! geometry, DIB pixel encoding, the guest heap allocator, surface-sync
//! bookkeeping, trace formatting and capture-log analysis.

pub mod geometry;
pub mod region_spec;
pub mod region;
pub mod dib;
pub mod gdi32;
pub mod heap;

pub mod frame;
pub mod blit;
pub mod text;
pub mod diagnostics;
pub mod capture;
pub mod logtext;
pub mod capture_log;
pub mod win_frame;
pub mod logging;
pub mod kernel32;
pub mod boot;
pub mod rare;
pub mod surface;
pub mod debugger;
pub mod threads;
pub mod audio;
pub mod capture_summary;
pub mod gdi_table;
pub mod sounds;
pub mod exports;
pub mod debug_view;
