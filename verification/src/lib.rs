//! Verified core of a platform abstraction layer: a timer queue for deferred
//! invocations, a key-pattern notation with its per-backend accelerator
//! tables, the integer parts of a tile-based software rasterizer and of its
//! retained layer tree, and a pool whose pointers are never reused.
pub mod bits;
pub mod timerqueue;
pub mod keycode;
pub mod accel;
pub mod logging;
pub mod swrast;
pub mod text;
pub mod iface;
pub mod unix;
pub mod futuresext;
pub mod eventloop;
pub mod uniqpool;
