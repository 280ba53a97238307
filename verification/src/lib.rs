//! The core of a second-stage loader: it reads a kernel image, builds the
//! address space that the kernel expects, and decides the steps by which
//! the firmware is retired and the kernel is entered.
//!
//! Everything here works on plain values. Reading the kernel file, asking
//! the firmware for memory, writing page tables into physical memory and
//! jumping into the kernel are left to the program around it:
//!
//! - `image` reads the header and the segment table of the kernel image;
//! - `frame` hands out the physical frames of one region, one at a time;
//! - `table` and `address` hold the processor's view of tables and addresses;
//! - `space` is the page-table hierarchy with the pages it maps, held in an
//!   arena of frames;
//! - `mapper` puts the segments of an image into a space;
//! - `registers` computes the control registers for the time in which page
//!   tables may be written;
//! - `transition` decides which firmware call comes next while the firmware
//!   is retired;
//! - `handoff` is what the kernel receives;
//! - `halt` is how every failure ends.

pub mod address;
pub mod error;
pub mod frame;
pub mod halt;
pub mod handoff;
pub mod image;
pub mod mapper;
pub mod registers;
pub mod space;
pub mod table;
pub mod transition;

pub use handoff::{BootInfo, MemoryMap};
