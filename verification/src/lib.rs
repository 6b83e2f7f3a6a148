//! Switch-level simulation and analysis of a photographed die.
//!
//! A chip traced from photographs is a set of polygons, a set of transistors
//! and some names. This library reads that description (`source::parse`),
//! decodes it into an immutable topology (`Netlist::decode`) and simulates it
//! as a network of switches (`Engine`, and the bit-sliced `slice` kernel).
//! It carries no die data: the caller supplies the bytes.
//!
//! ```text
//!   source::parse(&ChipSource)  ->  a netlist blob + geometry
//!   Netlist::decode(&blob)      ->  topology: nodes, transistors, names
//!   Engine::new(netlist)        ->  state: settle, read, drive
//! ```

pub mod bitset;
pub mod chip;
pub mod csr;
pub mod engine;
pub mod lanes;
pub mod laws;
pub mod netlist;
pub mod slice;
pub mod source;
pub mod text;

pub use bitset::BitSet;
pub use chip::{parse, parse_checked, ChipSource, Parsed, Polygon, Rails};
pub use engine::{ChipState, Drive, Engine, Probe, Stats, MAX_SETTLE_ROUNDS};
pub use netlist::{ChargeRule, DecodeError, Netlist, NodeId, Terminal, TransId};
