//! Transistor counts of an integrated-circuit design: a table of subcircuits
//! built from a circuit description (CDL), counted against the module
//! instantiations of a structural netlist, and totalled; plus the location of
//! a byte offset in a source file, for diagnostics.
use vstd::prelude::*;

pub mod aggregate;
pub mod cdl;
pub mod counting;
pub mod position;
pub mod stat;
pub mod table;

pub use cdl::{cdl_parse, transistor_total, CDLParser, CdlError, SubcktDef};
pub use position::{caret_marker, resolve_position, SourcePosition};
pub use stat::Stat;
pub use table::CellTable;
