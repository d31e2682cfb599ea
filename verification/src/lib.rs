//! Symbolic driver analysis for hardware elaboration: bound formulas,
//! bit ranges, place overlap, drive activity and coverage segments.

mod text;
pub mod expr;
pub mod symbol;
pub mod formula;
pub mod parse;
pub mod bound;
pub mod range;
pub mod place;
pub mod overlap;
pub mod tristate;
pub mod guard;
pub mod guard_coverage;
pub mod loop_bounds;
pub mod coverage;
pub mod design;
pub mod read_places;
pub mod port_coverage;
pub mod facts;
pub mod drc;
pub mod eir;
pub mod collect;
pub mod completeness;
pub mod summary;
pub mod validate;
pub mod analyzer;
pub mod source_cells;
pub mod eir_facts;
pub mod const_eval;
pub mod builder_env;

pub use range::DriverStaticRange;
