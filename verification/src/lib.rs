//! Dimensional analysis and unit conversion in the style of GNU units.
use vstd::prelude::*;

pub mod error;
pub mod text;
pub mod dims;
pub mod magnitude;
pub mod unit;
pub mod listing;
pub mod namemap;
pub mod database;
pub mod syntax;
pub mod eval;
pub mod definitions;
pub mod registry;
pub mod api;
pub mod currency;

pub use api::{conformable, convert, convert_func, list_definitions, parse, reload_currency};
pub use currency::{CurrencySource, CurrencyUpdateOptions, UpdateError};
pub use definitions::{Definition, DefinitionKind};
pub use error::{ErrorCode, UnitsError};
pub use magnitude::Magnitude;
pub use registry::Registry;
pub use unit::Unit;

verus! {
} // verus!
