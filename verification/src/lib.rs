//! Datomic: positional typed data written as text.
//!
//! The datom dialect carries data, strictly typed. The reader walks the
//! expected type; writing is the exact reverse projection. Four layers stand
//! between a text and a typed value: the text itself, the protoform (its
//! structure), the datom (what the structure means before a type is known),
//! and the corporate value.
#![allow(unused_imports)]

use vstd::prelude::*;

pub mod glyph;
pub mod words;
pub mod form;
pub mod writer;
pub mod reader;
pub mod rereading;
pub mod delineation;
pub mod anatomy;
pub mod copying;
pub mod conception;
pub mod protosization;
pub mod kinds;
pub mod scalars;
pub mod containers;
pub mod edge;
pub mod worded;
pub mod faults;
pub mod naming;
pub mod keyed;
pub mod records;
pub mod placement;
pub mod composition;

pub use crate::anatomy::{
    Datom, ErrorLayer, Expected, Fault, Found, IncorporationBudget, Locus, Meaning, Problem, Word,
};
pub use crate::delineation::{delineate, Delineation};
pub use crate::edge::{actualize, read_datom, textualize, textualize_snug, Potential};
pub use crate::form::{Extent, Protoform, Situated, Situation};
pub use crate::glyph::{Boundary, Enclosure, Separator};
pub use crate::keyed::Keyed;
pub use crate::kinds::{Datomic, Positions, Site, Variant};
pub use crate::naming::{Naming, Pathing};
pub use crate::composition::{
    compose_bare_string, compose_text, compose_within, form, Budget, Compositional, Error, ErrorKind,
};
pub use crate::placement::{Datomizable, Form, PathDatom};
pub use crate::reader::{StructuralFault, StructuralProblem};
pub use crate::scalars::Decimal;
pub use crate::records::{
    DatomHeadedUnit, Entry, EntrySelection, Group, GroupSelection, InterimNote, PositionAdvancing,
    RecordPosition, Report, TagList, TagListSelection, Text, TextSelection,
};

verus! {

/// The integers of the dialect.
pub type Integer = i64;

/// A path from the root datom: the index of each child taken.
pub type Path = Vec<i64>;

} // verus!
