//! A line-oriented format for describing the shape of nested data, and the
//! checks that keep an implementation in step with such a description.

pub mod text;
pub mod scan;
pub mod part;
pub mod shape;
pub mod nesting;
pub mod tree_doc;

pub use tree_doc::{has_single_root, parse, parse_raw, validate, Error, Node, NodeComplexKindSpecial, NodeKindSpecial, RawNode, StructFields};
pub use shape::{ShapeDef, ShapeEntry, ShapeField, ShapeTable, ShapeType};
