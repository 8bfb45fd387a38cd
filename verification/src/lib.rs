//! Conversion between a small XML subset and a small JSON subset.
//!
//! Two recursive-descent parsers turn text into an in-memory tree
//! (`xml::XmlNode`) or value (`json::JsonValue`); a mapper projects an XML
//! tree onto a JSON document and a serializer renders a JSON value as XML
//! text.  Every operation is specified against a mathematical model of the
//! two data shapes and of the two grammars.

pub mod chars;
pub mod convert;
pub mod err;
pub mod json;
pub mod laws;
pub mod model;
pub mod xml;
