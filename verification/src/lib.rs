//! A verified schema model for families of prototype record types: a typed
//! value algebra, named table definitions with field defaults, a bidirectional
//! prototype registry with single-parent inheritance, effective-schema
//! resolution, and a self-describing persisted representation.

pub mod algebra;
pub mod strmap;
pub mod table;
pub mod typeset;
pub mod codec;
