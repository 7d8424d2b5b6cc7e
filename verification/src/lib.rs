//! Compile-time assembly of enumerated types from the variants of other,
//! independently declared enumerated types.
//!
//! A declaration is handled as a flat sequence of lexical tokens
//! ([`token::Tok`]). Attributes attached to it are classified by a small
//! grammar ([`attr`]) into one of three shapes: an `aggregate(...)` list of
//! type-reference paths, a `fields(...)` list of named typed fields, or a
//! regular attribute that is passed through verbatim. A process-wide
//! [`registry::Registry`] maps canonical declaration paths to exported token
//! forms, and the driver ([`driver`]) resolves every aggregate reference
//! through it, unions the variant lists, and re-exports the rewritten
//! declaration.

pub mod attr;
pub mod decl;
pub mod driver;
pub mod registry;
pub mod token;
