//! Feature-algebra resolution and view-generation engine.
//!
//! Given a set of feature declarations — atomic names plus composite features
//! defined as boolean combinations (conjunction of enabled terms, exclusion of
//! disabled terms) of other features — this crate
//!
//! * rewrites every composite definition into a canonical form that mentions
//!   atomic features only ([`parse::FeatureDeclarations::expand`]),
//! * enumerates every non-empty activation set of atomic features together
//!   with the composite features it implies
//!   ([`parse::FeatureDeclarations::combinations`]), and
//! * partitions a tagged field list and produces one capability interface per
//!   feature, each exposing a getter and a mutable accessor for every field
//!   tagged with that feature ([`summon::summon`]).
//!
//! The crate works on plain values (names as strings, fields as
//! name/type/tag triples) and returns structured descriptions; tokenizing a
//! textual declaration syntax and rendering the generated interfaces are left
//! to the surrounding code.

pub mod parse;
pub mod summon;
