//! An engine that assembles sets of different combinations of layered
//! traits.
//!
//! Every layer holds options, each with a rarity weight that is written into
//! its identifier. A combination takes one option of every layer. The modules
//! follow the way of a run:
//!
//! - [`reconcile`] puts the layers that were found into the configured order;
//! - [`weights`] reads the weights and picks an option by a draw;
//! - [`feasibility`] counts the combinations that the layers can yield;
//! - [`forced`] splits the layers by the rules that reserve a share of the
//!   output for given values;
//! - [`generate`] draws combinations and keeps them apart;
//! - [`engine`] runs all of this for a set of layers and rules;
//! - [`metadata`] reads the trait and the value of an option out of its path;
//! - [`error`] holds the failures, and [`text`] the helpers on characters.

pub mod engine;
pub mod error;
pub mod feasibility;
pub mod forced;
pub mod generate;
pub mod metadata;
pub mod reconcile;
pub mod text;
pub mod weights;
