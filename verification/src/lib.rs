//! SAT encodings for double round-robin sports timetabling.
//!
//! The crate builds a propositional formula whose models are the compact
//! double round-robin tournaments of a league, compiles the capacity, game,
//! break, fairness and separation constraints of an instance into hard rules
//! and weighted soft constraints, and holds the bookkeeping of a core-guided
//! MaxSAT search over them. The SAT engine itself is not part of the crate:
//! a caller hands the formula to an engine and reports models and cores back.

pub mod lit;
pub mod formula;
pub mod table;
pub mod compact;
pub mod models;
pub mod breaks;
pub mod schedule;
pub mod networks;
pub mod soft;
pub mod error;
pub mod cardinality;
pub mod terms;
pub mod instance;
pub mod plan;
pub mod encode;
pub mod materialize;
pub mod optimizer;
pub mod conflict;
pub mod br2;
pub mod pattern;
pub mod text;
pub mod format;
pub mod xml;
pub mod reader;
pub mod document;
