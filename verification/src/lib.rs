//! Typo-tolerant term expansion for a full-text search engine: the edit
//! budget each query token is allowed, and the bookkeeping that turns the
//! terms an automaton enumerates into boosted alternatives.

pub mod queries;
