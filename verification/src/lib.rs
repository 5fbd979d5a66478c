//! A verified path-pattern matching engine.
//!
//! The library indexes URL-like path patterns (literal text, `:name`
//! parameters and `*` wildcards) against string identifiers, finds the
//! best-matching pattern for a concrete path under a deterministic
//! precedence rule (literal text beats a named parameter, which beats a
//! wildcard, decided at every position), and extracts the values bound to
//! the pattern's parameters.  A standalone utility decomposes one pattern
//! into its parameter names and an interpolation-ready template string.
#![verifier::loop_isolation(false)]

pub mod pattern;
pub mod matching;
pub mod router;
pub mod template;
