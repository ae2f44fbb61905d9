//! Building blocks of a haversine-distance toolkit: a streaming JSON lexer,
//! a string pool, and the FNV-1a hash with the checksum of a run's answers.
pub mod hash;
pub mod json_lexer;
pub mod string_pool;
