//! A codebase context engine: given a target source file, it ranks the
//! other files that matter for it, and segments any source file into named,
//! line-bounded units for downstream indexing.
//!
//! Four pieces carry the logic: the co-occurrence miner over raw commit
//! history ([`history`]), the syntax-aware import extractor ([`imports`]),
//! the hybrid scorer fusing both signals ([`hybrid`]), and the code chunker
//! ([`chunker`]). The extractor and the chunker share the syntax tree
//! provider ([`tree`]); [`text`] and [`rank`] hold the character-level and
//! ranking machinery; [`truncator`] bounds long output; [`debounce`] decides
//! which filesystem events a watching host may emit. Every operation is
//! call-scoped and advisory: bad input degrades to an empty result, never
//! to a failure.
pub mod text;
pub mod tree;
pub mod imports;
pub mod chunker;
pub mod history;
pub mod hybrid;
pub mod rank;
pub mod truncator;
pub mod debounce;
