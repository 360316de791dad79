//! Shebang patching: rewrite the interpreter line of executable scripts
//! so that the interpreter path is resolved against a given search path
//! instead of a hard-coded location.
//!
//! The pipeline over one file runs in verified stages, with all file
//! reading, probing and writing left to the caller:
//!
//! 1. [`shebang::classify_first_line`] reads the raw first line and
//!    either reports that the file is not a script, recognises the
//!    shebang's form (`env -S`, plain `env`, or a direct interpreter),
//!    or rejects a malformed `env` line.
//! 2. [`shebang::names_for`] lists the program names the form needs
//!    resolved; for each, the caller probes the candidate paths built by
//!    [`search::candidate`] over the directories of
//!    [`search::split_search_path`], and [`search::which_in_path`] picks
//!    the first hit.
//! 3. [`shebang::render_new_shebang`] builds the replacement line from
//!    the resolved paths.
//! 4. [`rewrite::should_rewrite`] decides whether the line is applied:
//!    never when it equals the original, and an interpreter already
//!    under the canonical prefix is left alone unless an update is
//!    forced.
//! 5. [`rewrite::replace_first`] substitutes the first literal
//!    occurrence of the original line in the file's content, leaving
//!    every other byte unchanged.
//!
//! [`laws`] proves the pipeline's general properties against a
//! filesystem model, idempotence above all: a rewritten line, processed
//! again with the same search path and filesystem, computes itself, so a
//! second pass rewrites nothing.

pub mod bytes;
pub mod errors;
pub mod search;
pub mod shebang;
pub mod rewrite;
pub mod laws;
