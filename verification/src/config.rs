//! Host configuration.
//!
//! The hosts around the library read their configuration from disk; the
//! library only sees the resulting plain values.

use vstd::prelude::*;

verus! {

/// The command-line host's configuration: where the note database lives.
pub struct CliConfig {
    pub db_path: String,
}

} // verus!
