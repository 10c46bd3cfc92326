//! The parts of the configuration file that name files and addresses.
use vstd::prelude::*;
use std::path::PathBuf;

verus! {

/// std's owned filesystem path.
#[verifier::external_type_specification]
#[verifier::external_body]
pub struct ExPathBuf(PathBuf);

/// Where the model and its tables are.
pub struct ModelConfig {
    pub classifier: PathBuf,
    pub threshold: PathBuf,
    pub ngram_table: PathBuf,
    pub tld_freq: PathBuf,
    pub whitelist: PathBuf,
    pub blacklist: PathBuf,
}

/// Where the server listens and where it forwards clean queries.
pub struct ServerConfig {
    pub listen: String,
    pub upstream: String,
}

/// Where the logs go.
pub struct LoggingConfig {
    pub dir: PathBuf,
}

} // verus!
