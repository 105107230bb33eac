//! The command line: the configuration files to read.
use vstd::prelude::*;

use std::path::PathBuf;

verus! {

#[verifier::external_type_specification]
#[verifier::external_body]
pub struct ExPathBuf(std::path::PathBuf);

/// The file read when the command line names no configuration file.
pub const DEFAULT_CONFIG_FILE: &'static str = "values.yaml";

/// The command line: the configuration files, in the order given; a later one overrides an
/// earlier one.
pub struct Cli {
    pub configs: Vec<PathBuf>,
}

impl Cli {
    /// The configuration files to read: those given, or else `default_path` alone.
    pub fn config_paths(self, default_path: PathBuf) -> (r: Vec<PathBuf>)
        ensures
            r@ == if self.configs@.len() == 0 {
                seq![default_path]
            } else {
                self.configs@
            },
    {
        if self.configs.len() == 0 {
            let mut paths = Vec::new();
            paths.push(default_path);
            paths
        } else {
            self.configs
        }
    }
}

} // verus!
