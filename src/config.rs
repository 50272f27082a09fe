//! Configuration records of the benchmark harness that drives the
//! canonicalization: the tools to run, the datasets, the working directories.
//! Paths are kept as the text that the configuration gave.
use vstd::prelude::*;

verus! {

/// A tool under benchmark and how its command line is built.
#[derive(Clone, Debug)]
pub struct Tool {
    pub name: String,
    pub path: String,
    pub arguments: String,
    pub reads_arg_prefix: Option<String>,
    pub sequences_arg_prefix: Option<String>,
    pub use_prefix_for_list: Option<bool>,
}

/// A named directory in which tools run.
#[derive(Clone, Debug)]
pub struct WorkingDir {
    pub name: String,
    pub path: String,
}

/// A named set of input files: listed directly, listed in list files, or
/// packed in a tarball, optionally limited in number.
#[derive(Clone, Debug)]
pub struct Dataset {
    pub name: String,
    pub files: Option<Vec<String>>,
    pub lists: Option<Vec<String>>,
    pub tar: Option<String>,
    pub limit: Option<usize>,
}

#[derive(Clone, Debug)]
pub struct Tools {
    pub tools: Vec<Tool>,
}

/// The machine-local part of the configuration.
#[derive(Clone, Debug)]
pub struct LocalConfig {
    pub datasets: Vec<Dataset>,
    pub working_dirs: Vec<WorkingDir>,
}

} // verus!
