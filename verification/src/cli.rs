//! Parameters of a run, as the command line gives them.

use vstd::prelude::*;
use vstd::string::StringExecFns;

verus! {

/// The parameters of a run.
#[derive(Debug, Clone, PartialEq, Eq)]
pub struct CliParams {
    /// Path to the reference genome.
    pub genome_path: String,
    /// Path to the list of alignment files, one for each sample.
    pub reads_paths: String,
    /// Path to the list of loci.
    pub repeats_path: String,
    /// Path to the tables of the reference and variant models.
    pub model_path: String,
    /// Number of workers.
    pub threads: usize,
}

/// Accepts `path` as a parameter when a file exists at it, as `exists` tells.
///
/// The error names the path that was looked for.
pub fn check_file_exists(path: &str, exists: bool) -> (out: Result<String, String>)
    ensures
        exists <==> out is Ok,
        out matches Ok(accepted) ==> accepted@ == path@,
        out matches Err(message) ==> message@ == "File does not exist: "@ + path@,
{
    if exists {
        Ok(String::from_str(path))
    } else {
        Err(String::from_str("File does not exist: ").concat(path))
    }
}

} // verus!
