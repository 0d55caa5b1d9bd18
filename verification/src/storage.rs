//! Where the workflow definitions are kept. Reading and writing the file is
//! the caller's part; this module says where the file lies.

use vstd::prelude::*;
use vstd::string::StringExecFns;
use crate::text::{join_path, joined_path};

verus! {

/// The directory of the application's files, below the home directory.
pub const APP_SUPPORT_SUBDIR: &'static str = "Library/Application Support/QuickTools";

/// The file that holds the workflows.
pub const WORKFLOW_FILE: &'static str = "workflows.json";

/// The file that a new version is written to before it replaces the old one.
pub const WORKFLOW_TEMP_FILE: &'static str = "workflows.tmp.json";

/// The error for a home directory that is not known.
pub open spec fn home_missing() -> Seq<char> {
    "HOME environment variable is not set"@
}

/// The directory of the application's files for a home directory.
pub open spec fn support_dir_of(home: Seq<char>) -> Seq<char> {
    joined_path(home, APP_SUPPORT_SUBDIR@)
}

/// The directory of the application's files. `home` is the home directory,
/// where it is known.
pub fn app_support_dir(home: Option<&str>) -> (r: Result<String, String>)
    ensures
        match (home, r) {
            (Some(h), Ok(dir)) => dir@ == support_dir_of(h@),
            (None, Err(e)) => e@ == home_missing(),
            _ => false,
        },
{
    match home {
        Some(h) => Ok(join_path(h, APP_SUPPORT_SUBDIR)),
        None => Err(String::from_str("HOME environment variable is not set")),
    }
}

/// The path of the file that holds the workflows. `home` is the home
/// directory, where it is known.
pub fn workflow_file_path(home: Option<&str>) -> (r: Result<String, String>)
    ensures
        match (home, r) {
            (Some(h), Ok(path)) => path@ == joined_path(support_dir_of(h@), WORKFLOW_FILE@),
            (None, Err(e)) => e@ == home_missing(),
            _ => false,
        },
{
    match app_support_dir(home) {
        Ok(dir) => Ok(join_path(dir.as_str(), WORKFLOW_FILE)),
        Err(e) => Err(e),
    }
}

/// The path of the file that a new version of the workflows is written to
/// before it replaces the old one.
pub fn workflow_temp_path(home: Option<&str>) -> (r: Result<String, String>)
    ensures
        match (home, r) {
            (Some(h), Ok(path)) => path@ == joined_path(support_dir_of(h@), WORKFLOW_TEMP_FILE@),
            (None, Err(e)) => e@ == home_missing(),
            _ => false,
        },
{
    match app_support_dir(home) {
        Ok(dir) => Ok(join_path(dir.as_str(), WORKFLOW_TEMP_FILE)),
        Err(e) => Err(e),
    }
}

} // verus!
