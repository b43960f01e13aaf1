use vstd::prelude::*;

verus! {

/// The outcome of the checks run before any analysis: the error that stops the run,
/// by the first check that failed.
pub fn run_pre_checks(path_is_valid: bool, is_flutter_project: bool) -> (res: Result<(), String>)
    ensures
        path_is_valid && is_flutter_project ==> res is Ok,
        !path_is_valid ==> (res matches Err(e) && e@ == "Path validation failed"@),
        path_is_valid && !is_flutter_project ==> (res matches Err(e) && e@ == "Flutter project validation failed"@),
{
    if !path_is_valid {
        return Err(String::from_str("Path validation failed"));
    }
    if !is_flutter_project {
        return Err(String::from_str("Flutter project validation failed"));
    }
    Ok(())
}

} // verus!
