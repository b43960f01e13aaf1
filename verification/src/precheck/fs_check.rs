use vstd::prelude::*;

verus! {

/// Whether the given project path can be analysed: it must exist and be a directory.
/// The error is the message shown to the user.
pub fn check_path_is_valid(exists: bool, is_dir: bool) -> (res: Result<(), String>)
    ensures
        exists && is_dir <==> res is Ok,
        !exists ==> (res matches Err(e) && e@ == "Incorrect path! Please Specify Correct Path"@),
        exists && !is_dir ==> (res matches Err(e) && e@ == "Given Path is not directory! Please Specify Flutter Project Path"@),
{
    if !exists {
        return Err(String::from_str("Incorrect path! Please Specify Correct Path"));
    }
    if !is_dir {
        return Err(String::from_str("Given Path is not directory! Please Specify Flutter Project Path"));
    }
    Ok(())
}

} // verus!
