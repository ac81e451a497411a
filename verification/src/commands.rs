//! The checks that the file commands make before they touch the disk.

use crate::error::AppError;
use vstd::prelude::*;
use vstd::string::*;

verus! {

/// The name of the directory, inside a folder, that holds saved images.
pub fn assets_directory() -> (name: &'static str)
    ensures
        name@ == "assets"@,
{
    "assets"
}

/// Whether `r` allows a rename: the source must exist and the destination
/// must not.
pub open spec fn is_rename_check(
    old_path: Seq<char>,
    new_path: Seq<char>,
    source_exists: bool,
    destination_exists: bool,
    r: Result<(), AppError>,
) -> bool {
    match r {
        Ok(_) => source_exists && !destination_exists,
        Err(e) => if !source_exists {
            e is NotFound && e.detail() == old_path
        } else {
            destination_exists && e is AlreadyExists && e.detail() == new_path
        },
    }
}

/// Checks a rename, given whether source and destination exist: a missing
/// source is `NotFound`, an existing destination `AlreadyExists`.
pub fn check_rename(
    old_path: &str,
    new_path: &str,
    source_exists: bool,
    destination_exists: bool,
) -> (r: Result<(), AppError>)
    ensures
        is_rename_check(old_path@, new_path@, source_exists, destination_exists, r),
{
    if !source_exists {
        return Err(AppError::NotFound(old_path.to_owned()));
    }
    if destination_exists {
        return Err(AppError::AlreadyExists(new_path.to_owned()));
    }
    Ok(())
}

/// Checks that a file which is to be read or deleted exists: a missing file
/// is `NotFound`.
pub fn check_exists(path: &str, exists: bool) -> (r: Result<(), AppError>)
    ensures
        match r {
            Ok(_) => exists,
            Err(e) => !exists && e is NotFound && e.detail() == path@,
        },
{
    if !exists {
        return Err(AppError::NotFound(path.to_owned()));
    }
    Ok(())
}

/// Checks the creation of a file, given whether it exists: an existing file
/// is `AlreadyExists`.
pub fn check_create(path: &str, exists: bool) -> (r: Result<(), AppError>)
    ensures
        match r {
            Ok(_) => !exists,
            Err(e) => exists && e is AlreadyExists && e.detail() == path@,
        },
{
    if exists {
        return Err(AppError::AlreadyExists(path.to_owned()));
    }
    Ok(())
}

} // verus!
