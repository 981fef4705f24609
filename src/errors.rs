//! Application errors.
use vstd::prelude::*;

verus! {

/// The error that the command-line front end reports when it fails.
pub struct AppError;

} // verus!
