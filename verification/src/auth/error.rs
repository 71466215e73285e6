use vstd::prelude::*;

verus! {

/// Why an access-control check refused a request.
#[derive(Debug)]
pub enum AuthError {
    PermissionDenied { user: String, permission: String },
    UnknownRole(String),
}

} // verus!
