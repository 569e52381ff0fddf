//! The upload request's derived state: the identifier the allocator
//! attached to the request, and whether this request must first clear
//! the expired cache entries.
use crate::strutil::contains_sub;
use crate::strutil::spec_contains_sub;
use vstd::prelude::*;

verus! {

#[derive(Debug)]
pub struct UploadRequestGuard {
    pub id: String,
    pub clear_expired_keys_from_cache: bool,
}

impl UploadRequestGuard {
    /// Builds the guard from the request's header values: the first
    /// allocated identifier, and the clear flag when the first flag
    /// header says `yes`. A request without an identifier header is
    /// refused.
    pub fn from_header_values(ids: &Vec<String>, clear_flags: &Vec<String>) -> (r: Result<
        UploadRequestGuard,
        &'static str,
    >)
        ensures
            (r is Ok) == (ids@.len() > 0),
            r matches Ok(g) ==> g.id@ == ids@[0]@ && g.clear_expired_keys_from_cache == (
            clear_flags@.len() > 0 && spec_contains_sub(clear_flags@[0]@, "yes"@)),
            r matches Err(e) ==> e@ == "Something went wrong while parsing the ID"@,
    {
        let mut clear = false;
        if clear_flags.len() > 0 {
            if contains_sub(clear_flags[0].as_str(), "yes") {
                clear = true;
            }
        }
        if ids.len() > 0 {
            let id = ids[0].clone();
            return Ok(UploadRequestGuard { id, clear_expired_keys_from_cache: clear });
        }
        Err("Something went wrong while parsing the ID")
    }
}

} // verus!
