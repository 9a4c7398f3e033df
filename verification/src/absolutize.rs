use vstd::prelude::*;

use path_absolutize::Absolutize;

use crate::codec::{ascii_bytes, parse_spec};
use crate::normalize::normalize_abs;

verus! {

/// `std::io::Error`, the error type of the absolutization collaborator.
#[verifier::external_type_specification]
#[verifier::external_body]
pub struct ExIoError(std::io::Error);

/// Makes a byte path absolute against the process's working directory.
///
/// Relies on `path_absolutize::Absolutize::absolutize` (unix): a path whose
/// first component is the root directory never reads the working directory
/// and cannot fail, and comes back with `.` elided and `..` applied
/// lexically, the root never popped; every other path is resolved against
/// `std::env::current_dir()`, the process's working directory, which is an
/// absolute path, so every successful result begins at the root. ASCII bytes
/// pass through the UTF-8 conversions at either end unchanged.
#[verifier::external_body]
pub(crate) fn absolutize_bytes(b: &Vec<u8>) -> (r: Result<Vec<u8>, std::io::Error>)
    ensures
        r matches Ok(out) ==> (parse_spec(out@).len() > 0 && parse_spec(out@)[0] is Root && (
        parse_spec(b@).len() > 0 && parse_spec(b@)[0] is Root && ascii_bytes(b@) ==> parse_spec(
            out@,
        ) == normalize_abs(parse_spec(b@)))),
        r matches Err(e) ==> !(parse_spec(b@).len() > 0 && parse_spec(b@)[0] is Root
            && ascii_bytes(b@)),
{
    let s = String::from_utf8_lossy(b).into_owned();
    match std::path::Path::new(&s).absolutize() {
        Ok(p) => Ok(p.to_string_lossy().into_owned().into_bytes()),
        Err(e) => Err(e),
    }
}

} // verus!
