//! Resolving the store file's location: the user's home directory with a
//! fixed file name appended.

use vstd::prelude::*;

verus! {

/// Relies on dirs::home_dir for the user's home directory; the result
/// depends on the environment, so nothing is promised of it. A home
/// directory whose path is not valid Unicode counts as not found.
#[verifier::external_body]
fn home_dir_string() -> (r: Option<String>) {
    dirs::home_dir().and_then(|p| p.to_str().map(|s| s.to_owned()))
}

/// The file name of the store, relative to the home directory.
pub open spec fn store_suffix() -> Seq<char> {
    "/.oneliners"@
}

/// The store file's path under a given home directory.
pub fn oneliners_path(home: &str) -> (r: String)
    ensures
        r@ == home@ + store_suffix(),
{
    String::from_str(home).concat("/.oneliners")
}

/// Resolves the store file's path: the home directory, if one can be
/// determined, with the store's file name appended.
pub fn get_oneliners_file() -> (r: Option<String>)
    ensures
        r matches Some(p) ==> exists|h: Seq<char>| p@ == #[trigger] (h + store_suffix()),
{
    match home_dir_string() {
        Some(home) => {
            let p = oneliners_path(home.as_str());
            proof {
                assert(p@ == home@ + store_suffix());
            }
            Some(p)
        },
        None => None,
    }
}

} // verus!
