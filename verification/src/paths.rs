//! Well-known file locations of the store and its surrounding application.
//!
//! On Android every file lives under the application's private data
//! directory, which is derived from the bundle identifier; elsewhere the
//! files sit beside the executable.  These functions only build path
//! strings; no file is touched here.

use vstd::prelude::*;
use vstd::string::StringExecFns;

verus! {

/// The directory users drop engine binaries into on Android.
pub fn get_user_engine_directory() -> (r: String)
    ensures
        r@ == "/storage/emulated/0/jieqibox/engines"@,
{
    "/storage/emulated/0/jieqibox/engines".to_owned()
}

/// The path of a file in the application's private data directory on
/// Android, or the bare file name elsewhere.
fn data_file_path(android: bool, bundle_identifier: &str, name: &str) -> (r: String)
    ensures
        android ==> r@ == "/data/data/"@ + bundle_identifier@ + "/files/"@ + name@,
        !android ==> r@ == name@,
{
    if android {
        let mut s = "/data/data/".to_owned();
        s.append(bundle_identifier);
        s.append("/files/");
        s.append(name);
        proof {
            assert(s@ =~= "/data/data/"@ + bundle_identifier@ + "/files/"@ + name@);
        }
        s
    } else {
        name.to_owned()
    }
}

/// The location of the configuration file.
pub fn config_file_path(android: bool, bundle_identifier: &str) -> (r: String)
    ensures
        android ==> r@ == "/data/data/"@ + bundle_identifier@ + "/files/"@ + "config.ini"@,
        !android ==> r@ == "config.ini"@,
{
    data_file_path(android, bundle_identifier, "config.ini")
}

/// The location of the autosave file.
pub fn autosave_file_path(android: bool, bundle_identifier: &str) -> (r: String)
    ensures
        android ==> r@ == "/data/data/"@ + bundle_identifier@ + "/files/"@ + "Autosave.json"@,
        !android ==> r@ == "Autosave.json"@,
{
    data_file_path(android, bundle_identifier, "Autosave.json")
}

/// The location of the opening-book database file.
pub fn opening_book_db_path(android: bool, bundle_identifier: &str) -> (r: String)
    ensures
        android ==> r@ == "/data/data/"@ + bundle_identifier@ + "/files/"@ + "jieqi_openings.jb"@,
        !android ==> r@ == "jieqi_openings.jb"@,
{
    data_file_path(android, bundle_identifier, "jieqi_openings.jb")
}

} // verus!
