//! The directories that belong to the user, found by the `dirs` crate.
use crate::path;
use vstd::prelude::*;

verus! {

/// Calls `dirs::home_dir`. The answer comes from the environment and the user
/// database of the machine, so nothing is said of it.
#[verifier::external_body]
pub(crate) fn home_dir() -> (dir: Option<Vec<u8>>) {
    dirs::home_dir().map(|p| p.into_os_string().into_encoded_bytes())
}

/// Calls `dirs::data_dir`. The answer comes from the environment and the user
/// database of the machine, so nothing is said of it.
#[verifier::external_body]
fn data_dir() -> (dir: Option<Vec<u8>>) {
    dirs::data_dir().map(|p| p.into_os_string().into_encoded_bytes())
}

/// Calls `dirs::config_dir`. The answer comes from the environment and the user
/// database of the machine, so nothing is said of it.
#[verifier::external_body]
fn config_dir() -> (dir: Option<Vec<u8>>) {
    dirs::config_dir().map(|p| p.into_os_string().into_encoded_bytes())
}

/// Where the index lies by default: in the data directory or, without one, in
/// `.local/share` of the home directory. Without either there is no such place.
pub open spec fn index_place(data: Option<Seq<u8>>, home: Option<Seq<u8>>) -> Option<Seq<u8>> {
    let name = vstd::utf8::encode_utf8("zapper/index.json"@);
    match (data, home) {
        (Some(dir), _) => Some(path::joined(dir, name)),
        (None, Some(dir)) => Some(
            path::joined(path::joined(dir, vstd::utf8::encode_utf8(".local/share"@)), name),
        ),
        (None, None) => None,
    }
}

/// Where the configuration lies by default.
pub open spec fn config_place(base: Option<Seq<u8>>) -> Option<Seq<u8>> {
    match base {
        Some(dir) => Some(path::joined(dir, vstd::utf8::encode_utf8("zapper/config.json"@))),
        None => None,
    }
}

/// The default path of the index for a user with the given data and home
/// directories.
pub fn index_path_in(data: Option<Vec<u8>>, home: Option<Vec<u8>>) -> (place: Option<Vec<u8>>)
    ensures
        path::optional_bytes(place) == index_place(
            path::optional_bytes(data),
            path::optional_bytes(home),
        ),
{
    let base = match (data, home) {
        (Some(dir), _) => dir,
        (None, Some(dir)) => path::join(dir.as_slice(), ".local/share".as_bytes()),
        (None, None) => {
            return None;
        },
    };
    Some(path::join(base.as_slice(), "zapper/index.json".as_bytes()))
}

/// The default path of the index for this user; `None` where neither a data
/// directory nor a home directory is known.
pub fn default_index_path() -> (place: Option<Vec<u8>>)
    ensures
        exists|data: Option<Seq<u8>>, home: Option<Seq<u8>>|
            path::optional_bytes(place) == #[trigger] index_place(data, home),
{
    index_path_in(data_dir(), home_dir())
}

/// The default path of the configuration below a configuration directory.
pub fn config_path_in(base: Option<Vec<u8>>) -> (place: Option<Vec<u8>>)
    ensures
        path::optional_bytes(place) == config_place(path::optional_bytes(base)),
{
    match base {
        Some(dir) => Some(path::join(dir.as_slice(), "zapper/config.json".as_bytes())),
        None => None,
    }
}

/// The default path of the configuration for this user; `None` where no
/// configuration directory is known.
pub fn default_config_path() -> (place: Option<Vec<u8>>)
    ensures
        exists|base: Option<Seq<u8>>|
            path::optional_bytes(place) == #[trigger] config_place(base),
{
    config_path_in(config_dir())
}

} // verus!
