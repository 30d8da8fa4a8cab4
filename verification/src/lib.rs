//! Synchronises a tree of configuration files into a home directory.
//!
//! The files of a source tree are carried to a target directory, each to the
//! place that it has in the source tree. On the way a text file is templated
//! for the host that it goes to and has its secrets put in. The tree is first
//! built in a staging directory and copied from there, and the staging
//! directory is removed whatever happens.
//!
//! Nothing in this crate touches the disk. It works out what is to be done
//! (which paths, which bytes, which step next), and leaves the doing to its
//! caller.

pub mod add;
pub mod apply;
pub mod config;
pub mod fault;
pub mod files;
pub mod path;
pub mod secrets;
pub mod text;
pub mod transform;
pub mod walk;

use crate::fault::{Fault, FaultView};
use crate::path::{joined, path_of, FilePath};
use crate::text::{trim, trimmed};
use vstd::prelude::*;
use vstd::utf8::{decode_utf8, valid_utf8};

verus! {

/// The source directory of a user who has set none, under the home directory.
pub fn get_default_source_directory(home_dir: &FilePath) -> (source: FilePath)
    ensures
        source@ == joined(home_dir@, path_of(".local/share/homux/source"@)),
{
    home_dir.join(&FilePath::parse(".local/share/homux/source"))
}

/// Reads the machine's name from what the program that was asked for it has
/// printed: its output as text, without the white space around it.
pub fn get_machine_hostname(output: &[u8]) -> (hostname: Result<String, Fault>)
    ensures
        match hostname {
            Ok(name) => valid_utf8(output@) && name@ == trimmed(decode_utf8(output@)),
            Err(failure) => !valid_utf8(output@) && failure@ == (FaultView::Io {
                message: "parse machine hostname as utf8"@,
            }),
        },
{
    match std::str::from_utf8(output) {
        Ok(text) => Ok(trim(text)),
        Err(_) => Err(Fault::Io { message: "parse machine hostname as utf8".to_owned() }),
    }
}

} // verus!
