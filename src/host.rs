//! The machine a path is resolved on, and the path functions of its profile.
use vstd::prelude::*;
use crate::posix::{posix_normalize, posix_normalized, posix_relative, posix_relative_spec, posix_resolve, posix_resolved};
use crate::segments::PathProfile;
use crate::windows::{
    drive_view, win_normalized, win_relative_spec, win_resolved, windows_normalize, windows_relative,
    windows_resolve,
};

verus! {

/// What resolution reads from the machine: its path profile, its working
/// directory and, under Windows rules, the last directory of each drive
/// (`("C:", "C:\\Users\\me")`).
pub struct Host {
    pub profile: PathProfile,
    pub working_directory: String,
    pub drive_directories: Vec<(String, String)>,
}

impl Host {
    /// A host with the given profile and working directory and no per-drive
    /// directories.
    pub fn new(profile: PathProfile, working_directory: &str) -> (r: Host)
        ensures
            r.profile == profile,
            r.working_directory@ == working_directory@,
            r.drive_directories@.len() == 0,
    {
        Host {
            profile,
            working_directory: working_directory.to_owned(),
            drive_directories: Vec::new(),
        }
    }
}

pub open spec fn resolved_on(host: &Host, left: Seq<char>, right: Seq<char>) -> Seq<char> {
    match host.profile {
        PathProfile::Posix => posix_resolved(host.working_directory@, left, right),
        PathProfile::Windows => win_resolved(
            host.working_directory@,
            drive_view(host.drive_directories@),
            left,
            right,
        ),
    }
}

pub open spec fn normalized_on(profile: PathProfile, path: Seq<char>) -> Seq<char> {
    match profile {
        PathProfile::Posix => posix_normalized(path),
        PathProfile::Windows => win_normalized(path),
    }
}

pub open spec fn relative_on(profile: PathProfile, from: Seq<char>, to: Seq<char>) -> Seq<char> {
    match profile {
        PathProfile::Posix => posix_relative_spec(from, to),
        PathProfile::Windows => win_relative_spec(from, to),
    }
}

/// Resolves `right` against `left`, and both against the host's working
/// directory, into one absolute normalized path.
pub fn resolve(host: &Host, left: &str, right: &str) -> (r: String)
    ensures
        r@ == resolved_on(host, left@, right@),
{
    match host.profile {
        PathProfile::Posix => posix_resolve(host.working_directory.as_str(), left, right),
        PathProfile::Windows => windows_resolve(
            host.working_directory.as_str(),
            &host.drive_directories,
            left,
            right,
        ),
    }
}

/// Collapses `.` and `..` segments and repeated separators of `path`.
pub fn normalize(profile: PathProfile, path: &str) -> (r: String)
    ensures
        r@ == normalized_on(profile, path@),
{
    match profile {
        PathProfile::Posix => posix_normalize(path),
        PathProfile::Windows => windows_normalize(path),
    }
}

/// The shortest path that leads from `from` to `to`.
pub fn relative(profile: PathProfile, from: &str, to: &str) -> (r: String)
    ensures
        r@ == relative_on(profile, from@, to@),
{
    match profile {
        PathProfile::Posix => posix_relative(from, to),
        PathProfile::Windows => windows_relative(from, to),
    }
}

} // verus!
