//! The state of a helper that serves a repository on the local file system,
//! and the decisions it takes; the file operations themselves are done by
//! the program around the library.

use vstd::prelude::*;
use vstd::string::StringExecFns;
use crate::protocol::{OptionSettings, SetOptionResult};
use crate::repo::{loose_location, Repository};

verus! {

/// A helper between a source repository (the remote) and the repository
/// that git works in (the local one).
pub struct FileBackedCommandHandler {
    remote: Repository,
    local: Repository,
    options: OptionSettings,
}

/// `refs/remotes/<remote>/HEAD`
pub open spec fn head_name(remote_name: Seq<char>) -> Seq<char> {
    "refs/remotes/"@ + remote_name + "/HEAD"@
}

/// `ref: refs/remotes/<remote>/master`
pub open spec fn head_target(remote_name: Seq<char>) -> Seq<char> {
    "ref: refs/remotes/"@ + remote_name + "/master"@
}

impl FileBackedCommandHandler {
    pub closed spec fn remote_root(&self) -> Seq<char> {
        self.remote.root()
    }

    pub closed spec fn local_root(&self) -> Seq<char> {
        self.local.root()
    }

    /// The value of the option `name`, if it was set.
    pub closed spec fn option_value(&self, name: Seq<char>) -> Option<Seq<char>> {
        self.options.value(name)
    }

    /// A helper copying between the repositories at `remote_path` and at
    /// `local_path`, with no options set.
    pub fn new(remote_path: String, local_path: String) -> (r: Self)
        ensures
            r.remote_root() == remote_path@,
            r.local_root() == local_path@,
            forall|name: Seq<char>| #[trigger] r.option_value(name) is None,
    {
        FileBackedCommandHandler {
            remote: Repository::new(remote_path),
            local: Repository::new(local_path),
            options: OptionSettings::new(),
        }
    }

    pub fn remote(&self) -> (r: &Repository)
        ensures
            r.root() == self.remote_root(),
    {
        &self.remote
    }

    pub fn local(&self) -> (r: &Repository)
        ensures
            r.root() == self.local_root(),
    {
        &self.local
    }

    /// Where the object `hash` lies in the remote repository if it is loose.
    pub fn remote_loose_object_path(&self, hash: &str) -> (r: String)
        ensures
            r@ == loose_location(self.remote_root(), hash@),
    {
        self.remote.loose_object_path(hash)
    }

    /// Remembers the option; every option is accepted.
    pub fn set_option(&mut self, name: &str, value: &str) -> (r: SetOptionResult)
        ensures
            r == SetOptionResult::Success,
            final(self).option_value(name@) == Some(value@),
            forall|other: Seq<char>|
                other != name@ ==> #[trigger] final(self).option_value(other) == old(
                    self,
                ).option_value(other),
            final(self).remote_root() == old(self).remote_root(),
            final(self).local_root() == old(self).local_root(),
    {
        self.options.set(name, value);
        SetOptionResult::Success
    }

    /// The symbolic reference to write at the end of a clone: when the
    /// `cloning` option is `true`, `refs/remotes/<remote>/HEAD` pointing at
    /// `refs/remotes/<remote>/master`; otherwise nothing.
    pub fn head_reference(&self, remote_name: &str) -> (r: Option<(String, String)>)
        ensures
            r is Some <==> self.option_value("cloning"@) == Some("true"@),
            r matches Some((name, target)) ==> name@ == head_name(remote_name@) && target@
                == head_target(remote_name@),
    {
        let cloning = self.options.get("cloning");
        let yes = match cloning {
            Some(value) => value == "true".to_owned(),
            None => false,
        };
        if !yes {
            return None;
        }
        let name = "refs/remotes/".to_owned().concat(remote_name).concat("/HEAD");
        let target = "ref: refs/remotes/".to_owned().concat(remote_name).concat("/master");
        Some((name, target))
    }
}

} // verus!
