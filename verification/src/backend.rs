//! A handle on one bare repository.
use vstd::prelude::*;
use crate::refs::{RefLine, advertise_refs, advertisement, refs_view, names_fit};

verus! {

/// One repository, by the path (its bytes) of its directory.
pub struct GitBackend {
    repo_path: Vec<u8>,
}

impl GitBackend {
    pub fn new(repo_path: Vec<u8>) -> (b: GitBackend)
        ensures
            b.path() == repo_path@,
    {
        GitBackend { repo_path }
    }

    /// The path of the repository directory.
    pub closed spec fn path(&self) -> Seq<u8> {
        self.repo_path@
    }

    /// The path of the repository directory.
    pub fn repo_path(&self) -> (r: &Vec<u8>)
        ensures
            r@ == self.path(),
    {
        &self.repo_path
    }

    /// The ref advertisement of this repository, given the refs read from it
    /// (HEAD first when it resolves, then every ref, each peeled to an id).
    pub fn advertise_refs(&self, refs: &Vec<RefLine>) -> (out: Vec<u8>)
        requires
            names_fit(refs@),
        ensures
            out@ == advertisement(refs_view(refs@)),
    {
        advertise_refs(refs)
    }
}

} // verus!
