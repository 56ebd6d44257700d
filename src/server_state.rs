//! What the server keeps between requests: the root directory it serves.
use vstd::prelude::*;

verus! {

/// The state a server shares with its requests: the root directory's path,
/// as text.
#[derive(Clone, Debug)]
pub struct ServerState {
    pub root_dir: String,
}

impl ServerState {
    pub fn new(root_dir: String) -> (r: ServerState)
        ensures
            r.root_dir@ == root_dir@,
    {
        ServerState { root_dir }
    }

    pub fn root_dir(&self) -> (r: &str)
        ensures
            r@ == self.root_dir@,
    {
        self.root_dir.as_str()
    }
}

} // verus!
