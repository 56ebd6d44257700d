//! The whole pipeline: from a walk's entries to the forest a client renders.
use vstd::prelude::*;
use crate::discovery::{WalkEntry, documents, scan_markdown_files};
use crate::dto::{NavTreeDto, forest_to_dto, renders_all};
use crate::normalize::{normalize_path, normalized};
use crate::server_state::ServerState;
use crate::tree::{NavTree, build_nav_tree, is_nav_forest, views};

verus! {

/// The navigation forest of the documents among a walk's entries, ready for
/// transport: it renders the forest of those documents.
pub fn get_nav_tree(entries: &[WalkEntry]) -> (r: Vec<NavTreeDto>)
    ensures
        exists|t: Seq<NavTree>| is_nav_forest(t, documents(entries@)) && renders_all(r@, t),
{
    let files = scan_markdown_files(entries);
    let tree = build_nav_tree(files.as_slice());
    let r = forest_to_dto(&tree);
    assert(is_nav_forest(tree@, documents(entries@)) && renders_all(r@, tree@));
    r
}

/// The root directory's canonical text.
pub fn get_root_dir(state: &ServerState) -> (r: String)
    ensures
        r@ == normalized(state.root_dir@),
{
    normalize_path(state.root_dir())
}

} // verus!
