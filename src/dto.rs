//! The transport form of the navigation forest: every path rendered as
//! canonical forward-slash text.
use vstd::prelude::*;
use crate::normalize::{normalize_path, normalized};
use crate::paths::path_text;
use crate::tree::NavTree;

verus! {

/// A node of the forest as it is sent to a client.
#[derive(Debug, PartialEq, Eq)]
pub enum NavTreeDto {
    File { name: String, path: String },
    Dir { name: String, path: String, children: Vec<NavTreeDto> },
}

/// `d` renders `n`: same variant, same name, the path's canonical text, and
/// children that render `n`'s children in the same order.
pub open spec fn renders(d: NavTreeDto, n: NavTree) -> bool
    decreases n,
{
    match n {
        NavTree::File { name, path } => {
            &&& d matches NavTreeDto::File { name: dn, path: dp }
            &&& dn@ == name@
            &&& dp@ == normalized(path_text(path@))
        },
        NavTree::Dir { name, path, children } => {
            &&& d matches NavTreeDto::Dir { name: dn, path: dp, children: dc }
            &&& dn@ == name@
            &&& dp@ == normalized(path_text(path@))
            &&& renders_all(dc@, children@)
        },
    }
}

/// `ds` renders `ns` element by element.
pub open spec fn renders_all(ds: Seq<NavTreeDto>, ns: Seq<NavTree>) -> bool
    decreases ns,
{
    &&& ds.len() == ns.len()
    &&& forall|i: int| 0 <= i < ns.len() ==> renders(ds[i], #[trigger] ns[i])
}

impl NavTreeDto {
    /// Renders one node, and its subtree, for transport.
    pub fn from(value: NavTree) -> (r: NavTreeDto)
        ensures
            renders(r, value),
    {
        node_to_dto(&value)
    }
}

/// The key that identifies a rendered node among its siblings: its path.
pub fn get_nav_tree_key(nav_tree: &NavTreeDto) -> (r: String)
    ensures
        r@ == match *nav_tree {
            NavTreeDto::File { path, .. } => path@,
            NavTreeDto::Dir { path, .. } => path@,
        },
{
    match nav_tree {
        NavTreeDto::File { path, .. } => path.clone(),
        NavTreeDto::Dir { path, .. } => path.clone(),
    }
}

fn node_to_dto(n: &NavTree) -> (r: NavTreeDto)
    ensures
        renders(r, *n),
    decreases n,
{
    match n {
        NavTree::File { name, path } => {
            let text = path.to_text();
            NavTreeDto::File { name: name.clone(), path: normalize_path(text.as_str()) }
        },
        NavTree::Dir { name, path, children } => {
            let text = path.to_text();
            let dc = forest_to_dto(children);
            NavTreeDto::Dir { name: name.clone(), path: normalize_path(text.as_str()), children: dc }
        },
    }
}

/// Renders a forest, node by node in order.
pub fn forest_to_dto(ns: &Vec<NavTree>) -> (r: Vec<NavTreeDto>)
    ensures
        renders_all(r@, ns@),
    decreases ns,
{
    let mut out: Vec<NavTreeDto> = Vec::new();
    let mut i: usize = 0;
    while i < ns.len()
        invariant
            i <= ns@.len(),
            out@.len() == i,
            forall|j: int| 0 <= j < i ==> renders(out@[j], #[trigger] ns@[j]),
        decreases ns@.len() - i,
    {
        let d = node_to_dto(&ns[i]);
        out.push(d);
        i += 1;
    }
    out
}

} // verus!
