//! The navigation forest: directories and documents rebuilt from a flat
//! list of relative paths.
use vstd::prelude::*;
use vstd::multiset::Multiset;
use vstd::seq_lib::lemma_multiset_commutative;
use crate::paths::{RelPath, extension_of, has_extension};
use crate::forest_proofs::{lemma_forest_split, lemma_forest_under, lemma_contains_concat, lemma_forest_avoid, lemma_no_dup_parts, lemma_no_dup_join, lemma_update_child, lemma_files_order_step, lemma_not_reached, lemma_first_reach_push, lemma_sorted_forest_lift, lemma_sorted_append, lemma_sorted_replace, lemma_is_dir_of_reaches, lemma_complete_fresh, lemma_complete_child, lemma_sibling_order_step};

verus! {

/// A node of the navigation forest.
#[derive(Debug)]
pub enum NavTree {
    File { name: String, path: RelPath },
    Dir { name: String, path: RelPath, children: Vec<NavTree> },
}

/// A node's name: the last component of its path.
pub open spec fn name_of(n: NavTree) -> Seq<char> {
    match n {
        NavTree::File { name, .. } => name@,
        NavTree::Dir { name, .. } => name@,
    }
}

/// A node's path relative to the scan root.
pub open spec fn path_of(n: NavTree) -> Seq<Seq<char>> {
    match n {
        NavTree::File { path, .. } => path@,
        NavTree::Dir { path, .. } => path@,
    }
}

/// The paths held by a node's subtree, depth-first in child order: those of
/// directories where `dirs` holds, else those of documents.
pub open spec fn node_paths(n: NavTree, dirs: bool) -> Seq<Seq<Seq<char>>>
    decreases n,
{
    match n {
        NavTree::File { path, .. } => if dirs {
            seq![]
        } else {
            seq![path@]
        },
        NavTree::Dir { path, children, .. } => {
            let below = forest_paths(children@, dirs);
            if dirs {
                seq![path@] + below
            } else {
                below
            }
        },
    }
}

/// `node_paths` over a sequence of sibling nodes, in order.
pub open spec fn forest_paths(s: Seq<NavTree>, dirs: bool) -> Seq<Seq<Seq<char>>>
    decreases s,
{
    if s.len() == 0 {
        seq![]
    } else {
        forest_paths(s.drop_last(), dirs) + node_paths(s.last(), dirs)
    }
}

impl NavTree {
    pub fn new_file(name: String, path: RelPath) -> (r: NavTree)
        ensures
            r == (NavTree::File { name, path }),
    {
        NavTree::File { name, path }
    }

    pub fn new_dir(name: String, path: RelPath) -> (r: NavTree)
        ensures
            r is Dir,
            name_of(r) == name@,
            path_of(r) == path@,
            r->Dir_children@ == Seq::<NavTree>::empty(),
    {
        NavTree::Dir { name, path, children: Vec::new() }
    }

    /// The node's name: its last path component.
    pub fn name(&self) -> (r: &str)
        ensures
            r@ == name_of(*self),
    {
        match self {
            NavTree::File { name, .. } => name.as_str(),
            NavTree::Dir { name, .. } => name.as_str(),
        }
    }

    /// The node's path relative to the scan root.
    pub fn path(&self) -> (r: &RelPath)
        ensures
            r@ == path_of(*self),
    {
        match self {
            NavTree::File { path, .. } => path,
            NavTree::Dir { path, .. } => path,
        }
    }
}

/// A well-formed node under the directory `pre`: its path is `pre` followed
/// by its name, and a directory's children are well formed under its path.
pub open spec fn wf_node(n: NavTree, pre: Seq<Seq<char>>) -> bool
    decreases n,
{
    match n {
        NavTree::File { name, path } => path@ == pre.push(name@),
        NavTree::Dir { name, path, children } => path@ == pre.push(name@) && wf_forest(
            children@,
            path@,
        ),
    }
}

/// Well-formed siblings under `pre`: each is well formed, and no two
/// directories among them share a name.
pub open spec fn wf_forest(s: Seq<NavTree>, pre: Seq<Seq<char>>) -> bool
    decreases s,
{
    &&& forall|i: int| 0 <= i < s.len() ==> wf_node(#[trigger] s[i], pre)
    &&& forall|i: int, j: int|
        0 <= i < j < s.len() && s[i] is Dir && s[j] is Dir ==> name_of(#[trigger] s[i]) != name_of(
            #[trigger] s[j],
        )
}

/// `q` is a directory that `p` passes through, of more than `from` and at
/// most `to` components.
pub open spec fn is_dir_prefix(p: Seq<Seq<char>>, q: Seq<Seq<char>>, from: int, to: int) -> bool {
    exists|k: int| from < k <= to && q == p.subrange(0, k)
}

/// Position of the directory named `name` among `children`.
fn find_dir(children: &Vec<NavTree>, name: &String) -> (r: Option<usize>)
    ensures
        match r {
            Some(i) => i < children@.len() && children@[i as int] is Dir && name_of(
                children@[i as int],
            ) == name@,
            None => forall|j: int|
                0 <= j < children@.len() && (#[trigger] children@[j]) is Dir ==> name_of(
                    children@[j],
                ) != name@,
        },
{
    let mut i: usize = 0;
    while i < children.len()
        invariant
            i <= children@.len(),
            forall|j: int|
                0 <= j < i && (#[trigger] children@[j]) is Dir ==> name_of(children@[j]) != name@,
        decreases children@.len() - i,
    {
        match &children[i] {
            NavTree::Dir { name: n, .. } => {
                if *n == *name {
                    return Some(i);
                }
            },
            NavTree::File { .. } => {},
        }
        i += 1;
    }
    None
}

/// The documents that inserting `p` adds: `p` itself where it names a file
/// (it then has one component more than the directories it passes through).
pub open spec fn added_docs(p: Seq<Seq<char>>, ndirs: int) -> Multiset<Seq<Seq<char>>> {
    if ndirs < p.len() {
        Multiset::singleton(p)
    } else {
        Multiset::empty()
    }
}

/// Two paths name entries of one directory.
pub open spec fn same_dir(p: Seq<Seq<char>>, q: Seq<Seq<char>>) -> bool {
    p.len() > 0 && q.len() > 0 && p.drop_last() == q.drop_last()
}

/// `new` is `old` with `p` inserted at `k`, after every entry of `old` that
/// lies in `p`'s directory.
pub open spec fn inserted_after_siblings(
    old: Seq<Seq<Seq<char>>>,
    new: Seq<Seq<Seq<char>>>,
    p: Seq<Seq<char>>,
    k: int,
) -> bool {
    &&& 0 <= k <= old.len()
    &&& new == old.insert(k, p)
    &&& forall|a: int| 0 <= a < old.len() && same_dir(#[trigger] old[a], p) ==> a < k
}

/// `p` passes through the directory `q` (`dir`), or names the document `q`.
pub open spec fn reaches(p: Seq<Seq<char>>, q: Seq<Seq<char>>, dir: bool) -> bool {
    if dir {
        0 < q.len() <= dir_depth(p) && q == p.subrange(0, q.len() as int)
    } else {
        is_doc_path(p) && q == p
    }
}

/// Index of the first path of `ps` that reaches `q`, or `ps.len()` where
/// none does.
pub open spec fn first_reach(ps: Seq<Seq<Seq<char>>>, q: Seq<Seq<char>>, dir: bool) -> int
    decreases ps.len(),
{
    if ps.len() == 0 {
        0
    } else {
        let f = first_reach(ps.drop_last(), q, dir);
        if f < ps.len() - 1 {
            f
        } else if reaches(ps.last(), q, dir) {
            ps.len() - 1
        } else {
            ps.len() as int
        }
    }
}

/// When the paths of `ps` first reach the node `n`.
pub open spec fn reach_index(ps: Seq<Seq<Seq<char>>>, n: NavTree) -> int {
    first_reach(ps, path_of(n), n is Dir)
}

/// Every node below `n` is reached by some path of `ps`, and siblings stand
/// in the order in which `ps` first reaches them.
pub open spec fn sorted_node(n: NavTree, ps: Seq<Seq<Seq<char>>>) -> bool
    decreases n,
{
    &&& reach_index(ps, n) < ps.len()
    &&& match n {
        NavTree::File { .. } => true,
        NavTree::Dir { children, .. } => sorted_forest(children@, ps),
    }
}

/// `sorted_node` for each of the siblings `s`, which stand in the order in
/// which `ps` first reaches them.
pub open spec fn sorted_forest(s: Seq<NavTree>, ps: Seq<Seq<Seq<char>>>) -> bool
    decreases s,
{
    &&& forall|i: int| 0 <= i < s.len() ==> sorted_node(#[trigger] s[i], ps)
    &&& forall|a: int, b: int|
        0 <= a < b < s.len() ==> reach_index(ps, #[trigger] s[a]) < reach_index(ps, #[trigger] s[b])
}

/// No document path occurs twice in `ps`.
pub open spec fn distinct_docs(ps: Seq<Seq<Seq<char>>>) -> bool {
    forall|i: int, j: int|
        0 <= i < j < ps.len() && is_doc_path(#[trigger] ps[i]) ==> ps[i] != #[trigger] ps[j]
}

/// Every directory below `pre` that a path of `ps` passes through is held
/// below `s`.
pub open spec fn complete_below(s: Seq<NavTree>, pre: Seq<Seq<char>>, ps: Seq<Seq<Seq<char>>>) -> bool {
    forall|q: Seq<Seq<char>>|
        #[trigger] is_dir_of(ps, q) && q.len() > pre.len() && q.subrange(0, pre.len() as int) == pre
            ==> forest_paths(s, true).contains(q)
}

/// Inserts `path` below `children`, the nodes at depth `depth`: walks (or
/// creates) the directories of its first `ndirs` components, then adds the
/// file itself where a component is left.
fn insert_path(
    children: &mut Vec<NavTree>,
    path: &RelPath,
    ndirs: usize,
    depth: usize,
    ps: Ghost<Seq<Seq<Seq<char>>>>,
)
    requires
        depth <= ndirs <= path@.len() <= ndirs + 1,
        ndirs == dir_depth(path@),
        distinct_docs(ps@.push(path@)) ==> sorted_forest(old(children)@, ps@) && complete_below(
            old(children)@,
            path@.subrange(0, depth as int),
            ps@,
        ),
        wf_forest(old(children)@, path@.subrange(0, depth as int)),
        forest_paths(old(children)@, true).no_duplicates(),
    ensures
        wf_forest(final(children)@, path@.subrange(0, depth as int)),
        forest_paths(final(children)@, true).no_duplicates(),
        forall|q: Seq<Seq<char>>|
            #[trigger] forest_paths(final(children)@, true).contains(q) <==> forest_paths(
                old(children)@,
                true,
            ).contains(q) || is_dir_prefix(path@, q, depth as int, ndirs as int),
        forest_paths(final(children)@, false).to_multiset() == forest_paths(
            old(children)@,
            false,
        ).to_multiset().add(added_docs(path@, ndirs as int)),
        ndirs < path@.len() ==> exists|k: int|
            inserted_after_siblings(
                forest_paths(old(children)@, false),
                forest_paths(final(children)@, false),
                path@,
                k,
            ),
        ndirs == path@.len() ==> forest_paths(final(children)@, false) == forest_paths(
            old(children)@,
            false,
        ),
        distinct_docs(ps@.push(path@)) ==> sorted_forest(final(children)@, ps@.push(path@)),
    decreases ndirs - depth,
{
    let ghost pre = path@.subrange(0, depth as int);
    let ghost s0 = children@;
    let ghost track = distinct_docs(ps@.push(path@));
    if depth == ndirs {
        if ndirs < path.parts.len() {
            let f = NavTree::new_file(path.parts[ndirs].clone(), path.duplicate());
            children.push(f);
            proof {
                if track {
                    let q = ps@.push(path@);
                    assert forall|k: int| 0 <= k < ps@.len() implies !reaches(#[trigger] ps@[k], path@, false) by {
                        assert(q[k] == ps@[k] && q[ps@.len() as int] == path@);
                    }
                    lemma_not_reached(ps@, path@, false);
                    lemma_first_reach_push(ps@, path@, path@, false);
                    lemma_sorted_append(s0, f, ps@, path@);
                }
                assert(path@ =~= pre.push(path@[depth as int]));
                assert(children@.drop_last() =~= s0);
                assert forall|i: int| 0 <= i < children@.len() implies wf_node(
                    #[trigger] children@[i],
                    pre,
                ) by {
                    if i < s0.len() {
                        assert(children@[i] == s0[i]);
                    }
                }
                assert forall|i: int, j: int|
                    0 <= i < j < children@.len() && children@[i] is Dir && children@[j] is Dir implies name_of(
                    #[trigger] children@[i],
                ) != name_of(#[trigger] children@[j]) by {
                    assert(children@[i] == s0[i] && children@[j] == s0[j]);
                }
                assert(children@.last() == f);
                assert(node_paths(f, true) =~= Seq::empty());
                assert(forest_paths(children@, true) =~= forest_paths(s0, true));
                assert(node_paths(f, false) =~= seq![path@]);
                assert(forest_paths(children@, false) =~= forest_paths(s0, false).push(path@));
                assert(seq![path@].to_multiset() =~= Multiset::singleton(path@)) by {
                    broadcast use vstd::seq_lib::group_to_multiset_ensures;
                    assert(seq![path@] =~= Seq::<Seq<Seq<char>>>::empty().push(path@));
                }
                lemma_multiset_commutative(forest_paths(s0, false), seq![path@]);
                assert(forest_paths(s0, false).push(path@) =~= forest_paths(s0, false) + seq![path@]);
                assert(forest_paths(s0, false).push(path@) =~= forest_paths(s0, false).insert(
                    forest_paths(s0, false).len() as int,
                    path@,
                ));
                assert(inserted_after_siblings(
                    forest_paths(s0, false),
                    forest_paths(children@, false),
                    path@,
                    forest_paths(s0, false).len() as int,
                ));
            }
        } else {
            proof {
                assert(forest_paths(s0, false).to_multiset().add(Multiset::empty()) =~= forest_paths(s0, false).to_multiset());
                if track {
                    lemma_sorted_forest_lift(s0, ps@, path@);
                }
            }
        }
        return;
    }
    let ghost nm = path@[depth as int];
    let ghost dpath = path@.subrange(0, depth + 1);
    let ghost mut created = false;
    proof {
        assert(dpath =~= pre.push(nm));
    }
    let idx = match find_dir(children, &path.parts[depth]) {
        Some(i) => {
            proof {
                lemma_forest_split(s0, i as int, true);
                assert(node_paths(s0[i as int], true)[0] == dpath);
                lemma_contains_concat(forest_paths(s0.subrange(0, i as int), true), node_paths(s0[i as int], true));
                lemma_contains_concat(forest_paths(s0.subrange(0, i as int), true) + node_paths(s0[i as int], true), forest_paths(s0.subrange(i + 1, s0.len() as int), true));
                assert(node_paths(s0[i as int], true).contains(dpath));
                assert(forest_paths(s0, true).contains(dpath));
            }
            i
        },
        None => {
            let d = NavTree::new_dir(path.parts[depth].clone(), path.prefix(depth + 1));
            children.push(d);
            proof {
                let s1 = children@;
                assert(s1.drop_last() =~= s0);
                assert(s1.last() == d);
                assert forall|i: int| 0 <= i < s1.len() implies wf_node(#[trigger] s1[i], pre) by {
                    if i < s0.len() {
                        assert(s1[i] == s0[i]);
                    } else {
                        assert(forest_paths(d->Dir_children@, true) =~= Seq::empty());
                    }
                }
                assert forall|i: int, j: int|
                    0 <= i < j < s1.len() && s1[i] is Dir && s1[j] is Dir implies name_of(
                    #[trigger] s1[i],
                ) != name_of(#[trigger] s1[j]) by {
                    assert(s1[i] == s0[i]);
                    if j < s0.len() {
                        assert(s1[j] == s0[j]);
                    }
                }
                assert(node_paths(d, true) =~= seq![dpath]);
                assert(node_paths(d, false) =~= Seq::empty());
                assert(forest_paths(s1, false) =~= forest_paths(s0, false));
                lemma_forest_avoid(s0, pre, nm);
                assert(!forest_paths(s0, true).contains(dpath));
                lemma_no_dup_join(forest_paths(s0, true), seq![dpath], Seq::empty());
                assert(forest_paths(s0, true) + seq![dpath] + Seq::empty() =~= forest_paths(s1, true));
                lemma_contains_concat(forest_paths(s0, true), seq![dpath]);
                assert(forest_paths(s1, true) =~= forest_paths(s0, true) + seq![dpath]);
                assert forall|q: Seq<Seq<char>>| seq![dpath].contains(q) <==> q == dpath by {
                    if q == dpath {
                        assert(seq![dpath][0] == q);
                    }
                }
                created = true;
                if track {
                    assert(dpath.subrange(0, pre.len() as int) =~= pre);
                    assert(!is_dir_of(ps@, dpath));
                    lemma_complete_fresh(ps@, dpath);
                    assert(d->Dir_children@ =~= Seq::<NavTree>::empty());
                }
            }
            children.len() - 1
        },
    };
    let ghost s1 = children@;
    proof {
        assert(forall|q: Seq<Seq<char>>| #[trigger] forest_paths(s1, true).contains(q) <==> forest_paths(s0, true).contains(q) || q == dpath);
        assert(wf_node(s1[idx as int], pre));
        lemma_forest_split(s1, idx as int, true);
        lemma_no_dup_parts(
            forest_paths(s1.subrange(0, idx as int), true),
            node_paths(s1[idx as int], true),
            forest_paths(s1.subrange(idx + 1, s1.len() as int), true),
        );
        let below = forest_paths(s1[idx as int]->Dir_children@, true);
        assert(node_paths(s1[idx as int], true) =~= seq![dpath] + below + Seq::empty());
        lemma_no_dup_parts(seq![dpath], below, Seq::empty());
        if track && !created {
            assert(s1 == s0);
            lemma_complete_child(s0, idx as int, pre, ps@);
            assert(sorted_node(s0[idx as int], ps@));
        }
    }
    match &mut children[idx] {
        NavTree::Dir { children: sub, .. } => {
            insert_path(sub, path, ndirs, depth + 1, ps);
        },
        NavTree::File { .. } => {},
    }
    proof {
        let x = s1[idx as int];
        let x2 = children@[idx as int];
        assert(children@ == s1.update(idx as int, x2));
        let sub0 = x->Dir_children@;
        let sub2 = x2->Dir_children@;
        assert(path_of(x2) == dpath);
        lemma_forest_under(sub2, dpath, true);
        assert(!forest_paths(sub2, true).contains(dpath));
        assert forall|q: Seq<Seq<char>>| seq![dpath].contains(q) <==> q == dpath by {
            if q == dpath {
                assert(seq![dpath][0] == q);
            }
        }
        lemma_no_dup_join(seq![dpath], forest_paths(sub2, true), Seq::empty());
        assert(node_paths(x2, true) =~= seq![dpath] + forest_paths(sub2, true) + Seq::empty());
        lemma_update_child(s1, idx as int, x2, pre);
        lemma_contains_concat(seq![dpath], forest_paths(sub2, true));
        lemma_contains_concat(seq![dpath], forest_paths(sub0, true));
        assert(node_paths(x2, true) =~= seq![dpath] + forest_paths(sub2, true));
        assert(node_paths(x, true) =~= seq![dpath] + forest_paths(sub0, true));
        assert forall|q: Seq<Seq<char>>|
            is_dir_prefix(path@, q, depth as int, ndirs as int) <==> q == dpath || is_dir_prefix(
                path@,
                q,
                depth + 1,
                ndirs as int,
            ) by {
            if is_dir_prefix(path@, q, depth as int, ndirs as int) {
                let k = choose|k: int| depth < k <= ndirs && q == path@.subrange(0, k);
                if k > depth + 1 {
                    assert(is_dir_prefix(path@, q, depth + 1, ndirs as int));
                }
            }
            if q == dpath {
                assert(is_dir_prefix(path@, q, depth as int, ndirs as int));
            }
            if is_dir_prefix(path@, q, depth + 1, ndirs as int) {
                let k = choose|k: int| depth + 1 < k <= ndirs && q == path@.subrange(0, k);
                assert(is_dir_prefix(path@, q, depth as int, ndirs as int));
            }
        }
        assert(node_paths(x2, false) == forest_paths(sub2, false));
        assert(node_paths(x, false) == forest_paths(sub0, false));
        if ndirs == path@.len() {
            lemma_forest_split(s1, idx as int, false);
            lemma_forest_split(children@, idx as int, false);
            assert(children@.subrange(0, idx as int) =~= s1.subrange(0, idx as int));
            assert(children@.subrange(idx + 1, children@.len() as int) =~= s1.subrange(
                idx + 1,
                s1.len() as int,
            ));
        }
        if ndirs < path@.len() {
            let kx = choose|k: int| inserted_after_siblings(forest_paths(sub0, false), forest_paths(sub2, false), path@, k);
            lemma_files_order_step(s1, x2, idx as int, pre, path@, kx);
        }
        assert(forest_paths(children@, false).to_multiset() =~= forest_paths(s0, false).to_multiset().add(added_docs(path@, ndirs as int)));
        if track {
            if created {
                assert(children@ =~= s0.push(x2));
                lemma_is_dir_of_reaches(ps@, dpath);
                lemma_not_reached(ps@, dpath, true);
                assert(reaches(path@, dpath, true));
                lemma_first_reach_push(ps@, path@, dpath, true);
                lemma_sorted_append(s0, x2, ps@, path@);
            } else {
                lemma_sorted_replace(s0, idx as int, x2, ps@, path@);
            }
        }
    }
}

/// The views of a list of paths.
pub open spec fn views(ps: Seq<RelPath>) -> Seq<Seq<Seq<char>>> {
    ps.map_values(|p: RelPath| p@)
}

/// A path names a document where its last component has an extension.
pub open spec fn is_doc_path(p: Seq<Seq<char>>) -> bool {
    p.len() > 0 && extension_of(p.last()) is Some
}

/// How many leading components of `p` are directories.
pub open spec fn dir_depth(p: Seq<Seq<char>>) -> int {
    if is_doc_path(p) {
        p.len() - 1
    } else {
        p.len() as int
    }
}

/// The document paths among `ps`, in order.
pub open spec fn doc_paths(ps: Seq<Seq<Seq<char>>>) -> Seq<Seq<Seq<char>>>
    decreases ps.len(),
{
    if ps.len() == 0 {
        seq![]
    } else if is_doc_path(ps.last()) {
        doc_paths(ps.drop_last()).push(ps.last())
    } else {
        doc_paths(ps.drop_last())
    }
}

/// `q` is a directory that one of `ps` passes through.
pub open spec fn is_dir_of(ps: Seq<Seq<Seq<char>>>, q: Seq<Seq<char>>) -> bool {
    exists|i: int, k: int| 0 <= i < ps.len() && 0 < k <= dir_depth(ps[i]) && q == ps[i].subrange(0, k)
}

/// Of two documents of one directory in `ps`, the earlier comes first in
/// `files` too.
pub open spec fn keeps_sibling_order(files: Seq<Seq<Seq<char>>>, ps: Seq<Seq<Seq<char>>>) -> bool {
    forall|i: int, j: int|
        0 <= i < j < ps.len() && is_doc_path(ps[i]) && is_doc_path(ps[j]) && #[trigger] same_dir(
            ps[i],
            ps[j],
        ) ==> exists|a: int, b: int|
            0 <= a < b < files.len() && #[trigger] files[a] == ps[i] && #[trigger] files[b] == ps[j]
}

/// `t` is the forest of `ps`: well formed from the root; each document path
/// of `ps` held by exactly as many document nodes as it occurs in `ps`, and
/// two documents of one directory in the order of `ps`; exactly one
/// directory node for each directory that some path of `ps` passes through,
/// and no other; and, where no document occurs twice in `ps`, siblings in the
/// order in which the paths of `ps` first reach them.
pub open spec fn is_nav_forest(t: Seq<NavTree>, ps: Seq<Seq<Seq<char>>>) -> bool {
    &&& wf_forest(t, Seq::empty())
    &&& forest_paths(t, false).to_multiset() == doc_paths(ps).to_multiset()
    &&& keeps_sibling_order(forest_paths(t, false), ps)
    &&& distinct_docs(ps) ==> sorted_forest(t, ps)
    &&& forest_paths(t, true).no_duplicates()
    &&& forall|q: Seq<Seq<char>>| #[trigger] forest_paths(t, true).contains(q) <==> is_dir_of(ps, q)
}

/// Rebuilds the directory hierarchy of `relative_paths` as a forest: one
/// directory node for each directory that some path passes through, and one
/// document node for each path that names a document.
pub fn build_nav_tree(relative_paths: &[RelPath]) -> (r: Vec<NavTree>)
    ensures
        is_nav_forest(r@, views(relative_paths@)),
{
    let mut forest: Vec<NavTree> = Vec::new();
    let ghost ps = views(relative_paths@);
    proof {
        assert(forest_paths(forest@, true) =~= Seq::empty());
        assert(forest_paths(forest@, false) =~= Seq::empty());
        assert(doc_paths(ps.subrange(0, 0)) =~= Seq::empty());
        assert(forest_paths(forest@, false).to_multiset() =~= doc_paths(ps.subrange(0, 0)).to_multiset());
    }
    let mut i: usize = 0;
    while i < relative_paths.len()
        invariant
            i <= relative_paths@.len(),
            ps == views(relative_paths@),
            wf_forest(forest@, Seq::empty()),
            forest_paths(forest@, true).no_duplicates(),
            forall|q: Seq<Seq<char>>|
                #[trigger] forest_paths(forest@, true).contains(q) <==> is_dir_of(ps.subrange(0, i as int), q),
            forest_paths(forest@, false).to_multiset() == doc_paths(ps.subrange(0, i as int)).to_multiset(),
            keeps_sibling_order(forest_paths(forest@, false), ps.subrange(0, i as int)),
            distinct_docs(ps.subrange(0, i as int)) ==> sorted_forest(forest@, ps.subrange(0, i as int)),
        decreases relative_paths@.len() - i,
    {
        let path = &relative_paths[i];
        let n = path.parts.len();
        let ghost before = forest@;
        let ghost files_before = forest_paths(forest@, false);
        let ghost p = path@;
        assert(p == ps[i as int]);
        let ghost head = ps.subrange(0, i as int);
        let ghost next = ps.subrange(0, i + 1);
        assert(next =~= head.push(p));
        assert(next.drop_last() =~= head);
        assert(next.last() == p);
        if n > 0 {
            let ndirs = if has_extension(path.parts[n - 1].as_str()) {
                n - 1
            } else {
                n
            };
            assert(ndirs == dir_depth(p));
            assert(path@.subrange(0, 0) =~= Seq::<Seq<char>>::empty());
            proof {
                if distinct_docs(next) {
                    assert forall|a: int, b: int|
                        0 <= a < b < head.len() && is_doc_path(#[trigger] head[a]) implies head[a] != #[trigger] head[b] by {
                        assert(head[a] == next[a] && head[b] == next[b]);
                    }
                    assert forall|q: Seq<Seq<char>>|
                        #[trigger] is_dir_of(head, q) && q.len() > 0 && q.subrange(0, 0) == Seq::<Seq<char>>::empty()
                            implies forest_paths(forest@, true).contains(q) by {}
                }
            }
            insert_path(&mut forest, path, ndirs, 0, Ghost(head));
            proof {
                lemma_sibling_order_step(files_before, forest_paths(forest@, false), head, p);
                if is_doc_path(p) {
                    assert(doc_paths(next) == doc_paths(head).push(p));
                    vstd::seq_lib::to_multiset_build(doc_paths(head), p);
                    assert(doc_paths(head).push(p).to_multiset() =~= doc_paths(head).to_multiset().add(added_docs(p, ndirs as int)));
                } else {
                    assert(forest_paths(forest@, false).to_multiset() =~= doc_paths(next).to_multiset());
                }
                assert forall|q: Seq<Seq<char>>| is_dir_of(next, q) <==> is_dir_of(head, q) || is_dir_prefix(p, q, 0, ndirs as int) by {
                    if is_dir_of(next, q) {
                        let (j, k) = choose|j: int, k: int| 0 <= j < next.len() && 0 < k <= dir_depth(next[j]) && q == next[j].subrange(0, k);
                        if j < i {
                            assert(head[j] == next[j]);
                        }
                    }
                    if is_dir_of(head, q) {
                        let (j, k) = choose|j: int, k: int| 0 <= j < head.len() && 0 < k <= dir_depth(head[j]) && q == head[j].subrange(0, k);
                        assert(head[j] == next[j]);
                    }
                    if is_dir_prefix(p, q, 0, ndirs as int) {
                        let k = choose|k: int| 0 < k <= ndirs && q == p.subrange(0, k);
                        assert(next[i as int] == p);
                    }
                }
            }
        } else {
            proof {
                assert(!is_doc_path(p));
                lemma_sibling_order_step(files_before, forest_paths(forest@, false), head, p);
                if distinct_docs(next) {
                    assert forall|a: int, b: int|
                        0 <= a < b < head.len() && is_doc_path(#[trigger] head[a]) implies head[a] != #[trigger] head[b] by {
                        assert(head[a] == next[a] && head[b] == next[b]);
                    }
                    lemma_sorted_forest_lift(forest@, head, p);
                }
                assert forall|q: Seq<Seq<char>>| is_dir_of(next, q) <==> is_dir_of(head, q) by {
                    if is_dir_of(next, q) {
                        let (j, k) = choose|j: int, k: int| 0 <= j < next.len() && 0 < k <= dir_depth(next[j]) && q == next[j].subrange(0, k);
                        if j < i {
                            assert(head[j] == next[j]);
                        }
                    }
                    if is_dir_of(head, q) {
                        let (j, k) = choose|j: int, k: int| 0 <= j < head.len() && 0 < k <= dir_depth(head[j]) && q == head[j].subrange(0, k);
                        assert(head[j] == next[j]);
                    }
                }
            }
        }
        i += 1;
    }
    assert(ps.subrange(0, i as int) =~= ps);
    forest
}

} // verus!
