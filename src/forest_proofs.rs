//! Lemmas on the navigation forest: how the paths below a forest split over
//! its nodes, where they can lie, and how inserting one path changes them.
use vstd::prelude::*;
use vstd::seq_lib::lemma_multiset_commutative;
use crate::tree::{NavTree, name_of, path_of, node_paths, forest_paths, wf_node, wf_forest, same_dir, inserted_after_siblings, reaches, first_reach, reach_index, sorted_node, sorted_forest, complete_below, is_dir_of, dir_depth, is_doc_path, doc_paths, keeps_sibling_order};

verus! {

pub(crate) proof fn lemma_forest_concat(a: Seq<NavTree>, b: Seq<NavTree>, dirs: bool)
    ensures
        forest_paths(a + b, dirs) == forest_paths(a, dirs) + forest_paths(b, dirs),
    decreases b.len(),
{
    if b.len() == 0 {
        assert(a + b =~= a);
        assert(forest_paths(a, dirs) + forest_paths(b, dirs) =~= forest_paths(a, dirs));
    } else {
        lemma_forest_concat(a, b.drop_last(), dirs);
        assert((a + b).drop_last() =~= a + b.drop_last());
        assert((a + b).last() == b.last());
        assert(forest_paths(a, dirs) + forest_paths(b.drop_last(), dirs) + node_paths(b.last(), dirs)
            =~= forest_paths(a, dirs) + (forest_paths(b.drop_last(), dirs) + node_paths(b.last(), dirs)));
    }
}

pub(crate) proof fn lemma_forest_split(s: Seq<NavTree>, i: int, dirs: bool)
    requires
        0 <= i < s.len(),
    ensures
        forest_paths(s, dirs) == forest_paths(s.subrange(0, i), dirs) + node_paths(s[i], dirs)
            + forest_paths(s.subrange(i + 1, s.len() as int), dirs),
{
    let a = s.subrange(0, i);
    let b = s.subrange(i + 1, s.len() as int);
    assert(s =~= a.push(s[i]) + b);
    lemma_forest_concat(a.push(s[i]), b, dirs);
    assert(a.push(s[i]).drop_last() =~= a);
}

pub(crate) proof fn lemma_node_under(n: NavTree, pre: Seq<Seq<char>>, dirs: bool)
    requires
        wf_node(n, pre),
    ensures
        forall|q: Seq<Seq<char>>|
            #[trigger] node_paths(n, dirs).contains(q) ==> {
                &&& q.len() > pre.len()
                &&& q.subrange(0, pre.len() as int) == pre
                &&& q[pre.len() as int] == name_of(n)
            },
    decreases n,
{
    match n {
        NavTree::File { name, path } => {
            assert(path@.subrange(0, pre.len() as int) =~= pre);
            assert forall|q: Seq<Seq<char>>| #[trigger] node_paths(n, dirs).contains(q) implies q
                == path@ by {
                let k = choose|k: int| 0 <= k < node_paths(n, dirs).len() && node_paths(n, dirs)[k] == q;
            }
        },
        NavTree::Dir { name, path, children } => {
            let below = forest_paths(children@, dirs);
            lemma_forest_under(children@, path@, dirs);
            assert forall|q: Seq<Seq<char>>| #[trigger] node_paths(n, dirs).contains(q) implies {
                &&& q.len() > pre.len()
                &&& q.subrange(0, pre.len() as int) == pre
                &&& q[pre.len() as int] == name_of(n)
            } by {
                if below.contains(q) {
                    assert(q.subrange(0, path@.len() as int)[pre.len() as int] == q[pre.len() as int]);
                    assert(q.subrange(0, pre.len() as int) =~= q.subrange(0, path@.len() as int).subrange(0, pre.len() as int));
                } else {
                    assert(dirs);
                    let k = choose|k: int| 0 <= k < node_paths(n, dirs).len() && node_paths(n, dirs)[k] == q;
                    if k > 0 {
                        assert(below[k - 1] == q);
                    }
                    assert(q == path@);
                    assert(q.subrange(0, pre.len() as int) =~= pre);
                }
            }
        },
    }
}

pub(crate) proof fn lemma_forest_under(s: Seq<NavTree>, pre: Seq<Seq<char>>, dirs: bool)
    requires
        wf_forest(s, pre),
    ensures
        forall|q: Seq<Seq<char>>|
            #[trigger] forest_paths(s, dirs).contains(q) ==> q.len() > pre.len() && q.subrange(
                0,
                pre.len() as int,
            ) == pre,
    decreases s,
{
    if s.len() > 0 {
        let rest = s.drop_last();
        assert(wf_node(s[s.len() - 1], pre));
        assert forall|i: int| 0 <= i < rest.len() implies wf_node(#[trigger] rest[i], pre) by {
            assert(rest[i] == s[i]);
        }
        assert forall|i: int, j: int|
            0 <= i < j < rest.len() && rest[i] is Dir && rest[j] is Dir implies name_of(#[trigger] rest[i]) != name_of(
            #[trigger] rest[j],
        ) by {
            assert(rest[i] == s[i] && rest[j] == s[j]);
        }
        lemma_forest_under(rest, pre, dirs);
        lemma_node_under(s.last(), pre, dirs);
        assert forall|q: Seq<Seq<char>>| #[trigger] forest_paths(s, dirs).contains(q) implies q.len() > pre.len() && q.subrange(
                0,
                pre.len() as int,
            ) == pre by {
            let a = forest_paths(rest, dirs);
            let b = node_paths(s.last(), dirs);
            let k = choose|k: int| 0 <= k < (a + b).len() && (a + b)[k] == q;
            if k < a.len() {
                assert(a.contains(q));
            } else {
                assert(b[k - a.len()] == q);
                assert(b.contains(q));
            }
        }
    }
}

pub(crate) proof fn lemma_wf_subrange(s: Seq<NavTree>, pre: Seq<Seq<char>>, lo: int, hi: int)
    requires
        wf_forest(s, pre),
        0 <= lo <= hi <= s.len(),
    ensures
        wf_forest(s.subrange(lo, hi), pre),
{
    let t = s.subrange(lo, hi);
    assert forall|i: int| 0 <= i < t.len() implies wf_node(#[trigger] t[i], pre) by {
        assert(t[i] == s[lo + i]);
    }
    assert forall|i: int, j: int|
        0 <= i < j < t.len() && t[i] is Dir && t[j] is Dir implies name_of(#[trigger] t[i]) != name_of(
        #[trigger] t[j],
    ) by {
        assert(t[i] == s[lo + i] && t[j] == s[lo + j]);
    }
}

pub(crate) proof fn lemma_contains_concat<A>(a: Seq<A>, b: Seq<A>)
    ensures
        forall|q: A| #[trigger] (a + b).contains(q) <==> a.contains(q) || b.contains(q),
{
    assert forall|q: A| #[trigger] (a + b).contains(q) <==> a.contains(q) || b.contains(q) by {
        if (a + b).contains(q) {
            let k = choose|k: int| 0 <= k < (a + b).len() && (a + b)[k] == q;
            if k >= a.len() {
                assert(b[k - a.len()] == q);
            }
        }
        if a.contains(q) {
            let k = choose|k: int| 0 <= k < a.len() && a[k] == q;
            assert((a + b)[k] == q);
        }
        if b.contains(q) {
            let k = choose|k: int| 0 <= k < b.len() && b[k] == q;
            assert((a + b)[a.len() + k] == q);
        }
    }
}

/// Directories named `name` are absent from `s`, so no directory below `s`
/// has `name` as its component after `pre`.
pub(crate) proof fn lemma_forest_avoid(s: Seq<NavTree>, pre: Seq<Seq<char>>, name: Seq<char>)
    requires
        wf_forest(s, pre),
        forall|i: int| 0 <= i < s.len() && (#[trigger] s[i]) is Dir ==> name_of(s[i]) != name,
    ensures
        forall|q: Seq<Seq<char>>| #[trigger] forest_paths(s, true).contains(q) ==> q[pre.len() as int] != name,
    decreases s.len(),
{
    if s.len() > 0 {
        let rest = s.drop_last();
        lemma_wf_subrange(s, pre, 0, s.len() - 1);
        assert(rest =~= s.subrange(0, s.len() - 1));
        assert forall|i: int| 0 <= i < rest.len() && (#[trigger] rest[i]) is Dir implies name_of(rest[i]) != name by {
            assert(rest[i] == s[i]);
        }
        lemma_forest_avoid(rest, pre, name);
        assert(wf_node(s[s.len() - 1], pre));
        lemma_node_under(s.last(), pre, true);
        lemma_contains_concat(forest_paths(rest, true), node_paths(s.last(), true));
    }
}

/// Directories named `name` are absent from `s`, so every document below `s`
/// with `name` as its component after `pre` sits directly in `pre`.
pub(crate) proof fn lemma_forest_files_avoid(s: Seq<NavTree>, pre: Seq<Seq<char>>, name: Seq<char>)
    requires
        wf_forest(s, pre),
        forall|i: int| 0 <= i < s.len() && (#[trigger] s[i]) is Dir ==> name_of(s[i]) != name,
    ensures
        forall|q: Seq<Seq<char>>|
            #[trigger] forest_paths(s, false).contains(q) ==> q.len() > pre.len() && (q[pre.len() as int]
                != name || q.len() == pre.len() + 1),
    decreases s.len(),
{
    if s.len() > 0 {
        let rest = s.drop_last();
        let n = s.last();
        lemma_wf_subrange(s, pre, 0, s.len() - 1);
        assert(rest =~= s.subrange(0, s.len() - 1));
        assert forall|i: int| 0 <= i < rest.len() && (#[trigger] rest[i]) is Dir implies name_of(rest[i]) != name by {
            assert(rest[i] == s[i]);
        }
        lemma_forest_files_avoid(rest, pre, name);
        assert(wf_node(s[s.len() - 1], pre));
        lemma_node_under(n, pre, false);
        lemma_contains_concat(forest_paths(rest, false), node_paths(n, false));
        if n is File {
            assert forall|q: Seq<Seq<char>>| #[trigger] node_paths(n, false).contains(q) implies q.len()
                == pre.len() + 1 by {
                let k = choose|k: int| 0 <= k < node_paths(n, false).len() && node_paths(n, false)[k] == q;
            }
        }
    }
}

pub(crate) proof fn lemma_no_dup_parts<A>(a: Seq<A>, x: Seq<A>, b: Seq<A>)
    requires
        (a + x + b).no_duplicates(),
    ensures
        a.no_duplicates(),
        b.no_duplicates(),
        x.no_duplicates(),
        forall|q: A| a.contains(q) ==> !b.contains(q),
{
    let s = a + x + b;
    assert forall|i: int, j: int| 0 <= i < a.len() && 0 <= j < a.len() && i != j implies a[i] != a[j] by {
        assert(s[i] == a[i] && s[j] == a[j]);
    }
    assert forall|i: int, j: int| 0 <= i < x.len() && 0 <= j < x.len() && i != j implies x[i] != x[j] by {
        assert(s[a.len() + i] == x[i] && s[a.len() + j] == x[j]);
    }
    assert forall|i: int, j: int| 0 <= i < b.len() && 0 <= j < b.len() && i != j implies b[i] != b[j] by {
        assert(s[a.len() + x.len() + i] == b[i] && s[a.len() + x.len() + j] == b[j]);
    }
    assert forall|q: A| a.contains(q) implies !b.contains(q) by {
        let i = choose|i: int| 0 <= i < a.len() && a[i] == q;
        if b.contains(q) {
            let j = choose|j: int| 0 <= j < b.len() && b[j] == q;
            assert(s[i] == q && s[a.len() + x.len() + j] == q);
        }
    }
}

pub(crate) proof fn lemma_no_dup_join<A>(a: Seq<A>, x: Seq<A>, b: Seq<A>)
    requires
        a.no_duplicates(),
        b.no_duplicates(),
        x.no_duplicates(),
        forall|q: A| a.contains(q) ==> !b.contains(q),
        forall|q: A| x.contains(q) ==> !a.contains(q) && !b.contains(q),
    ensures
        (a + x + b).no_duplicates(),
{
    let s = a + x + b;
    assert forall|i: int, j: int| 0 <= i < s.len() && 0 <= j < s.len() && i != j implies s[i] != s[j] by {
        let la = a.len() as int;
        let lx = x.len() as int;
        if i < la && j < la {
        } else if la <= i < la + lx && la <= j < la + lx {
        } else if i >= la + lx && j >= la + lx {
        } else if i < la && j >= la + lx {
            assert(a.contains(s[i]) && b.contains(s[j]));
        } else if j < la && i >= la + lx {
            assert(a.contains(s[j]) && b.contains(s[i]));
        } else if la <= i < la + lx {
            assert(x.contains(s[i]));
            if j < la {
                assert(a.contains(s[j]));
            } else {
                assert(b.contains(s[j]));
            }
        } else {
            assert(x.contains(s[j]));
            if i < la {
                assert(a.contains(s[i]));
            } else {
                assert(b.contains(s[i]));
            }
        }
    }
}

/// What replacing the directory at `idx` by `x2` (same name, same path) does
/// to the siblings' well-formedness and to the paths below them.
pub(crate) proof fn lemma_update_child(s: Seq<NavTree>, idx: int, x2: NavTree, pre: Seq<Seq<char>>)
    requires
        wf_forest(s, pre),
        0 <= idx < s.len(),
        s[idx] is Dir,
        x2 is Dir,
        name_of(x2) == name_of(s[idx]),
        wf_node(x2, pre),
        forest_paths(s, true).no_duplicates(),
        node_paths(x2, true).no_duplicates(),
    ensures
        wf_forest(s.update(idx, x2), pre),
        forest_paths(s.update(idx, x2), true).no_duplicates(),
        forall|q: Seq<Seq<char>>|
            #[trigger] forest_paths(s.update(idx, x2), true).contains(q) <==> forest_paths(
                s.subrange(0, idx),
                true,
            ).contains(q) || forest_paths(s.subrange(idx + 1, s.len() as int), true).contains(q)
                || node_paths(x2, true).contains(q),
        forall|q: Seq<Seq<char>>|
            #[trigger] forest_paths(s, true).contains(q) <==> forest_paths(
                s.subrange(0, idx),
                true,
            ).contains(q) || forest_paths(s.subrange(idx + 1, s.len() as int), true).contains(q)
                || node_paths(s[idx], true).contains(q),
        forest_paths(s.update(idx, x2), false).to_multiset() == forest_paths(
            s.subrange(0, idx),
            false,
        ).to_multiset().add(node_paths(x2, false).to_multiset()).add(
            forest_paths(s.subrange(idx + 1, s.len() as int), false).to_multiset(),
        ),
        forest_paths(s, false).to_multiset() == forest_paths(
            s.subrange(0, idx),
            false,
        ).to_multiset().add(node_paths(s[idx], false).to_multiset()).add(
            forest_paths(s.subrange(idx + 1, s.len() as int), false).to_multiset(),
        ),
{
    let t = s.update(idx, x2);
    let nm = name_of(x2);
    assert forall|i: int| 0 <= i < t.len() implies wf_node(#[trigger] t[i], pre) by {
        if i != idx {
            assert(t[i] == s[i]);
        }
    }
    assert forall|i: int, j: int|
        0 <= i < j < t.len() && t[i] is Dir && t[j] is Dir implies name_of(#[trigger] t[i]) != name_of(
        #[trigger] t[j],
    ) by {
        assert(name_of(t[i]) == name_of(s[i]) && name_of(t[j]) == name_of(s[j]));
    }
    let a = s.subrange(0, idx);
    let b = s.subrange(idx + 1, s.len() as int);
    assert(t.subrange(0, idx) =~= a);
    assert(t.subrange(idx + 1, t.len() as int) =~= b);
    lemma_forest_split(s, idx, true);
    lemma_forest_split(t, idx, true);
    lemma_forest_split(s, idx, false);
    lemma_forest_split(t, idx, false);
    let fa = forest_paths(a, true);
    let fb = forest_paths(b, true);
    lemma_no_dup_parts(fa, node_paths(s[idx], true), fb);
    lemma_wf_subrange(s, pre, 0, idx);
    lemma_wf_subrange(s, pre, idx + 1, s.len() as int);
    assert forall|i: int| 0 <= i < a.len() && (#[trigger] a[i]) is Dir implies name_of(a[i]) != nm by {
        assert(a[i] == s[i]);
    }
    assert forall|i: int| 0 <= i < b.len() && (#[trigger] b[i]) is Dir implies name_of(b[i]) != nm by {
        assert(b[i] == s[idx + 1 + i]);
    }
    lemma_forest_avoid(a, pre, nm);
    lemma_forest_avoid(b, pre, nm);
    lemma_node_under(x2, pre, true);
    lemma_no_dup_join(fa, node_paths(x2, true), fb);
    lemma_contains_concat(fa, node_paths(x2, true));
    lemma_contains_concat(fa + node_paths(x2, true), fb);
    lemma_contains_concat(fa, node_paths(s[idx], true));
    lemma_contains_concat(fa + node_paths(s[idx], true), fb);
    let ga = forest_paths(a, false);
    let gb = forest_paths(b, false);
    lemma_multiset_commutative(ga, node_paths(x2, false));
    lemma_multiset_commutative(ga + node_paths(x2, false), gb);
    lemma_multiset_commutative(ga, node_paths(s[idx], false));
    lemma_multiset_commutative(ga + node_paths(s[idx], false), gb);
}

/// Where one child's documents gain `p` after its siblings in `p`'s
/// directory, the documents of the whole forest do too.
pub(crate) proof fn lemma_files_order_step(
    s: Seq<NavTree>,
    x2: NavTree,
    idx: int,
    pre: Seq<Seq<char>>,
    p: Seq<Seq<char>>,
    kx: int,
)
    requires
        wf_forest(s, pre),
        0 <= idx < s.len(),
        s[idx] is Dir,
        pre.len() + 1 < p.len(),
        name_of(s[idx]) == p[pre.len() as int],
        inserted_after_siblings(node_paths(s[idx], false), node_paths(x2, false), p, kx),
    ensures
        exists|k: int|
            inserted_after_siblings(
                forest_paths(s, false),
                forest_paths(s.update(idx, x2), false),
                p,
                k,
            ),
{
    let t = s.update(idx, x2);
    let nm = name_of(s[idx]);
    let fa = forest_paths(s.subrange(0, idx), false);
    let fb = forest_paths(s.subrange(idx + 1, s.len() as int), false);
    let fx = node_paths(s[idx], false);
    let k = fa.len() + kx;
    let old_files = forest_paths(s, false);
    lemma_forest_split(s, idx, false);
    lemma_forest_split(t, idx, false);
    assert(t.subrange(0, idx) =~= s.subrange(0, idx));
    assert(t.subrange(idx + 1, t.len() as int) =~= s.subrange(idx + 1, s.len() as int));
    assert(forest_paths(t, false) =~= old_files.insert(k, p));
    lemma_wf_subrange(s, pre, idx + 1, s.len() as int);
    let b = s.subrange(idx + 1, s.len() as int);
    assert forall|i: int| 0 <= i < b.len() && (#[trigger] b[i]) is Dir implies name_of(b[i]) != nm by {
        assert(b[i] == s[idx + 1 + i]);
    }
    lemma_forest_files_avoid(b, pre, nm);
    assert forall|a: int| 0 <= a < old_files.len() && same_dir(#[trigger] old_files[a], p) implies a < k by {
        let q = old_files[a];
        assert(old_files == fa + fx + fb);
        if a >= fa.len() + fx.len() {
            assert(fb[a - fa.len() - fx.len()] == q);
            assert(fb.contains(q));
            assert(same_dir(q, p));
            assert(q.drop_last().len() == p.drop_last().len());
            assert(q.len() == p.len());
            assert(q.drop_last()[pre.len() as int] == q[pre.len() as int]);
            assert(p.drop_last()[pre.len() as int] == p[pre.len() as int]);
            assert(false);
        } else if a >= fa.len() {
            assert(fx[a - fa.len()] == q);
            assert(same_dir(fx[a - fa.len()], p));
            assert(a - fa.len() < kx);
        }
    }
    assert(inserted_after_siblings(old_files, forest_paths(t, false), p, k));
}

pub(crate) proof fn lemma_first_reach(ps: Seq<Seq<Seq<char>>>, q: Seq<Seq<char>>, dir: bool)
    ensures
        0 <= first_reach(ps, q, dir) <= ps.len(),
        first_reach(ps, q, dir) < ps.len() ==> reaches(ps[first_reach(ps, q, dir)], q, dir),
        forall|k: int| 0 <= k < first_reach(ps, q, dir) ==> !reaches(#[trigger] ps[k], q, dir),
    decreases ps.len(),
{
    if ps.len() > 0 {
        let rest = ps.drop_last();
        lemma_first_reach(rest, q, dir);
        assert forall|k: int| 0 <= k < rest.len() implies rest[k] == ps[k] by {}
    }
}

pub(crate) proof fn lemma_not_reached(ps: Seq<Seq<Seq<char>>>, q: Seq<Seq<char>>, dir: bool)
    requires
        forall|k: int| 0 <= k < ps.len() ==> !reaches(#[trigger] ps[k], q, dir),
    ensures
        first_reach(ps, q, dir) == ps.len(),
{
    lemma_first_reach(ps, q, dir);
}

pub(crate) proof fn lemma_first_reach_push(ps: Seq<Seq<Seq<char>>>, p: Seq<Seq<char>>, q: Seq<Seq<char>>, dir: bool)
    ensures
        first_reach(ps, q, dir) < ps.len() ==> first_reach(ps.push(p), q, dir) == first_reach(ps, q, dir),
        first_reach(ps, q, dir) == ps.len() && reaches(p, q, dir) ==> first_reach(ps.push(p), q, dir)
            == ps.len(),
{
    lemma_first_reach(ps, q, dir);
    assert(ps.push(p).drop_last() =~= ps);
}

pub(crate) proof fn lemma_sorted_node_lift(n: NavTree, ps: Seq<Seq<Seq<char>>>, p: Seq<Seq<char>>)
    requires
        sorted_node(n, ps),
    ensures
        sorted_node(n, ps.push(p)),
        reach_index(ps.push(p), n) == reach_index(ps, n),
    decreases n,
{
    lemma_first_reach_push(ps, p, path_of(n), n is Dir);
    match n {
        NavTree::File { .. } => {},
        NavTree::Dir { children, .. } => {
            lemma_sorted_forest_lift(children@, ps, p);
        },
    }
}

pub(crate) proof fn lemma_sorted_forest_lift(s: Seq<NavTree>, ps: Seq<Seq<Seq<char>>>, p: Seq<Seq<char>>)
    requires
        sorted_forest(s, ps),
    ensures
        sorted_forest(s, ps.push(p)),
        forall|i: int| 0 <= i < s.len() ==> reach_index(ps.push(p), #[trigger] s[i]) == reach_index(ps, s[i]),
    decreases s,
{
    assert forall|i: int| 0 <= i < s.len() implies sorted_node(#[trigger] s[i], ps.push(p)) && reach_index(ps.push(p), s[i]) == reach_index(ps, s[i]) by {
        lemma_sorted_node_lift(s[i], ps, p);
    }
}

/// Appending a node that only the newest path reaches keeps siblings sorted.
pub(crate) proof fn lemma_sorted_append(s: Seq<NavTree>, x: NavTree, ps: Seq<Seq<Seq<char>>>, p: Seq<Seq<char>>)
    requires
        sorted_forest(s, ps),
        reach_index(ps.push(p), x) == ps.len(),
        x is Dir ==> sorted_forest(x->Dir_children@, ps.push(p)),
    ensures
        sorted_forest(s.push(x), ps.push(p)),
{
    lemma_sorted_forest_lift(s, ps, p);
    let t = s.push(x);
    assert forall|i: int| 0 <= i < t.len() implies sorted_node(#[trigger] t[i], ps.push(p)) by {
        if i < s.len() {
            assert(t[i] == s[i]);
        }
    }
    assert forall|a: int, b: int| 0 <= a < b < t.len() implies reach_index(ps.push(p), #[trigger] t[a]) < reach_index(ps.push(p), #[trigger] t[b]) by {
        assert(t[a] == s[a]);
        if b < s.len() {
            assert(t[b] == s[b]);
        }
    }
}

/// Replacing a directory by one with the same path and sorted children keeps
/// siblings sorted.
pub(crate) proof fn lemma_sorted_replace(s: Seq<NavTree>, idx: int, x2: NavTree, ps: Seq<Seq<Seq<char>>>, p: Seq<Seq<char>>)
    requires
        sorted_forest(s, ps),
        0 <= idx < s.len(),
        s[idx] is Dir,
        x2 is Dir,
        path_of(x2) == path_of(s[idx]),
        sorted_forest(x2->Dir_children@, ps.push(p)),
    ensures
        sorted_forest(s.update(idx, x2), ps.push(p)),
{
    lemma_sorted_forest_lift(s, ps, p);
    let t = s.update(idx, x2);
    assert(sorted_node(s[idx], ps));
    assert(reach_index(ps.push(p), x2) == reach_index(ps.push(p), s[idx]));
    assert forall|i: int| 0 <= i < t.len() implies sorted_node(#[trigger] t[i], ps.push(p)) by {
        if i != idx {
            assert(t[i] == s[i]);
        }
    }
    assert forall|a: int, b: int| 0 <= a < b < t.len() implies reach_index(ps.push(p), #[trigger] t[a]) < reach_index(ps.push(p), #[trigger] t[b]) by {
        assert(reach_index(ps.push(p), t[a]) == reach_index(ps.push(p), s[a]));
        assert(reach_index(ps.push(p), t[b]) == reach_index(ps.push(p), s[b]));
    }
}

pub(crate) proof fn lemma_is_dir_of_reaches(ps: Seq<Seq<Seq<char>>>, q: Seq<Seq<char>>)
    ensures
        is_dir_of(ps, q) <==> exists|i: int| 0 <= i < ps.len() && reaches(#[trigger] ps[i], q, true),
{
    if is_dir_of(ps, q) {
        let (i, k) = choose|i: int, k: int| 0 <= i < ps.len() && 0 < k <= dir_depth(ps[i]) && q == ps[i].subrange(0, k);
        assert(reaches(ps[i], q, true));
    }
    if exists|i: int| 0 <= i < ps.len() && reaches(#[trigger] ps[i], q, true) {
        let i = choose|i: int| 0 <= i < ps.len() && reaches(#[trigger] ps[i], q, true);
        assert(is_dir_of(ps, q)) by {
            assert(0 <= i < ps.len() && 0 < q.len() <= dir_depth(ps[i]) && q == ps[i].subrange(0, q.len() as int));
        }
    }
}

/// Below a directory that no path passes through, no path passes through
/// anything.
pub(crate) proof fn lemma_complete_fresh(ps: Seq<Seq<Seq<char>>>, dpath: Seq<Seq<char>>)
    requires
        !is_dir_of(ps, dpath),
        dpath.len() > 0,
    ensures
        complete_below(Seq::empty(), dpath, ps),
{
    assert forall|q: Seq<Seq<char>>|
        #[trigger] is_dir_of(ps, q) && q.len() > dpath.len() && q.subrange(0, dpath.len() as int) == dpath
            implies forest_paths(Seq::<NavTree>::empty(), true).contains(q) by {
        let (i, k) = choose|i: int, k: int| 0 <= i < ps.len() && 0 < k <= dir_depth(ps[i]) && q == ps[i].subrange(0, k);
        assert(ps[i].subrange(0, dpath.len() as int) =~= dpath);
        assert(is_dir_of(ps, dpath));
    }
}

/// What is complete below a forest is complete below each of its directories.
pub(crate) proof fn lemma_complete_child(s: Seq<NavTree>, idx: int, pre: Seq<Seq<char>>, ps: Seq<Seq<Seq<char>>>)
    requires
        wf_forest(s, pre),
        0 <= idx < s.len(),
        s[idx] is Dir,
        complete_below(s, pre, ps),
    ensures
        complete_below(s[idx]->Dir_children@, path_of(s[idx]), ps),
{
    let x = s[idx];
    let xpath = path_of(x);
    let nm = name_of(x);
    let sub = x->Dir_children@;
    assert(wf_node(x, pre));
    let a = s.subrange(0, idx);
    let b = s.subrange(idx + 1, s.len() as int);
    lemma_forest_split(s, idx, true);
    lemma_wf_subrange(s, pre, 0, idx);
    lemma_wf_subrange(s, pre, idx + 1, s.len() as int);
    assert forall|i: int| 0 <= i < a.len() && (#[trigger] a[i]) is Dir implies name_of(a[i]) != nm by {
        assert(a[i] == s[i]);
    }
    assert forall|i: int| 0 <= i < b.len() && (#[trigger] b[i]) is Dir implies name_of(b[i]) != nm by {
        assert(b[i] == s[idx + 1 + i]);
    }
    lemma_forest_avoid(a, pre, nm);
    lemma_forest_avoid(b, pre, nm);
    let fa = forest_paths(a, true);
    let fb = forest_paths(b, true);
    lemma_contains_concat(fa, node_paths(x, true));
    lemma_contains_concat(fa + node_paths(x, true), fb);
    lemma_contains_concat(seq![xpath], forest_paths(sub, true));
    assert(node_paths(x, true) =~= seq![xpath] + forest_paths(sub, true));
    assert forall|q: Seq<Seq<char>>|
        #[trigger] is_dir_of(ps, q) && q.len() > xpath.len() && q.subrange(0, xpath.len() as int) == xpath
            implies forest_paths(sub, true).contains(q) by {
        assert(q.subrange(0, pre.len() as int) =~= q.subrange(0, xpath.len() as int).subrange(0, pre.len() as int));
        assert(q.subrange(0, xpath.len() as int)[pre.len() as int] == q[pre.len() as int]);
        assert(xpath == pre.push(nm));
        assert(xpath.subrange(0, pre.len() as int) =~= pre);
        assert(q.subrange(0, pre.len() as int) == pre);
        assert(forest_paths(s, true).contains(q));
        if seq![xpath].contains(q) {
            let k = choose|k: int| 0 <= k < 1 && seq![xpath][k] == q;
        }
    }
}

pub(crate) proof fn lemma_doc_paths_contains(ps: Seq<Seq<Seq<char>>>, i: int)
    requires
        0 <= i < ps.len(),
        is_doc_path(ps[i]),
    ensures
        doc_paths(ps).contains(ps[i]),
    decreases ps.len(),
{
    if i == ps.len() - 1 {
        assert(doc_paths(ps).last() == ps[i]);
    } else {
        assert(ps.drop_last()[i] == ps[i]);
        lemma_doc_paths_contains(ps.drop_last(), i);
        let d = doc_paths(ps.drop_last());
        let k = choose|k: int| 0 <= k < d.len() && d[k] == ps[i];
        if is_doc_path(ps.last()) {
            assert(d.push(ps.last())[k] == ps[i]);
        }
    }
}

/// Inserting one more path keeps the order of documents within each
/// directory.
pub(crate) proof fn lemma_sibling_order_step(
    files: Seq<Seq<Seq<char>>>,
    files2: Seq<Seq<Seq<char>>>,
    head: Seq<Seq<Seq<char>>>,
    p: Seq<Seq<char>>,
)
    requires
        keeps_sibling_order(files, head),
        files.to_multiset() == doc_paths(head).to_multiset(),
        is_doc_path(p) ==> exists|k: int| inserted_after_siblings(files, files2, p, k),
        !is_doc_path(p) ==> files2 == files,
    ensures
        keeps_sibling_order(files2, head.push(p)),
{
    let next = head.push(p);
    if is_doc_path(p) {
        let k = choose|k: int| inserted_after_siblings(files, files2, p, k);
        assert forall|i: int, j: int|
            0 <= i < j < next.len() && is_doc_path(next[i]) && is_doc_path(next[j]) && #[trigger] same_dir(
                next[i],
                next[j],
            ) implies exists|a: int, b: int|
            0 <= a < b < files2.len() && #[trigger] files2[a] == next[i] && #[trigger] files2[b] == next[j] by {
            assert(next[i] == head[i]);
            if j < head.len() {
                assert(next[j] == head[j]);
                let (a, b) = choose|a: int, b: int|
                    0 <= a < b < files.len() && #[trigger] files[a] == head[i] && #[trigger] files[b] == head[j];
                let a2 = if a < k { a } else { a + 1 };
                let b2 = if b < k { b } else { b + 1 };
                assert(files2[a2] == next[i] && files2[b2] == next[j]);
            } else {
                lemma_doc_paths_contains(head, i);
                vstd::seq_lib::to_multiset_contains(doc_paths(head), head[i]);
                vstd::seq_lib::to_multiset_contains(files, head[i]);
                let a = choose|a: int| 0 <= a < files.len() && files[a] == head[i];
                assert(same_dir(files[a], p));
                assert(files2[a] == next[i] && files2[k] == next[j]);
            }
        }
    } else {
        assert forall|i: int, j: int|
            0 <= i < j < next.len() && is_doc_path(next[i]) && is_doc_path(next[j]) && #[trigger] same_dir(
                next[i],
                next[j],
            ) implies exists|a: int, b: int|
            0 <= a < b < files2.len() && #[trigger] files2[a] == next[i] && #[trigger] files2[b] == next[j] by {
            assert(next[i] == head[i]);
            assert(next[j] == head[j]);
        }
    }
}

} // verus!
