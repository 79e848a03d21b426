//! Whole-graph classification of the commits worth displaying.
//!
//! This is the earlier form of the same idea as [`crate::engine`], and it
//! also discovers the merge bases itself: given every commit of the window
//! with its parents and an interesting-flag, a commit is a merge base when
//! every interesting commit reaches it and no child of it has that
//! property; a commit is visible when an interesting commit or a merge base
//! lies in its ancestry.  `includes` are the interesting commits no other
//! interesting commit reaches; `excludes` the invisible commits with a
//! visible child.
//!
//! Commits are given as plain records indexed so that parents precede
//! children; a caller that explores a graph lazily through [`Commit`]
//! flattens it into this form first.

use vstd::prelude::*;

verus! {

/// A commit as a caller sees it: an opaque id, parents, and a timestamp.
pub trait Commit: Sized {
    /// The commit's identity.
    type Id: Copy;

    /// The commit's timestamp, ordering exploration.
    type Timestamp: Copy;

    /// This commit's identity.
    fn id(&self) -> Self::Id;

    /// This commit's parents.
    fn parents(self) -> Vec<Self>;

    /// This commit's timestamp.
    fn timestamp(&self) -> Self::Timestamp;
}

/// One commit of the materialized window: its id, the indices of its
/// parents among the commits listed before it, and whether it is one of the
/// interesting commits.
pub struct CommitNode<Id> {
    pub id: Id,
    pub parents: Vec<usize>,
    pub interesting: bool,
}

/// A list of inclusions and exclusions to be passed to a history printer.
pub struct GitLogArgs<Id> {
    pub includes: Vec<Id>,
    pub excludes: Vec<Id>,
}

/// The parent index lists of the commits.
pub open spec fn graph_of<Id>(cs: Seq<CommitNode<Id>>) -> Seq<Seq<usize>> {
    cs.map_values(|c: CommitNode<Id>| c.parents@)
}

/// The interesting-flags of the commits.
pub open spec fn intr_of<Id>(cs: Seq<CommitNode<Id>>) -> Seq<bool> {
    cs.map_values(|c: CommitNode<Id>| c.interesting)
}

/// Parents precede children: every parent index is smaller than its
/// child's.
pub open spec fn wf_graph(g: Seq<Seq<usize>>) -> bool {
    forall|i: int, t: int| 0 <= i < g.len() && 0 <= t < g[i].len() ==> (#[trigger] g[i][t]) < i
}

/// Whether commit `j` lies in the ancestry of commit `i`, itself included:
/// reachability along parent edges.
pub open spec fn reach(g: Seq<Seq<usize>>, i: int, j: int) -> bool
    decreases i,
{
    i == j || exists|t: int|
        0 <= t < g[i].len() && (#[trigger] g[i][t]) < i && reach(g, g[i][t] as int, j)
}

/// Whether commit `p` is a parent of commit `c`.
pub open spec fn has_parent(g: Seq<Seq<usize>>, c: int, p: int) -> bool {
    exists|t: int| 0 <= t < g[c].len() && (#[trigger] g[c][t]) == p
}

/// Whether every interesting commit reaches commit `i`.
pub open spec fn all_reach(g: Seq<Seq<usize>>, intr: Seq<bool>, i: int) -> bool {
    forall|t: int| 0 <= t < intr.len() && intr[t] ==> reach(g, t, i)
}

/// Whether commit `m` is a merge base: every interesting commit reaches it,
/// and no child of it has that property — it is a deepest common point.
pub open spec fn merge_base(g: Seq<Seq<usize>>, intr: Seq<bool>, m: int) -> bool {
    all_reach(g, intr, m) && !(exists|c: int|
        0 <= c < g.len() && #[trigger] has_parent(g, c, m) && all_reach(g, intr, c))
}

/// Whether commit `i` is visible: an interesting commit or a merge base
/// lies in its ancestry.
pub open spec fn visible(g: Seq<Seq<usize>>, intr: Seq<bool>, i: int) -> bool {
    exists|a: int|
        0 <= a < g.len() && #[trigger] reach(g, i, a) && (intr[a] || merge_base(g, intr, a))
}

/// Whether commit `i` goes to `includes`: interesting, and reached by no
/// other interesting commit.
pub open spec fn included(g: Seq<Seq<usize>>, intr: Seq<bool>, i: int) -> bool {
    intr[i] && forall|t: int|
        0 <= t < intr.len() && t != i && intr[t] ==> !(#[trigger] reach(g, t, i))
}

/// Whether commit `i` goes to `excludes`: invisible, with a visible child.
pub open spec fn excluded(g: Seq<Seq<usize>>, intr: Seq<bool>, i: int) -> bool {
    !visible(g, intr, i) && exists|c: int|
        0 <= c < g.len() && #[trigger] has_parent(g, c, i) && visible(g, intr, c)
}

/// The ids of the included commits among the first `k`, in order.
pub open spec fn includes_list<Id>(cs: Seq<CommitNode<Id>>, k: int) -> Seq<Id>
    decreases k,
{
    if k <= 0 {
        Seq::empty()
    } else {
        let rest = includes_list(cs, k - 1);
        if included(graph_of(cs), intr_of(cs), k - 1) {
            rest.push(cs[k - 1].id)
        } else {
            rest
        }
    }
}

/// The ids of the excluded commits among the first `k`, in order.
pub open spec fn excludes_list<Id>(cs: Seq<CommitNode<Id>>, k: int) -> Seq<Id>
    decreases k,
{
    if k <= 0 {
        Seq::empty()
    } else {
        let rest = excludes_list(cs, k - 1);
        if excluded(graph_of(cs), intr_of(cs), k - 1) {
            rest.push(cs[k - 1].id)
        } else {
            rest
        }
    }
}

/// One more parent extends the reachability test by that parent alone.
proof fn lemma_step_reach(g: Seq<Seq<usize>>, i: int, j: int, t: int)
    requires
        0 <= t,
    ensures
        (exists|u: int|
            0 <= u < t + 1 && (#[trigger] g[i][u]) < i && reach(g, g[i][u] as int, j)) == ((exists|
            u: int,
        |
            0 <= u < t && (#[trigger] g[i][u]) < i && reach(g, g[i][u] as int, j)) || (g[i][t] < i
            && reach(g, g[i][t] as int, j))),
{
    if exists|u: int| 0 <= u < t + 1 && (#[trigger] g[i][u]) < i && reach(g, g[i][u] as int, j) {
        let u = choose|u: int|
            0 <= u < t + 1 && (#[trigger] g[i][u]) < i && reach(g, g[i][u] as int, j);
        if u < t {
            assert(0 <= u < t && (#[trigger] g[i][u]) < i && reach(g, g[i][u] as int, j));
        }
    }
}

/// One more commit extends the parenthood test by that commit alone.
proof fn lemma_step_has_parent(g: Seq<Seq<usize>>, c: int, p: int, t: int)
    requires
        0 <= t,
    ensures
        (exists|u: int| 0 <= u < t + 1 && (#[trigger] g[c][u]) == p) == ((exists|u: int|
            0 <= u < t && (#[trigger] g[c][u]) == p) || g[c][t] == p),
{
    if exists|u: int| 0 <= u < t + 1 && (#[trigger] g[c][u]) == p {
        let u = choose|u: int| 0 <= u < t + 1 && (#[trigger] g[c][u]) == p;
        if u < t {
            assert(0 <= u < t && (#[trigger] g[c][u]) == p);
        }
    }
}

/// Computes the include and exclude lists of a materialized commit window.
/// The window lists parents before children; `includes` gets the ids of the
/// interesting commits no other interesting commit reaches, `excludes` the
/// ids of the invisible commits that have a visible child.
pub fn gitloggraph<Id: Copy>(commits: Vec<CommitNode<Id>>) -> (r: GitLogArgs<Id>)
    requires
        wf_graph(graph_of(commits@)),
    ensures
        r.includes@ == includes_list(commits@, commits@.len() as int),
        r.excludes@ == excludes_list(commits@, commits@.len() as int),
{
    let ghost cs = commits@;
    let ghost g = graph_of(cs);
    let ghost intr = intr_of(cs);
    proof {
        assert(g.len() == cs.len() && intr.len() == cs.len());
        assert(forall|i: int|
            0 <= i < cs.len() ==> (#[trigger] g[i]) == cs[i].parents@ && intr[i]
                == cs[i].interesting);
    }
    let n = commits.len();
    // Ancestry matrix: rmat[i][j] says whether j is an ancestor of i.
    let mut rmat: Vec<Vec<bool>> = Vec::new();
    let mut i: usize = 0;
    while i < n
        invariant
            n == cs.len(),
            g == graph_of(cs),
            intr == intr_of(cs),
            wf_graph(g),
            commits@ == cs,
            i <= n,
            rmat@.len() == i,
            forall|a: int| 0 <= a < i ==> (#[trigger] rmat@[a])@.len() == n,
            forall|a: int, j: int|
                0 <= a < i && 0 <= j < n ==> (#[trigger] rmat@[a]@[j]) == reach(g, a, j),
        decreases n - i,
    {
        let mut row: Vec<bool> = Vec::new();
        let mut j: usize = 0;
        while j < n
            invariant
                n == cs.len(),
                g == graph_of(cs),
                wf_graph(g),
                commits@ == cs,
                i < n,
                j <= n,
                rmat@.len() == i,
                forall|a: int| 0 <= a < i ==> (#[trigger] rmat@[a])@.len() == n,
                forall|a: int, j2: int|
                    0 <= a < i && 0 <= j2 < n ==> (#[trigger] rmat@[a]@[j2]) == reach(g, a, j2),
                row@.len() == j,
                forall|j2: int| 0 <= j2 < j ==> (#[trigger] row@[j2]) == reach(g, i as int, j2),
            decreases n - j,
        {
            let mut acc = i == j;
            let np = commits[i].parents.len();
            proof {
                assert(g[i as int] == cs[i as int].parents@);
            }
            let mut t: usize = 0;
            while t < np
                invariant
                    n == cs.len(),
                    g == graph_of(cs),
                    wf_graph(g),
                    commits@ == cs,
                    i < n,
                    j < n,
                    t <= np,
                    np == g[i as int].len(),
                    rmat@.len() == i,
                    forall|a: int| 0 <= a < i ==> (#[trigger] rmat@[a])@.len() == n,
                    forall|a: int, j2: int|
                        0 <= a < i && 0 <= j2 < n ==> (#[trigger] rmat@[a]@[j2]) == reach(
                            g,
                            a,
                            j2,
                        ),
                    acc == (i == j || exists|u: int|
                        0 <= u < t && (#[trigger] g[i as int][u]) < i && reach(
                            g,
                            g[i as int][u] as int,
                            j as int,
                        )),
                decreases np - t,
            {
                let p = commits[i].parents[t];
                proof {
                    assert(g[i as int][t as int] == p);
                    assert(p < i);
                    lemma_step_reach(g, i as int, j as int, t as int);
                }
                if rmat[p][j] {
                    acc = true;
                }
                t = t + 1;
            }
            proof {
                assert(acc == reach(g, i as int, j as int)) by {
                    assert(g[i as int].len() == np);
                }
            }
            row.push(acc);
            j = j + 1;
        }
        rmat.push(row);
        i = i + 1;
    }
    // all_reach flags.
    let mut ar: Vec<bool> = Vec::new();
    let mut i: usize = 0;
    while i < n
        invariant
            n == cs.len(),
            g == graph_of(cs),
            intr == intr_of(cs),
            commits@ == cs,
            i <= n,
            rmat@.len() == n,
            forall|a: int| 0 <= a < n ==> (#[trigger] rmat@[a])@.len() == n,
            forall|a: int, j2: int|
                0 <= a < n && 0 <= j2 < n ==> (#[trigger] rmat@[a]@[j2]) == reach(g, a, j2),
            ar@.len() == i,
            forall|a: int| 0 <= a < i ==> (#[trigger] ar@[a]) == all_reach(g, intr, a),
        decreases n - i,
    {
        let mut ok = true;
        let mut t: usize = 0;
        while t < n
            invariant
                n == cs.len(),
                g == graph_of(cs),
                intr == intr_of(cs),
                commits@ == cs,
                i < n,
                t <= n,
                rmat@.len() == n,
                forall|a: int| 0 <= a < n ==> (#[trigger] rmat@[a])@.len() == n,
                forall|a: int, j2: int|
                    0 <= a < n && 0 <= j2 < n ==> (#[trigger] rmat@[a]@[j2]) == reach(g, a, j2),
                ok == (forall|u: int| 0 <= u < t && intr[u] ==> reach(g, u, i as int)),
            decreases n - t,
        {
            proof {
                assert(intr[t as int] == cs[t as int].interesting);
            }
            if commits[t].interesting && !rmat[t][i] {
                ok = false;
            }
            t = t + 1;
        }
        proof {
            assert(ok == all_reach(g, intr, i as int)) by {
                assert(intr.len() == n);
            }
        }
        ar.push(ok);
        i = i + 1;
    }
    // Merge-base flags.
    let mut mb: Vec<bool> = Vec::new();
    let mut i: usize = 0;
    while i < n
        invariant
            n == cs.len(),
            g == graph_of(cs),
            intr == intr_of(cs),
            commits@ == cs,
            i <= n,
            ar@.len() == n,
            forall|a: int| 0 <= a < n ==> (#[trigger] ar@[a]) == all_reach(g, intr, a),
            mb@.len() == i,
            forall|a: int| 0 <= a < i ==> (#[trigger] mb@[a]) == merge_base(g, intr, a),
        decreases n - i,
    {
        let mut child_ar = false;
        let mut c: usize = 0;
        while c < n
            invariant
                n == cs.len(),
                g == graph_of(cs),
                intr == intr_of(cs),
                commits@ == cs,
                i < n,
                c <= n,
                ar@.len() == n,
                forall|a: int| 0 <= a < n ==> (#[trigger] ar@[a]) == all_reach(g, intr, a),
                child_ar == (exists|u: int|
                    0 <= u < c && #[trigger] has_parent(g, u, i as int) && all_reach(g, intr, u)),
            decreases n - c,
        {
            let mut hp = false;
            let np = commits[c].parents.len();
            proof {
                assert(g[c as int] == cs[c as int].parents@);
            }
            let mut t: usize = 0;
            while t < np
                invariant
                    n == cs.len(),
                    g == graph_of(cs),
                    commits@ == cs,
                    c < n,
                    i < n,
                    t <= np,
                    np == g[c as int].len(),
                    hp == (exists|u: int| 0 <= u < t && (#[trigger] g[c as int][u]) == i as int),
                decreases np - t,
            {
                proof {
                    assert(g[c as int][t as int] == cs[c as int].parents@[t as int]);
                    lemma_step_has_parent(g, c as int, i as int, t as int);
                }
                if commits[c].parents[t] == i {
                    hp = true;
                }
                t = t + 1;
            }
            proof {
                assert(hp == has_parent(g, c as int, i as int)) by {
                    assert(g[c as int].len() == np);
                }
                if hp && ar@[c as int] {
                    assert(#[trigger] has_parent(g, c as int, i as int) && all_reach(
                        g,
                        intr,
                        c as int,
                    ));
                }
                if exists|u: int|
                    0 <= u < c + 1 && #[trigger] has_parent(g, u, i as int) && all_reach(
                        g,
                        intr,
                        u,
                    ) {
                    let u = choose|u: int|
                        0 <= u < c + 1 && #[trigger] has_parent(g, u, i as int) && all_reach(
                            g,
                            intr,
                            u,
                        );
                    if u < c {
                        assert(0 <= u < c && has_parent(g, u, i as int) && all_reach(
                            g,
                            intr,
                            u,
                        ));
                    }
                }
            }
            if hp && ar[c] {
                child_ar = true;
            }
            c = c + 1;
        }
        mb.push(ar[i] && !child_ar);
        proof {
            assert(mb@[i as int] == merge_base(g, intr, i as int));
        }
        i = i + 1;
    }
    // Visibility flags.
    let mut vis: Vec<bool> = Vec::new();
    let mut i: usize = 0;
    while i < n
        invariant
            n == cs.len(),
            g == graph_of(cs),
            intr == intr_of(cs),
            commits@ == cs,
            i <= n,
            rmat@.len() == n,
            forall|a: int| 0 <= a < n ==> (#[trigger] rmat@[a])@.len() == n,
            forall|a: int, j2: int|
                0 <= a < n && 0 <= j2 < n ==> (#[trigger] rmat@[a]@[j2]) == reach(g, a, j2),
            mb@.len() == n,
            forall|a: int| 0 <= a < n ==> (#[trigger] mb@[a]) == merge_base(g, intr, a),
            vis@.len() == i,
            forall|a: int| 0 <= a < i ==> (#[trigger] vis@[a]) == visible(g, intr, a),
        decreases n - i,
    {
        let mut v = false;
        let mut a: usize = 0;
        while a < n
            invariant
                n == cs.len(),
                g == graph_of(cs),
                intr == intr_of(cs),
                commits@ == cs,
                i < n,
                a <= n,
                rmat@.len() == n,
                forall|b: int| 0 <= b < n ==> (#[trigger] rmat@[b])@.len() == n,
                forall|b: int, j2: int|
                    0 <= b < n && 0 <= j2 < n ==> (#[trigger] rmat@[b]@[j2]) == reach(g, b, j2),
                mb@.len() == n,
                forall|b: int| 0 <= b < n ==> (#[trigger] mb@[b]) == merge_base(g, intr, b),
                v == (exists|u: int|
                    0 <= u < a && #[trigger] reach(g, i as int, u) && (intr[u] || merge_base(
                        g,
                        intr,
                        u,
                    ))),
            decreases n - a,
        {
            proof {
                assert(intr[a as int] == cs[a as int].interesting);
                if rmat@[i as int]@[a as int] && (cs[a as int].interesting || mb@[a as int]) {
                    assert(#[trigger] reach(g, i as int, a as int) && (intr[a as int]
                        || merge_base(g, intr, a as int)));
                }
                if exists|u: int|
                    0 <= u < a + 1 && #[trigger] reach(g, i as int, u) && (intr[u] || merge_base(
                        g,
                        intr,
                        u,
                    )) {
                    let u = choose|u: int|
                        0 <= u < a + 1 && #[trigger] reach(g, i as int, u) && (intr[u]
                            || merge_base(g, intr, u));
                    if u < a {
                        assert(0 <= u < a && reach(g, i as int, u) && (intr[u] || merge_base(
                            g,
                            intr,
                            u,
                        )));
                    }
                }
            }
            if rmat[i][a] && (commits[a].interesting || mb[a]) {
                v = true;
            }
            a = a + 1;
        }
        proof {
            assert(v == visible(g, intr, i as int)) by {
                assert(g.len() == n);
            }
        }
        vis.push(v);
        i = i + 1;
    }
    // Output lists.
    let mut includes: Vec<Id> = Vec::new();
    let mut excludes: Vec<Id> = Vec::new();
    let mut i: usize = 0;
    while i < n
        invariant
            n == cs.len(),
            g == graph_of(cs),
            intr == intr_of(cs),
            commits@ == cs,
            i <= n,
            rmat@.len() == n,
            forall|a: int| 0 <= a < n ==> (#[trigger] rmat@[a])@.len() == n,
            forall|a: int, j2: int|
                0 <= a < n && 0 <= j2 < n ==> (#[trigger] rmat@[a]@[j2]) == reach(g, a, j2),
            vis@.len() == n,
            forall|a: int| 0 <= a < n ==> (#[trigger] vis@[a]) == visible(g, intr, a),
            includes@ == includes_list(cs, i as int),
            excludes@ == excludes_list(cs, i as int),
        decreases n - i,
    {
        // Include test: interesting, reached by no other interesting commit.
        let mut lone = true;
        let mut t: usize = 0;
        while t < n
            invariant
                n == cs.len(),
                g == graph_of(cs),
                intr == intr_of(cs),
                commits@ == cs,
                i < n,
                t <= n,
                rmat@.len() == n,
                forall|a: int| 0 <= a < n ==> (#[trigger] rmat@[a])@.len() == n,
                forall|a: int, j2: int|
                    0 <= a < n && 0 <= j2 < n ==> (#[trigger] rmat@[a]@[j2]) == reach(g, a, j2),
                lone == (forall|u: int|
                    0 <= u < t && u != i as int && intr[u] ==> !(#[trigger] reach(
                        g,
                        u,
                        i as int,
                    ))),
            decreases n - t,
        {
            proof {
                assert(intr[t as int] == cs[t as int].interesting);
            }
            if t != i && commits[t].interesting && rmat[t][i] {
                lone = false;
            }
            t = t + 1;
        }
        let inc = commits[i].interesting && lone;
        proof {
            assert(inc == included(g, intr, i as int)) by {
                assert(intr.len() == n);
                assert(intr[i as int] == cs[i as int].interesting);
            }
        }
        // Exclude test: invisible, with a visible child.
        let mut vis_child = false;
        let mut c: usize = 0;
        while c < n
            invariant
                n == cs.len(),
                g == graph_of(cs),
                intr == intr_of(cs),
                commits@ == cs,
                i < n,
                c <= n,
                vis@.len() == n,
                forall|a: int| 0 <= a < n ==> (#[trigger] vis@[a]) == visible(g, intr, a),
                vis_child == (exists|u: int|
                    0 <= u < c && #[trigger] has_parent(g, u, i as int) && visible(g, intr, u)),
            decreases n - c,
        {
            let mut hp = false;
            let np = commits[c].parents.len();
            proof {
                assert(g[c as int] == cs[c as int].parents@);
            }
            let mut t: usize = 0;
            while t < np
                invariant
                    n == cs.len(),
                    g == graph_of(cs),
                    commits@ == cs,
                    c < n,
                    i < n,
                    t <= np,
                    np == g[c as int].len(),
                    hp == (exists|u: int| 0 <= u < t && (#[trigger] g[c as int][u]) == i as int),
                decreases np - t,
            {
                proof {
                    assert(g[c as int][t as int] == cs[c as int].parents@[t as int]);
                    lemma_step_has_parent(g, c as int, i as int, t as int);
                }
                if commits[c].parents[t] == i {
                    hp = true;
                }
                t = t + 1;
            }
            proof {
                assert(hp == has_parent(g, c as int, i as int)) by {
                    assert(g[c as int].len() == np);
                }
                if hp && vis@[c as int] {
                    assert(#[trigger] has_parent(g, c as int, i as int) && visible(
                        g,
                        intr,
                        c as int,
                    ));
                }
                if exists|u: int|
                    0 <= u < c + 1 && #[trigger] has_parent(g, u, i as int) && visible(
                        g,
                        intr,
                        u,
                    ) {
                    let u = choose|u: int|
                        0 <= u < c + 1 && #[trigger] has_parent(g, u, i as int) && visible(
                            g,
                            intr,
                            u,
                        );
                    if u < c {
                        assert(0 <= u < c && has_parent(g, u, i as int) && visible(g, intr, u));
                    }
                }
            }
            if hp && vis[c] {
                vis_child = true;
            }
            c = c + 1;
        }
        let exc = !vis[i] && vis_child;
        proof {
            assert(exc == excluded(g, intr, i as int)) by {
                assert(g.len() == n);
                assert(vis@[i as int] == visible(g, intr, i as int));
            }
        }
        if inc {
            includes.push(commits[i].id);
        }
        if exc {
            excludes.push(commits[i].id);
        }
        i = i + 1;
    }
    GitLogArgs { includes, excludes }
}

} // verus!
