//! Selection of the interesting branches.
//!
//! The interesting branches are all local branches, plus every remote
//! branch whose name — the part after the remote's own name — matches a
//! local branch.  The commits they point at form the frontier the engine
//! starts from.

use vstd::prelude::*;

use crate::engine::bytes_eq;
use crate::record::id_views;

verus! {

/// The bytes of the ref namespace of local branches, `refs/heads/`.
pub open spec fn heads_prefix() -> Seq<u8> {
    seq![114u8, 101u8, 102u8, 115u8, 47u8, 104u8, 101u8, 97u8, 100u8, 115u8, 47u8]
}

/// The bytes of the ref namespace of remote branches, `refs/remotes/`.
pub open spec fn remotes_prefix() -> Seq<u8> {
    seq![
        114u8,
        101u8,
        102u8,
        115u8,
        47u8,
        114u8,
        101u8,
        109u8,
        111u8,
        116u8,
        101u8,
        115u8,
        47u8,
    ]
}

/// Whether `p` is a prefix of `s`.
pub open spec fn has_prefix(s: Seq<u8>, p: Seq<u8>) -> bool {
    s.len() >= p.len() && s.take(p.len() as int) == p
}

/// A full ref name classified by its namespace: the branch name of a local
/// ref, the `remote/branch` rest of a remote ref, or neither.
pub enum RefName {
    Local(Vec<u8>),
    Remote(Vec<u8>),
    Other,
}


/// Builds `refs/heads/` as bytes.
fn heads_prefix_vec() -> (r: Vec<u8>)
    ensures
        r@ == heads_prefix(),
{
    let mut v: Vec<u8> = Vec::new();
    v.push(114);
    v.push(101);
    v.push(102);
    v.push(115);
    v.push(47);
    v.push(104);
    v.push(101);
    v.push(97);
    v.push(100);
    v.push(115);
    v.push(47);
    proof {
        assert(v@ =~= heads_prefix());
    }
    v
}

/// Builds `refs/remotes/` as bytes.
fn remotes_prefix_vec() -> (r: Vec<u8>)
    ensures
        r@ == remotes_prefix(),
{
    let mut v: Vec<u8> = Vec::new();
    v.push(114);
    v.push(101);
    v.push(102);
    v.push(115);
    v.push(47);
    v.push(114);
    v.push(101);
    v.push(109);
    v.push(111);
    v.push(116);
    v.push(101);
    v.push(115);
    v.push(47);
    proof {
        assert(v@ =~= remotes_prefix());
    }
    v
}

/// The bytes of `s` after prefix `p`, when `p` is a prefix of `s`.
fn strip_prefix(s: &Vec<u8>, p: &Vec<u8>) -> (r: Option<Vec<u8>>)
    ensures
        match r {
            Some(rest) => has_prefix(s@, p@) && rest@ == s@.skip(p@.len() as int),
            None => !has_prefix(s@, p@),
        },
{
    if s.len() < p.len() {
        proof {
            if has_prefix(s@, p@) {
                assert(s@.take(p@.len() as int).len() == p@.len());
            }
        }
        return None;
    }
    let mut i: usize = 0;
    while i < p.len()
        invariant
            i <= p@.len() <= s@.len(),
            forall|t: int| 0 <= t < i ==> s@[t] == p@[t],
        decreases p@.len() - i,
    {
        if s[i] != p[i] {
            proof {
                if has_prefix(s@, p@) {
                    assert(s@.take(p@.len() as int)[i as int] == p@[i as int]);
                }
            }
            return None;
        }
        i = i + 1;
    }
    let mut rest: Vec<u8> = Vec::new();
    let mut j: usize = p.len();
    while j < s.len()
        invariant
            p@.len() <= j <= s@.len(),
            rest@.len() == j - p@.len(),
            forall|t: int| 0 <= t < rest@.len() ==> rest@[t] == s@[p@.len() + t],
        decreases s@.len() - j,
    {
        rest.push(s[j]);
        j = j + 1;
    }
    proof {
        assert(s@.take(p@.len() as int) =~= p@);
        assert(rest@ =~= s@.skip(p@.len() as int));
    }
    Some(rest)
}

/// Classifies one line of a full-ref listing by its namespace: the branch
/// name of a local ref, the `remote/branch` rest of a remote ref, or
/// neither.
pub fn classify_ref(line: &Vec<u8>) -> (r: RefName)
    ensures
        match r {
            RefName::Remote(rest) => has_prefix(line@, remotes_prefix()) && rest@ == line@.skip(
                remotes_prefix().len() as int,
            ),
            RefName::Local(rest) => !has_prefix(line@, remotes_prefix()) && has_prefix(
                line@,
                heads_prefix(),
            ) && rest@ == line@.skip(heads_prefix().len() as int),
            RefName::Other => !has_prefix(line@, remotes_prefix()) && !has_prefix(
                line@,
                heads_prefix(),
            ),
        },
{
    let remotes = remotes_prefix_vec();
    match strip_prefix(line, &remotes) {
        Some(rest) => RefName::Remote(rest),
        None => {
            let heads = heads_prefix_vec();
            match strip_prefix(line, &heads) {
                Some(rest) => RefName::Local(rest),
                None => RefName::Other,
            }
        },
    }
}

/// The name of remote ref `s` without its leading remote name: the bytes
/// after the first slash, if any.
pub open spec fn after_first_slash(s: Seq<u8>) -> Option<Seq<u8>>
    decreases s.len(),
{
    if s.len() == 0 {
        None
    } else if s[0] == 47 {
        Some(s.skip(1))
    } else {
        after_first_slash(s.skip(1))
    }
}

/// Whether the remote ref `r` is interesting: its branch name, after the
/// remote's own name, is the name of some local branch.
pub open spec fn is_interesting_remote(r: Seq<u8>, locals: Seq<Seq<u8>>) -> bool {
    match after_first_slash(r) {
        Some(name) => locals.contains(name),
        None => false,
    }
}

/// The remote refs of `remotes` whose branch name matches a local branch,
/// in order.
pub open spec fn selected_remotes(remotes: Seq<Seq<u8>>, locals: Seq<Seq<u8>>) -> Seq<Seq<u8>>
    decreases remotes.len(),
{
    if remotes.len() == 0 {
        Seq::empty()
    } else {
        let rest = selected_remotes(remotes.drop_last(), locals);
        if is_interesting_remote(remotes.last(), locals) {
            rest.push(remotes.last())
        } else {
            rest
        }
    }
}

/// The branch name of `r` after its first slash, if any.
fn remote_base(r: &Vec<u8>) -> (o: Option<Vec<u8>>)
    ensures
        match o {
            Some(b) => after_first_slash(r@) == Some(b@),
            None => after_first_slash(r@) is None,
        },
{
    let mut i: usize = 0;
    proof {
        assert(r@.skip(0) =~= r@);
    }
    while i < r.len()
        invariant
            i <= r@.len(),
            after_first_slash(r@) == after_first_slash(r@.skip(i as int)),
        decreases r@.len() - i,
    {
        let ghost cur = r@.skip(i as int);
        if r[i] == 47 {
            let mut rest: Vec<u8> = Vec::new();
            let mut j: usize = i + 1;
            while j < r.len()
                invariant
                    i < j <= r@.len(),
                    rest@.len() == j - i - 1,
                    forall|t: int| 0 <= t < rest@.len() ==> rest@[t] == r@[i + 1 + t],
                decreases r@.len() - j,
            {
                rest.push(r[j]);
                j = j + 1;
            }
            proof {
                assert(cur[0] == 47);
                assert(rest@ =~= cur.skip(1));
            }
            return Some(rest);
        }
        proof {
            assert(cur[0] != 47);
            assert(cur.skip(1) =~= r@.skip(i + 1));
        }
        i = i + 1;
    }
    proof {
        assert(r@.skip(r@.len() as int).len() == 0);
    }
    None
}

/// Whether `x` is among the byte strings of `v`.
fn contains_bytes(v: &Vec<Vec<u8>>, x: &Vec<u8>) -> (r: bool)
    ensures
        r == id_views(v@).contains(x@),
{
    let mut i: usize = 0;
    while i < v.len()
        invariant
            i <= v@.len(),
            forall|t: int| 0 <= t < i ==> id_views(v@)[t] != x@,
        decreases v@.len() - i,
    {
        if bytes_eq(&v[i], x) {
            proof {
                assert(id_views(v@)[i as int] == x@);
            }
            return true;
        }
        i = i + 1;
    }
    proof {
        if id_views(v@).contains(x@) {
            let t = choose|t: int| 0 <= t < id_views(v@).len() && id_views(v@)[t] == x@;
        }
    }
    false
}

/// Returns all interesting branches: the remote refs whose branch name
/// matches a local branch, followed by every local branch.  Commits may
/// appear more than once under different names, as the caller expects.
pub fn interesting_branches(locals: Vec<Vec<u8>>, remotes: Vec<Vec<u8>>) -> (r: Vec<Vec<u8>>)
    ensures
        id_views(r@) == selected_remotes(id_views(remotes@), id_views(locals@)) + id_views(
            locals@,
        ),
{
    let ghost rv = id_views(remotes@);
    let ghost lv = id_views(locals@);
    let mut out: Vec<Vec<u8>> = Vec::new();
    let mut remotes = remotes;
    let ghost k: int = 0;
    let ghost n = rv.len() as int;
    while remotes.len() > 0
        invariant
            0 <= k <= n,
            n == rv.len(),
            lv == id_views(locals@),
            remotes@.len() == n - k,
            forall|t: int| 0 <= t < n - k ==> (#[trigger] remotes@[t])@ == rv[k + t],
            id_views(out@) == selected_remotes(rv.take(k), lv),
        decreases remotes@.len(),
    {
        let ghost out0 = id_views(out@);
        let ghost prev = remotes@;
        let rem = remotes.remove(0);
        proof {
            assert(rem@ == rv[k]);
            assert(rv.take(k + 1).drop_last() =~= rv.take(k));
            assert(rv.take(k + 1).last() == rv[k]);
        }
        let keep = match remote_base(&rem) {
            Some(base) => contains_bytes(&locals, &base),
            None => false,
        };
        proof {
            assert(keep == is_interesting_remote(rv[k], lv));
        }
        if keep {
            out.push(rem);
            proof {
                assert(id_views(out@) =~= out0.push(rv[k]));
            }
        }
        proof {
            k = k + 1;
            assert forall|t: int| 0 <= t < n - k implies (#[trigger] remotes@[t])@ == rv[k
                + t] by {
                assert(remotes@[t] == prev[t + 1]);
            }
        }
    }
    proof {
        assert(rv.take(n) =~= rv);
    }
    let ghost sel = selected_remotes(rv, lv);
    let mut locals = locals;
    let ghost j: int = 0;
    let ghost m = lv.len() as int;
    while locals.len() > 0
        invariant
            0 <= j <= m,
            m == lv.len(),
            locals@.len() == m - j,
            forall|t: int| 0 <= t < m - j ==> (#[trigger] locals@[t])@ == lv[j + t],
            id_views(out@) == sel + lv.take(j),
        decreases locals@.len(),
    {
        let ghost out0 = id_views(out@);
        let ghost prev = locals@;
        let loc = locals.remove(0);
        proof {
            assert(loc@ == lv[j]);
        }
        out.push(loc);
        proof {
            assert(id_views(out@) =~= out0.push(lv[j]));
            j = j + 1;
            assert(sel + lv.take(j) =~= (sel + lv.take(j - 1)).push(lv[j - 1]));
            assert forall|t: int| 0 <= t < m - j implies (#[trigger] locals@[t])@ == lv[j
                + t] by {
                assert(locals@[t] == prev[t + 1]);
            }
        }
    }
    proof {
        assert(lv.take(m) =~= lv);
    }
    out
}

} // verus!
