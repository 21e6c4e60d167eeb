//! The fetch planner: which locked packages still need their content
//! materialized, the byte-exact assembly of a file from its chunks,
//! and the per-package build-driver arguments.  The caller reports
//! which completion sentinels exist and performs the downloads; which
//! packages are fetched, and what bytes a file ends up with, is
//! decided here.

use vstd::prelude::*;
use crate::model::{Package, PackageModel, PackageKind};
use crate::text::{starts_with, spec_starts_with};

verus! {

/// Is the record a registry package?
pub open spec fn is_registry(p: PackageModel) -> bool {
    p.kind() is Registry
}

/// Is the record a repository package?
pub open spec fn is_repo(p: PackageModel) -> bool {
    p.kind() is Repo
}

/// The indices, ascending, of the first `n` records that are of the
/// selected kind and lack their completion sentinel.
pub open spec fn spec_tasks(
    ps: Seq<PackageModel>,
    done: Seq<bool>,
    repo_kind: bool,
    n: int,
) -> Seq<usize>
    decreases n,
{
    if n <= 0 {
        Seq::empty()
    } else {
        let rest = spec_tasks(ps, done, repo_kind, n - 1);
        let wanted = if repo_kind {
            is_repo(ps[n - 1])
        } else {
            is_registry(ps[n - 1])
        };
        if !done[n - 1] && wanted {
            rest.push((n - 1) as usize)
        } else {
            rest
        }
    }
}

/// What one run of the fetcher will do: the registry downloads and
/// the repository downloads, as indices into the lockfile's records.
/// Local packages are never fetched.
pub struct FetchPlan {
    pub mops: Vec<usize>,
    pub repos: Vec<usize>,
}

/// Plan one run of the fetcher: `done[i]` says whether record `i`'s
/// completion sentinel already exists, and exactly the unfinished
/// registry and repository records are dispatched, in lockfile order.
pub fn fetch_plan(pkgs: &Vec<Package>, done: &Vec<bool>) -> (r: FetchPlan)
    requires
        pkgs@.len() == done@.len(),
        forall|i: int| 0 <= i < pkgs@.len() ==> (#[trigger] pkgs.deep_view()[i]).wf(),
    ensures
        r.mops@ == spec_tasks(pkgs.deep_view(), done@, false, pkgs@.len() as int),
        r.repos@ == spec_tasks(pkgs.deep_view(), done@, true, pkgs@.len() as int),
{
    let ghost ps = pkgs.deep_view();
    let n = pkgs.len();
    let mut mops: Vec<usize> = Vec::new();
    let mut repos: Vec<usize> = Vec::new();
    let mut i: usize = 0;
    proof {
        assert(mops@ =~= spec_tasks(ps, done@, false, 0));
        assert(repos@ =~= spec_tasks(ps, done@, true, 0));
    }
    while i < n
        invariant
            0 <= i <= n,
            n == pkgs@.len(),
            ps == pkgs.deep_view(),
            done@.len() == n,
            forall|j: int| 0 <= j < n ==> (#[trigger] ps[j]).wf(),
            mops@ == spec_tasks(ps, done@, false, i as int),
            repos@ == spec_tasks(ps, done@, true, i as int),
        decreases n - i,
    {
        proof {
            assert(ps[i as int] == pkgs@[i as int]@);
        }
        if !done[i] {
            match pkgs[i].get_type() {
                crate::model::PackageType::Mops { ver, id } => {
                    mops.push(i);
                },
                crate::model::PackageType::Repo(info) => {
                    repos.push(i);
                },
                crate::model::PackageType::Local(l) => {},
            }
        }
        i = i + 1;
    }
    FetchPlan { mops, repos }
}

/// With every sentinel present the planned run is empty: a second
/// run of the fetcher right after a completed one downloads nothing.
pub proof fn lemma_fetch_idempotent(ps: Seq<PackageModel>, done: Seq<bool>, n: int)
    requires
        forall|i: int| 0 <= i < done.len() ==> #[trigger] done[i],
        n <= done.len(),
    ensures
        spec_tasks(ps, done, false, n) == Seq::<usize>::empty(),
        spec_tasks(ps, done, true, n) == Seq::<usize>::empty(),
    decreases n,
{
    if n > 0 {
        lemma_fetch_idempotent(ps, done, n - 1);
    }
}

/// With exactly one sentinel missing the planned run holds exactly
/// that record, under its own kind: deleting one package's directory
/// and re-running the fetcher restores that package and nothing
/// else.
pub proof fn lemma_fetch_resumes(ps: Seq<PackageModel>, done: Seq<bool>, n: int, j: int)
    requires
        0 <= j < done.len(),
        !done[j],
        forall|i: int| 0 <= i < done.len() && i != j ==> #[trigger] done[i],
        n <= done.len(),
        ps.len() == done.len(),
    ensures
        spec_tasks(ps, done, false, n) == if j < n && is_registry(ps[j]) {
            seq![j as usize]
        } else {
            Seq::<usize>::empty()
        },
        spec_tasks(ps, done, true, n) == if j < n && is_repo(ps[j]) {
            seq![j as usize]
        } else {
            Seq::<usize>::empty()
        },
    decreases n,
{
    if n > 0 {
        lemma_fetch_resumes(ps, done, n - 1, j);
        if j == n - 1 {
            if is_registry(ps[j]) {
                assert(spec_tasks(ps, done, false, n) =~= seq![j as usize]);
            }
            if is_repo(ps[j]) {
                assert(spec_tasks(ps, done, true, n) =~= seq![j as usize]);
            }
        }
    }
}

/// Concatenate a file's chunks, in index order: the file's bytes are
/// exactly the chunks' bytes, contiguous.
pub fn assemble_chunks(chunks: Vec<Vec<u8>>) -> (r: Vec<u8>)
    ensures
        r@ == chunks.deep_view().flatten(),
{
    let ghost whole = chunks.deep_view().flatten();
    let mut r: Vec<u8> = Vec::new();
    let mut cs = chunks;
    while cs.len() > 0
        invariant
            whole == r@ + cs.deep_view().flatten(),
        decreases cs@.len(),
    {
        let ghost prevs = cs.deep_view();
        let c = cs.remove(0);
        proof {
            assert(cs.deep_view() =~= prevs.drop_first());
            assert(c@ == prevs[0]);
            assert(prevs.flatten() == prevs.first() + prevs.drop_first().flatten());
        }
        let m = c.len();
        let mut j: usize = 0;
        while j < m
            invariant
                0 <= j <= m,
                m == c@.len(),
                whole == r@ + c@.skip(j as int) + cs.deep_view().flatten(),
            decreases m - j,
        {
            r.push(c[j]);
            proof {
                assert(c@.skip(j as int) =~= seq![c@[j as int]] + c@.skip(j as int + 1));
                assert(r@ + c@.skip(j as int + 1) =~= (r@ + c@.skip(j as int + 1)));
                assert(whole =~= r@ + c@.skip(j as int + 1) + cs.deep_view().flatten());
            }
            j = j + 1;
        }
        proof {
            assert(c@.skip(m as int) =~= Seq::<u8>::empty());
            assert(whole =~= r@ + cs.deep_view().flatten());
        }
    }
    proof {
        assert(cs.deep_view().flatten() =~= Seq::<u8>::empty());
        assert(whole =~= r@);
    }
    r
}

/// Join a cache path below a base directory: an absolute right side
/// stands alone, as local packages live at their canonical path.
pub open spec fn spec_join_path(a: Seq<char>, b: Seq<char>) -> Seq<char> {
    if b.len() > 0 && b[0] == '/' {
        b
    } else {
        a + "/"@ + b
    }
}

pub fn join_path(a: &str, b: &str) -> (r: String)
    ensures
        r@ == spec_join_path(a@, b@),
{
    proof {
        reveal_strlit("/");
    }
    if starts_with(b, "/") {
        proof {
            assert(b@.subrange(0, 1)[0] == b@[0]);
        }
        b.to_owned()
    } else {
        proof {
            if b@.len() > 0 && b@[0] == '/' {
                assert(b@.subrange(0, 1) =~= "/"@);
            }
        }
        let mut r = a.to_owned();
        r.append("/");
        r.append(b);
        r
    }
}

/// The build-driver arguments for one record: its name and the
/// directory its sources land in.
pub open spec fn spec_moc_args(base: Seq<char>, p: PackageModel) -> Seq<Seq<char>> {
    seq![
        "--package"@,
        p.name,
        spec_join_path(spec_join_path(base, p.cache_path()), p.base_dir),
    ]
}

/// The flag list handed to the build driver: for every locked record,
/// `--package`, its name, and its source directory under the cache
/// root, in lockfile order.
pub fn generate_moc_args(base_path: &str, pkgs: &Vec<Package>) -> (r: Vec<String>)
    requires
        forall|i: int| 0 <= i < pkgs@.len() ==> (#[trigger] pkgs.deep_view()[i]).wf(),
    ensures
        r.deep_view().len() == 3 * pkgs@.len(),
        forall|i: int|
            0 <= i < pkgs@.len() ==> r.deep_view().subrange(3 * i, 3 * i + 3) == spec_moc_args(
                base_path@,
                #[trigger] pkgs.deep_view()[i],
            ),
{
    let ghost ps = pkgs.deep_view();
    let n = pkgs.len();
    let mut r: Vec<String> = Vec::new();
    let mut i: usize = 0;
    while i < n
        invariant
            0 <= i <= n,
            n == pkgs@.len(),
            ps == pkgs.deep_view(),
            forall|j: int| 0 <= j < n ==> (#[trigger] ps[j]).wf(),
            r.deep_view().len() == 3 * i,
            forall|j: int|
                0 <= j < i ==> r.deep_view().subrange(3 * j, 3 * j + 3) == spec_moc_args(
                    base_path@,
                    #[trigger] ps[j],
                ),
        decreases n - i,
    {
        let ghost pre = r.deep_view();
        proof {
            assert(ps[i as int] == pkgs@[i as int]@);
        }
        let p = &pkgs[i];
        r.push("--package".to_owned());
        r.push(p.name.as_str().to_owned());
        let sub = p.get_path();
        let below = join_path(base_path, sub.as_str());
        let full = join_path(below.as_str(), p.base_dir.as_str());
        r.push(full);
        proof {
            assert(r.deep_view() =~= pre + spec_moc_args(base_path@, ps[i as int]));
            assert forall|j: int| 0 <= j < i + 1 implies r.deep_view().subrange(3 * j, 3 * j + 3)
                == spec_moc_args(base_path@, #[trigger] ps[j]) by {
                if j < i {
                    assert(pre.subrange(3 * j, 3 * j + 3) == spec_moc_args(base_path@, ps[j]));
                    assert(r.deep_view().subrange(3 * j, 3 * j + 3) =~= pre.subrange(
                        3 * j,
                        3 * j + 3,
                    ));
                } else {
                    assert(r.deep_view().subrange(3 * j, 3 * j + 3) =~= spec_moc_args(
                        base_path@,
                        ps[j],
                    ));
                }
            }
        }
        i = i + 1;
    }
    r
}

} // verus!
