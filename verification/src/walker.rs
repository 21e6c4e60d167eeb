//! The graph walker: a queue of dependency references still to visit
//! and a map from DedupKey to resolved package record.  Every
//! decision the walk takes is here — deduplication, the construction
//! of each record, the classification and enqueueing of its
//! sub-dependencies — while the caller performs the network and
//! filesystem reads between steps and hands their results in.

use vstd::prelude::*;
use std::collections::VecDeque;
use crate::model::{Mops, MopsModel, MopsConfig, MopsConfigModel, Package, PackageModel, RepoInfo,
    RepoModel, spec_display_key};
use crate::pkgmap::{PackageMap, MapModel, spec_find_key, spec_insert_at, spec_upsert,
    sorted_strict, lemma_find_key_miss, lemma_insert_at, lemma_insert_sorted,
    lemma_sorted_distinct};
use crate::github::spec_guess_version;

verus! {

/// One declared dependency inside a registry record: a version pin,
/// or a repository URL when the version field is empty.
pub struct RegistryDep {
    pub name: String,
    pub version: String,
    pub repo: String,
}

/// The mathematical value of a `RegistryDep`.
pub ghost struct RegistryDepModel {
    pub name: Seq<char>,
    pub version: Seq<char>,
    pub repo: Seq<char>,
}

impl View for RegistryDep {
    type V = RegistryDepModel;

    open spec fn view(&self) -> RegistryDepModel {
        RegistryDepModel { name: self.name@, version: self.version@, repo: self.repo@ }
    }
}

impl DeepView for RegistryDep {
    type V = RegistryDepModel;

    open spec fn deep_view(&self) -> RegistryDepModel {
        self.view()
    }
}

/// What the registry reports of a package: its storage-service id,
/// the subdirectory holding sources, and its declared dependencies.
pub struct PackageDetails {
    pub storage: String,
    pub base_dir: String,
    pub dependencies: Vec<RegistryDep>,
}

/// The mathematical value of a `PackageDetails`.
pub ghost struct PackageDetailsModel {
    pub storage: Seq<char>,
    pub base_dir: Seq<char>,
    pub dependencies: Seq<RegistryDepModel>,
}

impl View for PackageDetails {
    type V = PackageDetailsModel;

    open spec fn view(&self) -> PackageDetailsModel {
        PackageDetailsModel {
            storage: self.storage@,
            base_dir: self.base_dir@,
            dependencies: self.dependencies.deep_view(),
        }
    }
}

/// How a registry record's declared dependency reads as a reference:
/// an empty version field means the `repo` field pins a repository.
pub open spec fn spec_registry_subdep(d: RegistryDepModel) -> MopsModel {
    if d.version.len() == 0 {
        MopsModel::Repo { name: d.name, repo: d.repo }
    } else {
        MopsModel::Mops { name: d.name, version: d.version }
    }
}

/// The record a registry package resolves to.
pub open spec fn spec_registry_package(
    name: Seq<char>,
    version: Seq<char>,
    det: PackageDetailsModel,
) -> PackageModel {
    PackageModel {
        name,
        version: Some(version),
        source: det.storage,
        base_dir: det.base_dir,
        repo: None,
        dependencies: det.dependencies.map_values(
            |d: RegistryDepModel| spec_display_key(spec_registry_subdep(d)),
        ),
    }
}

/// The version a repository package adopts: the one its manifest
/// declares, else the one its ref suggests.
pub open spec fn spec_repo_version(info: RepoModel, man: Option<MopsConfigModel>) -> Option<
    Seq<char>,
> {
    let declared = match man {
        Some(m) => m.version,
        None => None,
    };
    if declared is Some {
        declared
    } else {
        spec_guess_version(info.tag)
    }
}

/// The record a repository package resolves to.
pub open spec fn spec_repo_package(
    name: Seq<char>,
    info: RepoModel,
    man: Option<MopsConfigModel>,
) -> PackageModel {
    PackageModel {
        name,
        version: spec_repo_version(info, man),
        source: "github"@,
        base_dir: info.base_dir,
        repo: Some(info),
        dependencies: match man {
            Some(m) => m.dependencies.map_values(|d: MopsModel| spec_display_key(d)),
            None => Seq::empty(),
        },
    }
}

/// The record a local package resolves to.
pub open spec fn spec_local_package(
    name: Seq<char>,
    canonical: Seq<char>,
    man: Option<MopsConfigModel>,
) -> PackageModel {
    PackageModel {
        name,
        version: match man {
            Some(m) => m.version,
            None => None,
        },
        source: "file://"@ + canonical,
        base_dir: "src"@,
        repo: None,
        dependencies: match man {
            Some(m) => m.dependencies.map_values(|d: MopsModel| spec_display_key(d)),
            None => Seq::empty(),
        },
    }
}

/// A well-formed walker map: sorted distinct keys, each the DedupKey
/// of a well-formed record.
pub open spec fn map_wf(m: MapModel) -> bool {
    &&& m.keys.len() == m.vals.len()
    &&& sorted_strict(m.keys)
    &&& forall|i: int|
        0 <= i < m.vals.len() ==> (#[trigger] m.vals[i]).wf() && m.keys[i] == m.vals[i].dedup_key()
}

/// The walker's state: the references still to visit, in order, and
/// the records resolved so far, keyed by DedupKey.
pub struct Walker {
    pub queue: VecDeque<Mops>,
    pub map: PackageMap,
}

impl Walker {
    pub open spec fn wf(self) -> bool {
        self.map.wf() && map_wf(self.map@)
    }

    /// A walker with nothing visited and nothing queued.
    pub fn new() -> (r: Walker)
        ensures
            r.wf(),
            r.queue@ == Seq::<Mops>::empty(),
            r.map@.keys == Seq::<Seq<char>>::empty(),
            r.map@.vals == Seq::<PackageModel>::empty(),
    {
        let r = Walker { queue: VecDeque::new(), map: PackageMap::new() };
        proof {
            assert(r.map@.keys =~= Seq::<Seq<char>>::empty());
            assert(r.map@.vals =~= Seq::<PackageModel>::empty());
        }
        r
    }

    /// Seed the map with a record of an existing lockfile: a repeated
    /// DedupKey replaces the earlier record, as a later lockfile line
    /// wins.
    pub fn seed_package(&mut self, p: Package)
        requires
            old(self).wf(),
            p@.wf(),
        ensures
            final(self).wf(),
            final(self).map@ == spec_upsert(old(self).map@, p@.dedup_key(), p@),
            final(self).queue == old(self).queue,
    {
        let key = p.get_key();
        proof {
            lemma_keymatch_upsert(self.map@, key@, p@);
        }
        self.map.upsert(key, p);
    }

    /// Queue a dependency reference for a later step.
    pub fn enqueue(&mut self, m: Mops)
        requires
            old(self).wf(),
        ensures
            final(self).wf(),
            final(self).queue@ == old(self).queue@.push(m),
            final(self).map == old(self).map,
    {
        self.queue.push_back(m);
    }

    /// Take the next reference to visit, front first.
    pub fn pop_dep(&mut self) -> (r: Option<Mops>)
        requires
            old(self).wf(),
        ensures
            final(self).wf(),
            final(self).map == old(self).map,
            match r {
                Some(m) => old(self).queue@.len() > 0 && m == old(self).queue@[0]
                    && final(self).queue@ == old(self).queue@.drop_first(),
                None => old(self).queue@.len() == 0 && final(self).queue@ == old(self).queue@,
            },
    {
        self.queue.pop_front()
    }

    /// How many references are still queued.
    pub fn queue_len(&self) -> (r: usize)
        ensures
            r == self.queue@.len(),
    {
        self.queue.len()
    }

    /// Has a record with this DedupKey been resolved already?
    pub fn has_package(&self, key: &str) -> (r: bool)
        requires
            self.wf(),
        ensures
            r == self.map.contains_key(key@),
    {
        self.map.has_key(key)
    }

    /// Record a freshly resolved package and queue its
    /// sub-dependencies.  The dedup check precedes this call, so the
    /// key must be fresh: a repeated insert is a program error, not a
    /// user error.
    pub fn insert_package(&mut self, pkg: Package, subdeps: Vec<Mops>)
        requires
            old(self).wf(),
            pkg@.wf(),
            !old(self).map.contains_key(pkg@.dedup_key()),
        ensures
            final(self).wf(),
            final(self).map@ == spec_upsert(old(self).map@, pkg@.dedup_key(), pkg@),
            final(self).map@.keys.len() == old(self).map@.keys.len() + 1,
            final(self).queue@ == old(self).queue@ + subdeps@,
    {
        let ghost orig_map = self.map@;
        let key = pkg.get_key();
        proof {
            assert(forall|j: int|
                0 <= j < orig_map.keys.len() ==> #[trigger] orig_map.keys[j] != key@);
            lemma_find_key_miss(orig_map.keys, key@);
            lemma_keymatch_upsert(self.map@, key@, pkg@);
        }
        self.map.insert(key, pkg);
        let ghost orig_queue = self.queue@;
        let ghost subs = subdeps@;
        let mut ds = subdeps;
        let ghost mut i: int = 0;
        while ds.len() > 0
            invariant
                0 <= i <= subs.len(),
                ds@ == subs.skip(i),
                self.queue@ == orig_queue + subs.take(i),
                self.map@ == spec_upsert(orig_map, pkg@.dedup_key(), pkg@),
                self.map.wf(),
                map_wf(self.map@),
            decreases ds@.len(),
        {
            let d = ds.remove(0);
            self.queue.push_back(d);
            proof {
                assert(subs.skip(i)[0] == subs[i]);
                assert(ds@ =~= subs.skip(i + 1));
                assert(self.queue@ =~= orig_queue + subs.take(i + 1));
                i = i + 1;
            }
        }
        proof {
            assert(subs.take(i) =~= subs);
        }
    }
}

/// Replacing under a matching key, or inserting under a fresh one,
/// keeps every key the DedupKey of its well-formed record.
pub proof fn lemma_keymatch_upsert(m: MapModel, k: Seq<char>, v: PackageModel)
    requires
        map_wf(m),
        k == v.dedup_key(),
        v.wf(),
    ensures
        map_wf(spec_upsert(m, k, v)),
{
    let r = spec_upsert(m, k, v);
    match spec_find_key(m.keys, k) {
        Some(i) => {
            lemma_find_key_bounds(m.keys, k);
            assert forall|j: int| 0 <= j < r.vals.len() implies (#[trigger] r.vals[j]).wf()
                && r.keys[j] == r.vals[j].dedup_key() by {
                if j != i {
                    assert(r.vals[j] == m.vals[j]);
                }
            }
        },
        None => {
            let p = spec_insert_at(m.keys, k);
            lemma_find_key_none(m.keys, k);
            lemma_insert_sorted(m.keys, k);
            lemma_insert_at(m.keys, k);
            assert forall|j: int| 0 <= j < r.vals.len() implies (#[trigger] r.vals[j]).wf()
                && r.keys[j] == r.vals[j].dedup_key() by {
                if j < p {
                    assert(r.vals[j] == m.vals[j] && r.keys[j] == m.keys[j]);
                } else if j == p {
                    assert(r.vals[j] == v && r.keys[j] == k);
                } else {
                    assert(r.vals[j] == m.vals[j - 1] && r.keys[j] == m.keys[j - 1]);
                }
            }
        },
    }
}

/// A key that is not found matches no entry.
pub proof fn lemma_find_key_none(ks: Seq<Seq<char>>, k: Seq<char>)
    requires
        spec_find_key(ks, k) is None,
    ensures
        forall|j: int| 0 <= j < ks.len() ==> #[trigger] ks[j] != k,
    decreases ks.len(),
{
    if ks.len() > 0 {
        let tail = ks.drop_first();
        lemma_find_key_none(tail, k);
        assert(forall|j: int| 1 <= j < ks.len() ==> #[trigger] ks[j] == tail[j - 1]);
    }
}

/// A found key lies inside the sequence and matches.
pub proof fn lemma_find_key_bounds(ks: Seq<Seq<char>>, k: Seq<char>)
    ensures
        match spec_find_key(ks, k) {
            Some(i) => 0 <= i < ks.len() && ks[i] == k,
            None => true,
        },
    decreases ks.len(),
{
    if ks.len() > 0 && ks[0] != k {
        lemma_find_key_bounds(ks.drop_first(), k);
    }
}

/// The display keys of a list of references, in order.
pub fn display_keys(deps: &Vec<Mops>) -> (r: Vec<String>)
    ensures
        r.deep_view() == deps.deep_view().map_values(|d: MopsModel| spec_display_key(d)),
{
    let ghost goal = deps.deep_view().map_values(|d: MopsModel| spec_display_key(d));
    let mut r: Vec<String> = Vec::new();
    let n = deps.len();
    let mut i: usize = 0;
    proof {
        assert(r.deep_view() =~= goal.take(0));
    }
    while i < n
        invariant
            0 <= i <= n,
            n == deps@.len(),
            goal == deps.deep_view().map_values(|d: MopsModel| spec_display_key(d)),
            goal.len() == n,
            r.deep_view() == goal.take(i as int),
        decreases n - i,
    {
        let k = deps[i].get_display_key();
        let ghost pre = r.deep_view();
        r.push(k);
        proof {
            assert(r.deep_view() =~= pre.push(k@));
            assert(r.deep_view() =~= goal.take(i as int + 1));
        }
        i = i + 1;
    }
    proof {
        assert(goal.take(n as int) =~= goal);
    }
    r
}

/// Build the record of a registry package from what the registry
/// reported, together with its sub-dependencies in declared order: a
/// declared dependency with an empty version field reads as the
/// repository its `repo` field names.
pub fn registry_package(name: String, version: String, details: PackageDetails) -> (r: (
    Package,
    Vec<Mops>,
))
    ensures
        r.0@ == spec_registry_package(name@, version@, details@),
        r.1.deep_view() == details@.dependencies.map_values(
            |d: RegistryDepModel| spec_registry_subdep(d),
        ),
        details@.storage != "github"@ && !crate::text::spec_starts_with(
            details@.storage,
            "file://"@,
        ) ==> r.0@.wf() && r.0@.dedup_key() == name@ + "-"@ + version@,
{
    let ghost det = details@;
    let ghost subsg = det.dependencies.map_values(|d: RegistryDepModel| spec_registry_subdep(d));
    let mut subs: Vec<Mops> = Vec::new();
    let mut ds = details.dependencies;
    let ghost orig = ds.deep_view();
    let ghost mut i: int = 0;
    proof {
        assert(subs.deep_view() =~= subsg.take(0));
        assert(ds.deep_view() =~= orig.skip(0));
    }
    while ds.len() > 0
        invariant
            0 <= i <= orig.len(),
            subsg == orig.map_values(|d: RegistryDepModel| spec_registry_subdep(d)),
            subsg.len() == orig.len(),
            ds.deep_view() == orig.skip(i),
            subs.deep_view() == subsg.take(i),
        decreases ds@.len(),
    {
        let ghost prev = ds.deep_view();
        let d = ds.remove(0);
        proof {
            assert(prev.len() == ds@.len() + 1);
            assert(ds.deep_view() =~= prev.drop_first());
            assert(prev.drop_first() =~= orig.skip(i + 1));
            assert(d@ == prev[0]);
            assert(prev[0] == orig.skip(i)[0]);
            assert(orig.skip(i)[0] == orig[i]);
        }
        let m = if d.version.as_str().is_empty() {
            Mops::Repo { name: d.name, repo: d.repo }
        } else {
            Mops::Mops { name: d.name, version: d.version }
        };
        let ghost pre = subs.deep_view();
        subs.push(m);
        proof {
            assert(subs.deep_view() =~= pre.push(m@));
            assert(m@ == spec_registry_subdep(orig[i]));
            assert(subs.deep_view() =~= subsg.take(i + 1));
            i = i + 1;
        }
    }
    proof {
        assert(subsg.take(i) =~= subsg);
    }
    let keys = display_keys(&subs);
    let pkg = Package {
        name,
        version: Some(version),
        source: details.storage,
        base_dir: details.base_dir,
        repo: None,
        dependencies: keys,
    };
    proof {
        assert(pkg@.dependencies =~= det.dependencies.map_values(
            |d: RegistryDepModel| spec_display_key(spec_registry_subdep(d)),
        ));
        assert(pkg@ == spec_registry_package(name@, version@, det));
    }
    (pkg, subs)
}

/// Build the record of a repository package pinned to `info`, from
/// its manifest when one was found at the pinned commit.  Without a
/// manifest the record has no dependencies; without a declared
/// version the ref is asked for one.
pub fn repo_package(name: String, info: RepoInfo, manifest: Option<MopsConfig>) -> (r: (
    Package,
    Vec<Mops>,
))
    requires
        info@.wf(),
    ensures
        r.0@ == spec_repo_package(name@, info@, match manifest {
            Some(m) => Some(m@),
            None => None,
        }),
        r.1.deep_view() == (match manifest {
            Some(m) => m@.dependencies,
            None => Seq::<MopsModel>::empty(),
        }),
        r.0@.wf(),
        r.0@.dedup_key() == name@ + "-"@ + info@.commit,
{
    let ghost mang = match manifest {
        Some(ref m) => Some(m@),
        None => None::<MopsConfigModel>,
    };
    let (version, subs): (Option<String>, Vec<Mops>) = match manifest {
        Some(cfg) => {
            let v: Option<String> = match cfg.version {
                Some(v) => Some(v),
                None => info.guess_version(),
            };
            (v, cfg.dependencies)
        },
        None => (info.guess_version(), Vec::new()),
    };
    let keys = display_keys(&subs);
    let pkg = Package {
        name,
        version,
        source: "github".to_owned(),
        base_dir: info.base_dir.clone(),
        repo: Some(info),
        dependencies: keys,
    };
    proof {
        let m = spec_repo_package(name@, pkg.repo->Some_0@, mang);
        assert(subs.deep_view() =~= (match mang {
            Some(mm) => mm.dependencies,
            None => Seq::<MopsModel>::empty(),
        }));
        assert(pkg@.dependencies =~= m.dependencies);
        assert(pkg@ == m);
        lemma_repo_kind(pkg@);
    }
    (pkg, subs)
}

/// A record whose source is the literal `github` reads as a
/// repository record.
proof fn lemma_repo_kind(p: PackageModel)
    requires
        p.source == "github"@,
        p.repo is Some,
        p.repo->Some_0.wf(),
    ensures
        p.wf(),
        p.dedup_key() == p.name + "-"@ + p.repo->Some_0.commit,
{
    reveal_strlit("github");
    reveal_strlit("file://");
    assert(!crate::text::spec_starts_with(p.source, "file://"@));
}

/// Build the record of a local package at its canonicalized path,
/// from its manifest when the directory holds one.
pub fn local_package(name: String, canonical: String, manifest: Option<MopsConfig>) -> (r: (
    Package,
    Vec<Mops>,
))
    ensures
        r.0@ == spec_local_package(name@, canonical@, match manifest {
            Some(m) => Some(m@),
            None => None,
        }),
        r.1.deep_view() == (match manifest {
            Some(m) => m@.dependencies,
            None => Seq::<MopsModel>::empty(),
        }),
        r.0@.wf(),
        r.0@.dedup_key() == name@ + "-"@ + canonical@,
{
    let ghost mang = match manifest {
        Some(ref m) => Some(m@),
        None => None::<MopsConfigModel>,
    };
    let (version, subs): (Option<String>, Vec<Mops>) = match manifest {
        Some(cfg) => (cfg.version, cfg.dependencies),
        None => (None, Vec::new()),
    };
    let keys = display_keys(&subs);
    let mut source = "file://".to_owned();
    source.append(canonical.as_str());
    let pkg = Package {
        name,
        version,
        source,
        base_dir: "src".to_owned(),
        repo: None,
        dependencies: keys,
    };
    proof {
        let m = spec_local_package(name@, canonical@, mang);
        assert(subs.deep_view() =~= (match mang {
            Some(mm) => mm.dependencies,
            None => Seq::<MopsModel>::empty(),
        }));
        assert(pkg@.dependencies =~= m.dependencies);
        assert(pkg@ == m);
        lemma_local_kind(pkg@, canonical@);
    }
    (pkg, subs)
}

/// A record whose source is `file://` and a path reads as a local
/// record at that path.
proof fn lemma_local_kind(p: PackageModel, canonical: Seq<char>)
    requires
        p.source == "file://"@ + canonical,
    ensures
        p.wf(),
        p.kind() == crate::model::PackageKind::Local(canonical),
        p.dedup_key() == p.name + "-"@ + canonical,
{
    assert(crate::text::spec_starts_with(p.source, "file://"@)) by {
        assert(p.source.subrange(0, "file://"@.len() as int) =~= "file://"@);
    }
    assert(p.source.skip("file://"@.len() as int) =~= canonical);
}

/// No two records of a well-formed walker map share a DedupKey: the
/// keys are strictly sorted, and each record stands under its own.
pub proof fn lemma_walker_deduplicates(w: Walker)
    requires
        w.wf(),
    ensures
        forall|i: int, j: int|
            0 <= i < w.map@.vals.len() && 0 <= j < w.map@.vals.len() && i != j ==> (
            #[trigger] w.map@.vals[i]).dedup_key() != (#[trigger] w.map@.vals[j]).dedup_key(),
{
    lemma_sorted_distinct(w.map@.keys);
}

/// The walker's termination measure, for a graph of at most
/// `key_bound` distinct DedupKeys none of whose packages declares
/// more than `dep_bound` dependencies.
pub open spec fn walker_measure(w: Walker, key_bound: int, dep_bound: int) -> int {
    w.queue@.len() + (key_bound - w.map@.keys.len()) * (dep_bound + 1)
}

/// A step that drops an already-seen reference shrinks the measure.
pub proof fn lemma_skip_decreases(pre: Walker, post: Walker, key_bound: int, dep_bound: int)
    requires
        pre.queue@.len() > 0,
        post.queue@ == pre.queue@.drop_first(),
        post.map@ == pre.map@,
        pre.map@.keys.len() <= key_bound,
        dep_bound >= 0,
    ensures
        0 <= walker_measure(post, key_bound, dep_bound) < walker_measure(pre, key_bound, dep_bound),
{
    let slack = key_bound - pre.map@.keys.len();
    assert(slack * (dep_bound + 1) >= 0) by (nonlinear_arith)
        requires
            slack >= 0,
            dep_bound >= 0,
    ;
}

/// A step that records a fresh package shrinks the measure, even
/// with all the package's sub-dependencies enqueued.  Every walker
/// step is of this shape or of `lemma_skip_decreases`'s, and the
/// measure starts at most `queue + key_bound * (dep_bound + 1)`, so
/// the walk ends within that many steps.
pub proof fn lemma_insert_decreases(
    pre: Walker,
    post: Walker,
    subdeps: Seq<Mops>,
    key_bound: int,
    dep_bound: int,
)
    requires
        pre.queue@.len() > 0,
        post.queue@ == pre.queue@.drop_first() + subdeps,
        post.map@.keys.len() == pre.map@.keys.len() + 1,
        pre.map@.keys.len() < key_bound,
        subdeps.len() <= dep_bound,
    ensures
        0 <= walker_measure(post, key_bound, dep_bound) < walker_measure(pre, key_bound, dep_bound),
{
    let slack = key_bound - pre.map@.keys.len();
    assert(slack >= 1);
    assert((slack - 1) * (dep_bound + 1) == slack * (dep_bound + 1) - (dep_bound + 1))
        by (nonlinear_arith);
    assert(slack * (dep_bound + 1) >= dep_bound + 1) by (nonlinear_arith)
        requires
            slack >= 1,
            dep_bound >= 0,
    ;
}

} // verus!
