//! The version resolver: collapse the walker's records, several of
//! which may share a logical name, into one record per name.  A newer
//! parseable semantic version silently wins; a missing or unparseable
//! version on either side stops the build with both records shown.

use vstd::prelude::*;
use crate::error::Error;
use crate::lockfile::{serialize_package, spec_package_lines, spec_serialize_lock, lock_wf};
use crate::model::{Package, PackageModel};
use crate::pkgmap::{PackageMap, MapModel, spec_find_key, spec_upsert, sorted_strict,
    lemma_sorted_distinct};
use crate::text::spec_unlines;
use crate::walker::{lemma_find_key_bounds};

verus! {

/// Whether a string parses under the semantic-version grammar: a
/// dotted numeric triple with optional pre-release and build
/// metadata.
pub uninterp spec fn semver_ok(s: Seq<char>) -> bool;

/// The precedence order of two parseable semantic versions.
pub uninterp spec fn semver_lt(a: Seq<char>, b: Seq<char>) -> bool;

/// Relies on semver::Version::parse, which accepts exactly the
/// semantic-version grammar, and on the `Ord` of semver::Version,
/// which orders by precedence and breaks ties among equal-precedence
/// versions by build metadata.  Both results depend on the two
/// strings alone.
#[verifier::external_body]
fn version_less(a: &str, b: &str) -> (r: Option<bool>)
    ensures
        r is Some <==> (semver_ok(a@) && semver_ok(b@)),
        r is Some ==> r->Some_0 == semver_lt(a@, b@),
{
    match (semver::Version::parse(a), semver::Version::parse(b)) {
        (Ok(x), Ok(y)) => Some(x < y),
        _ => None,
    }
}

/// What one record does to the name-keyed accumulator: a fresh name
/// is adopted; a seen name keeps the newer of the two parseable
/// versions; anything else is a conflict carrying both records.
pub open spec fn spec_resolve_step(acc: MapModel, p: PackageModel) -> Result<
    MapModel,
    (PackageModel, PackageModel),
> {
    match spec_find_key(acc.keys, p.name) {
        Some(i) => {
            let e = acc.vals[i];
            match (e.version, p.version) {
                (Some(ve), Some(vp)) => if !semver_ok(ve) || !semver_ok(vp) {
                    Err((e, p))
                } else if semver_lt(ve, vp) {
                    Ok(spec_upsert(acc, p.name, p))
                } else {
                    Ok(acc)
                },
                _ => Err((e, p)),
            }
        },
        None => Ok(spec_upsert(acc, p.name, p)),
    }
}

/// The empty accumulator.
pub open spec fn spec_empty_map() -> MapModel {
    MapModel { keys: Seq::empty(), vals: Seq::empty() }
}

/// The records folded into the accumulator, in walker-map order.
pub open spec fn spec_resolve(acc: MapModel, ps: Seq<PackageModel>) -> Result<
    MapModel,
    (PackageModel, PackageModel),
>
    decreases ps.len(),
{
    if ps.len() == 0 {
        Ok(acc)
    } else {
        match spec_resolve_step(acc, ps[0]) {
            Ok(acc2) => spec_resolve(acc2, ps.drop_first()),
            Err(e) => Err(e),
        }
    }
}

/// The whole resolution of a record sequence.
pub open spec fn spec_resolved(ps: Seq<PackageModel>) -> Result<
    MapModel,
    (PackageModel, PackageModel),
> {
    spec_resolve(spec_empty_map(), ps)
}

/// A name-keyed accumulator: sorted distinct names, each record
/// standing under its own name.
pub open spec fn name_map_wf(m: MapModel) -> bool {
    &&& m.keys.len() == m.vals.len()
    &&& sorted_strict(m.keys)
    &&& forall|i: int| 0 <= i < m.vals.len() ==> (#[trigger] m.vals[i]).name == m.keys[i]
}

/// Folding keeps the accumulator name-keyed.
proof fn lemma_resolve_step_wf(acc: MapModel, p: PackageModel)
    requires
        name_map_wf(acc),
    ensures
        match spec_resolve_step(acc, p) {
            Ok(acc2) => name_map_wf(acc2),
            Err(e) => true,
        },
{
    lemma_find_key_bounds(acc.keys, p.name);
    match spec_resolve_step(acc, p) {
        Ok(acc2) => {
            lemma_name_upsert(acc, p);
        },
        Err(e) => {},
    }
}

/// Upserting a record under its name keeps the accumulator
/// name-keyed.
proof fn lemma_name_upsert(m: MapModel, v: PackageModel)
    requires
        name_map_wf(m),
    ensures
        name_map_wf(spec_upsert(m, v.name, v)),
{
    let k = v.name;
    let r = spec_upsert(m, k, v);
    match spec_find_key(m.keys, k) {
        Some(i) => {
            lemma_find_key_bounds(m.keys, k);
            assert forall|j: int| 0 <= j < r.vals.len() implies (#[trigger] r.vals[j]).name
                == r.keys[j] by {
                if j != i {
                    assert(r.vals[j] == m.vals[j]);
                }
            }
        },
        None => {
            crate::walker::lemma_find_key_none(m.keys, k);
            crate::pkgmap::lemma_insert_sorted(m.keys, k);
            let pos = crate::pkgmap::spec_insert_at(m.keys, k);
            crate::pkgmap::lemma_insert_at(m.keys, k);
            assert forall|j: int| 0 <= j < r.vals.len() implies (#[trigger] r.vals[j]).name
                == r.keys[j] by {
                if j < pos {
                    assert(r.vals[j] == m.vals[j] && r.keys[j] == m.keys[j]);
                } else if j == pos {
                    assert(r.vals[j] == v && r.keys[j] == k);
                } else {
                    assert(r.vals[j] == m.vals[j - 1] && r.keys[j] == m.keys[j - 1]);
                }
            }
        },
    }
}

/// Does some record of the sequence carry this name?
pub open spec fn has_name(vals: Seq<PackageModel>, n: Seq<char>) -> bool {
    exists|i: int| 0 <= i < vals.len() && vals[i].name == n
}

/// One step leaves exactly the names seen so far plus the record's
/// own.
proof fn lemma_step_names(acc: MapModel, p: PackageModel)
    requires
        name_map_wf(acc),
    ensures
        match spec_resolve_step(acc, p) {
            Ok(acc2) => forall|n: Seq<char>|
                #[trigger] has_name(acc2.vals, n) <==> (has_name(acc.vals, n) || n == p.name),
            Err(e) => true,
        },
{
    lemma_find_key_bounds(acc.keys, p.name);
    match spec_resolve_step(acc, p) {
        Ok(acc2) => {
            match spec_find_key(acc.keys, p.name) {
                Some(i) => {
                    assert(acc.vals[i].name == acc.keys[i]);
                    assert(acc.vals[i].name == p.name);
                    assert forall|n: Seq<char>| #[trigger] has_name(acc2.vals, n) <==> (has_name(
                        acc.vals,
                        n,
                    ) || n == p.name) by {
                        if has_name(acc2.vals, n) {
                            let j = choose|j: int|
                                0 <= j < acc2.vals.len() && acc2.vals[j].name == n;
                            if acc2.vals[j] != acc.vals[j] {
                                assert(acc2.vals[j] == p);
                            } else {
                                assert(acc.vals[j].name == n);
                            }
                        }
                        if has_name(acc.vals, n) {
                            let j = choose|j: int| 0 <= j < acc.vals.len() && acc.vals[j].name == n;
                            if acc2.vals != acc.vals && j == i {
                                assert(n == p.name);
                            } else if acc2.vals != acc.vals {
                                assert(acc2.vals[j].name == n);
                            }
                        }
                        if n == p.name {
                            assert(acc2.vals[i].name == n);
                        }
                    }
                },
                None => {
                    let pos = crate::pkgmap::spec_insert_at(acc.keys, p.name);
                    crate::pkgmap::lemma_insert_at(acc.keys, p.name);
                    assert forall|n: Seq<char>| #[trigger] has_name(acc2.vals, n) <==> (has_name(
                        acc.vals,
                        n,
                    ) || n == p.name) by {
                        if has_name(acc2.vals, n) {
                            let j = choose|j: int|
                                0 <= j < acc2.vals.len() && acc2.vals[j].name == n;
                            if j < pos {
                                assert(acc.vals[j].name == n);
                            } else if j == pos {
                                assert(n == p.name);
                            } else {
                                assert(acc.vals[j - 1].name == n);
                            }
                        }
                        if has_name(acc.vals, n) {
                            let j = choose|j: int| 0 <= j < acc.vals.len() && acc.vals[j].name == n;
                            if j < pos {
                                assert(acc2.vals[j].name == n);
                            } else {
                                assert(acc2.vals[j + 1].name == n);
                            }
                        }
                        if n == p.name {
                            assert(acc2.vals[pos].name == n);
                        }
                    }
                },
            }
        },
        Err(e) => {},
    }
}

/// The head of a sequence carries a name, or its tail does.
proof fn lemma_has_name_cons(ps: Seq<PackageModel>, n: Seq<char>)
    requires
        ps.len() > 0,
    ensures
        has_name(ps, n) <==> (ps[0].name == n || has_name(ps.drop_first(), n)),
{
    let t = ps.drop_first();
    assert(forall|j: int| 0 <= j < t.len() ==> #[trigger] t[j] == ps[j + 1]);
    if has_name(ps, n) {
        let j = choose|j: int| 0 <= j < ps.len() && ps[j].name == n;
        if j > 0 {
            assert(t[j - 1].name == n);
        }
    }
    if has_name(t, n) {
        let j = choose|j: int| 0 <= j < t.len() && t[j].name == n;
        assert(ps[j + 1].name == n);
    }
}

/// Folding preserves names: the accumulator ends with exactly the
/// names it started with and those of the folded records.
proof fn lemma_resolve_names(acc: MapModel, ps: Seq<PackageModel>)
    requires
        name_map_wf(acc),
    ensures
        match spec_resolve(acc, ps) {
            Ok(r) => forall|n: Seq<char>|
                #[trigger] has_name(r.vals, n) <==> (has_name(acc.vals, n) || has_name(ps, n)),
            Err(e) => true,
        },
    decreases ps.len(),
{
    if ps.len() == 0 {
        match spec_resolve(acc, ps) {
            Ok(r) => {
                assert forall|n: Seq<char>| #[trigger] has_name(r.vals, n) <==> (has_name(
                    acc.vals,
                    n,
                ) || has_name(ps, n)) by {
                    assert(!has_name(ps, n));
                }
            },
            Err(e) => {},
        }
    } else {
        lemma_step_names(acc, ps[0]);
        lemma_resolve_step_wf(acc, ps[0]);
        match spec_resolve_step(acc, ps[0]) {
            Ok(acc2) => {
                lemma_resolve_names(acc2, ps.drop_first());
                match spec_resolve(acc2, ps.drop_first()) {
                    Ok(r) => {
                        assert forall|n: Seq<char>| #[trigger] has_name(r.vals, n) <==> (has_name(
                            acc.vals,
                            n,
                        ) || has_name(ps, n)) by {
                            lemma_has_name_cons(ps, n);
                        }
                    },
                    Err(e) => {},
                }
            },
            Err(e) => {},
        }
    }
}

/// The resolver neither drops nor invents a logical name: the names
/// of its output are exactly the names among the walker's records,
/// one record per name.
pub proof fn lemma_resolver_preserves_names(ps: Seq<PackageModel>)
    ensures
        match spec_resolved(ps) {
            Ok(r) => forall|n: Seq<char>| #[trigger] has_name(r.vals, n) <==> has_name(ps, n),
            Err(e) => true,
        },
{
    lemma_resolve_names(spec_empty_map(), ps);
    match spec_resolved(ps) {
        Ok(r) => {
            assert forall|n: Seq<char>| #[trigger] has_name(r.vals, n) <==> has_name(ps, n) by {
                assert(!has_name(spec_empty_map().vals, n));
            }
        },
        Err(e) => {},
    }
}

/// Lockfile determinism: every stage from the walker's map to the
/// lockfile text is a mathematical function of its inputs — the
/// walker's transitions pin the map by the manifest and the responses,
/// `spec_resolved` pins the resolution, and `spec_serialize_lock` pins
/// the bytes — so two runs over equal inputs produce byte-identical
/// lockfiles.
pub proof fn lemma_lock_deterministic(m1: MapModel, m2: MapModel)
    requires
        m1 == m2,
    ensures
        spec_resolved(m1.vals) == spec_resolved(m2.vals),
        (spec_resolved(m1.vals) matches Ok(acc) ==> spec_serialize_lock(acc.vals)
            == spec_serialize_lock(spec_resolved(m2.vals)->Ok_0.vals)),
{
}

/// Collapse the walker's records to one per logical name, in name
/// order.  A name seen more than once keeps the record whose version
/// is the newer parseable semantic version; a missing or unparseable
/// version on either side is fatal and carries both records,
/// serialized, in the conflict error.
///
/// The fold is pinned exactly, so each pairwise decision follows
/// `semver_lt`.  That the kept record is the highest of a group of
/// three or more rests on the outside order being total and
/// transitive, which `semver_lt`, an uninterpreted name for what the
/// semver crate computes, deliberately does not state: nothing checked
/// here could hold the crate to such a law.
pub fn resolve_versions(map: PackageMap) -> (r: Result<Vec<Package>, Error>)
    requires
        map.wf(),
        forall|i: int| 0 <= i < map@.vals.len() ==> lock_wf(#[trigger] map@.vals[i]),
    ensures
        match r {
            Ok(pkgs) => {
                let folded = spec_resolved(map@.vals);
                &&& folded matches Ok(acc) && pkgs.deep_view() == acc.vals && name_map_wf(acc)
                &&& forall|i: int, j: int|
                    0 <= i < pkgs.deep_view().len() && 0 <= j < pkgs.deep_view().len() && i != j
                        ==> (#[trigger] pkgs.deep_view()[i]).name != (
                    #[trigger] pkgs.deep_view()[j]).name
            },
            Err(e) => {
                let folded = spec_resolved(map@.vals);
                &&& folded matches Err((a, b))
                &&& e matches Error::VersionConflict(sa, sb) && sa@ == spec_unlines(
                    spec_package_lines(a),
                ) && sb@ == spec_unlines(spec_package_lines(b))
            },
        },
{
    let ghost all = map@.vals;
    let mut res = PackageMap::new();
    proof {
        assert(res@.keys =~= spec_empty_map().keys);
        assert(res@.vals =~= spec_empty_map().vals);
        assert(res@ == spec_empty_map());
    }
    let mut vals = map.vals;
    let ghost mut i: int = 0;
    proof {
        assert(vals.deep_view() =~= all.skip(0));
        assert(spec_resolved(all) == spec_resolve(res@, all.skip(0)));
    }
    while vals.len() > 0
        invariant
            all == map@.vals,
            forall|j: int| 0 <= j < all.len() ==> lock_wf(#[trigger] all[j]),
            forall|j: int| 0 <= j < res@.vals.len() ==> lock_wf(#[trigger] res@.vals[j]),
            0 <= i <= all.len(),
            vals.deep_view() == all.skip(i),
            res.wf(),
            name_map_wf(res@),
            spec_resolved(all) == spec_resolve(res@, all.skip(i)),
        decreases vals@.len(),
    {
        let ghost prev = vals.deep_view();
        let pkg = vals.remove(0);
        proof {
            assert(vals.deep_view() =~= prev.drop_first());
            assert(prev.drop_first() =~= all.skip(i + 1));
            assert(pkg@ == prev[0]);
            assert(prev[0] == all.skip(i)[0]);
            assert(all.skip(i)[0] == all[i]);
            lemma_resolve_step_wf(res@, pkg@);
        }
        let ghost stepped = spec_resolve_step(res@, pkg@);
        proof {
            assert(spec_resolve(res@, all.skip(i)) == (match stepped {
                Ok(acc2) => spec_resolve(acc2, all.skip(i + 1)),
                Err(e) => Err(e),
            }));
        }
        let found = res.find(pkg.name.as_str());
        match found {
            Some(idx) => {
                let decision: Result<bool, Error> = {
                    let existing: &Package = &res.packages()[idx];
                    proof {
                        assert(existing@ == res@.vals[idx as int]);
                    }
                    match (&existing.version, &pkg.version) {
                        (Some(ve), Some(vp)) => {
                            match version_less(ve.as_str(), vp.as_str()) {
                                Some(less) => Ok(less),
                                None => Err(
                                    Error::VersionConflict(
                                        serialize_package(existing),
                                        serialize_package(&pkg),
                                    ),
                                ),
                            }
                        },
                        _ => Err(
                            Error::VersionConflict(
                                serialize_package(existing),
                                serialize_package(&pkg),
                            ),
                        ),
                    }
                };
                let take_new: bool = match decision {
                    Ok(t) => t,
                    Err(e) => {
                        proof {
                            assert(stepped == Err::<MapModel, (PackageModel, PackageModel)>((
                                res@.vals[idx as int],
                                pkg@,
                            )));
                            assert(spec_resolved(all) == stepped);
                        }
                        return Err(e);
                    },
                };
                if take_new {
                    let ghost pre = res@;
                    res.set_val(idx, pkg);
                    proof {
                        assert(res@.keys =~= spec_upsert(pre, all[i].name, all[i]).keys);
                        assert(res@.vals =~= spec_upsert(pre, all[i].name, all[i]).vals);
                        assert(res@ == spec_upsert(pre, all[i].name, all[i]));
                        let keep = |q: PackageModel| lock_wf(q);
                        crate::pkgmap::lemma_upsert_vals(pre, all[i].name, all[i], keep);
                        assert forall|j: int| 0 <= j < res@.vals.len() implies lock_wf(
                            #[trigger] res@.vals[j],
                        ) by {
                            assert(keep(res@.vals[j]));
                        }
                    }
                }
            },
            None => {
                let ghost pre = res@;
                let name_key = pkg.name.as_str().to_owned();
                res.insert(name_key, pkg);
                proof {
                    assert(res@.keys =~= spec_upsert(pre, all[i].name, all[i]).keys);
                    assert(res@.vals =~= spec_upsert(pre, all[i].name, all[i]).vals);
                    assert(res@ == spec_upsert(pre, all[i].name, all[i]));
                    let keep = |q: PackageModel| lock_wf(q);
                    crate::pkgmap::lemma_upsert_vals(pre, all[i].name, all[i], keep);
                    assert forall|j: int| 0 <= j < res@.vals.len() implies lock_wf(
                        #[trigger] res@.vals[j],
                    ) by {
                        assert(keep(res@.vals[j]));
                    }
                }
            },
        }
        proof {
            assert(all.skip(i).drop_first() =~= all.skip(i + 1));
            i = i + 1;
        }
    }
    let ghost final_model = res@;
    proof {
        assert(all.skip(i) =~= Seq::<PackageModel>::empty());
        lemma_sorted_distinct(final_model.keys);
        let folded = spec_resolved(all);
        assert(folded == spec_resolve(final_model, all.skip(i)));
        assert(folded matches Ok(acc) && acc == final_model);
        assert(forall|a: int, b: int|
            0 <= a < final_model.vals.len() && 0 <= b < final_model.vals.len() && a != b ==> (
            #[trigger] final_model.vals[a]).name != (#[trigger] final_model.vals[b]).name);
    }
    let out = res.vals;
    proof {
        assert(out.deep_view() == final_model.vals);
    }
    Ok(out)
}

} // verus!
