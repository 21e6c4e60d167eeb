//! A map from string keys to packages, kept as two parallel vectors
//! sorted strictly by key.  The walker keys it by DedupKey, the
//! resolver by package name; in both places the sorted order is what
//! makes the produced lockfile deterministic.

use vstd::prelude::*;
use crate::model::{Package, PackageModel};
use crate::text::{str_le, str_lt, str_le_exec, str_eq, lemma_str_le_total, lemma_str_le_antisym,
    lemma_str_le_trans, lemma_str_lt_trans};

verus! {

/// Strictly ascending keys: no two are equal.
pub open spec fn sorted_strict(ks: Seq<Seq<char>>) -> bool {
    forall|i: int, j: int| 0 <= i < j < ks.len() ==> str_lt(#[trigger] ks[i], #[trigger] ks[j])
}

/// Where a fresh key lands in a sorted key sequence.
pub open spec fn spec_insert_at(ks: Seq<Seq<char>>, k: Seq<char>) -> int
    decreases ks.len(),
{
    if ks.len() == 0 {
        0
    } else if str_lt(k, ks[0]) {
        0
    } else {
        1 + spec_insert_at(ks.drop_first(), k)
    }
}

/// The insertion point is a valid index and splits the keys into
/// those at most `k` and those above `k`.
pub proof fn lemma_insert_at(ks: Seq<Seq<char>>, k: Seq<char>)
    ensures
        0 <= spec_insert_at(ks, k) <= ks.len(),
        forall|j: int| 0 <= j < spec_insert_at(ks, k) ==> !str_lt(k, #[trigger] ks[j]),
        forall|j: int| spec_insert_at(ks, k) <= j < ks.len() ==> str_lt(k, #[trigger] ks[j])
            || !sorted_strict(ks),
    decreases ks.len(),
{
    if ks.len() > 0 && !str_lt(k, ks[0]) {
        let tail = ks.drop_first();
        lemma_insert_at(tail, k);
        assert(forall|i: int| 1 <= i < ks.len() ==> #[trigger] ks[i] == tail[i - 1]);
        if sorted_strict(ks) {
            assert(sorted_strict(tail));
            let p = spec_insert_at(ks, k);
            assert forall|j: int| p <= j < ks.len() implies str_lt(k, ks[j]) by {
                if j == 0 {
                    // p >= 1 here, so this case cannot arise
                    assert(false);
                } else {
                    assert(str_lt(k, tail[j - 1]) || !sorted_strict(tail));
                }
            }
        }
    } else if ks.len() > 0 && str_lt(k, ks[0]) && sorted_strict(ks) {
        assert forall|j: int| 0 <= j < ks.len() implies str_lt(k, ks[j]) by {
            if j > 0 {
                assert(str_lt(ks[0], ks[j]));
                lemma_str_lt_trans(k, ks[0], ks[j]);
            }
        }
    }
}

/// A key sequence stays strictly sorted when a fresh key is inserted
/// at its insertion point.
pub proof fn lemma_insert_sorted(ks: Seq<Seq<char>>, k: Seq<char>)
    requires
        sorted_strict(ks),
        forall|i: int| 0 <= i < ks.len() ==> #[trigger] ks[i] != k,
    ensures
        sorted_strict(ks.insert(spec_insert_at(ks, k), k)),
{
    let p = spec_insert_at(ks, k);
    lemma_insert_at(ks, k);
    let ns = ks.insert(p, k);
    assert forall|i: int, j: int| 0 <= i < j < ns.len() implies str_lt(
        #[trigger] ns[i],
        #[trigger] ns[j],
    ) by {
        if i < p && j == p {
            // ks[i] is not above k and differs from it, so it is below
            lemma_str_le_total(k, ks[i]);
            if str_le(k, ks[i]) && str_le(ks[i], k) {
                lemma_str_le_antisym(k, ks[i]);
            }
            assert(str_lt(ks[i], k));
        } else if i == p && j > p {
            assert(str_lt(k, ks[j - 1]));
        } else if i < p && j > p {
            assert(str_lt(ks[i], ks[j - 1]));
        } else if i < p && j < p {
            assert(str_lt(ks[i], ks[j]));
        } else if i > p && j > p {
            assert(str_lt(ks[i - 1], ks[j - 1]));
        }
    }
}

/// Strictly sorted keys are pairwise distinct.
pub proof fn lemma_sorted_distinct(ks: Seq<Seq<char>>)
    requires
        sorted_strict(ks),
    ensures
        forall|i: int, j: int|
            0 <= i < ks.len() && 0 <= j < ks.len() && i != j ==> #[trigger] ks[i] != #[trigger] ks[j],
{
}

/// A value-wise property survives an upsert that inserts or replaces
/// with a value that has it.
pub proof fn lemma_upsert_vals(
    m: MapModel,
    k: Seq<char>,
    v: PackageModel,
    pred: spec_fn(PackageModel) -> bool,
)
    requires
        m.keys.len() == m.vals.len(),
        forall|j: int| 0 <= j < m.vals.len() ==> #[trigger] pred(m.vals[j]),
        pred(v),
    ensures
        forall|j: int|
            0 <= j < spec_upsert(m, k, v).vals.len() ==> #[trigger] pred(spec_upsert(m, k, v).vals[j]),
{
    let r = spec_upsert(m, k, v);
    lemma_find_key_in_range(m.keys, k);
    match spec_find_key(m.keys, k) {
        Some(i) => {
            assert forall|j: int| 0 <= j < r.vals.len() implies #[trigger] pred(r.vals[j]) by {
                if j != i {
                    assert(r.vals[j] == m.vals[j]);
                }
            }
        },
        None => {
            let pos = spec_insert_at(m.keys, k);
            lemma_insert_at(m.keys, k);
            assert forall|j: int| 0 <= j < r.vals.len() implies #[trigger] pred(r.vals[j]) by {
                if j < pos {
                    assert(r.vals[j] == m.vals[j]);
                } else if j == pos {
                    assert(r.vals[j] == v);
                } else {
                    assert(r.vals[j] == m.vals[j - 1]);
                }
            }
        },
    }
}

/// A found key lies inside the key sequence.
pub proof fn lemma_find_key_in_range(ks: Seq<Seq<char>>, k: Seq<char>)
    ensures
        match spec_find_key(ks, k) {
            Some(i) => 0 <= i < ks.len(),
            None => true,
        },
    decreases ks.len(),
{
    if ks.len() > 0 && ks[0] != k {
        lemma_find_key_in_range(ks.drop_first(), k);
    }
}

/// A map from string keys to packages, sorted strictly by key.
pub struct PackageMap {
    pub keys: Vec<String>,
    pub vals: Vec<Package>,
}

/// The mathematical value of a `PackageMap`: parallel key and value
/// sequences.
pub ghost struct MapModel {
    pub keys: Seq<Seq<char>>,
    pub vals: Seq<PackageModel>,
}

impl View for PackageMap {
    type V = MapModel;

    open spec fn view(&self) -> MapModel {
        MapModel { keys: self.keys.deep_view(), vals: self.vals.deep_view() }
    }
}

/// The index of the first key equal to `k`.
pub open spec fn spec_find_key(ks: Seq<Seq<char>>, k: Seq<char>) -> Option<int>
    decreases ks.len(),
{
    if ks.len() == 0 {
        None
    } else if ks[0] == k {
        Some(0)
    } else {
        match spec_find_key(ks.drop_first(), k) {
            Some(i) => Some(i + 1),
            None => None,
        }
    }
}

/// A hit with a clear prefix pins `spec_find_key` down exactly.
pub proof fn lemma_find_key_hit(ks: Seq<Seq<char>>, k: Seq<char>, i: int)
    requires
        0 <= i < ks.len(),
        ks[i] == k,
        forall|j: int| 0 <= j < i ==> ks[j] != k,
    ensures
        spec_find_key(ks, k) == Some(i),
    decreases i,
{
    if i > 0 {
        let tail = ks.drop_first();
        assert(forall|j: int| 0 <= j < tail.len() ==> #[trigger] tail[j] == ks[j + 1]);
        lemma_find_key_hit(tail, k, i - 1);
    }
}

/// Without a hit, `spec_find_key` finds nothing.
pub proof fn lemma_find_key_miss(ks: Seq<Seq<char>>, k: Seq<char>)
    requires
        forall|j: int| 0 <= j < ks.len() ==> #[trigger] ks[j] != k,
    ensures
        spec_find_key(ks, k) is None,
    decreases ks.len(),
{
    if ks.len() > 0 {
        let tail = ks.drop_first();
        assert(forall|j: int| 0 <= j < tail.len() ==> #[trigger] tail[j] == ks[j + 1]);
        lemma_find_key_miss(tail, k);
    }
}

/// Insert under a fresh key, replace under a present one: how a
/// lockfile's records seed the walker, later duplicates winning.
pub open spec fn spec_upsert(m: MapModel, k: Seq<char>, v: PackageModel) -> MapModel {
    match spec_find_key(m.keys, k) {
        Some(i) => MapModel { keys: m.keys, vals: m.vals.update(i, v) },
        None => MapModel {
            keys: m.keys.insert(spec_insert_at(m.keys, k), k),
            vals: m.vals.insert(spec_insert_at(m.keys, k), v),
        },
    }
}

impl PackageMap {
    /// The keys, in ascending order.
    pub open spec fn key_seq(self) -> Seq<Seq<char>> {
        self.keys.deep_view()
    }

    /// The package models, in key order.
    pub open spec fn val_seq(self) -> Seq<PackageModel> {
        self.vals.deep_view()
    }

    /// Parallel vectors with strictly sorted keys.
    pub open spec fn wf(self) -> bool {
        self.keys.len() == self.vals.len() && sorted_strict(self.key_seq())
    }

    pub open spec fn spec_len(self) -> nat {
        self.key_seq().len()
    }

    /// Does some entry carry this key?
    pub open spec fn contains_key(self, k: Seq<char>) -> bool {
        exists|i: int| 0 <= i < self.key_seq().len() && self.key_seq()[i] == k
    }

    pub fn new() -> (r: PackageMap)
        ensures
            r.wf(),
            r.key_seq() == Seq::<Seq<char>>::empty(),
            r.val_seq() == Seq::<PackageModel>::empty(),
    {
        let r = PackageMap { keys: Vec::new(), vals: Vec::new() };
        proof {
            assert(r.key_seq() =~= Seq::<Seq<char>>::empty());
            assert(r.val_seq() =~= Seq::<PackageModel>::empty());
        }
        r
    }

    pub fn len(&self) -> (r: usize)
        requires
            self.wf(),
        ensures
            r == self.spec_len(),
    {
        self.keys.len()
    }

    /// The packages in ascending key order.
    pub fn packages(&self) -> (r: &Vec<Package>)
        ensures
            r.deep_view() == self.val_seq(),
    {
        &self.vals
    }

    /// The index of the entry carrying `k`, if one does.
    pub fn find(&self, k: &str) -> (r: Option<usize>)
        requires
            self.wf(),
        ensures
            match r {
                Some(i) => i < self.spec_len() && self.key_seq()[i as int] == k@
                    && spec_find_key(self.key_seq(), k@) == Some(i as int),
                None => !self.contains_key(k@) && spec_find_key(self.key_seq(), k@) is None,
            },
    {
        let n = self.keys.len();
        let mut i: usize = 0;
        while i < n
            invariant
                0 <= i <= n,
                n == self.key_seq().len(),
                self.keys.len() == n,
                forall|j: int| 0 <= j < i ==> self.key_seq()[j] != k@,
            decreases n - i,
        {
            if str_eq(self.keys[i].as_str(), k) {
                proof {
                    lemma_find_key_hit(self.key_seq(), k@, i as int);
                }
                return Some(i);
            }
            i = i + 1;
        }
        proof {
            lemma_find_key_miss(self.key_seq(), k@);
        }
        None
    }

    /// Insert under a fresh key, replace the value under a present
    /// one.
    pub fn upsert(&mut self, k: String, p: Package)
        requires
            old(self).wf(),
        ensures
            final(self).wf(),
            final(self)@ == spec_upsert(old(self)@, k@, p@),
            final(self).spec_len() >= old(self).spec_len(),
    {
        match self.find(k.as_str()) {
            Some(i) => {
                self.set_val(i, p);
            },
            None => {
                self.insert(k, p);
            },
        }
    }

    /// Does the map hold an entry for `k`?
    pub fn has_key(&self, k: &str) -> (r: bool)
        requires
            self.wf(),
        ensures
            r == self.contains_key(k@),
    {
        self.find(k).is_some()
    }

    /// The package stored under `k`, if any.
    pub fn get(&self, k: &str) -> (r: Option<&Package>)
        requires
            self.wf(),
        ensures
            match r {
                Some(p) => self.contains_key(k@) && exists|i: int|
                    0 <= i < self.spec_len() && self.key_seq()[i] == k@ && p@ == self.val_seq()[i],
                None => !self.contains_key(k@),
            },
    {
        match self.find(k) {
            Some(i) => Some(&self.vals[i]),
            None => None,
        }
    }

    /// Replace the package at entry `i`, keeping its key.
    pub fn set_val(&mut self, i: usize, p: Package)
        requires
            old(self).wf(),
            i < old(self).spec_len(),
        ensures
            final(self).wf(),
            final(self).key_seq() == old(self).key_seq(),
            final(self).val_seq() == old(self).val_seq().update(i as int, p@),
    {
        self.vals.set(i, p);
        proof {
            assert(self.key_seq() =~= old(self).key_seq());
            assert(self.val_seq() =~= old(self).val_seq().update(i as int, p@));
        }
    }

    /// Insert a fresh key at its sorted position.
    pub fn insert(&mut self, k: String, p: Package)
        requires
            old(self).wf(),
            !old(self).contains_key(k@),
        ensures
            final(self).wf(),
            final(self).key_seq() == old(self).key_seq().insert(
                spec_insert_at(old(self).key_seq(), k@),
                k@,
            ),
            final(self).val_seq() == old(self).val_seq().insert(
                spec_insert_at(old(self).key_seq(), k@),
                p@,
            ),
            final(self).contains_key(k@),
            final(self).spec_len() == old(self).spec_len() + 1,
    {
        let ghost ks = self.key_seq();
        let ghost pos = spec_insert_at(ks, k@);
        proof {
            lemma_insert_at(ks, k@);
            assert(forall|i: int| 0 <= i < ks.len() ==> #[trigger] ks[i] != k@);
            lemma_insert_sorted(ks, k@);
        }
        let i = self.insert_pos(k.as_str());
        let ghost old_keys = self.key_seq();
        let ghost old_vals = self.val_seq();
        self.keys.insert(i, k);
        self.vals.insert(i, p);
        proof {
            assert(self.key_seq() =~= old_keys.insert(pos, k@));
            assert(self.val_seq() =~= old_vals.insert(pos, p@));
            assert(self.key_seq()[pos] == k@);
        }
    }

    /// The sorted position at which a fresh key is inserted.
    fn insert_pos(&self, k: &str) -> (r: usize)
        requires
            self.wf(),
            !self.contains_key(k@),
        ensures
            r == spec_insert_at(self.key_seq(), k@),
            r <= self.spec_len(),
    {
        let ghost ks = self.key_seq();
        let n = self.keys.len();
        let mut i: usize = 0;
        while i < n
            invariant
                0 <= i <= n,
                n == ks.len(),
                self.keys.len() == n,
                self.wf(),
                !self.contains_key(k@),
                ks == self.key_seq(),
                forall|j: int| 0 <= j < i ==> !str_lt(k@, #[trigger] ks[j]),
            decreases n - i,
        {
            if str_le_exec(k, self.keys[i].as_str()) {
                proof {
                    assert(ks[i as int] != k@);
                    assert(str_lt(k@, ks[i as int]));
                    lemma_insert_at_prefix(ks, k@, i as int);
                }
                return i;
            }
            proof {
                lemma_str_le_total(k@, ks[i as int]);
                assert(!str_lt(k@, ks[i as int]));
            }
            i = i + 1;
        }
        proof {
            lemma_insert_at_prefix(ks, k@, n as int);
        }
        n
    }
}

/// When no key among the first `i` lies above `k`, the insertion
/// point is found past them.
proof fn lemma_insert_at_prefix(ks: Seq<Seq<char>>, k: Seq<char>, i: int)
    requires
        0 <= i <= ks.len(),
        forall|j: int| 0 <= j < i ==> !str_lt(k, #[trigger] ks[j]),
        i < ks.len() ==> str_lt(k, ks[i]),
    ensures
        spec_insert_at(ks, k) == i,
    decreases i,
{
    if i > 0 {
        let tail = ks.drop_first();
        assert(forall|j: int| 0 <= j < tail.len() ==> #[trigger] tail[j] == ks[j + 1]);
        lemma_insert_at_prefix(tail, k, i - 1);
    }
}

} // verus!
