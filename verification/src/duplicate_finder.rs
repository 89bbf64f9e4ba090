//! The entry registry: accumulates `(path, size)` observations from the
//! external tree walker into a size-keyed index, and hands out the members
//! of populous size buckets (two or more entries) as candidates for
//! fingerprinting.  A bucket with a single member can never contribute a
//! duplicate and is pruned here, without ever being fingerprinted.

use vstd::prelude::*;
use crate::order::copy_bytes;

verus! {

/// One observed regular file: its path, as a byte string, and its byte size.
pub struct FileEntry {
    pub path: Vec<u8>,
    pub size: u64,
}

/// Paths of the entries are pairwise distinct: each physical file is
/// observed at most once.
pub open spec fn distinct_paths(entries: Seq<FileEntry>) -> bool {
    forall|i: int, j: int| 0 <= i < j < entries.len() ==> entries[i].path@ != entries[j].path@
}

/// `e` records the same observation as `entries[i]`.
pub open spec fn entry_matches(e: FileEntry, entries: Seq<FileEntry>, i: int) -> bool {
    e.path@ == entries[i].path@ && e.size == entries[i].size
}

/// Entry `i` shares its size with at least one other entry.
pub open spec fn in_populous_bucket(entries: Seq<FileEntry>, i: int) -> bool {
    exists|j: int| 0 <= j < entries.len() && j != i && entries[j].size == entries[i].size
}

/// `prov` names, for each candidate, the entry it records: every candidate
/// records an entry that shares its size with another entry, every such
/// entry is recorded by some candidate, and no path is listed twice.
pub open spec fn candidate_prov_ok(
    cands: Seq<FileEntry>,
    entries: Seq<FileEntry>,
    prov: Seq<int>,
) -> bool {
    &&& prov.len() == cands.len()
    &&& forall|c: int| #![trigger prov[c]] 0 <= c < cands.len() ==> (0 <= prov[c] < entries.len()
        && entry_matches(cands[c], entries, prov[c]) && in_populous_bucket(entries, prov[c]))
    &&& forall|e: int|
        0 <= e < entries.len() && #[trigger] in_populous_bucket(entries, e) ==> (exists|c: int|
            0 <= c < cands.len() && prov[c] == e)
    &&& distinct_paths(cands)
}

/// `cands` lists exactly the entries that share their size with another
/// entry, each under its own path, once.
pub open spec fn candidate_list_ok(cands: Seq<FileEntry>, entries: Seq<FileEntry>) -> bool {
    exists|prov: Seq<int>| candidate_prov_ok(cands, entries, prov)
}

#[verifier::external_type_specification]
#[verifier::external_body]
#[verifier::reject_recursive_types(K)]
#[verifier::reject_recursive_types(V)]
#[verifier::reject_recursive_types(S)]
pub struct ExMultiMap<K, V, S>(multimap::MultiMap<K, V, S>);

/// What a size-keyed index holds: for each present size key, the sequence of
/// entry indices inserted under it, in insertion order.
pub uninterp spec fn multimap_model(m: multimap::MultiMap<u64, usize>) -> Map<u64, Seq<usize>>;

/// The index with no keys at all.
pub open spec fn empty_index() -> Map<u64, Seq<usize>> {
    Map::empty()
}

/// Relies on multimap::MultiMap::new; nothing is assumed of the result, a
/// reset follows before the map is used.
#[verifier::external_body]
fn multimap_fresh() -> multimap::MultiMap<u64, usize> {
    multimap::MultiMap::new()
}

/// Relies on multimap::MultiMap::new: the new map has no keys.
#[verifier::external_body]
fn multimap_reset(m: &mut multimap::MultiMap<u64, usize>)
    ensures
        multimap_model(*final(m)) == empty_index(),
{
    *m = multimap::MultiMap::new();
}

/// Relies on multimap::MultiMap::insert: appends the value to the key's
/// entry vector, creating a one-element vector if the key is new.
#[verifier::external_body]
fn multimap_insert(m: &mut multimap::MultiMap<u64, usize>, k: u64, v: usize)
    ensures
        multimap_model(*final(m)) == (if multimap_model(*old(m)).contains_key(k) {
            multimap_model(*old(m)).insert(k, multimap_model(*old(m))[k].push(v))
        } else {
            multimap_model(*old(m)).insert(k, seq![v])
        }),
{
    m.insert(k, v)
}

/// Relies on multimap::MultiMap::get_vec: returns the key's entry vector if
/// the key is present; here only its length is handed back.
#[verifier::external_body]
fn multimap_key_count(m: &multimap::MultiMap<u64, usize>, k: u64) -> (n: usize)
    ensures
        n == (if multimap_model(*m).contains_key(k) {
            multimap_model(*m)[k].len()
        } else {
            0
        }),
{
    match m.get_vec(&k) {
        Some(v) => v.len(),
        None => 0,
    }
}

/// The entry registry.  Observations are held in insertion order; a
/// size-keyed index maps each size to the indices of the entries of that
/// size, so that singleton buckets are recognized in constant time.
pub struct DuplicateFinder {
    all_files: multimap::MultiMap<u64, usize>,
    entries: Vec<FileEntry>,
}

impl DuplicateFinder {
    /// The observations registered so far, in insertion order.
    pub closed spec fn observations(&self) -> Seq<FileEntry> {
        self.entries@
    }

    /// The size index lists exactly the entry indices of each size, each
    /// once, and no two observations share a path.
    pub closed spec fn wf(&self) -> bool {
        let m = multimap_model(self.all_files);
        &&& forall|s: u64| #[trigger] m.contains_key(s) ==> (forall|t: int|
            0 <= t < m[s].len() ==> ((m[s][t] as int) < self.entries@.len()
                && self.entries@[m[s][t] as int].size == s))
        &&& forall|i: int| 0 <= i < self.entries@.len() ==> m.contains_key(
            #[trigger] self.entries@[i].size,
        ) && m[self.entries@[i].size].contains(i as usize)
        &&& forall|s: u64| #[trigger] m.contains_key(s) ==> m[s].no_duplicates()
        &&& distinct_paths(self.entries@)
    }

    /// Some observation already carries path `q`.
    pub open spec fn has_path(&self, q: Seq<u8>) -> bool {
        exists|i: int| 0 <= i < self.observations().len() && self.observations()[i].path@ == q
    }

    /// An empty registry.
    pub fn new() -> (r: DuplicateFinder)
        ensures
            r.wf(),
            r.observations() == Seq::<FileEntry>::empty(),
    {
        let mut m = multimap_fresh();
        multimap_reset(&mut m);
        DuplicateFinder { all_files: m, entries: Vec::new() }
    }

    /// Registers one observation under its size bucket.
    pub fn process_entry(&mut self, path: Vec<u8>, size: u64)
        requires
            old(self).wf(),
            !old(self).has_path(path@),
        ensures
            final(self).wf(),
            final(self).observations() == old(self).observations().push(
                FileEntry { path, size },
            ),
    {
        let idx = self.entries.len();
        let ghost old_m = multimap_model(self.all_files);
        let ghost old_entries = self.entries@;
        self.entries.push(FileEntry { path, size });
        multimap_insert(&mut self.all_files, size, idx);
        proof {
            let m = multimap_model(self.all_files);
            let es = self.entries@;
            assert(es == old_entries.push(FileEntry { path, size }));
            assert forall|s: u64| #[trigger] m.contains_key(s) implies (forall|t: int|
                0 <= t < m[s].len() ==> ((m[s][t] as int) < es.len()
                    && es[m[s][t] as int].size == s)) by {
                if s == size {
                    assert forall|t: int| 0 <= t < m[s].len() implies ((m[s][t] as int)
                        < es.len() && es[m[s][t] as int].size == s) by {
                        if old_m.contains_key(size) {
                            if t < old_m[size].len() {
                                assert(m[s][t] == old_m[size][t]);
                            } else {
                                assert(m[s][t] == idx as usize);
                            }
                        } else {
                            assert(m[s][t] == idx as usize);
                        }
                    }
                } else {
                    assert(m[s] == old_m[s]);
                }
            }
            assert forall|i: int| 0 <= i < es.len() implies m.contains_key(
                #[trigger] es[i].size,
            ) && m[es[i].size].contains(i as usize) by {
                if i < old_entries.len() {
                    assert(old_m.contains_key(es[i].size));
                    assert(old_m[es[i].size].contains(i as usize));
                    if es[i].size == size {
                        let t = choose|t: int|
                            0 <= t < old_m[size].len() && old_m[size][t] == i as usize;
                        assert(m[size][t] == i as usize);
                    } else {
                        assert(m[es[i].size] == old_m[es[i].size]);
                    }
                } else {
                    if old_m.contains_key(size) {
                        assert(m[size][old_m[size].len() as int] == idx as usize);
                    } else {
                        assert(m[size][0] == idx as usize);
                    }
                }
            }
            assert forall|s: u64| #[trigger] m.contains_key(s) implies m[s].no_duplicates() by {
                if s == size {
                    if old_m.contains_key(size) {
                        let olds = old_m[size];
                        assert forall|t1: int, t2: int|
                            0 <= t1 < m[s].len() && 0 <= t2 < m[s].len() && t1 != t2
                            implies m[s][t1] != m[s][t2] by {
                            if t1 < olds.len() && t2 < olds.len() {
                            } else if t1 < olds.len() {
                                assert((olds[t1] as int) < old_entries.len());
                                assert(m[s][t2] == idx as usize);
                            } else {
                                assert((olds[t2] as int) < old_entries.len());
                                assert(m[s][t1] == idx as usize);
                            }
                        }
                    }
                } else {
                    assert(m[s] == old_m[s]);
                }
            }
            assert forall|i: int, j: int| 0 <= i < j < es.len() implies es[i].path@
                != es[j].path@ by {
                if j == old_entries.len() {
                    assert(es[j].path@ == path@);
                    if old_entries[i].path@ == path@ {
                        assert(old(self).observations()[i].path@ == path@);
                        assert(old(self).has_path(path@));
                        assert(false);
                    }
                }
            }
        }
    }

    /// How many observations have been registered.
    pub fn get_entry_count(&self) -> (n: usize)
        ensures
            n == self.observations().len(),
    {
        self.entries.len()
    }

    /// The entries whose size bucket holds at least two members: exactly the
    /// observations that share their size with another observation, each
    /// once.  Singleton buckets are skipped without being handed out.
    pub fn candidates(&self) -> (cands: Vec<FileEntry>)
        requires
            self.wf(),
        ensures
            candidate_list_ok(cands@, self.observations()),
    {
        let mut cands: Vec<FileEntry> = Vec::new();
        let ghost mut prov: Seq<int> = Seq::empty();
        let mut i: usize = 0;
        while i < self.entries.len()
            invariant
                self.wf(),
                i <= self.entries@.len(),
                prov.len() == cands@.len(),
                forall|c: int| #![trigger prov[c]] 0 <= c < prov.len() ==> (0 <= prov[c] < i
                    && entry_matches(cands@[c], self.observations(), prov[c])
                    && in_populous_bucket(self.observations(), prov[c])),
                forall|c1: int, c2: int| 0 <= c1 < c2 < prov.len() ==> prov[c1] < prov[c2],
                forall|ii: int|
                    0 <= ii < i && #[trigger] in_populous_bucket(self.observations(), ii)
                        ==> (exists|c: int| 0 <= c < prov.len() && prov[c] == ii),
            decreases self.entries@.len() - i,
        {
            let e = &self.entries[i];
            let n = multimap_key_count(&self.all_files, e.size);
            let ghost m = multimap_model(self.all_files);
            let ghost es = self.entries@;
            if n >= 2 {
                proof {
                    // two distinct positions in the bucket give a second
                    // entry of the same size
                    assert(m.contains_key(es[i as int].size));
                    let bucket = m[es[i as int].size];
                    assert(bucket.contains(i as usize));
                    let ti = choose|ti: int| 0 <= ti < bucket.len() && bucket[ti] == i as usize;
                    let tother: int = if ti == 0 { 1 } else { 0 };
                    assert(bucket[tother] != bucket[ti]);
                    assert((bucket[tother] as int) < es.len());
                    assert(es[bucket[tother] as int].size == es[i as int].size);
                    assert(in_populous_bucket(es, i as int));
                }
                cands.push(FileEntry { path: copy_bytes(&e.path), size: e.size });
                proof {
                    let old_prov = prov;
                    let c_new = prov.len() as int;
                    prov = prov.push(i as int);
                    assert(entry_matches(cands@[c_new], es, i as int));
                    assert(prov[c_new] == i as int);
                    assert(forall|c: int| 0 <= c < old_prov.len() ==> #[trigger] prov[c]
                        == old_prov[c]);
                    assert forall|ii: int|
                        0 <= ii < i + 1 && #[trigger] in_populous_bucket(es, ii)
                        implies (exists|c: int| 0 <= c < prov.len() && prov[c] == ii) by {
                        if ii == i {
                            assert(prov[c_new] == ii);
                        } else {
                            assert(0 <= ii < i);
                            assert(in_populous_bucket(self.observations(), ii));
                            assert(exists|c: int| 0 <= c < old_prov.len() && old_prov[c] == ii);
                            let c = choose|c: int| 0 <= c < old_prov.len() && old_prov[c] == ii;
                            assert(prov[c] == ii);
                        }
                    }
                }
            } else {
                proof {
                    if in_populous_bucket(es, i as int) {
                        let j = choose|j: int|
                            0 <= j < es.len() && j != i && es[j].size == es[i as int].size;
                        let bucket = m[es[i as int].size];
                        assert(bucket.contains(i as usize));
                        assert(bucket.contains(j as usize));
                        let ti = choose|ti: int|
                            0 <= ti < bucket.len() && bucket[ti] == i as usize;
                        let tj = choose|tj: int|
                            0 <= tj < bucket.len() && bucket[tj] == j as usize;
                        assert(ti != tj);
                        assert(bucket.len() >= 2);
                        assert(false);
                    }
                }
            }
            i += 1;
        }
        proof {
            let es_final = self.observations();
            assert forall|c1: int, c2: int| 0 <= c1 < c2 < cands@.len() implies cands@[c1].path@
                != cands@[c2].path@ by {
                assert(entry_matches(cands@[c1], es_final, prov[c1]));
                assert(entry_matches(cands@[c2], es_final, prov[c2]));
                assert(prov[c1] != prov[c2]);
            }
            assert(distinct_paths(cands@));
            assert forall|e: int|
                0 <= e < es_final.len() && #[trigger] in_populous_bucket(es_final, e)
                implies (exists|c: int| 0 <= c < cands@.len() && prov[c] == e) by {
                let c = choose|c: int| 0 <= c < prov.len() && prov[c] == e;
                assert(0 <= c < cands@.len() && prov[c] == e);
            }
            assert(candidate_prov_ok(cands@, es_final, prov));
            assert(candidate_list_ok(cands@, self.observations()));
        }
        cands
    }
}

} // verus!
