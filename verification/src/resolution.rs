//! The duplicate resolver: given the candidate entries and, aligned with
//! them, the outcome of fingerprinting each one (`None` where the file could
//! not be read), partitions the fingerprinted candidates into duplicate
//! groups.  Two candidates belong to the same group exactly when they share
//! both size and fingerprint (the probabilistic equality policy: a
//! fingerprint match is accepted as proof of duplication, the documented
//! collision risk of a 64-bit digest).  Failed reads are excluded from every
//! group; groups of one survivor are discarded; the result is presented in
//! canonical order, so that runs with any execution strategy print
//! bit-identical output.

use vstd::prelude::*;
use crate::duplicate_finder::FileEntry;
use crate::duplicate_finder::distinct_paths;
use crate::fingerprint::digest_of;
use crate::order::copy_bytes;
use crate::order::gviews;
use crate::order::lemma_lex_lt_asymmetric;
use crate::order::lemma_strict_sorted_unique;
use crate::order::lex_lt;
use crate::order::lex_sorted;
use crate::order::sorted_groups;
use crate::order::sorted_paths;
use crate::order::strict_sorted_by;
use crate::order::views;

verus! {

/// The pairing of each candidate with its fingerprint outcome: one triple
/// `(path, size, outcome)` per candidate, in order.
pub open spec fn pairing(cands: Seq<FileEntry>, fps: Seq<Option<u64>>) -> Seq<
    (Seq<u8>, u64, Option<u64>),
> {
    Seq::new(cands.len(), |i: int| (cands[i].path@, cands[i].size, fps[i]))
}

/// Path `q` was fingerprinted successfully, with size `s` and fingerprint `h`.
pub open spec fn in_pairing(
    p: Seq<(Seq<u8>, u64, Option<u64>)>,
    q: Seq<u8>,
    s: u64,
    h: u64,
) -> bool {
    p.contains((q, s, Some(h)))
}

/// Both paths were fingerprinted successfully and share size and fingerprint.
pub open spec fn same_key(p: Seq<(Seq<u8>, u64, Option<u64>)>, q1: Seq<u8>, q2: Seq<u8>) -> bool {
    exists|s: u64, h: u64| #[trigger] in_pairing(p, q1, s, h) && #[trigger] in_pairing(p, q2, s, h)
}

/// Canonical presentation: every group holds at least two members, members
/// stand in strictly increasing lexicographic order, and the groups stand in
/// strictly increasing order of their first (smallest) member.
pub open spec fn canonical_form(gs: Seq<Seq<Seq<u8>>>) -> bool {
    &&& forall|i: int| 0 <= i < gs.len() ==> (#[trigger] gs[i]).len() >= 2
    &&& forall|i: int| 0 <= i < gs.len() ==> lex_sorted(#[trigger] gs[i])
    &&& forall|a: int, b: int| 0 <= a < b < gs.len() ==> lex_lt(gs[a][0], gs[b][0])
}

/// What resolution returns, relative to the pairing `p`:
/// the presentation is canonical; any two members of one group (the pair
/// includes a member with itself) were fingerprinted and share size and
/// fingerprint; any two distinct paths that share size and fingerprint stand
/// together in some group; and no path stands in two groups.
pub open spec fn resolution_post(
    p: Seq<(Seq<u8>, u64, Option<u64>)>,
    gs: Seq<Seq<Seq<u8>>>,
) -> bool {
    &&& canonical_form(gs)
    &&& forall|i: int, a: int, b: int|
        0 <= i < gs.len() && 0 <= a < gs[i].len() && 0 <= b < gs[i].len() ==> same_key(
            p,
            #[trigger] gs[i][a],
            #[trigger] gs[i][b],
        )
    &&& forall|q1: Seq<u8>, q2: Seq<u8>|
        q1 != q2 && #[trigger] same_key(p, q1, q2) ==> (exists|i: int|
            0 <= i < gs.len() && (#[trigger] gs[i]).contains(q1) && gs[i].contains(q2))
    &&& forall|i1: int, i2: int, a1: int, a2: int|
        0 <= i1 < gs.len() && 0 <= i2 < gs.len() && i1 != i2 && 0 <= a1 < gs[i1].len() && 0 <= a2
            < gs[i2].len() ==> #[trigger] gs[i1][a1] != #[trigger] gs[i2][a2]
}

/// One fingerprinted candidate: its path, size and fingerprint.
struct Keyed {
    path: Vec<u8>,
    size: u64,
    hash: u64,
}

/// Some fingerprinted candidate with path `q` has size `s` and fingerprint `h`.
spec fn item_has(items: Seq<Keyed>, q: Seq<u8>, s: u64, h: u64) -> bool {
    exists|t: int|
        0 <= t < items.len() && (#[trigger] items[t]).path@ == q && items[t].size == s
            && items[t].hash == h
}

/// The fingerprinted candidates, with `src` naming the candidate each item
/// came from: items list exactly the candidates whose outcome is a
/// fingerprint, in order.
spec fn items_linked(
    items: Seq<Keyed>,
    cands: Seq<FileEntry>,
    fps: Seq<Option<u64>>,
    src: Seq<int>,
) -> bool {
    &&& src.len() == items.len()
    &&& forall|t: int| #![trigger src[t]] 0 <= t < items.len() ==> (0 <= src[t] < cands.len()
        && items[t].path@ == cands[src[t]].path@ && items[t].size == cands[src[t]].size
        && fps[src[t]] == Some(items[t].hash))
    &&& forall|t1: int, t2: int| 0 <= t1 < t2 < items.len() ==> src[t1] < src[t2]
    &&& forall|j: int| 0 <= j < cands.len() && (#[trigger] fps[j]) is Some ==> (exists|t: int|
        0 <= t < items.len() && src[t] == j)
}

/// Collects the fingerprinted candidates.
fn collect_items(cands: &Vec<FileEntry>, fps: &Vec<Option<u64>>) -> (items: Vec<Keyed>)
    requires
        fps@.len() == cands@.len(),
    ensures
        exists|src: Seq<int>| items_linked(items@, cands@, fps@, src),
{
    let mut items: Vec<Keyed> = Vec::new();
    let ghost mut src: Seq<int> = Seq::empty();
    let mut j: usize = 0;
    while j < cands.len()
        invariant
            fps@.len() == cands@.len(),
            j <= cands@.len(),
            src.len() == items@.len(),
            forall|t: int| #![trigger src[t]] 0 <= t < items@.len() ==> (0 <= src[t] < j
                && items@[t].path@ == cands@[src[t]].path@ && items@[t].size
                == cands@[src[t]].size && fps@[src[t]] == Some(items@[t].hash)),
            forall|t1: int, t2: int| 0 <= t1 < t2 < items@.len() ==> src[t1] < src[t2],
            forall|j2: int| 0 <= j2 < j && (#[trigger] fps@[j2]) is Some ==> (exists|t: int|
                0 <= t < items@.len() && src[t] == j2),
        decreases cands@.len() - j,
    {
        let e = &cands[j];
        match fps[j] {
            Some(h) => {
                items.push(Keyed { path: copy_bytes(&e.path), size: e.size, hash: h });
                proof {
                    let old_src = src;
                    let t_new = src.len() as int;
                    src = src.push(j as int);
                    assert(src[t_new] == j as int);
                    assert(forall|t: int| 0 <= t < old_src.len() ==> #[trigger] src[t]
                        == old_src[t]);
                    assert forall|j2: int|
                        0 <= j2 < j + 1 && (#[trigger] fps@[j2]) is Some
                        implies (exists|t: int| 0 <= t < items@.len() && src[t] == j2) by {
                        if j2 == j {
                            assert(src[t_new] == j2);
                        } else {
                            let t = choose|t: int|
                                0 <= t < old_src.len() && old_src[t] == j2;
                            assert(src[t] == j2);
                        }
                    }
                }
            },
            None => {
            },
        }
        j += 1;
    }
    proof {
        assert(items_linked(items@, cands@, fps@, src));
    }
    items
}

/// One accumulated group: a size, a fingerprint, and every fingerprinted
/// candidate path with that size and fingerprint.
struct GroupAcc {
    size: u64,
    hash: u64,
    paths: Vec<Vec<u8>>,
}

/// Every accumulator holds at least two paths, exactly the item paths of its
/// key, pairwise distinct; keys are pairwise distinct; and every key with
/// two distinct paths has an accumulator.
spec fn accs_linked(accs: Seq<GroupAcc>, items: Seq<Keyed>) -> bool {
    &&& forall|g: int| #![trigger accs[g]] 0 <= g < accs.len() ==> (accs[g].paths@.len() >= 2 && (
    forall|a: int|
        0 <= a < accs[g].paths@.len() ==> item_has(
            items,
            #[trigger] accs[g].paths@[a]@,
            accs[g].size,
            accs[g].hash,
        )) && (forall|q: Seq<u8>|
        #[trigger] item_has(items, q, accs[g].size, accs[g].hash) ==> views(
            accs[g].paths@,
        ).contains(q)) && (forall|a: int, b: int|
        0 <= a < b < accs[g].paths@.len() ==> accs[g].paths@[a]@ != accs[g].paths@[b]@))
    &&& forall|g1: int, g2: int|
        0 <= g1 < g2 < accs.len() ==> !(accs[g1].size == accs[g2].size && accs[g1].hash
            == accs[g2].hash)
    &&& forall|s: u64, h: u64, q1: Seq<u8>, q2: Seq<u8>|
        #[trigger] item_has(items, q1, s, h) && #[trigger] item_has(items, q2, s, h) && q1 != q2
            ==> (exists|g: int|
            0 <= g < accs.len() && (#[trigger] accs[g]).size == s && accs[g].hash == h)
}

/// Paths of the items are pairwise distinct.
spec fn distinct_item_paths(items: Seq<Keyed>) -> bool {
    forall|t1: int, t2: int| 0 <= t1 < t2 < items.len() ==> items[t1].path@ != items[t2].path@
}

/// Groups the items by (size, fingerprint) and keeps the keys with at least
/// two members.
#[verifier::rlimit(100)]
fn build_groups(items: &Vec<Keyed>) -> (accs: Vec<GroupAcc>)
    requires
        distinct_item_paths(items@),
    ensures
        accs_linked(accs@, items@),
{
    let mut accs: Vec<GroupAcc> = Vec::new();
    let mut i: usize = 0;
    while i < items.len()
        invariant
            distinct_item_paths(items@),
            i <= items@.len(),
            forall|g: int| #![trigger accs@[g]] 0 <= g < accs@.len() ==> (accs@[g].paths@.len()
                >= 2 && (forall|a: int|
                0 <= a < accs@[g].paths@.len() ==> item_has(
                    items@,
                    #[trigger] accs@[g].paths@[a]@,
                    accs@[g].size,
                    accs@[g].hash,
                )) && (forall|q: Seq<u8>|
                #[trigger] item_has(items@, q, accs@[g].size, accs@[g].hash) ==> views(
                    accs@[g].paths@,
                ).contains(q)) && (forall|a: int, b: int|
                0 <= a < b < accs@[g].paths@.len() ==> accs@[g].paths@[a]@
                    != accs@[g].paths@[b]@)),
            forall|g1: int, g2: int|
                0 <= g1 < g2 < accs@.len() ==> !(accs@[g1].size == accs@[g2].size
                    && accs@[g1].hash == accs@[g2].hash),
            forall|g: int| #![trigger accs@[g]] 0 <= g < accs@.len() ==> (exists|t: int|
                0 <= t < i && (#[trigger] items@[t]).size == accs@[g].size && items@[t].hash
                    == accs@[g].hash),
            forall|t: int|
                0 <= t < i ==> ((exists|q2: Seq<u8>|
                    q2 != (#[trigger] items@[t]).path@ && item_has(
                        items@,
                        q2,
                        items@[t].size,
                        items@[t].hash,
                    )) ==> (exists|g: int|
                    0 <= g < accs@.len() && (#[trigger] accs@[g]).size == items@[t].size
                        && accs@[g].hash == items@[t].hash)),
        decreases items@.len() - i,
    {
        let it_size = items[i].size;
        let it_hash = items[i].hash;
        let mut seen = false;
        let mut j: usize = 0;
        while j < i
            invariant
                j <= i,
                i < items@.len(),
                it_size == items@[i as int].size,
                it_hash == items@[i as int].hash,
                seen <==> (exists|j2: int|
                    0 <= j2 < j && (#[trigger] items@[j2]).size == it_size && items@[j2].hash
                        == it_hash),
            decreases i - j,
        {
            if items[j].size == it_size && items[j].hash == it_hash {
                seen = true;
            }
            j += 1;
        }
        if !seen {
            let mut paths: Vec<Vec<u8>> = Vec::new();
            let ghost mut from: Seq<int> = Seq::empty();
            let mut k: usize = 0;
            while k < items.len()
                invariant
                    distinct_item_paths(items@),
                    k <= items@.len(),
                    i < items@.len(),
                    it_size == items@[i as int].size,
                    it_hash == items@[i as int].hash,
                    from.len() == paths@.len(),
                    forall|a: int| #![trigger from[a]] 0 <= a < paths@.len() ==> (0 <= from[a]
                        < k && items@[from[a]].size == it_size && items@[from[a]].hash == it_hash
                        && paths@[a]@ == items@[from[a]].path@),
                    forall|a1: int, a2: int| 0 <= a1 < a2 < paths@.len() ==> from[a1] < from[a2],
                    forall|t: int|
                        0 <= t < k && (#[trigger] items@[t]).size == it_size && items@[t].hash
                            == it_hash ==> (exists|a: int|
                            0 <= a < paths@.len() && from[a] == t),
                decreases items@.len() - k,
            {
                if items[k].size == it_size && items[k].hash == it_hash {
                    paths.push(copy_bytes(&items[k].path));
                    proof {
                        let old_from = from;
                        let a_new = from.len() as int;
                        from = from.push(k as int);
                        assert(from[a_new] == k as int);
                        assert(forall|a: int| 0 <= a < old_from.len() ==> #[trigger] from[a]
                            == old_from[a]);
                        assert forall|t: int|
                            0 <= t < k + 1 && (#[trigger] items@[t]).size == it_size
                                && items@[t].hash == it_hash
                            implies (exists|a: int| 0 <= a < paths@.len() && from[a] == t) by {
                            if t == k {
                                assert(from[a_new] == t);
                            } else {
                                let a = choose|a: int|
                                    0 <= a < old_from.len() && old_from[a] == t;
                                assert(from[a] == t);
                            }
                        }
                    }
                }
                k += 1;
            }
            if paths.len() >= 2 {
                let ghost old_accs = accs@;
                accs.push(GroupAcc { size: it_size, hash: it_hash, paths });
                proof {
                    let g_new = accs@.len() - 1;
                    assert(forall|g2: int| 0 <= g2 < old_accs.len() ==> #[trigger] accs@[g2]
                        == old_accs[g2]);
                    let acc = accs@[g_new];
                    assert forall|a: int|
                        0 <= a < acc.paths@.len() implies item_has(
                        items@,
                        #[trigger] acc.paths@[a]@,
                        acc.size,
                        acc.hash,
                    ) by {
                        assert(items@[from[a]].path@ == acc.paths@[a]@);
                    }
                    assert forall|q: Seq<u8>|
                        #[trigger] item_has(items@, q, acc.size, acc.hash) implies views(
                        acc.paths@,
                    ).contains(q) by {
                        let t = choose|t: int|
                            0 <= t < items@.len() && (#[trigger] items@[t]).path@ == q
                                && items@[t].size == acc.size && items@[t].hash == acc.hash;
                        let a = choose|a: int| 0 <= a < paths@.len() && from[a] == t;
                        assert(views(acc.paths@)[a] == q);
                    }
                    assert forall|a: int, b: int|
                        0 <= a < b < acc.paths@.len() implies acc.paths@[a]@
                        != acc.paths@[b]@ by {
                        assert(from[a] < from[b]);
                        assert(acc.paths@[a]@ == items@[from[a]].path@);
                        assert(acc.paths@[b]@ == items@[from[b]].path@);
                    }
                    assert forall|g1: int, g2: int|
                        0 <= g1 < g2 < accs@.len() implies !(accs@[g1].size == accs@[g2].size
                        && accs@[g1].hash == accs@[g2].hash) by {
                        if g2 == g_new {
                            let t = choose|t: int|
                                0 <= t < i && (#[trigger] items@[t]).size == accs@[g1].size
                                    && items@[t].hash == accs@[g1].hash;
                            if accs@[g1].size == it_size && accs@[g1].hash == it_hash {
                                assert(seen);
                            }
                        }
                    }
                    assert forall|t: int|
                        0 <= t < i + 1 && (exists|q2: Seq<u8>|
                            q2 != (#[trigger] items@[t]).path@ && item_has(
                                items@,
                                q2,
                                items@[t].size,
                                items@[t].hash,
                            ))
                        implies (exists|g: int|
                        0 <= g < accs@.len() && (#[trigger] accs@[g]).size == items@[t].size
                            && accs@[g].hash == items@[t].hash) by {
                        if t == i {
                            assert(accs@[g_new].size == items@[t].size && accs@[g_new].hash
                                == items@[t].hash);
                        } else {
                            let g = choose|g: int|
                                0 <= g < old_accs.len() && (#[trigger] old_accs[g]).size
                                    == items@[t].size && old_accs[g].hash == items@[t].hash;
                            assert(accs@[g] == old_accs[g]);
                        }
                    }
                }
            } else {
                proof {
                    // fewer than two survivors for this key: no two distinct
                    // paths share it
                    assert forall|q2: Seq<u8>|
                        q2 != items@[i as int].path@ && item_has(items@, q2, it_size, it_hash)
                        implies false by {
                        let t = choose|t: int|
                            0 <= t < items@.len() && (#[trigger] items@[t]).path@ == q2
                                && items@[t].size == it_size && items@[t].hash == it_hash;
                        let a = choose|a: int| 0 <= a < paths@.len() && from[a] == t;
                        let ai = choose|a: int| 0 <= a < paths@.len() && from[a] == i;
                        assert(paths@[a]@ == q2);
                        assert(paths@[ai]@ == items@[i as int].path@);
                        assert(a != ai);
                        assert(paths@.len() >= 2);
                    }
                }
            }
        } else {
            proof {
                let j2 = choose|j2: int|
                    0 <= j2 < j && (#[trigger] items@[j2]).size == it_size && items@[j2].hash
                        == it_hash;
                if (exists|q2: Seq<u8>|
                    q2 != items@[i as int].path@ && item_has(items@, q2, it_size, it_hash)) {
                    assert(items@[i as int].path@ != items@[j2].path@);
                    assert(item_has(items@, items@[i as int].path@, it_size, it_hash)) by {
                        assert(items@[i as int].size == it_size && items@[i as int].hash
                            == it_hash);
                    }
                    assert(exists|q2: Seq<u8>|
                        q2 != items@[j2].path@ && item_has(
                            items@,
                            q2,
                            items@[j2].size,
                            items@[j2].hash,
                        )) by {
                        assert(items@[i as int].path@ != items@[j2].path@ && item_has(
                            items@,
                            items@[i as int].path@,
                            items@[j2].size,
                            items@[j2].hash,
                        ));
                    }
                    assert(exists|g: int|
                        0 <= g < accs@.len() && (#[trigger] accs@[g]).size == it_size
                            && accs@[g].hash == it_hash);
                }
            }
        }
        i += 1;
    }
    accs
}

/// Resolves the duplicate groups among `cands`, whose aligned fingerprint
/// outcomes are `fps`.  Groups are exactly the sets of two or more
/// fingerprinted candidate paths sharing size and fingerprint, presented in
/// canonical order: members sorted lexicographically, groups sorted by their
/// first member.
#[verifier::rlimit(100)]
pub fn collect_duplicates(cands: &Vec<FileEntry>, fps: &Vec<Option<u64>>) -> (groups: Vec<
    Vec<Vec<u8>>,
>)
    requires
        fps@.len() == cands@.len(),
        distinct_paths(cands@),
    ensures
        resolution_post(pairing(cands@, fps@), gviews(groups@)),
{
    let ghost p = pairing(cands@, fps@);
    let items = collect_items(cands, fps);
    let ghost src = choose|src: Seq<int>| items_linked(items@, cands@, fps@, src);
    proof {
        assert forall|t1: int, t2: int|
            0 <= t1 < t2 < items@.len() implies items@[t1].path@ != items@[t2].path@ by {
            assert(src[t1] < src[t2]);
            assert(items@[t1].path@ == cands@[src[t1]].path@);
            assert(items@[t2].path@ == cands@[src[t2]].path@);
        }
    }
    let accs = build_groups(&items);
    let mut raw: Vec<Vec<Vec<u8>>> = Vec::new();
    let mut g: usize = 0;
    while g < accs.len()
        invariant
            g <= accs@.len(),
            raw@.len() == g,
            accs_linked(accs@, items@),
            distinct_item_paths(items@),
            forall|g2: int| #![trigger raw@[g2]] 0 <= g2 < raw@.len() ==> (raw@[g2]@.len()
                == accs@[g2].paths@.len() && lex_sorted(views(raw@[g2]@)) && (forall|q: Seq<u8>|
                #[trigger] views(raw@[g2]@).contains(q) <==> views(accs@[g2].paths@).contains(
                    q,
                ))),
        decreases accs@.len() - g,
    {
        let srt = sorted_paths(&accs[g].paths);
        raw.push(srt);
        g += 1;
    }
    proof {
        assert forall|k: int| 0 <= k < raw@.len() implies raw@[k].len() >= 1 by {
            assert(raw@[k]@.len() == accs@[k].paths@.len());
        }
        assert forall|a: int, b: int|
            0 <= a < b < raw@.len() implies raw@[a]@[0]@ != raw@[b]@[0]@ by {
            if raw@[a]@[0]@ == raw@[b]@[0]@ {
                let q = raw@[a]@[0]@;
                assert(views(raw@[a]@)[0] == q);
                assert(views(raw@[a]@).contains(q));
                assert(views(raw@[b]@)[0] == q);
                assert(views(raw@[b]@).contains(q));
                assert(views(accs@[a].paths@).contains(q));
                assert(views(accs@[b].paths@).contains(q));
                let ba = choose|c: int|
                    0 <= c < views(accs@[a].paths@).len() && views(accs@[a].paths@)[c] == q;
                let bb = choose|c: int|
                    0 <= c < views(accs@[b].paths@).len() && views(accs@[b].paths@)[c] == q;
                assert(item_has(items@, q, accs@[a].size, accs@[a].hash));
                assert(item_has(items@, q, accs@[b].size, accs@[b].hash));
                let t1 = choose|t: int|
                    0 <= t < items@.len() && (#[trigger] items@[t]).path@ == q && items@[t].size
                        == accs@[a].size && items@[t].hash == accs@[a].hash;
                let t2 = choose|t: int|
                    0 <= t < items@.len() && (#[trigger] items@[t]).path@ == q && items@[t].size
                        == accs@[b].size && items@[t].hash == accs@[b].hash;
                assert(t1 == t2);
                assert(false);
            }
        }
    }
    let groups = sorted_groups(&raw);
    proof {
        lemma_resolution_assemble(p, cands@, fps@, items@, src, accs@, raw@, groups@);
    }
    groups
}

/// From the linked intermediate stages, the sorted output satisfies the
/// resolution contract.
#[verifier::rlimit(100)]
proof fn lemma_resolution_assemble(
    p: Seq<(Seq<u8>, u64, Option<u64>)>,
    cands: Seq<FileEntry>,
    fps: Seq<Option<u64>>,
    items: Seq<Keyed>,
    src: Seq<int>,
    accs: Seq<GroupAcc>,
    raw: Seq<Vec<Vec<u8>>>,
    groups: Seq<Vec<Vec<u8>>>,
)
    requires
        fps.len() == cands.len(),
        distinct_paths(cands),
        p == pairing(cands, fps),
        items_linked(items, cands, fps, src),
        distinct_item_paths(items),
        accs_linked(accs, items),
        raw.len() == accs.len(),
        forall|g2: int| #![trigger raw[g2]] 0 <= g2 < raw.len() ==> (raw[g2]@.len()
            == accs[g2].paths@.len() && lex_sorted(views(raw[g2]@)) && (forall|q: Seq<u8>|
            #[trigger] views(raw[g2]@).contains(q) <==> views(accs[g2].paths@).contains(q))),
        groups.len() == raw.len(),
        forall|gq: Seq<Seq<u8>>| #[trigger] gviews(groups).contains(gq) <==> gviews(raw).contains(
            gq,
        ),
        forall|k: int| 0 <= k < groups.len() ==> (#[trigger] groups[k])@.len() >= 1,
        forall|a: int, b: int| 0 <= a < b < groups.len() ==> lex_lt(groups[a]@[0]@, groups[b]@[0]@),
    ensures
        resolution_post(p, gviews(groups)),
{
    let gs = gviews(groups);
    // every output group presents some accumulator, sorted
    assert forall|k: int| #![trigger gs[k]] 0 <= k < gs.len() implies (exists|g2: int|
        0 <= g2 < raw.len() && #[trigger] gviews(raw)[g2] == gs[k]) by {
        assert(gviews(groups)[k] == gs[k]);
        assert(gviews(groups).contains(gs[k]));
        let g2 = choose|g2: int| 0 <= g2 < gviews(raw).len() && gviews(raw)[g2] == gs[k];
        assert(gviews(raw)[g2] == gs[k]);
    }
    // membership in a group is membership in its accumulator's class
    assert forall|k: int, a: int| #![trigger gs[k][a]]
        0 <= k < gs.len() && 0 <= a < gs[k].len() implies (exists|s: u64, h: u64|
        #[trigger] in_pairing(p, gs[k][a], s, h)) by {
        let g2 = choose|g2: int| 0 <= g2 < raw.len() && #[trigger] gviews(raw)[g2] == gs[k];
        assert(views(raw[g2]@) == gs[k]);
        assert(views(raw[g2]@).contains(gs[k][a]));
        assert(views(accs[g2].paths@).contains(gs[k][a]));
        let b = choose|b: int|
            0 <= b < views(accs[g2].paths@).len() && views(accs[g2].paths@)[b] == gs[k][a];
        assert(item_has(items, accs[g2].paths@[b]@, accs[g2].size, accs[g2].hash));
        lemma_item_in_pairing(p, cands, fps, items, src, gs[k][a], accs[g2].size, accs[g2].hash);
    }
    assert(canonical_form(gs)) by {
        assert forall|k: int| 0 <= k < gs.len() implies (#[trigger] gs[k]).len() >= 2
            && lex_sorted(gs[k]) by {
            let g2 = choose|g2: int| 0 <= g2 < raw.len() && #[trigger] gviews(raw)[g2] == gs[k];
            assert(views(raw[g2]@) == gs[k]);
            assert(views(raw[g2]@).len() == raw[g2]@.len());
            assert(accs[g2].paths@.len() >= 2);
        }
        assert forall|a: int, b: int| 0 <= a < b < gs.len() implies lex_lt(
            gs[a][0],
            gs[b][0],
        ) by {
            assert(gviews(groups)[a] == views(groups[a]@));
            assert(views(groups[a]@)[0] == groups[a]@[0]@);
            assert(views(groups[b]@)[0] == groups[b]@[0]@);
        }
    }
    assert forall|k: int, a: int, b: int|
        0 <= k < gs.len() && 0 <= a < gs[k].len() && 0 <= b < gs[k].len() implies same_key(
        p,
        #[trigger] gs[k][a],
        #[trigger] gs[k][b],
    ) by {
        let g2 = choose|g2: int| 0 <= g2 < raw.len() && #[trigger] gviews(raw)[g2] == gs[k];
        assert(views(raw[g2]@) == gs[k]);
        assert(views(raw[g2]@).contains(gs[k][a]));
        assert(views(raw[g2]@).contains(gs[k][b]));
        assert(views(accs[g2].paths@).contains(gs[k][a]));
        assert(views(accs[g2].paths@).contains(gs[k][b]));
        let aa = choose|aa: int|
            0 <= aa < views(accs[g2].paths@).len() && views(accs[g2].paths@)[aa] == gs[k][a];
        let bb = choose|bb: int|
            0 <= bb < views(accs[g2].paths@).len() && views(accs[g2].paths@)[bb] == gs[k][b];
        assert(item_has(items, accs[g2].paths@[aa]@, accs[g2].size, accs[g2].hash));
        assert(item_has(items, accs[g2].paths@[bb]@, accs[g2].size, accs[g2].hash));
        lemma_item_in_pairing(p, cands, fps, items, src, gs[k][a], accs[g2].size, accs[g2].hash);
        lemma_item_in_pairing(p, cands, fps, items, src, gs[k][b], accs[g2].size, accs[g2].hash);
        assert(in_pairing(p, gs[k][a], accs[g2].size, accs[g2].hash));
        assert(in_pairing(p, gs[k][b], accs[g2].size, accs[g2].hash));
    }
    assert forall|q1: Seq<u8>, q2: Seq<u8>|
        q1 != q2 && #[trigger] same_key(p, q1, q2) implies (exists|i: int|
        0 <= i < gs.len() && (#[trigger] gs[i]).contains(q1) && gs[i].contains(q2)) by {
        let (s, h) = choose|s: u64, h: u64|
            #[trigger] in_pairing(p, q1, s, h) && #[trigger] in_pairing(p, q2, s, h);
        lemma_pairing_item(p, cands, fps, items, src, q1, s, h);
        lemma_pairing_item(p, cands, fps, items, src, q2, s, h);
        assert(item_has(items, q1, s, h));
        assert(item_has(items, q2, s, h));
        let g2 = choose|g2: int|
            0 <= g2 < accs.len() && (#[trigger] accs[g2]).size == s && accs[g2].hash == h;
        assert(views(accs[g2].paths@).contains(q1));
        assert(views(accs[g2].paths@).contains(q2));
        assert(views(raw[g2]@).contains(q1));
        assert(views(raw[g2]@).contains(q2));
        assert(gviews(raw)[g2] == views(raw[g2]@));
        assert(gviews(raw).contains(views(raw[g2]@)));
        assert(gviews(groups).contains(views(raw[g2]@)));
        let i = choose|i: int|
            0 <= i < gviews(groups).len() && gviews(groups)[i] == views(raw[g2]@);
        assert(gs[i].contains(q1) && gs[i].contains(q2));
    }
    assert forall|i1: int, i2: int, a1: int, a2: int|
        0 <= i1 < gs.len() && 0 <= i2 < gs.len() && i1 != i2 && 0 <= a1 < gs[i1].len() && 0 <= a2
            < gs[i2].len() implies #[trigger] gs[i1][a1] != #[trigger] gs[i2][a2] by {
        if gs[i1][a1] == gs[i2][a2] {
            let q = gs[i1][a1];
            let g1 = choose|g2: int| 0 <= g2 < raw.len() && #[trigger] gviews(raw)[g2] == gs[i1];
            let g2 = choose|g2: int| 0 <= g2 < raw.len() && #[trigger] gviews(raw)[g2] == gs[i2];
            assert(views(raw[g1]@).contains(q));
            assert(views(raw[g2]@).contains(q));
            assert(views(accs[g1].paths@).contains(q));
            assert(views(accs[g2].paths@).contains(q));
            let b1 = choose|b: int|
                0 <= b < views(accs[g1].paths@).len() && views(accs[g1].paths@)[b] == q;
            let b2 = choose|b: int|
                0 <= b < views(accs[g2].paths@).len() && views(accs[g2].paths@)[b] == q;
            assert(item_has(items, q, accs[g1].size, accs[g1].hash));
            assert(item_has(items, q, accs[g2].size, accs[g2].hash));
            let t1 = choose|t: int|
                0 <= t < items.len() && (#[trigger] items[t]).path@ == q && items[t].size
                    == accs[g1].size && items[t].hash == accs[g1].hash;
            let t2 = choose|t: int|
                0 <= t < items.len() && (#[trigger] items[t]).path@ == q && items[t].size
                    == accs[g2].size && items[t].hash == accs[g2].hash;
            assert(t1 == t2);
            assert(g1 == g2);
            assert(gs[i1] == gs[i2]);
            if i1 < i2 {
                assert(lex_lt(gs[i1][0], gs[i2][0]));
                assert(gviews(groups)[i1] == views(groups[i1]@));
                lemma_lex_lt_asymmetric(gs[i1][0], gs[i2][0]);
            } else {
                assert(lex_lt(gs[i2][0], gs[i1][0]));
                lemma_lex_lt_asymmetric(gs[i2][0], gs[i1][0]);
            }
        }
    }
}

/// A fingerprinted item with path `q` and key `(s, h)` stands for the
/// pairing triple `(q, s, Some(h))`.
proof fn lemma_item_in_pairing(
    p: Seq<(Seq<u8>, u64, Option<u64>)>,
    cands: Seq<FileEntry>,
    fps: Seq<Option<u64>>,
    items: Seq<Keyed>,
    src: Seq<int>,
    q: Seq<u8>,
    s: u64,
    h: u64,
)
    requires
        fps.len() == cands.len(),
        p == pairing(cands, fps),
        items_linked(items, cands, fps, src),
        item_has(items, q, s, h),
    ensures
        in_pairing(p, q, s, h),
{
    let t = choose|t: int|
        0 <= t < items.len() && (#[trigger] items[t]).path@ == q && items[t].size == s
            && items[t].hash == h;
    let j = src[t];
    assert(p[j] == (cands[j].path@, cands[j].size, fps[j]));
    assert(p[j] == (q, s, Some(h)));
    assert(p.contains((q, s, Some(h))));
}

/// Conversely, a pairing triple `(q, s, Some(h))` has an item.
proof fn lemma_pairing_item(
    p: Seq<(Seq<u8>, u64, Option<u64>)>,
    cands: Seq<FileEntry>,
    fps: Seq<Option<u64>>,
    items: Seq<Keyed>,
    src: Seq<int>,
    q: Seq<u8>,
    s: u64,
    h: u64,
)
    requires
        fps.len() == cands.len(),
        p == pairing(cands, fps),
        items_linked(items, cands, fps, src),
        in_pairing(p, q, s, h),
    ensures
        item_has(items, q, s, h),
{
    let j = choose|j: int| 0 <= j < p.len() && p[j] == (q, s, Some(h));
    assert(p[j] == (cands[j].path@, cands[j].size, fps[j]));
    assert(fps[j] is Some);
    let t = choose|t: int| 0 <= t < items.len() && src[t] == j;
    assert(items[t].path@ == cands[j].path@);
    assert(fps[j] == Some(items[t].hash));
    assert(items[t].path@ == q && items[t].size == s && items[t].hash == h);
}

/// Two files with identical byte content have equal size, and the
/// fingerprint being a function of content alone, equal fingerprints; any
/// two such distinct paths stand together in one duplicate group, in every
/// run that satisfies the resolution contract.
pub proof fn lemma_equal_fingerprints_grouped(
    p: Seq<(Seq<u8>, u64, Option<u64>)>,
    gs: Seq<Seq<Seq<u8>>>,
    q1: Seq<u8>,
    q2: Seq<u8>,
    s: u64,
    h: u64,
)
    requires
        resolution_post(p, gs),
        q1 != q2,
        in_pairing(p, q1, s, h),
        in_pairing(p, q2, s, h),
    ensures
        exists|i: int| 0 <= i < gs.len() && (#[trigger] gs[i]).contains(q1) && gs[i].contains(q2),
{
    assert(same_key(p, q1, q2));
}

/// Files with identical byte content receive identical fingerprints (the
/// digest is a function of the bytes alone), so two distinct paths whose
/// files hold the same content — hence also the same size — stand together
/// in one duplicate group, in every run.
pub proof fn lemma_identical_content_grouped(
    p: Seq<(Seq<u8>, u64, Option<u64>)>,
    gs: Seq<Seq<Seq<u8>>>,
    q1: Seq<u8>,
    q2: Seq<u8>,
    content: Seq<u8>,
    s: u64,
)
    requires
        resolution_post(p, gs),
        q1 != q2,
        in_pairing(p, q1, s, digest_of(content)),
        in_pairing(p, q2, s, digest_of(content)),
    ensures
        exists|i: int| 0 <= i < gs.len() && (#[trigger] gs[i]).contains(q1) && gs[i].contains(q2),
{
    lemma_equal_fingerprints_grouped(p, gs, q1, q2, s, digest_of(content));
}

/// With pairwise distinct candidate paths, a path determines its size and
/// fingerprint in the pairing.
pub proof fn lemma_pairing_key_unique(
    cands: Seq<FileEntry>,
    fps: Seq<Option<u64>>,
    q: Seq<u8>,
    s1: u64,
    h1: u64,
    s2: u64,
    h2: u64,
)
    requires
        fps.len() == cands.len(),
        distinct_paths(cands),
        in_pairing(pairing(cands, fps), q, s1, h1),
        in_pairing(pairing(cands, fps), q, s2, h2),
    ensures
        s1 == s2,
        h1 == h2,
{
    let p = pairing(cands, fps);
    let j1 = choose|j: int| 0 <= j < p.len() && p[j] == (q, s1, Some(h1));
    let j2 = choose|j: int| 0 <= j < p.len() && p[j] == (q, s2, Some(h2));
    assert(p[j1] == (cands[j1].path@, cands[j1].size, fps[j1]));
    assert(p[j2] == (cands[j2].path@, cands[j2].size, fps[j2]));
    if j1 != j2 {
        if j1 < j2 {
            assert(cands[j1].path@ != cands[j2].path@);
        } else {
            assert(cands[j2].path@ != cands[j1].path@);
        }
        assert(false);
    }
}

/// Members of one duplicate group never differ in size (files of different
/// sizes are never grouped: the pruning invariant) and never differ in
/// fingerprint (the probabilistic equality policy groups exactly on a
/// fingerprint match).
pub proof fn lemma_grouped_share_size_and_fingerprint(
    cands: Seq<FileEntry>,
    fps: Seq<Option<u64>>,
    gs: Seq<Seq<Seq<u8>>>,
    i: int,
    a: int,
    b: int,
    sa: u64,
    ha: u64,
    sb: u64,
    hb: u64,
)
    requires
        fps.len() == cands.len(),
        distinct_paths(cands),
        resolution_post(pairing(cands, fps), gs),
        0 <= i < gs.len(),
        0 <= a < gs[i].len(),
        0 <= b < gs[i].len(),
        in_pairing(pairing(cands, fps), gs[i][a], sa, ha),
        in_pairing(pairing(cands, fps), gs[i][b], sb, hb),
    ensures
        sa == sb,
        ha == hb,
{
    let p = pairing(cands, fps);
    assert(same_key(p, gs[i][a], gs[i][b]));
    let (s, h) = choose|s: u64, h: u64|
        #[trigger] in_pairing(p, gs[i][a], s, h) && #[trigger] in_pairing(p, gs[i][b], s, h);
    lemma_pairing_key_unique(cands, fps, gs[i][a], sa, ha, s, h);
    lemma_pairing_key_unique(cands, fps, gs[i][b], sb, hb, s, h);
}

/// Every group of `gs1` stands, as the same sequence, in `gs2`.
proof fn lemma_groups_subset(
    p1: Seq<(Seq<u8>, u64, Option<u64>)>,
    p2: Seq<(Seq<u8>, u64, Option<u64>)>,
    gs1: Seq<Seq<Seq<u8>>>,
    gs2: Seq<Seq<Seq<u8>>>,
)
    requires
        resolution_post(p1, gs1),
        resolution_post(p2, gs2),
        forall|q1: Seq<u8>, q2: Seq<u8>| #[trigger] same_key(p1, q1, q2) ==> same_key(p2, q1, q2),
        forall|q1: Seq<u8>, q2: Seq<u8>| #[trigger] same_key(p2, q1, q2) ==> same_key(p1, q1, q2),
    ensures
        forall|i: int| 0 <= i < gs1.len() ==> gs2.to_set().contains(#[trigger] gs1[i]),
{
    assert forall|i: int| 0 <= i < gs1.len() implies gs2.to_set().contains(#[trigger] gs1[i]) by {
        let q1 = gs1[i][0];
        let q2 = gs1[i][1];
        assert(lex_lt(gs1[i][0], gs1[i][1]));
        lemma_lex_lt_asymmetric(q1, q2);
        assert(q1 != q2);
        assert(same_key(p1, q1, q2));
        assert(same_key(p2, q1, q2));
        let j = choose|j: int|
            0 <= j < gs2.len() && (#[trigger] gs2[j]).contains(q1) && gs2[j].contains(q2);
        assert forall|q: Seq<u8>| #[trigger] gs1[i].contains(q) implies gs2[j].contains(q) by {
            let a = choose|a: int| 0 <= a < gs1[i].len() && gs1[i][a] == q;
            assert(same_key(p1, gs1[i][a], gs1[i][0]));
            if q != q1 {
                assert(same_key(p2, q, q1));
                let j2 = choose|j2: int|
                    0 <= j2 < gs2.len() && (#[trigger] gs2[j2]).contains(q) && gs2[j2].contains(
                        q1,
                    );
                if j2 != j {
                    let c1 = choose|c: int| 0 <= c < gs2[j2].len() && gs2[j2][c] == q1;
                    let c2 = choose|c: int| 0 <= c < gs2[j].len() && gs2[j][c] == q1;
                    assert(gs2[j2][c1] != gs2[j][c2]);
                    assert(false);
                }
            }
        }
        assert forall|q: Seq<u8>| #[trigger] gs2[j].contains(q) implies gs1[i].contains(q) by {
            let a = choose|a: int| 0 <= a < gs2[j].len() && gs2[j][a] == q;
            let a1 = choose|a: int| 0 <= a < gs2[j].len() && gs2[j][a] == q1;
            assert(same_key(p2, gs2[j][a], gs2[j][a1]));
            if q != q1 {
                assert(same_key(p1, q, q1));
                let i2 = choose|i2: int|
                    0 <= i2 < gs1.len() && (#[trigger] gs1[i2]).contains(q) && gs1[i2].contains(
                        q1,
                    );
                if i2 != i {
                    let c1 = choose|c: int| 0 <= c < gs1[i2].len() && gs1[i2][c] == q1;
                    assert(gs1[i2][c1] != gs1[i][0]);
                    assert(false);
                }
            } else {
                assert(gs1[i][0] == q);
            }
        }
        assert(gs1[i].to_set() =~= gs2[j].to_set()) by {
            assert forall|q: Seq<u8>| gs1[i].to_set().contains(q) implies gs2[j].to_set().contains(
                q,
            ) by {
                assert(gs1[i].contains(q));
            }
            assert forall|q: Seq<u8>| gs2[j].to_set().contains(q) implies gs1[i].to_set().contains(
                q,
            ) by {
                assert(gs2[j].contains(q));
            }
        }
        let lt = |x: Seq<u8>, y: Seq<u8>| lex_lt(x, y);
        assert(strict_sorted_by(gs1[i], lt)) by {
            assert(lex_sorted(gs1[i]));
        }
        assert(strict_sorted_by(gs2[j], lt)) by {
            assert(lex_sorted(gs2[j]));
        }
        assert forall|x: Seq<u8>, y: Seq<u8>| !(#[trigger] lt(x, y) && lt(y, x)) by {
            lemma_lex_lt_asymmetric(x, y);
        }
        lemma_strict_sorted_unique(gs1[i], gs2[j], lt);
        assert(gs1[i] == gs2[j]);
        assert(gs2.contains(gs1[i]));
    }
}

/// Resolution is a function of the pairing alone: two canonical resolutions
/// of pairings that hold the same triples are the same sequence of groups.
/// Resolving an unchanged population twice therefore yields bit-identical
/// output, and the sequential and the parallel execution strategy, which
/// merely permute the pairing, present identical duplicate groups.
pub proof fn lemma_resolution_deterministic(
    p1: Seq<(Seq<u8>, u64, Option<u64>)>,
    p2: Seq<(Seq<u8>, u64, Option<u64>)>,
    gs1: Seq<Seq<Seq<u8>>>,
    gs2: Seq<Seq<Seq<u8>>>,
)
    requires
        resolution_post(p1, gs1),
        resolution_post(p2, gs2),
        forall|x: (Seq<u8>, u64, Option<u64>)| #[trigger] p1.contains(x) <==> p2.contains(x),
    ensures
        gs1 == gs2,
{
    assert forall|q1: Seq<u8>, q2: Seq<u8>|
        #[trigger] same_key(p1, q1, q2) implies same_key(p2, q1, q2) by {
        let (s, h) = choose|s: u64, h: u64|
            #[trigger] in_pairing(p1, q1, s, h) && #[trigger] in_pairing(p1, q2, s, h);
        assert(p2.contains((q1, s, Some(h))));
        assert(p2.contains((q2, s, Some(h))));
        assert(in_pairing(p2, q1, s, h) && in_pairing(p2, q2, s, h));
    }
    assert forall|q1: Seq<u8>, q2: Seq<u8>|
        #[trigger] same_key(p2, q1, q2) implies same_key(p1, q1, q2) by {
        let (s, h) = choose|s: u64, h: u64|
            #[trigger] in_pairing(p2, q1, s, h) && #[trigger] in_pairing(p2, q2, s, h);
        assert(p1.contains((q1, s, Some(h))));
        assert(p1.contains((q2, s, Some(h))));
        assert(in_pairing(p1, q1, s, h) && in_pairing(p1, q2, s, h));
    }
    lemma_groups_subset(p1, p2, gs1, gs2);
    lemma_groups_subset(p2, p1, gs2, gs1);
    assert(gs1.to_set() =~= gs2.to_set()) by {
        assert forall|gq: Seq<Seq<u8>>|
            gs1.to_set().contains(gq) implies gs2.to_set().contains(gq) by {
            let i = choose|i: int| 0 <= i < gs1.len() && gs1[i] == gq;
            assert(gs2.to_set().contains(gs1[i]));
        }
        assert forall|gq: Seq<Seq<u8>>|
            gs2.to_set().contains(gq) implies gs1.to_set().contains(gq) by {
            let i = choose|i: int| 0 <= i < gs2.len() && gs2[i] == gq;
            assert(gs1.to_set().contains(gs2[i]));
        }
    }
    let glt = |x: Seq<Seq<u8>>, y: Seq<Seq<u8>>| lex_lt(x[0], y[0]);
    assert(strict_sorted_by(gs1, glt)) by {
        assert(forall|a: int, b: int| 0 <= a < b < gs1.len() ==> lex_lt(gs1[a][0], gs1[b][0]));
    }
    assert(strict_sorted_by(gs2, glt)) by {
        assert(forall|a: int, b: int| 0 <= a < b < gs2.len() ==> lex_lt(gs2[a][0], gs2[b][0]));
    }
    assert forall|x: Seq<Seq<u8>>, y: Seq<Seq<u8>>| !(#[trigger] glt(x, y) && glt(y, x)) by {
        lemma_lex_lt_asymmetric(x[0], y[0]);
    }
    lemma_strict_sorted_unique(gs1, gs2, glt);
}

/// Counters for reporting: entries observed, fingerprints computed,
/// duplicate groups found, and the total number of files in them.
pub struct ScanStatistics {
    pub entries_observed: usize,
    pub fingerprints_computed: usize,
    pub duplicate_groups: usize,
    pub duplicate_files: usize,
}

/// How many outcomes are fingerprints: a failed read is never counted.
pub open spec fn count_some(fps: Seq<Option<u64>>) -> int
    decreases fps.len(),
{
    if fps.len() == 0 {
        0
    } else {
        count_some(fps.drop_last()) + (if fps.last() is Some {
            1int
        } else {
            0int
        })
    }
}

/// The total number of members over all groups.
pub open spec fn total_members(gs: Seq<Vec<Vec<u8>>>) -> int
    decreases gs.len(),
{
    if gs.len() == 0 {
        0
    } else {
        total_members(gs.drop_last()) + gs.last()@.len()
    }
}

/// A prefix never counts more members than the whole.
proof fn lemma_total_members_prefix(gs: Seq<Vec<Vec<u8>>>, k: int)
    requires
        0 <= k <= gs.len(),
    ensures
        0 <= total_members(gs.take(k)),
        total_members(gs.take(k)) <= total_members(gs),
    decreases gs.len() - k,
{
    if k == gs.len() {
        assert(gs.take(k) =~= gs);
        lemma_total_members_nonneg(gs);
    } else {
        lemma_total_members_prefix(gs, k + 1);
        assert(gs.take(k + 1).drop_last() =~= gs.take(k));
        assert(gs.take(k + 1).last() == gs[k]);
        lemma_total_members_nonneg(gs.take(k));
    }
}

/// The member count is never negative.
proof fn lemma_total_members_nonneg(gs: Seq<Vec<Vec<u8>>>)
    ensures
        0 <= total_members(gs),
    decreases gs.len(),
{
    if gs.len() > 0 {
        lemma_total_members_nonneg(gs.drop_last());
    }
}

/// Computes the scan statistics from the observation count, the fingerprint
/// outcomes and the resolved groups.
pub fn compute_statistics(
    entries_observed: usize,
    fps: &Vec<Option<u64>>,
    groups: &Vec<Vec<Vec<u8>>>,
) -> (st: ScanStatistics)
    requires
        total_members(groups@) <= usize::MAX,
    ensures
        st.entries_observed == entries_observed,
        st.fingerprints_computed == count_some(fps@),
        st.duplicate_groups == groups@.len(),
        st.duplicate_files == total_members(groups@),
{
    let mut fc: usize = 0;
    let mut i: usize = 0;
    while i < fps.len()
        invariant
            i <= fps@.len(),
            fc == count_some(fps@.take(i as int)),
            fc <= i,
        decreases fps@.len() - i,
    {
        proof {
            assert(fps@.take(i + 1).drop_last() =~= fps@.take(i as int));
            assert(fps@.take(i + 1).last() == fps@[i as int]);
        }
        match fps[i] {
            Some(_) => {
                fc += 1;
            },
            None => {
            },
        }
        i += 1;
    }
    proof {
        assert(fps@.take(fps@.len() as int) =~= fps@);
    }
    let mut df: usize = 0;
    let mut g: usize = 0;
    while g < groups.len()
        invariant
            g <= groups@.len(),
            df == total_members(groups@.take(g as int)),
            total_members(groups@) <= usize::MAX,
        decreases groups@.len() - g,
    {
        proof {
            assert(groups@.take(g + 1).drop_last() =~= groups@.take(g as int));
            assert(groups@.take(g + 1).last() == groups@[g as int]);
            lemma_total_members_prefix(groups@, g + 1);
        }
        df += groups[g].len();
        g += 1;
    }
    proof {
        assert(groups@.take(groups@.len() as int) =~= groups@);
    }
    ScanStatistics {
        entries_observed,
        fingerprints_computed: fc,
        duplicate_groups: groups.len(),
        duplicate_files: df,
    }
}

} // verus!
