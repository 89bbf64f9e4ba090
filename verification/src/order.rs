//! Lexicographic ordering of byte strings, and the sorting that gives
//! duplicate groups their canonical, deterministic presentation.
//!
//! Paths are modelled as byte strings.  The resolver sorts each group's
//! members and then the groups themselves (by their first, i.e. smallest,
//! member), so that sequential and parallel runs present bit-identical
//! output.  `lemma_strict_sorted_unique` is the backbone of that claim: a
//! strictly sorted presentation of a set of elements is unique.

use vstd::prelude::*;

verus! {

/// Strict lexicographic order on byte strings: the empty string comes first,
/// otherwise the first differing byte decides.
pub open spec fn lex_lt(a: Seq<u8>, b: Seq<u8>) -> bool
    decreases a.len(),
{
    if b.len() == 0 {
        false
    } else if a.len() == 0 {
        true
    } else if a[0] < b[0] {
        true
    } else if a[0] > b[0] {
        false
    } else {
        lex_lt(a.drop_first(), b.drop_first())
    }
}

/// `lex_lt` is asymmetric (hence also irreflexive).
pub proof fn lemma_lex_lt_asymmetric(a: Seq<u8>, b: Seq<u8>)
    ensures
        !(lex_lt(a, b) && lex_lt(b, a)),
    decreases a.len(),
{
    if a.len() > 0 && b.len() > 0 && a[0] == b[0] {
        lemma_lex_lt_asymmetric(a.drop_first(), b.drop_first());
    }
}

/// `lex_lt` is total: distinct byte strings are ordered one way or the other.
pub proof fn lemma_lex_lt_total(a: Seq<u8>, b: Seq<u8>)
    ensures
        a != b ==> lex_lt(a, b) || lex_lt(b, a),
    decreases a.len(),
{
    if a.len() == 0 && b.len() == 0 {
        assert(a =~= b);
    } else if a.len() > 0 && b.len() > 0 && a[0] == b[0] {
        lemma_lex_lt_total(a.drop_first(), b.drop_first());
        if a.drop_first() == b.drop_first() {
            assert(a.drop_first().len() == a.len() - 1);
            assert(b.drop_first().len() == b.len() - 1);
            assert(a.len() == b.len());
            assert forall|i: int| 0 <= i < a.len() implies a[i] == b[i] by {
                if i >= 1 {
                    assert(a[i] == a.drop_first()[i - 1]);
                    assert(b[i] == b.drop_first()[i - 1]);
                }
            }
            assert(a =~= b);
        }
    }
}

/// `lex_lt` is transitive.
pub proof fn lemma_lex_lt_transitive(a: Seq<u8>, b: Seq<u8>, c: Seq<u8>)
    ensures
        lex_lt(a, b) && lex_lt(b, c) ==> lex_lt(a, c),
    decreases a.len(),
{
    if a.len() > 0 && b.len() > 0 && c.len() > 0 && a[0] == b[0] && b[0] == c[0] {
        lemma_lex_lt_transitive(a.drop_first(), b.drop_first(), c.drop_first());
    }
}

/// Decides the strict lexicographic order on two byte strings.
pub fn lex_less(a: &Vec<u8>, b: &Vec<u8>) -> (r: bool)
    ensures
        r == lex_lt(a@, b@),
{
    let mut i: usize = 0;
    proof {
        assert(a@.skip(0) =~= a@);
        assert(b@.skip(0) =~= b@);
    }
    loop
        invariant
            i <= a@.len(),
            i <= b@.len(),
            lex_lt(a@, b@) == lex_lt(a@.skip(i as int), b@.skip(i as int)),
        decreases a@.len() - i,
    {
        if i >= b.len() {
            return false;
        }
        if i >= a.len() {
            return true;
        }
        if a[i] < b[i] {
            return true;
        }
        if a[i] > b[i] {
            return false;
        }
        proof {
            assert(a@.skip(i as int).drop_first() =~= a@.skip(i + 1));
            assert(b@.skip(i as int).drop_first() =~= b@.skip(i + 1));
        }
        i += 1;
    }
}

/// The views of a sequence of byte vectors.
pub open spec fn views(s: Seq<Vec<u8>>) -> Seq<Seq<u8>> {
    s.map_values(|x: Vec<u8>| x@)
}

/// The views of a sequence of groups of byte vectors.
pub open spec fn gviews(s: Seq<Vec<Vec<u8>>>) -> Seq<Seq<Seq<u8>>> {
    s.map_values(|g: Vec<Vec<u8>>| views(g@))
}

/// Strictly sorted with respect to an arbitrary order.
pub open spec fn strict_sorted_by<T>(s: Seq<T>, lt: spec_fn(T, T) -> bool) -> bool {
    forall|i: int, j: int| 0 <= i < j < s.len() ==> lt(s[i], s[j])
}

/// Byte strings in strictly increasing lexicographic order.
pub open spec fn lex_sorted(s: Seq<Seq<u8>>) -> bool {
    forall|i: int, j: int| 0 <= i < j < s.len() ==> lex_lt(s[i], s[j])
}

/// A strictly sorted presentation of a set of elements is unique: two
/// sequences that are strictly sorted by an asymmetric order and hold the
/// same elements are the same sequence.
pub proof fn lemma_strict_sorted_unique<T>(s1: Seq<T>, s2: Seq<T>, lt: spec_fn(T, T) -> bool)
    requires
        strict_sorted_by(s1, lt),
        strict_sorted_by(s2, lt),
        forall|x: T, y: T| !(#[trigger] lt(x, y) && lt(y, x)),
        s1.to_set() == s2.to_set(),
    ensures
        s1 == s2,
    decreases s1.len(),
{
    if s1.len() == 0 {
        if s2.len() > 0 {
            assert(s2.to_set().contains(s2[0]));
            assert(s1.contains(s2[0]));
            assert(false);
        }
        assert(s1 =~= s2);
    } else {
        assert(s1.to_set().contains(s1[0]));
        assert(s2.to_set().contains(s1[0]));
        assert(s2.contains(s1[0]));
        let j = choose|j: int| 0 <= j < s2.len() && s2[j] == s1[0];
        if j > 0 {
            assert(lt(s2[0], s1[0]));
            assert(s1.to_set().contains(s2[0]));
            assert(s1.contains(s2[0]));
            let i = choose|i: int| 0 <= i < s1.len() && s1[i] == s2[0];
            if i > 0 {
                assert(lt(s1[0], s2[0]));
                assert(false);
            } else {
                // s1[0] == s2[0], yet lt(s2[0], s1[0]): contradicts asymmetry
                assert(false);
            }
        }
        assert(s1[0] == s2[0]);
        let t1 = s1.drop_first();
        let t2 = s2.drop_first();
        assert(forall|k: int| 0 <= k < t1.len() ==> #[trigger] t1[k] == s1[k + 1]);
        assert(forall|k: int| 0 <= k < t2.len() ==> #[trigger] t2[k] == s2[k + 1]);
        assert(t1.to_set() =~= t2.to_set()) by {
            assert forall|x: T| t1.to_set().contains(x) implies t2.to_set().contains(x) by {
                let k = choose|k: int| 0 <= k < t1.len() && t1[k] == x;
                assert(s1[k + 1] == x);
                assert(lt(s1[0], x));
                assert(s2.to_set().contains(x));
                let m = choose|m: int| 0 <= m < s2.len() && s2[m] == x;
                if m == 0 {
                    assert(false);
                }
                assert(t2[m - 1] == x);
                assert(t2.contains(x));
            }
            assert forall|x: T| t2.to_set().contains(x) implies t1.to_set().contains(x) by {
                let k = choose|k: int| 0 <= k < t2.len() && t2[k] == x;
                assert(s2[k + 1] == x);
                assert(lt(s2[0], x));
                assert(s1.to_set().contains(x));
                let m = choose|m: int| 0 <= m < s1.len() && s1[m] == x;
                if m == 0 {
                    assert(false);
                }
                assert(t1[m - 1] == x);
                assert(t1.contains(x));
            }
        }
        lemma_strict_sorted_unique(t1, t2, lt);
        assert forall|k: int| 0 <= k < s1.len() implies s1[k] == s2[k] by {
            if k >= 1 {
                assert(s1[k] == t1[k - 1]);
                assert(s2[k] == t2[k - 1]);
            }
        }
        assert(s1 =~= s2);
    }
}

/// Sorts byte strings (with pairwise distinct contents) into strictly
/// increasing lexicographic order, preserving exactly the contents.
pub fn sorted_paths(v: &Vec<Vec<u8>>) -> (r: Vec<Vec<u8>>)
    requires
        forall|a: int, b: int| 0 <= a < b < v@.len() ==> v@[a]@ != v@[b]@,
    ensures
        r@.len() == v@.len(),
        forall|q: Seq<u8>| #[trigger] views(r@).contains(q) <==> views(v@).contains(q),
        lex_sorted(views(r@)),
{
    let mut r: Vec<Vec<u8>> = Vec::new();
    let mut i: usize = 0;
    while i < v.len()
        invariant
            i <= v@.len(),
            r@.len() == i,
            lex_sorted(views(r@)),
            forall|a: int, b: int| 0 <= a < b < v@.len() ==> v@[a]@ != v@[b]@,
            forall|q: Seq<u8>| #[trigger] views(r@).contains(q) <==> (exists|j: int|
                0 <= j < i && v@[j]@ == q),
        decreases v@.len() - i,
    {
        let x = copy_bytes(&v[i]);
        let ghost old_r = r@;
        let mut p: usize = 0;
        while p < r.len() && lex_less(&r[p], &x)
            invariant
                p <= r@.len(),
                r@ == old_r,
                x@ == v@[i as int]@,
                forall|q: int| 0 <= q < p ==> lex_lt(r@[q]@, x@),
            decreases r@.len() - p,
        {
            p += 1;
        }
        proof {
            assert(!views(r@).contains(x@)) by {
                if views(r@).contains(x@) {
                    let j = choose|j: int| 0 <= j < i && v@[j]@ == x@;
                    assert(v@[j]@ == v@[i as int]@);
                }
            }
            if p < r@.len() {
                assert(views(r@)[p as int] == r@[p as int]@);
                assert(views(r@).contains(r@[p as int]@));
                assert(r@[p as int]@ != x@);
                lemma_lex_lt_total(r@[p as int]@, x@);
                assert(lex_lt(x@, r@[p as int]@));
            }
        }
        r.insert(p, x);
        proof {
            let nr = r@;
            assert(nr.len() == old_r.len() + 1);
            assert(forall|k: int| 0 <= k < p ==> nr[k] == old_r[k]);
            assert(nr[p as int]@ == x@);
            assert(forall|k: int| p < k < nr.len() ==> nr[k] == old_r[k - 1]);
            assert forall|a: int, b: int|
                0 <= a < b < nr.len() implies lex_lt(nr[a]@, nr[b]@) by {
                if b < p {
                    assert(lex_lt(views(old_r)[a], views(old_r)[b]));
                } else if b == p {
                    assert(lex_lt(old_r[a]@, x@));
                } else if a < p {
                    // nr[b] == old_r[b - 1] with a <= b - 1; equality is ruled out
                    assert(lex_lt(views(old_r)[a], views(old_r)[b - 1]) || a == b - 1);
                    if a == b - 1 {
                        // then a >= p, contradicting a < p
                        assert(false);
                    }
                } else if a == p {
                    if b == p + 1 {
                        assert(lex_lt(x@, old_r[p as int]@));
                    } else {
                        assert(lex_lt(x@, old_r[p as int]@));
                        assert(lex_lt(views(old_r)[p as int], views(old_r)[b - 1]));
                        lemma_lex_lt_transitive(x@, old_r[p as int]@, old_r[b - 1]@);
                    }
                } else {
                    assert(lex_lt(views(old_r)[a - 1], views(old_r)[b - 1]));
                }
            }
            assert forall|q: Seq<u8>| #[trigger] views(nr).contains(q) implies (exists|j: int|
                0 <= j < i + 1 && v@[j]@ == q) by {
                let k = choose|k: int| 0 <= k < nr.len() && views(nr)[k] == q;
                if k == p {
                    assert(v@[i as int]@ == q);
                } else if k < p {
                    assert(views(old_r)[k] == q);
                    assert(views(old_r).contains(q));
                } else {
                    assert(views(old_r)[k - 1] == q);
                    assert(views(old_r).contains(q));
                }
            }
            assert forall|j: int| 0 <= j < i + 1 implies views(nr).contains(v@[j]@) by {
                if j == i {
                    assert(views(nr)[p as int] == v@[i as int]@);
                } else {
                    assert(views(old_r).contains(v@[j]@));
                    let k = choose|k: int| 0 <= k < old_r.len() && views(old_r)[k] == v@[j]@;
                    if k < p {
                        assert(views(nr)[k] == v@[j]@);
                    } else {
                        assert(views(nr)[k + 1] == v@[j]@);
                    }
                }
            }
        }
        i += 1;
    }
    proof {
        assert forall|q: Seq<u8>| #[trigger] views(v@).contains(q) implies views(r@).contains(
            q,
        ) by {
            let j = choose|j: int| 0 <= j < v@.len() && views(v@)[j] == q;
            assert(v@[j]@ == q);
        }
        assert forall|q: Seq<u8>| #[trigger] views(r@).contains(q) implies views(v@).contains(
            q,
        ) by {
            let j = choose|j: int| 0 <= j < v@.len() && v@[j]@ == q;
            assert(views(v@)[j] == q);
        }
    }
    r
}

/// Copies a group of byte strings.
pub fn copy_group(g: &Vec<Vec<u8>>) -> (r: Vec<Vec<u8>>)
    ensures
        r@.len() == g@.len(),
        views(r@) == views(g@),
{
    let mut r: Vec<Vec<u8>> = Vec::new();
    let mut i: usize = 0;
    while i < g.len()
        invariant
            i <= g@.len(),
            r@.len() == i,
            forall|k: int| 0 <= k < i ==> r@[k]@ == g@[k]@,
        decreases g@.len() - i,
    {
        r.push(copy_bytes(&g[i]));
        i += 1;
    }
    proof {
        assert(views(r@) =~= views(g@));
    }
    r
}

/// Group `e` presents the same member views, in the same order, as `gs[j]`.
pub open spec fn matches_source(e: Vec<Vec<u8>>, gs: Seq<Vec<Vec<u8>>>, j: int) -> bool {
    e@[0]@ == gs[j]@[0]@ && views(e@) == views(gs[j]@)
}

/// Decides equality of two byte strings.
pub fn bytes_eq(a: &Vec<u8>, b: &Vec<u8>) -> (r: bool)
    ensures
        r == (a@ == b@),
{
    if a.len() != b.len() {
        return false;
    }
    let mut i: usize = 0;
    while i < a.len()
        invariant
            i <= a@.len(),
            a@.len() == b@.len(),
            forall|j: int| 0 <= j < i ==> a@[j] == b@[j],
        decreases a@.len() - i,
    {
        if a[i] != b[i] {
            return false;
        }
        i += 1;
    }
    proof {
        assert(a@ =~= b@);
    }
    true
}

/// Sorts groups (each nonempty, with pairwise distinct first members) by
/// their first member into strictly increasing lexicographic order,
/// preserving exactly the groups.
#[verifier::rlimit(50)]
pub fn sorted_groups(gs: &Vec<Vec<Vec<u8>>>) -> (r: Vec<Vec<Vec<u8>>>)
    requires
        forall|k: int| 0 <= k < gs@.len() ==> gs@[k].len() >= 1,
        forall|a: int, b: int| 0 <= a < b < gs@.len() ==> gs@[a]@[0]@ != gs@[b]@[0]@,
    ensures
        r@.len() == gs@.len(),
        forall|gq: Seq<Seq<u8>>| #[trigger] gviews(r@).contains(gq) <==> gviews(gs@).contains(gq),
        forall|k: int| 0 <= k < r@.len() ==> r@[k].len() >= 1,
        forall|a: int, b: int| 0 <= a < b < r@.len() ==> lex_lt(r@[a]@[0]@, r@[b]@[0]@),
{
    let mut firsts: Vec<Vec<u8>> = Vec::new();
    let mut i: usize = 0;
    while i < gs.len()
        invariant
            i <= gs@.len(),
            firsts@.len() == i,
            forall|k: int| 0 <= k < gs@.len() ==> gs@[k].len() >= 1,
            forall|k: int| 0 <= k < i ==> firsts@[k]@ == gs@[k]@[0]@,
        decreases gs@.len() - i,
    {
        let g = &gs[i];
        firsts.push(copy_bytes(&g[0]));
        i += 1;
    }
    let sf = sorted_paths(&firsts);
    let mut r: Vec<Vec<Vec<u8>>> = Vec::new();
    let mut t: usize = 0;
    while t < sf.len()
        invariant
            t <= sf@.len(),
            r@.len() == t,
            firsts@.len() == gs@.len(),
            sf@.len() == gs@.len(),
            forall|k: int| 0 <= k < gs@.len() ==> gs@[k].len() >= 1,
            forall|a: int, b: int| 0 <= a < b < gs@.len() ==> gs@[a]@[0]@ != gs@[b]@[0]@,
            forall|k: int| 0 <= k < gs@.len() ==> firsts@[k]@ == gs@[k]@[0]@,
            lex_sorted(views(sf@)),
            forall|q: Seq<u8>| #[trigger] views(sf@).contains(q) <==> views(firsts@).contains(q),
            forall|tt: int| #![trigger r@[tt]] 0 <= tt < t ==> (r@[tt].len() >= 1
                && r@[tt]@[0]@ == sf@[tt]@ && (exists|j: int|
                0 <= j < gs@.len() && #[trigger] matches_source(r@[tt], gs@, j))),
        decreases sf@.len() - t,
    {
        let target = &sf[t];
        proof {
            assert(views(sf@)[t as int] == sf@[t as int]@);
            assert(views(sf@).contains(target@));
            let kf = choose|kf: int| 0 <= kf < firsts@.len() && views(firsts@)[kf] == target@;
            assert(gs@[kf]@[0]@ == target@);
        }
        let ghost kw = choose|kw: int| 0 <= kw < gs@.len() && gs@[kw]@[0]@ == target@;
        let mut k: usize = 0;
        while k < gs.len() && !bytes_eq(&gs[k][0], target)
            invariant
                k <= gs@.len(),
                0 <= kw < gs@.len(),
                gs@[kw as int]@[0]@ == target@,
                forall|k2: int| 0 <= k2 < gs@.len() ==> gs@[k2].len() >= 1,
                forall|k2: int| 0 <= k2 < k ==> gs@[k2]@[0]@ != target@,
            decreases gs@.len() - k,
        {
            k += 1;
        }
        if k < gs.len() {
            r.push(copy_group(&gs[k]));
            proof {
                let nr = r@;
                assert(views(nr[t as int]@) == views(gs@[k as int]@));
                assert(views(nr[t as int]@)[0] == nr[t as int]@[0]@);
                assert(views(gs@[k as int]@)[0] == gs@[k as int]@[0]@);
                assert(nr[t as int]@[0]@ == gs@[k as int]@[0]@);
                assert(matches_source(nr[t as int], gs@, k as int));
                assert(forall|tt: int| 0 <= tt < t ==> nr[tt] == r@[tt]);
            }
        } else {
            proof {
                assert(gs@[kw as int]@[0]@ != target@);
                assert(false);
            }
        }
        t += 1;
    }
    proof {
        assert forall|gq: Seq<Seq<u8>>| #[trigger] gviews(r@).contains(gq) implies gviews(
            gs@,
        ).contains(gq) by {
            let tt = choose|tt: int| 0 <= tt < r@.len() && gviews(r@)[tt] == gq;
            let j = choose|j: int| 0 <= j < gs@.len() && #[trigger] matches_source(r@[tt], gs@, j);
            assert(views(r@[tt]@) == views(gs@[j]@));
            assert(gviews(gs@)[j] == gq);
        }
        assert forall|gq: Seq<Seq<u8>>| #[trigger] gviews(gs@).contains(gq) implies gviews(
            r@,
        ).contains(gq) by {
            let j = choose|j: int| 0 <= j < gs@.len() && gviews(gs@)[j] == gq;
            // the first member of gs[j] occurs in sf at some position t
            assert(views(firsts@)[j] == gs@[j]@[0]@);
            assert(views(firsts@).contains(gs@[j]@[0]@));
            assert(views(sf@).contains(gs@[j]@[0]@));
            let tt = choose|tt: int| 0 <= tt < sf@.len() && views(sf@)[tt] == gs@[j]@[0]@;
            assert(r@[tt]@[0]@ == gs@[j]@[0]@);
            let j2 = choose|j2: int| 0 <= j2 < gs@.len() && #[trigger] matches_source(
                r@[tt],
                gs@,
                j2,
            );
            // distinct first members force the matched source to be gs[j]
            assert(gs@[j2]@[0]@ == gs@[j]@[0]@);
            if j2 != j {
                assert(false);
            }
            assert(gviews(r@)[tt] == gq);
        }
        assert forall|a: int, b: int| 0 <= a < b < r@.len() implies lex_lt(
            r@[a]@[0]@,
            r@[b]@[0]@,
        ) by {
            assert(lex_lt(views(sf@)[a], views(sf@)[b]));
        }
    }
    r
}

/// Copies a byte string.
pub fn copy_bytes(v: &Vec<u8>) -> (r: Vec<u8>)
    ensures
        r@ == v@,
{
    let mut r: Vec<u8> = Vec::new();
    let mut i: usize = 0;
    while i < v.len()
        invariant
            i <= v@.len(),
            r@ == v@.take(i as int),
        decreases v@.len() - i,
    {
        r.push(v[i]);
        proof {
            assert(v@.take(i as int).push(v@[i as int]) =~= v@.take(i + 1));
        }
        i += 1;
    }
    proof {
        assert(v@.take(v@.len() as int) =~= v@);
    }
    r
}

} // verus!
