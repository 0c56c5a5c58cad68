//! Stable ordering by lexicographic integer keys.
//!
//! Every sort the launcher performs (search ranking, directory listings,
//! bookmark sources) orders records by a tuple of integers and keeps records
//! with equal keys in their given order. Here such a sort is expressed once:
//! each record gets a key, a sequence of `u64`, and records are ordered by key,
//! then by position in the input.
use vstd::prelude::*;

verus! {

/// Strict lexicographic order on keys; a proper prefix comes first.
pub open spec fn lex_lt(a: Seq<u64>, b: Seq<u64>) -> bool
    decreases a.len(),
{
    if b.len() == 0 {
        false
    } else if a.len() == 0 {
        true
    } else if a[0] != b[0] {
        a[0] < b[0]
    } else {
        lex_lt(a.drop_first(), b.drop_first())
    }
}

/// Record `i` comes before record `j`: a smaller key, or an equal key and an
/// earlier position.
pub open spec fn precedes(keys: Seq<Seq<u64>>, i: int, j: int) -> bool {
    lex_lt(keys[i], keys[j]) || (keys[i] == keys[j] && i < j)
}

/// `p` lists every record position once, each before all that it precedes:
/// the outcome of a stable sort by key.
pub open spec fn is_stable_order(keys: Seq<Seq<u64>>, p: Seq<usize>) -> bool {
    &&& p.len() == keys.len()
    &&& forall|t: int| 0 <= t < p.len() ==> #[trigger] p[t] < keys.len()
    &&& forall|s: int, t: int|
        0 <= s < t < p.len() ==> precedes(keys, #[trigger] p[s] as int, #[trigger] p[t] as int)
}

/// The views of a vector of keys.
pub open spec fn key_views(keys: Seq<Vec<u64>>) -> Seq<Seq<u64>> {
    keys.map_values(|k: Vec<u64>| k@)
}

/// No key is before itself.
pub proof fn lemma_lex_irreflexive(a: Seq<u64>)
    ensures
        !lex_lt(a, a),
    decreases a.len(),
{
    if a.len() > 0 {
        lemma_lex_irreflexive(a.drop_first());
    }
}

/// The key order is transitive.
pub proof fn lemma_lex_transitive(a: Seq<u64>, b: Seq<u64>, c: Seq<u64>)
    requires
        lex_lt(a, b),
        lex_lt(b, c),
    ensures
        lex_lt(a, c),
    decreases a.len(),
{
    if a.len() > 0 && b.len() > 0 && c.len() > 0 {
        if a[0] == b[0] && b[0] == c[0] {
            lemma_lex_transitive(a.drop_first(), b.drop_first(), c.drop_first());
        }
    }
}

/// Two different keys are ordered one way or the other.
pub proof fn lemma_lex_total(a: Seq<u64>, b: Seq<u64>)
    ensures
        a == b || lex_lt(a, b) || lex_lt(b, a),
    decreases a.len(),
{
    if a.len() > 0 && b.len() > 0 && a[0] == b[0] {
        lemma_lex_total(a.drop_first(), b.drop_first());
        if a.drop_first() == b.drop_first() {
            assert(a =~= seq![a[0]] + a.drop_first());
            assert(b =~= seq![b[0]] + b.drop_first());
        }
    } else if a.len() == 0 && b.len() == 0 {
        assert(a =~= b);
    }
}

/// A key that comes before another, or equals it, has a first element no
/// larger than the other's, and with equal first elements a second element
/// no larger.
pub proof fn lemma_lex_first_two(a: Seq<u64>, b: Seq<u64>)
    requires
        a.len() >= 2,
        b.len() >= 2,
        lex_lt(a, b) || a == b,
    ensures
        a[0] <= b[0],
        a[0] == b[0] ==> a[1] <= b[1],
{
    if a != b && a[0] == b[0] {
        let (a1, b1) = (a.drop_first(), b.drop_first());
        assert(lex_lt(a1, b1));
        assert(a1[0] == a[1] && b1[0] == b[1]);
    }
}

/// Of two keys in order that agree on their first two parts, the earlier
/// has the smaller third part.
pub proof fn lemma_lex_third(a: Seq<u64>, b: Seq<u64>)
    requires
        a.len() >= 3,
        b.len() >= 3,
        lex_lt(a, b) || a == b,
        a[0] == b[0],
        a[1] == b[1],
    ensures
        a[2] <= b[2],
{
    if a != b {
        let (a1, b1) = (a.drop_first(), b.drop_first());
        assert(lex_lt(a1, b1));
        let (a2, b2) = (a1.drop_first(), b1.drop_first());
        assert(a1[0] == a[1] && b1[0] == b[1]);
        assert(lex_lt(a2, b2));
        assert(a2[0] == a[2] && b2[0] == b[2]);
    }
}

/// In a stable order, a record listed earlier never has a larger key.
pub proof fn lemma_stable_order_sorted(keys: Seq<Seq<u64>>, p: Seq<usize>, s: int, t: int)
    requires
        is_stable_order(keys, p),
        0 <= s < t < p.len(),
    ensures
        lex_lt(keys[p[s] as int], keys[p[t] as int]) || keys[p[s] as int] == keys[p[t] as int],
{
    assert(precedes(keys, p[s] as int, p[t] as int));
}

/// Whether key `a` comes strictly before key `b`.
pub fn lex_less(a: &Vec<u64>, b: &Vec<u64>) -> (r: bool)
    ensures
        r == lex_lt(a@, b@),
{
    let mut i: usize = 0;
    assert(a@.skip(0) =~= a@);
    assert(b@.skip(0) =~= b@);
    while i < a.len() && i < b.len() && a[i] == b[i]
        invariant
            i <= a.len(),
            i <= b.len(),
            lex_lt(a@, b@) == lex_lt(a@.skip(i as int), b@.skip(i as int)),
        decreases a.len() - i,
    {
        assert(a@.skip(i as int).drop_first() =~= a@.skip(i + 1));
        assert(b@.skip(i as int).drop_first() =~= b@.skip(i + 1));
        i = i + 1;
    }
    if i == b.len() {
        false
    } else if i == a.len() {
        true
    } else {
        a[i] < b[i]
    }
}

/// Record positions ordered by key, equal keys kept in their given order.
pub fn stable_order(keys: &Vec<Vec<u64>>) -> (p: Vec<usize>)
    ensures
        is_stable_order(key_views(keys@), p@),
{
    let ghost kv = key_views(keys@);
    let n = keys.len();
    let mut p: Vec<usize> = Vec::new();
    let mut k: usize = 0;
    while k < n
        invariant
            n == keys.len(),
            kv == key_views(keys@),
            k <= n,
            p.len() == k,
            forall|t: int| 0 <= t < p.len() ==> #[trigger] p@[t] < k,
            forall|s: int, t: int|
                0 <= s < t < p.len() ==> precedes(kv, #[trigger] p@[s] as int, #[trigger] p@[t] as int),
        decreases n - k,
    {
        let mut pos: usize = 0;
        while pos < p.len() && !lex_less(&keys[k], &keys[p[pos]])
            invariant
                n == keys.len(),
                kv == key_views(keys@),
                k < n,
                pos <= p.len(),
                p.len() == k,
                forall|t: int| 0 <= t < p.len() ==> #[trigger] p@[t] < k,
                forall|t: int| 0 <= t < pos ==> !lex_lt(kv[k as int], kv[#[trigger] p@[t] as int]),
            decreases p.len() - pos,
        {
            pos = pos + 1;
        }
        let ghost old_p = p@;
        proof {
            if pos < old_p.len() {
                assert(lex_lt(kv[k as int], kv[old_p[pos as int] as int]));
            }
        }
        p.insert(pos, k);
        proof {
            let q = p@;
            assert(q.len() == old_p.len() + 1);
            assert forall|t: int| 0 <= t < q.len() implies #[trigger] q[t] < k + 1 by {
                if t < pos {
                    assert(q[t] == old_p[t]);
                } else if t > pos {
                    assert(q[t] == old_p[t - 1]);
                }
            }
            assert forall|s: int, t: int| 0 <= s < t < q.len() implies precedes(
                kv,
                #[trigger] q[s] as int,
                #[trigger] q[t] as int,
            ) by {
                let ki = k as int;
                if t < pos {
                    assert(q[s] == old_p[s] && q[t] == old_p[t]);
                } else if t == pos {
                    assert(q[s] == old_p[s]);
                    assert(q[t] == k);
                    let x = old_p[s] as int;
                    assert(!lex_lt(kv[ki], kv[x]));
                    lemma_lex_total(kv[x], kv[ki]);
                } else if s == pos {
                    assert(q[s] == k);
                    assert(q[t] == old_p[t - 1]);
                    let y = old_p[t - 1] as int;
                    let m = old_p[pos as int] as int;
                    assert(lex_lt(kv[ki], kv[m]));
                    if t - 1 > pos {
                        assert(precedes(kv, m, y));
                        if lex_lt(kv[m], kv[y]) {
                            lemma_lex_transitive(kv[ki], kv[m], kv[y]);
                        }
                    }
                } else if s < pos {
                    assert(q[s] == old_p[s] && q[t] == old_p[t - 1]);
                } else {
                    assert(q[s] == old_p[s - 1] && q[t] == old_p[t - 1]);
                }
            }
        }
        k = k + 1;
    }
    p
}

/// A stable order lists every record position: each position appears in it.
pub proof fn stable_order_covers(keys: Seq<Seq<u64>>, p: Seq<usize>, m: int)
    requires
        is_stable_order(keys, p),
        0 <= m < keys.len(),
    ensures
        exists|t: int| 0 <= t < p.len() && #[trigger] p[t] == m,
{
    let q = p.map_values(|x: usize| x as int);
    assert(q.no_duplicates()) by {
        assert forall|s: int, t: int| 0 <= s < q.len() && 0 <= t < q.len() && s != t implies q[s] != q[t] by {
            if s < t {
                assert(precedes(keys, p[s] as int, p[t] as int));
            } else {
                assert(precedes(keys, p[t] as int, p[s] as int));
            }
            lemma_lex_irreflexive(keys[p[s] as int]);
        }
    }
    q.unique_seq_to_set();
    let r = vstd::set_lib::set_int_range(0, keys.len() as int);
    vstd::set_lib::lemma_int_range(0, keys.len() as int);
    assert(q.to_set().subset_of(r)) by {
        assert forall|x: int| q.to_set().contains(x) implies r.contains(x) by {
            let t = choose|t: int| 0 <= t < q.len() && q[t] == x;
            assert(p[t] < keys.len());
        }
    }
    vstd::set_lib::lemma_subset_equality(q.to_set(), r);
    assert(r.contains(m));
    assert(q.to_set().contains(m));
    let t = choose|t: int| 0 <= t < q.len() && q[t] == m;
    assert(p[t] == m);
}

} // verus!
