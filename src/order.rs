use vstd::prelude::*;

verus! {

/// Lexicographic comparison of two byte strings from position `i` on:
/// is the rest of `a` strictly before the rest of `b`?
pub open spec fn lt_from(a: Seq<u8>, b: Seq<u8>, i: nat) -> bool
    decreases a.len() - i,
{
    if i >= a.len() {
        i < b.len()
    } else if i >= b.len() {
        false
    } else if a[i as int] < b[i as int] {
        true
    } else if a[i as int] > b[i as int] {
        false
    } else {
        lt_from(a, b, i + 1)
    }
}

/// Byte-wise lexicographic order, the order of `str`'s `cmp`.
pub open spec fn bytes_lt(a: Seq<u8>, b: Seq<u8>) -> bool {
    lt_from(a, b, 0)
}

proof fn lemma_lt_from_asym(a: Seq<u8>, b: Seq<u8>, i: nat)
    requires
        lt_from(a, b, i),
    ensures
        !lt_from(b, a, i),
    decreases a.len() - i,
{
    if i < a.len() && i < b.len() && a[i as int] == b[i as int] {
        lemma_lt_from_asym(a, b, i + 1);
    }
}

proof fn lemma_lt_from_neg_trans(a: Seq<u8>, b: Seq<u8>, c: Seq<u8>, i: nat)
    requires
        lt_from(a, c, i),
    ensures
        lt_from(a, b, i) || lt_from(b, c, i),
    decreases a.len() - i,
{
    if i < a.len() && i < b.len() && i < c.len() && a[i as int] == b[i as int] && b[i as int]
        == c[i as int] {
        lemma_lt_from_neg_trans(a, b, c, i + 1);
    }
}

/// No byte string comes before itself.
pub proof fn lemma_bytes_lt_irrefl(a: Seq<u8>)
    ensures
        !bytes_lt(a, a),
{
    if bytes_lt(a, a) {
        lemma_bytes_lt_asym(a, a);
    }
}

proof fn lemma_lt_from_total(a: Seq<u8>, b: Seq<u8>, i: nat)
    requires
        i <= a.len(),
        i <= b.len(),
    ensures
        lt_from(a, b, i) || lt_from(b, a, i) || (a.len() == b.len() && forall|t: int|
            i <= t < a.len() ==> a[t] == b[t]),
    decreases a.len() - i,
{
    if i < a.len() && i < b.len() && a[i as int] == b[i as int] {
        lemma_lt_from_total(a, b, i + 1);
        if a.len() == b.len() && forall|t: int| i + 1 <= t < a.len() ==> a[t] == b[t] {
            assert forall|t: int| i <= t < a.len() implies a[t] == b[t] by {
                if t > i {
                    assert(i + 1 <= t);
                }
            }
        }
    }
}

/// Of two different byte strings, one comes before the other.
pub proof fn lemma_bytes_lt_total(a: Seq<u8>, b: Seq<u8>)
    requires
        !bytes_lt(a, b),
        !bytes_lt(b, a),
    ensures
        a == b,
{
    lemma_lt_from_total(a, b, 0);
    assert(a =~= b);
}

/// `bytes_lt` is asymmetric.
pub proof fn lemma_bytes_lt_asym(a: Seq<u8>, b: Seq<u8>)
    requires
        bytes_lt(a, b),
    ensures
        !bytes_lt(b, a),
{
    lemma_lt_from_asym(a, b, 0);
}

/// "Not before" is transitive: if `a` is before `c`, then `b` lies after `a`
/// or before `c`.
pub proof fn lemma_bytes_lt_neg_trans(a: Seq<u8>, b: Seq<u8>, c: Seq<u8>)
    requires
        bytes_lt(a, c),
    ensures
        bytes_lt(a, b) || bytes_lt(b, c),
{
    lemma_lt_from_neg_trans(a, b, c, 0);
}

/// Compares two byte strings lexicographically.
pub fn bytes_less(a: &[u8], b: &[u8]) -> (r: bool)
    ensures
        r == bytes_lt(a@, b@),
{
    let mut i: usize = 0;
    while i < a.len() && i < b.len()
        invariant
            i <= a@.len(),
            i <= b@.len(),
            lt_from(a@, b@, i as nat) == bytes_lt(a@, b@),
        decreases a@.len() - i,
    {
        if a[i] < b[i] {
            return true;
        } else if a[i] > b[i] {
            return false;
        }
        i = i + 1;
    }
    i < b.len()
}


/// Where a stable insertion puts item `j` into `o`: just after the last of
/// `o[..p]` whose key is not after the key of `j`.
pub open spec fn insert_pos(o: Seq<int>, keys: Seq<Seq<u8>>, j: int, p: int) -> int
    decreases p,
{
    if p <= 0 {
        0
    } else if bytes_lt(keys[j], keys[o[p - 1]]) {
        insert_pos(o, keys, j, p - 1)
    } else {
        p
    }
}

/// The order that a stable sort by key gives to the first `n` items: each
/// entry is an index into `keys`.
pub open spec fn sort_order(keys: Seq<Seq<u8>>, n: nat) -> Seq<int>
    decreases n,
{
    if n == 0 {
        Seq::empty()
    } else {
        let o = sort_order(keys, (n - 1) as nat);
        o.insert(insert_pos(o, keys, n - 1, o.len() as int), n - 1)
    }
}

/// Each key in `o` is not before the keys of the entries ahead of it.
pub open spec fn sorted_by(o: Seq<int>, keys: Seq<Seq<u8>>) -> bool {
    forall|x: int, y: int| 0 <= x < y < o.len() ==> !bytes_lt(keys[o[y]], keys[o[x]])
}

/// Entries whose keys are equal keep the order of their indices.
pub open spec fn stable_by(o: Seq<int>, keys: Seq<Seq<u8>>) -> bool {
    forall|x: int, y: int|
        0 <= x < y < o.len() && keys[o[x]] == keys[o[y]] ==> o[x] < o[y]
}

/// `o` holds each index below `n` exactly once.
pub open spec fn is_permutation(o: Seq<int>, n: nat) -> bool {
    &&& o.len() == n
    &&& o.no_duplicates()
    &&& forall|k: int| 0 <= k < o.len() ==> 0 <= #[trigger] o[k] < n
    &&& forall|i: int| 0 <= i < n ==> #[trigger] o.contains(i)
}

proof fn lemma_insert_pos(o: Seq<int>, keys: Seq<Seq<u8>>, j: int, p: int)
    requires
        0 <= p <= o.len(),
    ensures
        0 <= insert_pos(o, keys, j, p) <= p,
        forall|q: int|
            insert_pos(o, keys, j, p) <= q < p ==> bytes_lt(keys[j], #[trigger] keys[o[q]]),
        insert_pos(o, keys, j, p) > 0 ==> !bytes_lt(
            keys[j],
            keys[o[insert_pos(o, keys, j, p) - 1]],
        ),
    decreases p,
{
    if p > 0 && bytes_lt(keys[j], keys[o[p - 1]]) {
        lemma_insert_pos(o, keys, j, p - 1);
    }
}

/// The stable sort by key yields a permutation of the items, sorted by key,
/// with items of equal keys in their original order.
pub proof fn lemma_sort_order(keys: Seq<Seq<u8>>, n: nat)
    requires
        n <= keys.len(),
    ensures
        is_permutation(sort_order(keys, n), n),
        sorted_by(sort_order(keys, n), keys),
        stable_by(sort_order(keys, n), keys),
    decreases n,
{
    if n > 0 {
        let o = sort_order(keys, (n - 1) as nat);
        lemma_sort_order(keys, (n - 1) as nat);
        let j = n - 1;
        let p = insert_pos(o, keys, j, o.len() as int);
        lemma_insert_pos(o, keys, j, o.len() as int);
        let o2 = o.insert(p, j);
        assert(o2 == sort_order(keys, n));
        assert forall|k: int| 0 <= k < o2.len() implies 0 <= #[trigger] o2[k] < n by {
            if k < p {
                assert(o2[k] == o[k]);
            } else if k > p {
                assert(o2[k] == o[k - 1]);
            }
        }
        assert forall|x: int, y: int| 0 <= x < y < o2.len() implies o2[x] != o2[y] by {
            if x != p && y != p {
                let ox = if x < p { x } else { x - 1 };
                let oy = if y < p { y } else { y - 1 };
                assert(o2[x] == o[ox] && o2[y] == o[oy]);
            } else if x == p {
                assert(o2[y] == o[y - 1]);
            } else {
                assert(o2[x] == o[x]);
            }
        }
        assert forall|x: int, y: int| 0 <= x < y < o2.len() implies !bytes_lt(
            keys[o2[y]],
            keys[o2[x]],
        ) by {
            if x != p && y != p {
                let ox = if x < p { x } else { x - 1 };
                let oy = if y < p { y } else { y - 1 };
                assert(o2[x] == o[ox] && o2[y] == o[oy]);
            } else if x == p {
                assert(o2[y] == o[y - 1]);
                lemma_bytes_lt_asym(keys[j], keys[o[y - 1]]);
            } else {
                assert(o2[x] == o[x]);
                assert(o2[y] == j);
                if bytes_lt(keys[j], keys[o[x]]) {
                    lemma_bytes_lt_neg_trans(keys[j], keys[o[p - 1]], keys[o[x]]);
                    if x < p - 1 {
                        assert(!bytes_lt(keys[o[p - 1]], keys[o[x]]));
                    }
                }
            }
        }
        assert(o2.no_duplicates());
        assert forall|i: int| 0 <= i < n implies #[trigger] o2.contains(i) by {
            if i == j {
                assert(o2[p] == j);
            } else {
                assert(o.contains(i));
                let t = choose|t: int| 0 <= t < o.len() && o[t] == i;
                if t < p {
                    assert(o2[t] == i);
                } else {
                    assert(o2[t + 1] == i);
                }
            }
        }
        assert forall|x: int, y: int|
            0 <= x < y < o2.len() && keys[o2[x]] == keys[o2[y]] implies o2[x] < o2[y] by {
            if x != p && y != p {
                let ox = if x < p { x } else { x - 1 };
                let oy = if y < p { y } else { y - 1 };
                assert(o2[x] == o[ox] && o2[y] == o[oy]);
            } else if x == p {
                assert(o2[y] == o[y - 1]);
                lemma_bytes_lt_asym(keys[j], keys[o[y - 1]]);
                assert(bytes_lt(keys[j], keys[o[y - 1]]));
                lemma_bytes_lt_irrefl(keys[j]);
            } else {
                assert(o2[x] == o[x]);
            }
        }
    }
}

} // verus!
