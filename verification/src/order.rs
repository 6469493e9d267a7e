//! Ordering of directory entries by path: lexicographic order on text and a
//! stable insertion order of indices.

use vstd::prelude::*;

verus! {

/// Strict lexicographic order on texts, by code point (the order of their UTF-8 bytes).
pub open spec fn lex_lt(a: Seq<char>, b: Seq<char>) -> bool
    decreases a.len(),
{
    if b.len() == 0 {
        false
    } else if a.len() == 0 {
        true
    } else if (a[0] as u32) < (b[0] as u32) {
        true
    } else if (a[0] as u32) > (b[0] as u32) {
        false
    } else {
        lex_lt(a.drop_first(), b.drop_first())
    }
}

/// Whether `a` comes strictly before `b`.
pub fn lex_less(a: &Vec<char>, b: &Vec<char>) -> (r: bool)
    ensures
        r == lex_lt(a@, b@),
{
    let mut i: usize = 0;
    assert(a@.skip(0) =~= a@);
    assert(b@.skip(0) =~= b@);
    while i < a.len() && i < b.len()
        invariant
            i <= a@.len(),
            i <= b@.len(),
            lex_lt(a@, b@) == lex_lt(a@.skip(i as int), b@.skip(i as int)),
        decreases a@.len() - i,
    {
        let x = a[i] as u32;
        let y = b[i] as u32;
        if x < y {
            return true;
        }
        if x > y {
            return false;
        }
        assert(a@.skip(i as int).drop_first() =~= a@.skip(i + 1));
        assert(b@.skip(i as int).drop_first() =~= b@.skip(i + 1));
        i = i + 1;
    }
    i < b.len()
}

/// The texts held by `keys`.
pub open spec fn texts(keys: Seq<Vec<char>>) -> Seq<Seq<char>> {
    Seq::new(keys.len(), |i: int| keys[i]@)
}

/// The positions held by `order`, as integers.
pub open spec fn positions(order: Seq<usize>) -> Seq<int> {
    Seq::new(order.len(), |i: int| order[i] as int)
}

/// Where `key` goes in `order`: after every index whose key is not greater than `key`,
/// scanning from the front.
pub open spec fn insert_pos(keys: Seq<Seq<char>>, order: Seq<int>, key: Seq<char>) -> nat
    decreases order.len(),
{
    if order.len() == 0 {
        0
    } else if lex_lt(key, keys[order[0]]) {
        0
    } else {
        1 + insert_pos(keys, order.drop_first(), key)
    }
}

/// The first `n` indices of `keys`, each inserted in turn after the indices whose keys are
/// not greater: a stable sort of `0..n` by key.
pub open spec fn sort_order(keys: Seq<Seq<char>>, n: nat) -> Seq<int>
    decreases n,
{
    if n == 0 {
        seq![]
    } else {
        let o = sort_order(keys, (n - 1) as nat);
        o.insert(insert_pos(keys, o, keys[n - 1]) as int, n - 1)
    }
}

/// The indices of `keys`, stably sorted by key.
pub open spec fn sorted_indices(keys: Seq<Seq<char>>) -> Seq<int> {
    sort_order(keys, keys.len())
}

/// Orders the indices of `keys` by their keys, keeping equal keys in their original order.
pub fn sort_indices(keys: &Vec<Vec<char>>) -> (order: Vec<usize>)
    ensures
        positions(order@) == sorted_indices(texts(keys@)),
        order@.len() == keys@.len(),
        forall|j: int| 0 <= j < order@.len() ==> order@[j] < keys@.len(),
{
    let ghost k = texts(keys@);
    let n = keys.len();
    let mut order: Vec<usize> = Vec::new();
    let mut i: usize = 0;
    while i < n
        invariant
            n == keys@.len(),
            k == texts(keys@),
            i <= n,
            order@.len() == i,
            positions(order@) == sort_order(k, i as nat),
            forall|j: int| 0 <= j < order@.len() ==> order@[j] < i,
        decreases n - i,
    {
        let ghost o = positions(order@);
        let mut p: usize = 0;
        assert(o.skip(0) =~= o);
        while p < order.len() && !lex_less(&keys[i], &keys[order[p]])
            invariant
                n == keys@.len(),
                k == texts(keys@),
                i < n,
                o == positions(order@),
                p <= order@.len(),
                forall|j: int| 0 <= j < order@.len() ==> order@[j] < i,
                insert_pos(k, o, k[i as int]) == p + insert_pos(k, o.skip(p as int), k[i as int]),
            decreases order@.len() - p,
        {
            assert(o.skip(p as int).drop_first() =~= o.skip(p + 1));
            assert(o.skip(p as int)[0] == order@[p as int] as int);
            p = p + 1;
        }
        proof {
            if p < order@.len() {
                assert(o.skip(p as int)[0] == order@[p as int] as int);
            }
            assert(insert_pos(k, o, k[i as int]) == p);
        }
        order.insert(p, i);
        assert(positions(order@) =~= o.insert(p as int, i as int));
        i = i + 1;
    }
    order
}

} // verus!

verus! {

pub proof fn lemma_lex_irreflexive(a: Seq<char>)
    ensures
        !lex_lt(a, a),
    decreases a.len(),
{
    if a.len() > 0 {
        lemma_lex_irreflexive(a.drop_first());
    }
}

pub proof fn lemma_lex_transitive(a: Seq<char>, b: Seq<char>, c: Seq<char>)
    requires
        lex_lt(a, b),
        lex_lt(b, c),
    ensures
        lex_lt(a, c),
    decreases a.len(),
{
    if a.len() > 0 && b.len() > 0 && c.len() > 0 {
        if (a[0] as u32) == (b[0] as u32) && (b[0] as u32) == (c[0] as u32) {
            lemma_lex_transitive(a.drop_first(), b.drop_first(), c.drop_first());
        }
    }
}

/// The sequence `o` lists `0..n`, each once.
pub open spec fn lists_each_once(o: Seq<int>, n: nat) -> bool {
    &&& o.len() == n
    &&& forall|j: int| 0 <= j < o.len() ==> 0 <= #[trigger] o[j] < n
    &&& o.no_duplicates()
    &&& forall|i: int| 0 <= i < n ==> #[trigger] o.contains(i)
}

/// Along `o`, no key is smaller than a key before it.
pub open spec fn sorted_by_key(keys: Seq<Seq<char>>, o: Seq<int>) -> bool {
    forall|a: int, b: int| 0 <= a < b < o.len() ==> !lex_lt(keys[o[b]], keys[o[a]])
}

/// Along `o`, indices with equal keys keep their original order.
pub open spec fn keeps_ties_in_order(keys: Seq<Seq<char>>, o: Seq<int>) -> bool {
    forall|a: int, b: int|
        0 <= a < b < o.len() && keys[o[a]] == keys[o[b]] ==> o[a] < o[b]
}

proof fn lemma_insert_pos(keys: Seq<Seq<char>>, o: Seq<int>, x: Seq<char>)
    ensures
        insert_pos(keys, o, x) <= o.len(),
        forall|q: int| 0 <= q < insert_pos(keys, o, x) ==> !lex_lt(x, keys[o[q]]),
        insert_pos(keys, o, x) < o.len() ==> lex_lt(x, keys[o[insert_pos(keys, o, x) as int]]),
    decreases o.len(),
{
    if o.len() > 0 && !lex_lt(x, keys[o[0]]) {
        lemma_insert_pos(keys, o.drop_first(), x);
        assert forall|q: int| 0 <= q < insert_pos(keys, o, x) implies !lex_lt(x, keys[o[q]]) by {
            if q > 0 {
                assert(o[q] == o.drop_first()[q - 1]);
            }
        }
    }
}

proof fn lemma_sort_order(keys: Seq<Seq<char>>, n: nat)
    requires
        n <= keys.len(),
    ensures
        lists_each_once(sort_order(keys, n), n),
        sorted_by_key(keys, sort_order(keys, n)),
        keeps_ties_in_order(keys, sort_order(keys, n)),
    decreases n,
{
    if n > 0 {
        let m = (n - 1) as nat;
        let o = sort_order(keys, m);
        lemma_sort_order(keys, m);
        let x = keys[m as int];
        let p = insert_pos(keys, o, x) as int;
        lemma_insert_pos(keys, o, x);
        let r = o.insert(p, m as int);
        assert(r == sort_order(keys, n));
        assert forall|j: int| 0 <= j < r.len() implies 0 <= #[trigger] r[j] < n by {
            if j < p {
                assert(r[j] == o[j]);
            } else if j > p {
                assert(r[j] == o[j - 1]);
            }
        }
        assert forall|i: int| 0 <= i < n implies #[trigger] r.contains(i) by {
            if i == m {
                assert(r[p] == i);
            } else {
                assert(o.contains(i));
                let q = choose|q: int| 0 <= q < o.len() && o[q] == i;
                if q < p {
                    assert(r[q] == i);
                } else {
                    assert(r[q + 1] == i);
                }
            }
        }
        assert forall|a: int, b: int| 0 <= a < r.len() && 0 <= b < r.len() && a != b implies r[a]
            != r[b] by {
            if a != p && b != p {
                let a0 = if a < p { a } else { a - 1 };
                let b0 = if b < p { b } else { b - 1 };
                assert(r[a] == o[a0]);
                assert(r[b] == o[b0]);
            } else if a == p {
                let b0 = if b < p { b } else { b - 1 };
                assert(r[b] == o[b0]);
            } else {
                let a0 = if a < p { a } else { a - 1 };
                assert(r[a] == o[a0]);
            }
        }
        assert forall|a: int, b: int| 0 <= a < b < r.len() implies !lex_lt(
            keys[r[b]],
            keys[r[a]],
        ) && (keys[r[a]] == keys[r[b]] ==> r[a] < r[b]) by {
            if b < p {
                assert(r[a] == o[a] && r[b] == o[b]);
            } else if a > p {
                assert(r[a] == o[a - 1] && r[b] == o[b - 1]);
            } else if a < p && b > p {
                assert(r[a] == o[a] && r[b] == o[b - 1]);
            } else if a == p {
                // x sits before every later key, which is at least keys[o[p]] > x
                assert(r[b] == o[b - 1]);
                assert(p < o.len());
                let z = keys[o[b - 1]];
                let y = keys[o[p]];
                if b - 1 > p {
                    assert(!lex_lt(z, y));
                }
                lemma_lex_irreflexive(y);
                if lex_lt(z, x) {
                    lemma_lex_transitive(z, x, y);
                }
                if z == x {
                    lemma_lex_irreflexive(x);
                    if b - 1 > p {
                        assert(!lex_lt(x, y));
                    }
                }
            } else {
                // b == p: every key before x is not greater than x, and its index is smaller
                assert(r[a] == o[a]);
            }
        }
    }
}

/// Law: the stable order of the keys' indices lists every index once, puts the keys in
/// non-decreasing order, and keeps indices with equal keys in their original order.
pub proof fn law_sorted_indices(keys: Seq<Seq<char>>)
    ensures
        lists_each_once(sorted_indices(keys), keys.len()),
        sorted_by_key(keys, sorted_indices(keys)),
        keeps_ties_in_order(keys, sorted_indices(keys)),
{
    lemma_sort_order(keys, keys.len());
}

} // verus!
