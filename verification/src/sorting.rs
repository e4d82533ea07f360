//! Stable sorting. A sort does not move the items: it gives the order in which
//! to read them, as positions, so that one routine serves every kind of item.

use vstd::prelude::*;

verus! {

/// Values that a sort can rank.
pub trait Ranked: Sized {
    /// Whether `self` may stand before `other`.
    spec fn le(&self, other: &Self) -> bool;

    /// Any two values can be ranked.
    proof fn le_total(&self, other: &Self)
        ensures
            self.le(other) || other.le(self),
    ;

    /// Ranking is transitive.
    proof fn le_transitive(&self, mid: &Self, other: &Self)
        requires
            self.le(mid),
            mid.le(other),
        ensures
            self.le(other),
    ;

    /// Whether `self` may stand before `other`.
    fn at_most(&self, other: &Self) -> (res: bool)
        ensures
            res == self.le(other),
    ;
}

/// Whether the item at `i` comes before the one at `j`: by rank, and among equals
/// by position.
pub open spec fn ahead<K: Ranked>(keys: Seq<K>, i: int, j: int) -> bool {
    keys[i].le(&keys[j]) && (!keys[j].le(&keys[i]) || i < j)
}

/// Whether `p` lists positions of `keys` in order.
pub open spec fn in_order<K: Ranked>(keys: Seq<K>, p: Seq<usize>) -> bool {
    forall|a: int, b: int|
        #![trigger p[a], p[b]]
        0 <= a < b < p.len() ==> ahead(keys, p[a] as int, p[b] as int)
}

/// Whether `p` lists every position of `keys` once, in order.
pub open spec fn is_sorting<K: Ranked>(keys: Seq<K>, p: Seq<usize>) -> bool {
    &&& p.len() == keys.len()
    &&& forall|a: int| #![trigger p[a]] 0 <= a < p.len() ==> p[a] < keys.len()
    &&& forall|v: usize| v < keys.len() ==> #[trigger] p.contains(v)
    &&& in_order(keys, p)
}

proof fn lemma_ahead_transitive<K: Ranked>(keys: Seq<K>, i: int, j: int, k: int)
    requires
        ahead(keys, i, j),
        ahead(keys, j, k),
    ensures
        ahead(keys, i, k),
{
    keys[i].le_transitive(&keys[j], &keys[k]);
    if keys[k].le(&keys[i]) {
        keys[k].le_transitive(&keys[i], &keys[j]);
        keys[j].le_transitive(&keys[k], &keys[i]);
    }
}

proof fn lemma_push_contains(s: Seq<usize>, x: usize)
    ensures
        forall|v: usize| #[trigger] s.push(x).contains(v) <==> s.contains(v) || v == x,
{
    assert forall|v: usize| #[trigger] s.push(x).contains(v) <==> s.contains(v) || v == x by {
        if s.contains(v) {
            let i = choose|i: int| 0 <= i < s.len() && s[i] == v;
            assert(s.push(x)[i] == v);
        }
        if v == x {
            assert(s.push(x)[s.len() as int] == v);
        }
        if s.push(x).contains(v) {
            let i = choose|i: int| 0 <= i < s.push(x).len() && s.push(x)[i] == v;
            if i < s.len() {
                assert(s[i] == v);
            }
        }
    }
}

/// What a merge keeps true of the part already written.
spec fn merged<K: Ranked>(
    keys: Seq<K>,
    out: Seq<usize>,
    a: Seq<usize>,
    i: int,
    b: Seq<usize>,
    j: int,
) -> bool {
    &&& 0 <= i <= a.len()
    &&& 0 <= j <= b.len()
    &&& out.len() == i + j
    &&& in_order(keys, out)
    &&& forall|v: usize| #[trigger]
        out.contains(v) <==> a.take(i).contains(v) || b.take(j).contains(v)
    &&& i < a.len() ==> forall|k: int|
        #![trigger out[k]]
        0 <= k < out.len() ==> ahead(keys, out[k] as int, a[i] as int)
    &&& j < b.len() ==> forall|k: int|
        #![trigger out[k]]
        0 <= k < out.len() ==> ahead(keys, out[k] as int, b[j] as int)
}

proof fn lemma_merged_step<K: Ranked>(
    keys: Seq<K>,
    out: Seq<usize>,
    a: Seq<usize>,
    i: int,
    b: Seq<usize>,
    j: int,
)
    requires
        merged(keys, out, a, i, b, j),
        in_order(keys, a),
        in_order(keys, b),
        i < a.len(),
        j < b.len() ==> ahead(keys, a[i] as int, b[j] as int),
    ensures
        merged(keys, out.push(a[i]), a, i + 1, b, j),
{
    let x = a[i];
    let next = out.push(x);
    lemma_push_contains(out, x);
    lemma_push_contains(a.take(i), x);
    assert(a.take(i + 1) =~= a.take(i).push(x));
    assert(in_order(keys, next)) by {
        assert forall|p: int, q: int|
            #![trigger next[p], next[q]]
            0 <= p < q < next.len() implies ahead(keys, next[p] as int, next[q] as int) by {
            assert(next[p] == out[p]);
            if q < out.len() {
                assert(next[q] == out[q]);
            }
        }
    }
    if i + 1 < a.len() {
        assert forall|k: int|
            #![trigger next[k]]
            0 <= k < next.len() implies ahead(keys, next[k] as int, a[i + 1] as int) by {
            assert(ahead(keys, a[i] as int, a[i + 1] as int));
            if k < out.len() {
                assert(next[k] == out[k]);
                lemma_ahead_transitive(keys, out[k] as int, x as int, a[i + 1] as int);
            }
        }
    }
    if j < b.len() {
        assert forall|k: int|
            #![trigger next[k]]
            0 <= k < next.len() implies ahead(keys, next[k] as int, b[j] as int) by {
            if k < out.len() {
                assert(next[k] == out[k]);
            }
        }
    }
}

proof fn lemma_merged_swap<K: Ranked>(
    keys: Seq<K>,
    out: Seq<usize>,
    a: Seq<usize>,
    i: int,
    b: Seq<usize>,
    j: int,
)
    requires
        merged(keys, out, a, i, b, j),
    ensures
        merged(keys, out, b, j, a, i),
{
}

fn merge<K: Ranked>(keys: &Vec<K>, a: &Vec<usize>, b: &Vec<usize>) -> (out: Vec<usize>)
    requires
        in_order(keys@, a@),
        in_order(keys@, b@),
        forall|i: int| #![trigger a@[i]] 0 <= i < a@.len() ==> a@[i] < keys@.len(),
        forall|j: int| #![trigger b@[j]] 0 <= j < b@.len() ==> b@[j] < keys@.len(),
        forall|i: int, j: int|
            #![trigger a@[i], b@[j]]
            0 <= i < a@.len() && 0 <= j < b@.len() ==> a@[i] < b@[j],
    ensures
        out@.len() == a@.len() + b@.len(),
        in_order(keys@, out@),
        forall|v: usize| #[trigger] out@.contains(v) <==> a@.contains(v) || b@.contains(v),
{
    let mut out: Vec<usize> = Vec::new();
    let mut i: usize = 0;
    let mut j: usize = 0;
    while i < a.len() || j < b.len()
        invariant
            merged(keys@, out@, a@, i as int, b@, j as int),
            in_order(keys@, a@),
            in_order(keys@, b@),
            forall|i: int| #![trigger a@[i]] 0 <= i < a@.len() ==> a@[i] < keys@.len(),
            forall|j: int| #![trigger b@[j]] 0 <= j < b@.len() ==> b@[j] < keys@.len(),
            forall|i: int, j: int|
                #![trigger a@[i], b@[j]]
                0 <= i < a@.len() && 0 <= j < b@.len() ==> a@[i] < b@[j],
        decreases a@.len() - i + b@.len() - j,
    {
        let left: bool = if i >= a.len() {
            false
        } else if j >= b.len() {
            true
        } else {
            keys[a[i]].at_most(&keys[b[j]])
        };
        if left {
            proof {
                lemma_merged_step(keys@, out@, a@, i as int, b@, j as int);
            }
            out.push(a[i]);
            i += 1;
        } else {
            proof {
                if i < a@.len() {
                    keys@[a@[i as int] as int].le_total(&keys@[b@[j as int] as int]);
                }
                lemma_merged_swap(keys@, out@, a@, i as int, b@, j as int);
                lemma_merged_step(keys@, out@, b@, j as int, a@, i as int);
                lemma_merged_swap(keys@, out@.push(b@[j as int]), b@, j + 1, a@, i as int);
            }
            out.push(b[j]);
            j += 1;
        }
    }
    assert(a@.take(i as int) =~= a@);
    assert(b@.take(j as int) =~= b@);
    out
}

fn sort_range<K: Ranked>(keys: &Vec<K>, lo: usize, hi: usize) -> (out: Vec<usize>)
    requires
        lo <= hi <= keys@.len(),
    ensures
        out@.len() == hi - lo,
        in_order(keys@, out@),
        forall|v: usize| #[trigger] out@.contains(v) <==> lo <= v < hi,
    decreases hi - lo,
{
    let mut out: Vec<usize> = Vec::new();
    if hi - lo <= 1 {
        if lo < hi {
            out.push(lo);
            assert(out@[0] == lo);
        }
        return out;
    }
    let mid: usize = lo + (hi - lo) / 2;
    let a = sort_range(keys, lo, mid);
    let b = sort_range(keys, mid, hi);
    assert forall|i: int| #![trigger a@[i]] 0 <= i < a@.len() implies lo <= a@[i] < mid by {
        assert(a@.contains(a@[i]));
    }
    assert forall|j: int| #![trigger b@[j]] 0 <= j < b@.len() implies mid <= b@[j] < hi by {
        assert(b@.contains(b@[j]));
    }
    merge(keys, &a, &b)
}

/// The positions of `keys` in order of rank; equal keys keep their order.
pub fn sort_positions<K: Ranked>(keys: &Vec<K>) -> (p: Vec<usize>)
    ensures
        is_sorting(keys@, p@),
{
    let p = sort_range(keys, 0, keys.len());
    assert forall|a: int| #![trigger p@[a]] 0 <= a < p@.len() implies p@[a] < keys@.len() by {
        assert(p@.contains(p@[a]));
    }
    p
}

/// A list has one sorting only.
pub proof fn law_sorting_unique<K: Ranked>(keys: Seq<K>, p: Seq<usize>, q: Seq<usize>)
    requires
        is_sorting(keys, p),
        is_sorting(keys, q),
    ensures
        p == q,
{
    lemma_same_prefix(keys, p, q, keys.len() as int);
    assert(p =~= q);
}

proof fn lemma_same_prefix<K: Ranked>(keys: Seq<K>, p: Seq<usize>, q: Seq<usize>, n: int)
    requires
        is_sorting(keys, p),
        is_sorting(keys, q),
        0 <= n <= keys.len(),
    ensures
        forall|i: int| 0 <= i < n ==> p[i] == q[i],
    decreases n,
{
    if n > 0 {
        lemma_same_prefix(keys, p, q, n - 1);
        let k = n - 1;
        if p[k] != q[k] {
            assert(q.contains(p[k]));
            assert(p.contains(q[k]));
            let i = choose|i: int| 0 <= i < q.len() && q[i] == p[k];
            let j = choose|j: int| 0 <= j < p.len() && p[j] == q[k];
            if i < k {
                assert(p[i] == q[i]);
                assert(ahead(keys, p[i] as int, p[k] as int));
            }
            if j < k {
                assert(p[j] == q[j]);
                assert(ahead(keys, q[j] as int, q[k] as int));
            }
            assert(ahead(keys, q[k] as int, q[i] as int));
            assert(ahead(keys, p[k] as int, p[j] as int));
        }
    }
}

/// Whether `p` lists every position below `n` once.
pub open spec fn is_permutation(p: Seq<usize>, n: nat) -> bool {
    &&& p.len() == n
    &&& forall|a: int| #![trigger p[a]] 0 <= a < p.len() ==> p[a] < n
    &&& forall|a: int, b: int| #![trigger p[a], p[b]] 0 <= a < b < p.len() ==> p[a] != p[b]
    &&& forall|v: usize| v < n ==> #[trigger] p.contains(v)
}

/// A sorting lists every position once.
pub proof fn lemma_sorting_is_permutation<K: Ranked>(keys: Seq<K>, p: Seq<usize>)
    requires
        is_sorting(keys, p),
    ensures
        is_permutation(p, keys.len()),
{
    assert forall|a: int, b: int| #![trigger p[a], p[b]] 0 <= a < b < p.len() implies p[a]
        != p[b] by {
        assert(ahead(keys, p[a] as int, p[b] as int));
    }
}

/// Reading a list in another order keeps what it holds.
pub proof fn lemma_permuted_multiset<T>(s: Seq<T>, p: Seq<usize>, out: Seq<T>)
    requires
        is_permutation(p, s.len()),
        s.len() <= usize::MAX,
        out.len() == s.len(),
        forall|i: int| #![trigger out[i]] 0 <= i < out.len() ==> out[i] == s[p[i] as int],
    ensures
        out.to_multiset() == s.to_multiset(),
    decreases s.len(),
{
    broadcast use vstd::seq_lib::group_to_multiset_ensures;
    if s.len() == 0 {
        assert(out =~= s);
    } else {
        let last = (s.len() - 1) as usize;
        assert(p.contains(last));
        let k = choose|k: int| 0 <= k < p.len() && p[k] == last;
        let t = s.drop_last();
        let q = p.remove(k);
        let o = out.remove(k);
        assert(is_permutation(q, t.len())) by {
            assert forall|a: int| #![trigger q[a]] 0 <= a < q.len() implies q[a] < t.len() by {
                let b = if a < k {
                    a
                } else {
                    a + 1
                };
                assert(q[a] == p[b]);
                if b < k {
                    assert(p[b] != p[k]);
                } else {
                    assert(p[k] != p[b]);
                }
            }
            assert forall|a: int, b: int|
                #![trigger q[a], q[b]]
                0 <= a < b < q.len() implies q[a] != q[b] by {
                let x = if a < k {
                    a
                } else {
                    a + 1
                };
                let y = if b < k {
                    b
                } else {
                    b + 1
                };
                assert(q[a] == p[x] && q[b] == p[y]);
            }
            assert forall|v: usize| v < t.len() implies #[trigger] q.contains(v) by {
                assert(p.contains(v));
                let b = choose|b: int| 0 <= b < p.len() && p[b] == v;
                let a = if b < k {
                    b
                } else {
                    b - 1
                };
                assert(q[a] == v);
            }
        }
        assert forall|i: int| #![trigger o[i]] 0 <= i < o.len() implies o[i] == t[q[i] as int] by {
            let b = if i < k {
                i
            } else {
                i + 1
            };
            assert(o[i] == out[b] && q[i] == p[b]);
        }
        lemma_permuted_multiset(t, q, o);
        assert(out[k] == s[last as int]);
        vstd::seq_lib::to_multiset_remove(out, k);
        vstd::seq_lib::to_multiset_remove(s, s.len() - 1);
        assert(s.remove(s.len() - 1) =~= t);
        let m = out.to_multiset();
        let n = s.to_multiset();
        assert(m.remove(out[k]) == n.remove(out[k]));
        assert(m.count(out[k]) > 0 && n.count(out[k]) > 0) by {
            assert(out.contains(out[k]));
            assert(s.contains(s[last as int]));
        }
        assert(m =~= m.remove(out[k]).insert(out[k]));
        assert(n =~= n.remove(out[k]).insert(out[k]));
    }
}

} // verus!
