use vstd::prelude::*;
use vstd::set_lib::*;

verus! {

/// Position `i` ranks before position `j` when its key is larger, or when the keys
/// are equal and `i` comes first: the order of a stable sort by descending key.
pub open spec fn ranks_before(keys: Seq<u128>, i: int, j: int) -> bool {
    keys[i] > keys[j] || (keys[i] == keys[j] && i < j)
}

/// `order` holds the first `order.len()` positions of `keys` in the order of a
/// stable sort by descending key.
pub open spec fn is_desc_ranking_prefix(keys: Seq<u128>, order: Seq<usize>) -> bool {
    &&& order.len() <= keys.len()
    &&& forall|k: int| 0 <= k < order.len() ==> (#[trigger] order[k]) < keys.len()
    &&& forall|a: int, b: int|
        0 <= a < b < order.len() ==> ranks_before(keys, #[trigger] order[a] as int, #[trigger] order[b] as int)
    &&& forall|j: int, k: int|
        #![trigger order[k], order.contains(j as usize)]
        0 <= j < keys.len() && 0 <= k < order.len() && !order.contains(j as usize)
            ==> ranks_before(keys, order[k] as int, j)
}

pub proof fn lemma_ranking_no_duplicates(keys: Seq<u128>, order: Seq<usize>)
    requires
        is_desc_ranking_prefix(keys, order),
    ensures
        order.no_duplicates(),
{
    assert forall|a: int, b: int| 0 <= a < order.len() && 0 <= b < order.len() && a != b implies order[a]
        != order[b] by {
        if a < b {
            assert(ranks_before(keys, order[a] as int, order[b] as int));
        } else {
            assert(ranks_before(keys, order[b] as int, order[a] as int));
        }
    }
}

/// A duplicate-free sequence of indices below `n` that is shorter than `n` misses one.
proof fn lemma_some_index_missing(s: Seq<usize>, n: nat)
    requires
        s.no_duplicates(),
        s.len() < n,
        n <= usize::MAX,
        forall|k: int| 0 <= k < s.len() ==> (#[trigger] s[k]) < n,
    ensures
        exists|j: usize| j < n && !(#[trigger] s.contains(j)),
{
    let ss = s.map_values(|x: usize| x as int);
    assert(ss.no_duplicates()) by {
        assert forall|a: int, b: int| 0 <= a < ss.len() && 0 <= b < ss.len() && a != b implies ss[a]
            != ss[b] by {
            assert(s[a] != s[b]);
        }
    }
    ss.unique_seq_to_set();
    if forall|j: usize| j < n ==> #[trigger] s.contains(j) {
        let r = set_int_range(0, n as int);
        lemma_int_range(0, n as int);
        assert forall|j: int| r.contains(j) implies ss.to_set().contains(j) by {
            assert(s.contains(j as usize));
            let k = choose|k: int| 0 <= k < s.len() && s[k] == j as usize;
            assert(ss[k] == j);
        }
        vstd::seq_lib::seq_to_set_is_finite(ss);
        lemma_len_subset(r, ss.to_set());
        assert(false);
    }
}

/// The positions of the `min(limit, keys.len())` largest keys, largest first, equal
/// keys in their original order: the first entries of a stable descending sort.
pub fn stable_desc_order(keys: &Vec<u128>, limit: usize) -> (order: Vec<usize>)
    ensures
        order.len() == if limit < keys.len() { limit } else { keys.len() },
        is_desc_ranking_prefix(keys@, order@),
{
    let n = keys.len();
    let m = if limit < n { limit } else { n };
    let mut used: Vec<bool> = Vec::new();
    let mut i: usize = 0;
    while i < n
        invariant
            i <= n,
            n == keys.len(),
            used.len() == i,
            forall|j: int| 0 <= j < i ==> !used[j],
        decreases n - i,
    {
        used.push(false);
        i = i + 1;
    }
    let mut order: Vec<usize> = Vec::new();
    while order.len() < m
        invariant
            n == keys.len(),
            m <= n,
            order.len() <= m,
            used.len() == n,
            is_desc_ranking_prefix(keys@, order@),
            forall|j: int| 0 <= j < n ==> (used[j] <==> order@.contains(j as usize)),
        decreases m - order.len(),
    {
        proof {
            lemma_ranking_no_duplicates(keys@, order@);
            lemma_some_index_missing(order@, n as nat);
        }
        let mut best: usize = n;
        let mut j: usize = 0;
        while j < n
            invariant
                n == keys.len(),
                used.len() == n,
                j <= n,
                best == n || (best < j && !used[best as int]),
                best == n ==> forall|t: int| 0 <= t < j ==> used[t],
                best < n ==> forall|t: int|
                    0 <= t < j && !used[t] && t != best ==> ranks_before(keys@, best as int, t),
            decreases n - j,
        {
            if !used[j] && (best == n || keys[j] > keys[best]) {
                best = j;
            }
            j = j + 1;
        }
        proof {
            let w = choose|w: usize| w < n && !(#[trigger] order@.contains(w));
            assert(!used[w as int]);
        }
        assert(best < n);
        let ghost old_order = order@;
        let ghost old_used = used@;
        order.push(best);
        used.set(best, true);
        assert forall|t: int| 0 <= t < n implies (used[t] <==> order@.contains(t as usize)) by {
            if t == best as int {
                assert(order@[order@.len() - 1] == best);
            } else {
                if old_order.contains(t as usize) {
                    let k = choose|k: int| 0 <= k < old_order.len() && old_order[k] == t as usize;
                    assert(order@[k] == t as usize);
                }
                if order@.contains(t as usize) {
                    let k = choose|k: int| 0 <= k < order@.len() && order@[k] == t as usize;
                    assert(k < old_order.len());
                    assert(old_order[k] == t as usize);
                }
            }
        }
        assert forall|a: int, b: int| 0 <= a < b < order@.len() implies ranks_before(
            keys@,
            #[trigger] order@[a] as int,
            #[trigger] order@[b] as int,
        ) by {
            if b == order@.len() - 1 {
                assert(!old_order.contains(best));
                assert(order@[a] == old_order[a]);
            } else {
                assert(order@[a] == old_order[a]);
                assert(order@[b] == old_order[b]);
            }
        }
        assert forall|t: int, k: int|
            #![trigger order@[k], order@.contains(t as usize)]
            0 <= t < n && 0 <= k < order@.len() && !order@.contains(t as usize) implies ranks_before(
            keys@,
            order@[k] as int,
            t,
        ) by {
            assert(!used[t]);
            if k < old_order.len() {
                assert(order@[k] == old_order[k]);
                assert(!old_order.contains(t as usize)) by {
                    if old_order.contains(t as usize) {
                        let q = choose|q: int| 0 <= q < old_order.len() && old_order[q] == t as usize;
                        assert(order@[q] == t as usize);
                    }
                }
            } else {
                assert(t != best as int);
                assert(!old_used[t]) by {
                    assert(!old_order.contains(t as usize)) by {
                        if old_order.contains(t as usize) {
                            let q = choose|q: int| 0 <= q < old_order.len() && old_order[q] == t as usize;
                            assert(order@[q] == t as usize);
                        }
                    }
                }
            }
        }
    }
    order
}

/// The sum of `f` over the positions `0..n`.
pub open spec fn sum_below(f: spec_fn(int) -> nat, n: int) -> nat
    decreases n,
{
    if n <= 0 {
        0
    } else {
        sum_below(f, n - 1) + f(n - 1)
    }
}

/// The sum of `f` over the positions that `s` lists.
pub open spec fn sum_at(f: spec_fn(int) -> nat, s: Seq<usize>) -> nat
    decreases s.len(),
{
    if s.len() == 0 {
        0
    } else {
        sum_at(f, s.drop_last()) + f(s.last() as int)
    }
}

proof fn lemma_sum_at_remove(f: spec_fn(int) -> nat, s: Seq<usize>, p: int)
    requires
        0 <= p < s.len(),
    ensures
        sum_at(f, s) == sum_at(f, s.remove(p)) + f(s[p] as int),
    decreases s.len(),
{
    if p < s.len() - 1 {
        lemma_sum_at_remove(f, s.drop_last(), p);
        assert(s.remove(p).drop_last() =~= s.drop_last().remove(p));
        assert(s.remove(p).last() == s.last());
    } else {
        assert(s.remove(p) =~= s.drop_last());
    }
}

/// A duplicate-free sequence of indices below `m` has at most `m` entries.
proof fn lemma_indices_bounded(s: Seq<usize>, m: nat)
    requires
        s.no_duplicates(),
        forall|k: int| 0 <= k < s.len() ==> (#[trigger] s[k]) < m,
    ensures
        s.len() <= m,
{
    let ss = s.map_values(|x: usize| x as int);
    assert(ss.no_duplicates()) by {
        assert forall|a: int, b: int| 0 <= a < ss.len() && 0 <= b < ss.len() && a != b implies ss[a]
            != ss[b] by {
            assert(s[a] != s[b]);
        }
    }
    ss.unique_seq_to_set();
    let r = set_int_range(0, m as int);
    lemma_int_range(0, m as int);
    assert forall|j: int| ss.to_set().contains(j) implies r.contains(j) by {
        let k = choose|k: int| 0 <= k < ss.len() && ss[k] == j;
        assert(s[k] < m);
    }
    lemma_len_subset(ss.to_set(), r);
}

/// Summing over a rearrangement of the positions `0..n` gives the same total.
pub proof fn lemma_sum_permutation(f: spec_fn(int) -> nat, s: Seq<usize>, n: nat)
    requires
        s.len() == n,
        n <= usize::MAX,
        s.no_duplicates(),
        forall|k: int| 0 <= k < s.len() ==> (#[trigger] s[k]) < n,
    ensures
        sum_at(f, s) == sum_below(f, n as int),
    decreases n,
{
    if n > 0 {
        let top = (n - 1) as usize;
        if !s.contains(top) {
            assert forall|k: int| 0 <= k < s.len() implies (#[trigger] s[k]) < (n - 1) as nat by {
                if s[k] == top {
                    assert(s.contains(top));
                }
            }
            lemma_indices_bounded(s, (n - 1) as nat);
            assert(false);
        }
        let p = choose|p: int| 0 <= p < s.len() && s[p] == top;
        let r = s.remove(p);
        assert(r.no_duplicates()) by {
            assert forall|a: int, b: int| 0 <= a < r.len() && 0 <= b < r.len() && a != b implies r[a]
                != r[b] by {
                let a2 = if a < p { a } else { a + 1 };
                let b2 = if b < p { b } else { b + 1 };
                assert(r[a] == s[a2] && r[b] == s[b2]);
            }
        }
        assert forall|k: int| 0 <= k < r.len() implies (#[trigger] r[k]) < (n - 1) as nat by {
            let k2 = if k < p { k } else { k + 1 };
            assert(r[k] == s[k2]);
            assert(k2 != p);
        }
        lemma_sum_at_remove(f, s, p);
        lemma_sum_permutation(f, r, (n - 1) as nat);
        assert(s[p] as int == n - 1);
    }
}

/// In a ranking, the entry at `k` ranks before any position not listed before `k`.
proof fn lemma_ranks_before_rest(keys: Seq<u128>, o: Seq<usize>, k: int, x: usize)
    requires
        is_desc_ranking_prefix(keys, o),
        0 <= k < o.len(),
        x < keys.len(),
        x != o[k],
        forall|j: int| 0 <= j < k ==> o[j] != x,
    ensures
        ranks_before(keys, o[k] as int, x as int),
{
    if o.contains(x) {
        let j = choose|j: int| 0 <= j < o.len() && o[j] == x;
        assert(j > k);
        assert(ranks_before(keys, o[k] as int, o[j] as int));
    } else {
        let xi = x as int;
        assert(xi as usize == x);
        assert(!o.contains(xi as usize));
        assert(ranks_before(keys, o[k] as int, xi));
    }
}

proof fn lemma_first_difference(o1: Seq<usize>, o2: Seq<usize>, w: int)
    requires
        o1.len() == o2.len(),
        0 <= w < o1.len(),
        o1[w] != o2[w],
    ensures
        exists|k: int| 0 <= k < o1.len() && o1[k] != o2[k] && forall|j: int| 0 <= j < k ==> o1[j] == o2[j],
    decreases w,
{
    if exists|v: int| 0 <= v < w && o1[v] != o2[v] {
        let v = choose|v: int| 0 <= v < w && o1[v] != o2[v];
        lemma_first_difference(o1, o2, v);
    } else {
        assert(forall|j: int| 0 <= j < w ==> o1[j] == o2[j]);
    }
}

/// A stable descending sort is deterministic: two rankings of the same keys with the
/// same length are the same.
pub proof fn law_ranking_is_unique(keys: Seq<u128>, o1: Seq<usize>, o2: Seq<usize>)
    requires
        is_desc_ranking_prefix(keys, o1),
        is_desc_ranking_prefix(keys, o2),
        o1.len() == o2.len(),
    ensures
        o1 == o2,
{
    lemma_ranking_no_duplicates(keys, o2);
    if exists|w: int| 0 <= w < o1.len() && o1[w] != o2[w] {
        let w = choose|w: int| 0 <= w < o1.len() && o1[w] != o2[w];
        lemma_first_difference(o1, o2, w);
        let k = choose|k: int| 0 <= k < o1.len() && o1[k] != o2[k] && forall|j: int| 0 <= j < k ==> o1[j] == o2[j];
        let a = o1[k];
        let b = o2[k];
        assert forall|j: int| 0 <= j < k implies o1[j] != b by {
            assert(o1[j] == o2[j]);
        }
        assert forall|j: int| 0 <= j < k implies o2[j] != a by {
            assert(o1[j] == o2[j]);
            lemma_ranking_no_duplicates(keys, o1);
        }
        lemma_ranks_before_rest(keys, o1, k, b);
        lemma_ranks_before_rest(keys, o2, k, a);
    }
    assert(o1 =~= o2);
}

/// `n` distinct positions below `n` are all of them.
pub proof fn lemma_indices_cover(s: Seq<int>, n: nat)
    requires
        s.len() == n,
        s.no_duplicates(),
        forall|k: int| 0 <= k < s.len() ==> 0 <= #[trigger] s[k] < n,
    ensures
        forall|j: int| 0 <= j < n ==> s.contains(j),
{
    assert forall|j: int| 0 <= j < n implies s.contains(j) by {
        if !s.contains(j) {
            s.unique_seq_to_set();
            let r = set_int_range(0, n as int);
            lemma_int_range(0, n as int);
            assert forall|x: int| s.to_set().contains(x) implies r.remove(j).contains(x) by {
                let k = choose|k: int| 0 <= k < s.len() && s[k] == x;
                assert(0 <= s[k] < n);
            }
            lemma_len_subset(s.to_set(), r.remove(j));
            assert(false);
        }
    }
}

} // verus!
