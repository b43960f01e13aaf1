use vstd::prelude::*;
use crate::models::dep_model::{DepGraphResult, DepPackageInfo, LockPackageEntry, PackageCacheInfo};
use crate::order::{
    is_desc_ranking_prefix, lemma_ranking_no_duplicates, lemma_sum_permutation, stable_desc_order, sum_at,
    sum_below,
};
use crate::text::{chars_eq, str_chars};

verus! {

/// The texts of a sequence of strings.
pub open spec fn str_views(v: Seq<String>) -> Seq<Seq<char>> {
    v.map_values(|s: String| s@)
}

/// A package is looked up in the pub cache when it comes from a package host.
pub open spec fn is_hosted(entry: LockPackageEntry) -> bool {
    entry.source@ == "hosted"@
}

/// The position of the last entry named `name`, or -1.
pub open spec fn last_index(entries: Seq<LockPackageEntry>, name: Seq<char>) -> int
    decreases entries.len(),
{
    if entries.len() == 0 {
        -1
    } else if entries.last().name@ == name {
        entries.len() - 1
    } else {
        last_index(entries.drop_last(), name)
    }
}

/// The dependencies recorded for `name`: read from the pub cache for its last entry
/// when that entry is hosted, none otherwise.
pub open spec fn package_deps(
    entries: Seq<LockPackageEntry>,
    cache: Seq<PackageCacheInfo>,
    name: Seq<char>,
) -> Seq<Seq<char>> {
    let i = last_index(entries, name);
    if i >= 0 && is_hosted(entries[i]) {
        str_views(cache[i].dependencies@)
    } else {
        seq![]
    }
}

/// The size recorded for `name`: that of its last entry in the pub cache when the
/// entry is hosted, 0 otherwise.
pub open spec fn package_size(
    entries: Seq<LockPackageEntry>,
    cache: Seq<PackageCacheInfo>,
    name: Seq<char>,
) -> nat {
    let i = last_index(entries, name);
    if i >= 0 && is_hosted(entries[i]) {
        cache[i].size as nat
    } else {
        0
    }
}

/// The distinct package names, in the order they first occur.
pub open spec fn entry_names(entries: Seq<LockPackageEntry>) -> Seq<Seq<char>>
    decreases entries.len(),
{
    if entries.len() == 0 {
        seq![]
    } else {
        let prev = entry_names(entries.drop_last());
        if prev.contains(entries.last().name@) {
            prev
        } else {
            prev.push(entries.last().name@)
        }
    }
}

/// How often `x` occurs in `s`.
pub open spec fn count_in(s: Seq<Seq<char>>, x: Seq<char>) -> nat
    decreases s.len(),
{
    if s.len() == 0 {
        0
    } else {
        count_in(s.drop_last(), x) + if s.last() == x {
            1nat
        } else {
            0nat
        }
    }
}

/// The packages among `names` that depend on `x`, each once per time it lists `x`,
/// in the order of `names`.
pub open spec fn dependents_among(
    names: Seq<Seq<char>>,
    entries: Seq<LockPackageEntry>,
    cache: Seq<PackageCacheInfo>,
    x: Seq<char>,
) -> Seq<Seq<char>>
    decreases names.len(),
{
    if names.len() == 0 {
        seq![]
    } else {
        dependents_among(names.drop_last(), entries, cache, x) + Seq::new(
            count_in(package_deps(entries, cache, names.last()), x),
            |k: int| names.last(),
        )
    }
}

/// The packages that depend on `x`, in the order the lock file first names them.
pub open spec fn package_dependents(
    entries: Seq<LockPackageEntry>,
    cache: Seq<PackageCacheInfo>,
    x: Seq<char>,
) -> Seq<Seq<char>> {
    dependents_among(entry_names(entries), entries, cache, x)
}

/// A package of the graph as plain values: name, version, dependency type,
/// dependencies, dependents, size.
pub open spec fn package_view(p: DepPackageInfo) -> (
    Seq<char>,
    Seq<char>,
    Seq<char>,
    Seq<Seq<char>>,
    Seq<Seq<char>>,
    nat,
) {
    (p.name@, p.version@, p.dep_type@, str_views(p.dependencies@), str_views(p.dependents@), p.size as nat)
}

/// The graph row of one lock file entry.
pub open spec fn package_row(
    entries: Seq<LockPackageEntry>,
    cache: Seq<PackageCacheInfo>,
    e: LockPackageEntry,
) -> (Seq<char>, Seq<char>, Seq<char>, Seq<Seq<char>>, Seq<Seq<char>>, nat) {
    (
        e.name@,
        e.version@,
        e.dep_type@,
        package_deps(entries, cache, e.name@),
        package_dependents(entries, cache, e.name@),
        package_size(entries, cache, e.name@),
    )
}

/// The size of the entries `0..n`, each counted by the size of its package.
pub open spec fn sizes_upto(
    entries: Seq<LockPackageEntry>,
    cache: Seq<PackageCacheInfo>,
    n: int,
) -> nat
    decreases n,
{
    if n <= 0 {
        0
    } else {
        sizes_upto(entries, cache, n - 1) + package_size(entries, cache, entries[n - 1].name@)
    }
}

/// The sizes of the rows, added up.
pub open spec fn rows_size(rows: Seq<DepPackageInfo>) -> nat
    decreases rows.len(),
{
    if rows.len() == 0 {
        0
    } else {
        rows_size(rows.drop_last()) + rows.last().size as nat
    }
}

/// The size of the package of entry `i`.
pub open spec fn entry_size(entries: Seq<LockPackageEntry>, cache: Seq<PackageCacheInfo>) -> spec_fn(
    int,
) -> nat {
    |i: int| package_size(entries, cache, entries[i].name@)
}

proof fn lemma_sizes_upto_sum(entries: Seq<LockPackageEntry>, cache: Seq<PackageCacheInfo>, n: int)
    ensures
        sizes_upto(entries, cache, n) == sum_below(entry_size(entries, cache), n),
    decreases n,
{
    if n > 0 {
        lemma_sizes_upto_sum(entries, cache, n - 1);
    }
}

/// The number of dependents of each row, the key by which the graph is ordered.
pub open spec fn dependent_counts(
    entries: Seq<LockPackageEntry>,
    cache: Seq<PackageCacheInfo>,
) -> Seq<u128> {
    entries.map_values(
        |e: LockPackageEntry| package_dependents(entries, cache, e.name@).len() as u128,
    )
}

/// Whether a package is looked up in the pub cache: it comes from a package host.
pub fn needs_cache_lookup(entry: &LockPackageEntry) -> (res: bool)
    ensures
        res == is_hosted(*entry),
{
    chars_eq(&str_chars(entry.source.as_str()), &str_chars("hosted"))
}

pub(crate) fn clone_strings(v: &Vec<String>) -> (res: Vec<String>)
    ensures
        res@ == v@,
{
    let mut res: Vec<String> = Vec::new();
    let mut i: usize = 0;
    while i < v.len()
        invariant
            i <= v.len(),
            res@ == v@.take(i as int),
        decreases v.len() - i,
    {
        res.push(v[i].clone());
        i = i + 1;
        assert(res@ =~= v@.take(i as int));
    }
    assert(v@.take(v.len() as int) =~= v@);
    res
}


proof fn lemma_entry_names(entries: Seq<LockPackageEntry>)
    ensures
        entry_names(entries).no_duplicates(),
        forall|x: Seq<char>| #[trigger] entry_names(entries).contains(x) <==> last_index(entries, x) >= 0,
        forall|x: Seq<char>| -1 <= #[trigger] last_index(entries, x) < entries.len(),
        forall|x: Seq<char>|
            #![trigger last_index(entries, x)]
            last_index(entries, x) >= 0 ==> entries[last_index(entries, x)].name@ == x,
    decreases entries.len(),
{
    if entries.len() > 0 {
        let prev_e = entries.drop_last();
        lemma_entry_names(prev_e);
        let prev = entry_names(prev_e);
        let cur = entry_names(entries);
        let last = entries.last().name@;
        assert forall|x: Seq<char>| -1 <= #[trigger] last_index(entries, x) < entries.len() by {
            assert(-1 <= last_index(prev_e, x) < prev_e.len());
        }
        assert forall|x: Seq<char>|
            #![trigger last_index(entries, x)]
            last_index(entries, x) >= 0 implies entries[last_index(entries, x)].name@ == x by {
            if last != x {
                assert(last_index(entries, x) == last_index(prev_e, x));
                assert(prev_e[last_index(prev_e, x)] == entries[last_index(prev_e, x)]);
            }
        }
        if prev.contains(last) {
            assert(cur == prev);
            assert forall|x: Seq<char>| #[trigger] cur.contains(x) <==> last_index(entries, x) >= 0 by {
                assert(prev.contains(x) <==> last_index(prev_e, x) >= 0);
            }
        } else {
            assert(cur == prev.push(last));
            assert forall|x: Seq<char>| #[trigger] cur.contains(x) <==> last_index(entries, x) >= 0 by {
                assert(prev.contains(x) <==> last_index(prev_e, x) >= 0);
                if cur.contains(x) && x != last {
                    let k = choose|k: int| 0 <= k < cur.len() && cur[k] == x;
                    assert(prev[k] == x);
                }
                if prev.contains(x) {
                    let k = choose|k: int| 0 <= k < prev.len() && prev[k] == x;
                    assert(cur[k] == x);
                }
                if x == last {
                    assert(cur[prev.len() as int] == x);
                }
            }
            assert forall|a: int, b: int| 0 <= a < cur.len() && 0 <= b < cur.len() && a != b implies cur[a]
                != cur[b] by {
                if a < prev.len() && b < prev.len() {
                } else if a < prev.len() {
                    assert(cur[a] == prev[a]);
                } else if b < prev.len() {
                    assert(cur[b] == prev[b]);
                }
            }
        }
    }
}

/// The distinct package names in order of first occurrence, each with the position of
/// its last entry.
fn name_table(entries: &Vec<LockPackageEntry>) -> (res: (Vec<String>, Vec<usize>))
    ensures
        str_views(res.0@) == entry_names(entries@),
        res.1.len() == res.0.len(),
        forall|j: int| 0 <= j < res.1.len() ==> (#[trigger] res.1[j]) == last_index(entries@, res.0[j]@),
{
    let mut names: Vec<String> = Vec::new();
    let mut last: Vec<usize> = Vec::new();
    let mut i: usize = 0;
    while i < entries.len()
        invariant
            i <= entries.len(),
            str_views(names@) == entry_names(entries@.take(i as int)),
            last.len() == names.len(),
            forall|j: int| 0 <= j < last.len() ==> (#[trigger] last[j]) == last_index(entries@.take(i as int), names[j]@),
        decreases entries.len() - i,
    {
        let ghost prev_e = entries@.take(i as int);
        let ghost next_e = entries@.take(i + 1);
        assert(next_e.drop_last() =~= prev_e);
        assert(next_e.last() == entries@[i as int]);
        proof {
            lemma_entry_names(prev_e);
        }
        let mut j: usize = 0;
        while j < names.len() && names[j] != entries[i].name
            invariant
                i < entries.len(),
                j <= names.len(),
                forall|q: int| 0 <= q < j ==> (#[trigger] names[q])@ != entries@[i as int].name@,
            decreases names.len() - j,
        {
            j = j + 1;
        }
        let ghost old_names = names@;
        let ghost old_last = last@;
        if j == names.len() {
            assert(!entry_names(prev_e).contains(entries@[i as int].name@)) by {
                if entry_names(prev_e).contains(entries@[i as int].name@) {
                    let q = choose|q: int|
                        0 <= q < entry_names(prev_e).len() && entry_names(prev_e)[q] == entries@[i as int].name@;
                    assert(str_views(names@)[q] == names[q]@);
                }
            }
            names.push(entries[i].name.clone());
            last.push(i);
            assert(str_views(names@) =~= str_views(old_names).push(entries@[i as int].name@));
        } else {
            assert(str_views(names@)[j as int] == names[j as int]@);
            assert(entry_names(prev_e).contains(entries@[i as int].name@));
            last.set(j, i);
        }
        assert forall|q: int| 0 <= q < last.len() implies (#[trigger] last[q]) == last_index(next_e, names[q]@) by {
            if q < old_last.len() {
                assert(old_names[q] == names[q]);
                assert(str_views(old_names)[q] == names[q]@);
                if names[q]@ != entries@[i as int].name@ {
                    assert(last[q] == old_last[q]);
                }
            }
        }
        i = i + 1;
    }
    assert(entries@.take(entries.len() as int) =~= entries@);
    (names, last)
}


/// For each distinct name, the dependencies and size of its package.
fn package_tables(
    entries: &Vec<LockPackageEntry>,
    cache: &Vec<PackageCacheInfo>,
    names: &Vec<String>,
    last: &Vec<usize>,
) -> (res: (Vec<Vec<String>>, Vec<u64>))
    requires
        entries.len() == cache.len(),
        last.len() == names.len(),
        forall|j: int| 0 <= j < last.len() ==> (#[trigger] last[j]) == last_index(entries@, names[j]@),
        forall|j: int| 0 <= j < last.len() ==> 0 <= #[trigger] last[j] < entries.len(),
    ensures
        res.0.len() == names.len(),
        res.1.len() == names.len(),
        forall|j: int|
            0 <= j < names.len() ==> str_views((#[trigger] res.0[j])@) == package_deps(
                entries@,
                cache@,
                names[j]@,
            ),
        forall|j: int|
            0 <= j < names.len() ==> (#[trigger] res.1[j]) == package_size(entries@, cache@, names[j]@),
{
    let mut deps: Vec<Vec<String>> = Vec::new();
    let mut sizes: Vec<u64> = Vec::new();
    let mut j: usize = 0;
    while j < names.len()
        invariant
            entries.len() == cache.len(),
            last.len() == names.len(),
            forall|q: int| 0 <= q < last.len() ==> (#[trigger] last[q]) == last_index(entries@, names[q]@),
            forall|q: int| 0 <= q < last.len() ==> 0 <= #[trigger] last[q] < entries.len(),
            j <= names.len(),
            deps.len() == j,
            sizes.len() == j,
            forall|q: int|
                0 <= q < j ==> str_views((#[trigger] deps[q])@) == package_deps(entries@, cache@, names[q]@),
            forall|q: int| 0 <= q < j ==> (#[trigger] sizes[q]) == package_size(entries@, cache@, names[q]@),
        decreases names.len() - j,
    {
        let i = last[j];
        assert(last[j as int] == last_index(entries@, names[j as int]@));
        if needs_cache_lookup(&entries[i]) {
            deps.push(clone_strings(&cache[i].dependencies));
            sizes.push(cache[i].size);
        } else {
            deps.push(Vec::new());
            sizes.push(0);
            assert(str_views(deps[j as int]@) =~= seq![]);
        }
        j = j + 1;
    }
    (deps, sizes)
}

/// For each distinct name, the packages that list it among their dependencies.
fn dependents_table(
    names: &Vec<String>,
    deps: &Vec<Vec<String>>,
    Ghost(entries): Ghost<Seq<LockPackageEntry>>,
    Ghost(cache): Ghost<Seq<PackageCacheInfo>>,
) -> (res: Vec<Vec<String>>)
    requires
        deps.len() == names.len(),
        forall|j: int|
            0 <= j < names.len() ==> str_views((#[trigger] deps[j])@) == package_deps(
                entries,
                cache,
                names[j]@,
            ),
    ensures
        res.len() == names.len(),
        forall|x: int|
            0 <= x < names.len() ==> str_views((#[trigger] res[x])@) == dependents_among(
                str_views(names@),
                entries,
                cache,
                names[x]@,
            ),
{
    let ghost nv = str_views(names@);
    let mut res: Vec<Vec<String>> = Vec::new();
    let mut x: usize = 0;
    while x < names.len()
        invariant
            deps.len() == names.len(),
            nv == str_views(names@),
            forall|j: int|
                0 <= j < names.len() ==> str_views((#[trigger] deps[j])@) == package_deps(
                    entries,
                    cache,
                    names[j]@,
                ),
            x <= names.len(),
            res.len() == x,
            forall|q: int|
                0 <= q < x ==> str_views((#[trigger] res[q])@) == dependents_among(nv, entries, cache, names[q]@),
        decreases names.len() - x,
    {
        let ghost xv = names[x as int]@;
        let mut acc: Vec<String> = Vec::new();
        let mut p: usize = 0;
        while p < names.len()
            invariant
                deps.len() == names.len(),
                nv == str_views(names@),
                x < names.len(),
                xv == names[x as int]@,
                forall|j: int|
                    0 <= j < names.len() ==> str_views((#[trigger] deps[j])@) == package_deps(
                        entries,
                        cache,
                        names[j]@,
                    ),
                p <= names.len(),
                str_views(acc@) == dependents_among(nv.take(p as int), entries, cache, xv),
            decreases names.len() - p,
        {
            let ghost base = str_views(acc@);
            let ghost dv = str_views(deps[p as int]@);
            let ghost pv = names[p as int]@;
            let mut t: usize = 0;
            while t < deps[p].len()
                invariant
                    deps.len() == names.len(),
                    p < names.len(),
                    x < names.len(),
                    xv == names[x as int]@,
                    pv == names[p as int]@,
                    dv == str_views(deps[p as int]@),
                    t <= deps[p as int].len(),
                    str_views(acc@) == base + Seq::new(count_in(dv.take(t as int), xv), |k: int| pv),
                decreases deps[p as int].len() - t,
            {
                assert(dv.take(t + 1).drop_last() =~= dv.take(t as int));
                assert(dv.take(t + 1).last() == deps[p as int][t as int]@);
                let ghost before = str_views(acc@);
                if deps[p][t] == names[x] {
                    acc.push(names[p].clone());
                    assert(str_views(acc@) =~= before.push(pv));
                    assert(str_views(acc@) =~= base + Seq::new(count_in(dv.take(t + 1), xv), |k: int| pv));
                } else {
                    assert(str_views(acc@) =~= base + Seq::new(count_in(dv.take(t + 1), xv), |k: int| pv));
                }
                t = t + 1;
            }
            assert(dv.take(dv.len() as int) =~= dv);
            assert(nv.take(p + 1).drop_last() =~= nv.take(p as int));
            assert(nv.take(p + 1).last() == pv);
            p = p + 1;
        }
        assert(nv.take(names.len() as int) =~= nv);
        res.push(acc);
        x = x + 1;
    }
    res
}


proof fn lemma_own_name_indexed(entries: Seq<LockPackageEntry>, i: int)
    requires
        0 <= i < entries.len(),
    ensures
        last_index(entries, entries[i].name@) >= i,
    decreases entries.len(),
{
    if i < entries.len() - 1 {
        lemma_own_name_indexed(entries.drop_last(), i);
    }
}

proof fn lemma_sizes_grow(entries: Seq<LockPackageEntry>, cache: Seq<PackageCacheInfo>, i: int, n: int)
    requires
        0 <= i <= n,
    ensures
        sizes_upto(entries, cache, i) <= sizes_upto(entries, cache, n),
    decreases n - i,
{
    if i < n {
        lemma_sizes_grow(entries, cache, i, n - 1);
    }
}

fn package_info(
    entry: &LockPackageEntry,
    deps: &Vec<String>,
    dependents: &Vec<String>,
    size: u64,
) -> (res: DepPackageInfo)
    ensures
        package_view(res) == (entry.name@, entry.version@, entry.dep_type@, str_views(deps@), str_views(
            dependents@,
        ), size as nat),
{
    DepPackageInfo {
        name: entry.name.clone(),
        version: entry.version.clone(),
        dep_type: entry.dep_type.clone(),
        dependencies: clone_strings(deps),
        dependents: clone_strings(dependents),
        size,
    }
}

/// `r` is the dependency graph of the lock file `entries` with what the pub cache
/// holds for them: one row per entry with its dependencies, the packages that depend on
/// it and its size, most-depended-on first (rows with as many dependents in lock file
/// order); the total size adds up the rows.
pub open spec fn is_dep_graph(r: DepGraphResult, entries: Seq<LockPackageEntry>, cache: Seq<PackageCacheInfo>) -> bool {
    &&& r.total_packages == entries.len()
    &&& r.total_size == sizes_upto(entries, cache, entries.len() as int)
    &&& r.total_size == rows_size(r.packages@)
    &&& r.packages.len() == entries.len()
    &&& exists|order: Seq<usize>|
        {
            &&& order.len() == entries.len()
            &&& #[trigger] is_desc_ranking_prefix(dependent_counts(entries, cache), order)
            &&& forall|k: int|
                0 <= k < entries.len() ==> package_view(#[trigger] r.packages[k]) == package_row(
                    entries,
                    cache,
                    entries[order[k] as int],
                )
        }
}

/// Builds the dependency graph of a project from its lock file entries and, per entry,
/// what the pub cache holds for it (read only for hosted packages); `None` when the
/// total size does not fit in 64 bits.
pub fn analyse_dep_graph_checked(entries: &Vec<LockPackageEntry>, cache: &Vec<PackageCacheInfo>) -> (res:
    Option<DepGraphResult>)
    requires
        entries.len() == cache.len(),
    ensures
        res is None <==> sizes_upto(entries@, cache@, entries.len() as int) > u64::MAX,
        res matches Some(r) ==> is_dep_graph(r, entries@, cache@),
{
    let n = entries.len();
    let (names, last) = name_table(entries);
    proof {
        lemma_entry_names(entries@);
        assert forall|j: int| 0 <= j < last.len() implies 0 <= #[trigger] last[j] < entries.len() by {
            assert(str_views(names@)[j] == names[j]@);
            assert(entry_names(entries@).contains(names[j]@));
        }
    }
    let (deps, sizes) = package_tables(entries, cache, &names, &last);
    let dependents = dependents_table(&names, &deps, Ghost(entries@), Ghost(cache@));
    let ghost counts = dependent_counts(entries@, cache@);
    let mut rows: Vec<usize> = Vec::new();
    let mut keys: Vec<u128> = Vec::new();
    let mut total: u64 = 0;
    let mut i: usize = 0;
    while i < n
        invariant
            n == entries.len(),
            n == cache.len(),
            i <= n,
            str_views(names@) == entry_names(entries@),
            counts == dependent_counts(entries@, cache@),
            deps.len() == names.len(),
            sizes.len() == names.len(),
            dependents.len() == names.len(),
            forall|j: int|
                0 <= j < names.len() ==> str_views((#[trigger] dependents[j])@) == dependents_among(
                    str_views(names@),
                    entries@,
                    cache@,
                    names[j]@,
                ),
            forall|j: int|
                0 <= j < names.len() ==> (#[trigger] sizes[j]) == package_size(entries@, cache@, names[j]@),
            rows.len() == i,
            keys.len() == i,
            forall|q: int| 0 <= q < i ==> (#[trigger] rows[q]) < names.len() && names[rows[q] as int]@ == entries@[q].name@,
            forall|q: int| 0 <= q < i ==> (#[trigger] keys[q]) == counts[q],
            total == sizes_upto(entries@, cache@, i as int),
            forall|x: Seq<char>| #[trigger] entry_names(entries@).contains(x) <==> last_index(entries@, x) >= 0,
        decreases n - i,
    {
        proof {
            lemma_own_name_indexed(entries@, i as int);
        }
        let ghost xv = entries@[i as int].name@;
        assert(entry_names(entries@).contains(xv));
        let mut j: usize = 0;
        while j < names.len() && names[j] != entries[i].name
            invariant
                i < entries.len(),
                xv == entries@[i as int].name@,
                str_views(names@) == entry_names(entries@),
                entry_names(entries@).contains(xv),
                j <= names.len(),
                forall|q: int| 0 <= q < j ==> (#[trigger] names[q])@ != xv,
            decreases names.len() - j,
        {
            j = j + 1;
        }
        if j == names.len() {
            proof {
                let q = choose|q: int|
                    0 <= q < entry_names(entries@).len() && entry_names(entries@)[q] == xv;
                assert(str_views(names@)[q] == names[q]@);
            }
        }
        assert(j < names.len());
        rows.push(j);
        let count = dependents[j].len();
        assert(str_views(dependents[j as int]@).len() == dependents[j as int]@.len());
        keys.push(count as u128);
        proof {
            lemma_sizes_grow(entries@, cache@, i + 1, n as int);
        }
        total = match total.checked_add(sizes[j]) {
            Some(t) => t,
            None => {
                return None;
            },
        };
        i = i + 1;
    }
    let order = stable_desc_order(&keys, n);
    assert(keys@ =~= counts);
    let mut packages: Vec<DepPackageInfo> = Vec::new();
    let mut k: usize = 0;
    while k < n
        invariant
            n == entries.len(),
            n == cache.len(),
            order.len() == n,
            keys@.len() == n,
            is_desc_ranking_prefix(keys@, order@),
            str_views(names@) == entry_names(entries@),
            deps.len() == names.len(),
            sizes.len() == names.len(),
            dependents.len() == names.len(),
            forall|j: int|
                0 <= j < names.len() ==> str_views((#[trigger] deps[j])@) == package_deps(
                    entries@,
                    cache@,
                    names[j]@,
                ),
            forall|j: int|
                0 <= j < names.len() ==> str_views((#[trigger] dependents[j])@) == dependents_among(
                    str_views(names@),
                    entries@,
                    cache@,
                    names[j]@,
                ),
            forall|j: int|
                0 <= j < names.len() ==> (#[trigger] sizes[j]) == package_size(entries@, cache@, names[j]@),
            rows.len() == n,
            forall|q: int| 0 <= q < n ==> (#[trigger] rows[q]) < names.len() && names[rows[q] as int]@ == entries@[q].name@,
            k <= n,
            packages.len() == k,
            rows_size(packages@) == sum_at(entry_size(entries@, cache@), order@.take(k as int)),
            forall|q: int|
                0 <= q < k ==> package_view(#[trigger] packages[q]) == package_row(
                    entries@,
                    cache@,
                    entries@[order[q] as int],
                ),
        decreases n - k,
    {
        let e = order[k];
        assert(order@[k as int] < keys@.len());
        let j = rows[e];
        assert(names[j as int]@ == entries@[e as int].name@);
        let info = package_info(&entries[e], &deps[j], &dependents[j], sizes[j]);
        let ghost before = packages@;
        packages.push(info);
        assert(packages@.drop_last() =~= before);
        assert(order@.take(k + 1).drop_last() =~= order@.take(k as int));
        k = k + 1;
    }
    proof {
        assert(order@.take(n as int) =~= order@);
        lemma_ranking_no_duplicates(keys@, order@);
        lemma_sum_permutation(entry_size(entries@, cache@), order@, n as nat);
        lemma_sizes_upto_sum(entries@, cache@, n as int);
    }
    Some(DepGraphResult { packages, total_packages: n, total_size: total })
}

/// Builds the dependency graph of a project from its lock file entries and, per
/// entry, what the pub cache holds for it (read only for hosted packages). Every entry
/// becomes a package row with its dependencies, the packages that depend on it and its
/// size; the rows come most-depended-on first, rows with as many dependents in lock
/// file order; the total size adds up the rows.
pub fn analyse_dep_graph(entries: &Vec<LockPackageEntry>, cache: &Vec<PackageCacheInfo>) -> (res:
    DepGraphResult)
    requires
        entries.len() == cache.len(),
        sizes_upto(entries@, cache@, entries.len() as int) <= u64::MAX,
    ensures
        is_dep_graph(res, entries@, cache@),
{
    match analyse_dep_graph_checked(entries, cache) {
        Some(r) => r,
        None => {
            assert(false);
            DepGraphResult { packages: Vec::new(), total_packages: 0, total_size: 0 }
        },
    }
}


proof fn lemma_count_in_concat(s: Seq<Seq<char>>, t: Seq<Seq<char>>, x: Seq<char>)
    ensures
        count_in(s + t, x) == count_in(s, x) + count_in(t, x),
    decreases t.len(),
{
    if t.len() == 0 {
        assert(s + t =~= s);
    } else {
        lemma_count_in_concat(s, t.drop_last(), x);
        assert((s + t).drop_last() =~= s + t.drop_last());
        assert((s + t).last() == t.last());
    }
}

proof fn lemma_count_in_repeat(c: nat, p: Seq<char>, x: Seq<char>)
    ensures
        count_in(Seq::new(c, |k: int| p), x) == if p == x { c } else { 0 },
    decreases c,
{
    if c > 0 {
        lemma_count_in_repeat((c - 1) as nat, p, x);
        assert(Seq::new(c, |k: int| p).drop_last() =~= Seq::new((c - 1) as nat, |k: int| p));
    }
}

proof fn lemma_count_dependents_among(
    names: Seq<Seq<char>>,
    entries: Seq<LockPackageEntry>,
    cache: Seq<PackageCacheInfo>,
    x: Seq<char>,
    a: Seq<char>,
)
    requires
        names.no_duplicates(),
    ensures
        count_in(dependents_among(names, entries, cache, x), a) == if names.contains(a) {
            count_in(package_deps(entries, cache, a), x)
        } else {
            0
        },
    decreases names.len(),
{
    if names.len() > 0 {
        let prev = names.drop_last();
        let p = names.last();
        assert(prev.no_duplicates()) by {
            assert forall|i: int, j: int| 0 <= i < prev.len() && 0 <= j < prev.len() && i != j implies prev[i]
                != prev[j] by {
                assert(prev[i] == names[i] && prev[j] == names[j]);
            }
        }
        lemma_count_dependents_among(prev, entries, cache, x, a);
        let c = count_in(package_deps(entries, cache, p), x);
        lemma_count_in_concat(
            dependents_among(prev, entries, cache, x),
            Seq::new(c, |k: int| p),
            a,
        );
        lemma_count_in_repeat(c, p, a);
        assert(names =~= prev.push(p));
        if names.contains(a) && a != p {
            let k = choose|k: int| 0 <= k < names.len() && names[k] == a;
            assert(prev[k] == a);
        }
        if prev.contains(a) {
            let k = choose|k: int| 0 <= k < prev.len() && prev[k] == a;
            assert(names[k] == a);
            if a == p {
                assert(names[names.len() - 1] == a);
                assert(false);
            }
        }
        if a == p {
            assert(names[names.len() - 1] == a);
        }
    }
}

/// The dependents mirror the dependencies: a package of the lock file that lists `b`
/// among its dependencies `c` times appears exactly `c` times among the dependents of `b`.
pub proof fn law_dependents_mirror_dependencies(
    entries: Seq<LockPackageEntry>,
    cache: Seq<PackageCacheInfo>,
    a: Seq<char>,
    b: Seq<char>,
)
    requires
        entry_names(entries).contains(a),
    ensures
        count_in(package_dependents(entries, cache, b), a) == count_in(package_deps(entries, cache, a), b),
{
    lemma_entry_names(entries);
    lemma_count_dependents_among(entry_names(entries), entries, cache, b, a);
}

} // verus!
