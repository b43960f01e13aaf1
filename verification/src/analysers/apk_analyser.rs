use vstd::prelude::*;
use crate::models::apk_model::{ApkBreakdownResult, ApkCategory, ApkFileEntry, NativeLibDetail};
use crate::order::{is_desc_ranking_prefix, stable_desc_order};
use crate::text::{
    chars_eq, ends_with, ends_with_chars, find_char, first_index_of, starts_with, starts_with_chars,
    str_chars, string_from_chars, sub_chars,
};

verus! {

/// The number of categories of the breakdown.
pub const CATEGORY_COUNT: usize = 7;

/// The category of an APK entry, as its position in the report's category order.
pub open spec fn category_index(path: Seq<char>) -> nat {
    if starts_with(path, "lib/"@) {
        0
    } else if starts_with(path, "classes"@) && ends_with(path, ".dex"@) {
        1
    } else if starts_with(path, "assets/"@) {
        2
    } else if starts_with(path, "res/"@) {
        3
    } else if path == "resources.arsc"@ {
        4
    } else if starts_with(path, "META-INF/"@) || path == "AndroidManifest.xml"@ {
        5
    } else {
        6
    }
}

/// The name of the category at position `c` of the report's category order.
pub open spec fn category_name(c: nat) -> Seq<char> {
    if c == 0 {
        "Native Libraries"@
    } else if c == 1 {
        "Compiled Code"@
    } else if c == 2 {
        "App Assets"@
    } else if c == 3 {
        "Android Resources"@
    } else if c == 4 {
        "Resource Table"@
    } else if c == 5 {
        "Signing & Metadata"@
    } else {
        "Other"@
    }
}

/// The entries of an APK as plain values: path and compressed size.
pub open spec fn entry_views(entries: Seq<(String, u64)>) -> Seq<(Seq<char>, u64)> {
    entries.map_values(|e: (String, u64)| (e.0@, e.1))
}

/// The compressed bytes of all entries.
pub open spec fn total_bytes(es: Seq<(Seq<char>, u64)>) -> nat
    decreases es.len(),
{
    if es.len() == 0 {
        0
    } else {
        total_bytes(es.drop_last()) + es.last().1 as nat
    }
}

/// The compressed bytes of the entries of category `c`.
pub open spec fn category_size(es: Seq<(Seq<char>, u64)>, c: nat) -> nat
    decreases es.len(),
{
    if es.len() == 0 {
        0
    } else {
        category_size(es.drop_last(), c) + if category_index(es.last().0) == c {
            es.last().1 as nat
        } else {
            0
        }
    }
}

/// The number of entries of category `c`.
pub open spec fn category_count(es: Seq<(Seq<char>, u64)>, c: nat) -> nat
    decreases es.len(),
{
    if es.len() == 0 {
        0
    } else {
        category_count(es.drop_last(), c) + if category_index(es.last().0) == c {
            1nat
        } else {
            0nat
        }
    }
}

/// The rows of the categories `0..c` that hold an entry, in category order: name,
/// bytes, number of files.
pub open spec fn category_rows_upto(es: Seq<(Seq<char>, u64)>, c: nat) -> Seq<(Seq<char>, nat, nat)>
    decreases c,
{
    if c == 0 {
        seq![]
    } else {
        let k = (c - 1) as nat;
        category_rows_upto(es, k) + if category_count(es, k) > 0 {
            seq![(category_name(k), category_size(es, k), category_count(es, k))]
        } else {
            seq![]
        }
    }
}

/// The rows of all categories that hold an entry, in category order.
pub open spec fn category_rows(es: Seq<(Seq<char>, u64)>) -> Seq<(Seq<char>, nat, nat)> {
    category_rows_upto(es, CATEGORY_COUNT as nat)
}

/// A category of the result as plain values.
pub open spec fn category_view(c: ApkCategory) -> (Seq<char>, nat, nat) {
    (c.name@, c.size as nat, c.file_count as nat)
}

/// The sizes by which category rows are ordered.
pub open spec fn category_keys(rows: Seq<(Seq<char>, nat, nat)>) -> Seq<u128> {
    rows.map_values(|r: (Seq<char>, nat, nat)| r.1 as u128)
}

/// The architecture of a native library entry: the directory right under `lib/`.
pub open spec fn arch_of(path: Seq<char>) -> Option<Seq<char>> {
    if starts_with(path, "lib/"@) {
        let rest = path.skip(4);
        match first_index_of(rest, '/') {
            Some(i) => Some(rest.take(i)),
            None => Some(rest),
        }
    } else {
        None
    }
}

/// The architectures of the native libraries, each once, in the order they first
/// occur.
pub open spec fn arch_names(es: Seq<(Seq<char>, u64)>) -> Seq<Seq<char>>
    decreases es.len(),
{
    if es.len() == 0 {
        seq![]
    } else {
        let prev = arch_names(es.drop_last());
        match arch_of(es.last().0) {
            Some(a) => if prev.contains(a) {
                prev
            } else {
                prev.push(a)
            },
            None => prev,
        }
    }
}

/// The compressed bytes of the native libraries of architecture `a`.
pub open spec fn arch_size(es: Seq<(Seq<char>, u64)>, a: Seq<char>) -> nat
    decreases es.len(),
{
    if es.len() == 0 {
        0
    } else {
        arch_size(es.drop_last(), a) + if arch_of(es.last().0) == Some(a) {
            es.last().1 as nat
        } else {
            0
        }
    }
}

/// One row per architecture, in the order they first occur: name and bytes.
pub open spec fn arch_rows(es: Seq<(Seq<char>, u64)>) -> Seq<(Seq<char>, nat)> {
    arch_names(es).map_values(|a: Seq<char>| (a, arch_size(es, a)))
}

/// A native library row of the result as plain values.
pub open spec fn native_view(n: NativeLibDetail) -> (Seq<char>, nat) {
    (n.architecture@, n.size as nat)
}

/// The sizes by which architecture rows are ordered.
pub open spec fn arch_keys(rows: Seq<(Seq<char>, nat)>) -> Seq<u128> {
    rows.map_values(|r: (Seq<char>, nat)| r.1 as u128)
}

/// A file of the result as plain values.
pub open spec fn file_view(f: ApkFileEntry) -> (Seq<char>, u64) {
    (f.path@, f.size)
}

/// The sizes by which files are ordered.
pub open spec fn file_keys(es: Seq<(Seq<char>, u64)>) -> Seq<u128> {
    es.map_values(|e: (Seq<char>, u64)| e.1 as u128)
}

/// How many of the largest files the breakdown lists.
pub const LARGEST_FILES_SHOWN: usize = 5;

/// Every category's bytes fit in 64 bits (else adding them up overflows).
pub open spec fn category_sizes_fit(es: Seq<(Seq<char>, u64)>) -> bool {
    forall|c: nat| c < CATEGORY_COUNT ==> #[trigger] category_size(es, c) <= u64::MAX
}

proof fn lemma_category_count_bound(es: Seq<(Seq<char>, u64)>, c: nat)
    ensures
        category_count(es, c) <= es.len(),
    decreases es.len(),
{
    if es.len() > 0 {
        lemma_category_count_bound(es.drop_last(), c);
    }
}

proof fn lemma_category_prefix(es: Seq<(Seq<char>, u64)>, i: int, c: nat)
    requires
        0 <= i <= es.len(),
    ensures
        category_size(es.take(i), c) <= category_size(es, c),
    decreases es.len() - i,
{
    if i < es.len() {
        lemma_category_prefix(es, i + 1, c);
        assert(es.take(i + 1).drop_last() =~= es.take(i));
    } else {
        assert(es.take(i) =~= es);
    }
}

/// The native libraries of one architecture are part of the native library category.
proof fn lemma_arch_bound(es: Seq<(Seq<char>, u64)>, a: Seq<char>)
    ensures
        arch_size(es, a) <= category_size(es, 0),
    decreases es.len(),
{
    if es.len() > 0 {
        lemma_arch_bound(es.drop_last(), a);
    }
}

proof fn lemma_arch_names_distinct(es: Seq<(Seq<char>, u64)>)
    ensures
        arch_names(es).no_duplicates(),
    decreases es.len(),
{
    if es.len() > 0 {
        lemma_arch_names_distinct(es.drop_last());
        let prev = arch_names(es.drop_last());
        match arch_of(es.last().0) {
            Some(a) => if !prev.contains(a) {
                let cur = prev.push(a);
                assert forall|x: int, y: int| 0 <= x < cur.len() && 0 <= y < cur.len() && x != y implies cur[x]
                    != cur[y] by {
                    if x < prev.len() && y < prev.len() {
                        assert(cur[x] == prev[x] && cur[y] == prev[y]);
                    } else if x < prev.len() {
                        assert(cur[x] == prev[x]);
                    } else {
                        assert(cur[y] == prev[y]);
                    }
                }
            },
            None => {},
        }
    }
}

proof fn lemma_arch_absent(es: Seq<(Seq<char>, u64)>, a: Seq<char>)
    requires
        !arch_names(es).contains(a),
    ensures
        arch_size(es, a) == 0,
    decreases es.len(),
{
    if es.len() > 0 {
        let prev = arch_names(es.drop_last());
        if prev.contains(a) {
            let k = choose|k: int| 0 <= k < prev.len() && prev[k] == a;
            match arch_of(es.last().0) {
                Some(b) => if !prev.contains(b) {
                    assert(prev.push(b)[k] == a);
                },
                None => {},
            }
            assert(false);
        }
        match arch_of(es.last().0) {
            Some(b) => if b == a {
                if !prev.contains(b) {
                    assert(prev.push(b)[prev.len() as int] == a);
                }
                assert(false);
            },
            None => {},
        }
        lemma_arch_absent(es.drop_last(), a);
    }
}

/// The category of an entry, as its position in the report's category order.
fn category_of(path: &Vec<char>) -> (res: usize)
    ensures
        res == category_index(path@),
        res < CATEGORY_COUNT,
{
    if starts_with_chars(path, "lib/") {
        0
    } else if starts_with_chars(path, "classes") && ends_with_chars(path, ".dex") {
        1
    } else if starts_with_chars(path, "assets/") {
        2
    } else if starts_with_chars(path, "res/") {
        3
    } else if chars_eq(path, &str_chars("resources.arsc")) {
        4
    } else if starts_with_chars(path, "META-INF/") || chars_eq(path, &str_chars("AndroidManifest.xml")) {
        5
    } else {
        6
    }
}

/// The name of the category at position `c` of the report's category order.
fn category_label(c: usize) -> (res: &'static str)
    ensures
        res@ == category_name(c as nat),
{
    if c == 0 {
        "Native Libraries"
    } else if c == 1 {
        "Compiled Code"
    } else if c == 2 {
        "App Assets"
    } else if c == 3 {
        "Android Resources"
    } else if c == 4 {
        "Resource Table"
    } else if c == 5 {
        "Signing & Metadata"
    } else {
        "Other"
    }
}

/// The category of an APK entry: native libraries under `lib/`, compiled code in the
/// `classes*.dex` files, app assets under `assets/`, Android resources under `res/`,
/// the resource table `resources.arsc`, signing and metadata under `META-INF/` and the
/// manifest, and everything else.
pub fn classify_entry(path: &str) -> (res: &'static str)
    ensures
        res@ == category_name(category_index(path@)),
{
    category_label(category_of(&str_chars(path)))
}

/// The architecture of a native library entry: the directory right under `lib/`.
fn arch_of_path(path: &Vec<char>) -> (res: Option<Vec<char>>)
    ensures
        match res {
            Some(a) => arch_of(path@) == Some(a@),
            None => arch_of(path@) is None,
        },
{
    if !starts_with_chars(path, "lib/") {
        return None;
    }
    proof {
        reveal_strlit("lib/");
    }
    let rest = sub_chars(path, 4, path.len());
    assert(rest@ =~= path@.skip(4));
    match find_char(&rest, '/') {
        Some(i) => {
            let a = sub_chars(&rest, 0, i);
            assert(a@ =~= rest@.take(i as int));
            Some(a)
        },
        None => Some(rest),
    }
}

/// Bytes and number of files of each category, in category order; `None` when the
/// bytes of some category do not fit in 64 bits.
fn category_totals(entries: &Vec<(String, u64)>) -> (res: Option<(Vec<u64>, Vec<usize>)>)
    ensures
        res is None <==> !category_sizes_fit(entry_views(entries@)),
        res matches Some((sizes, counts)) ==> {
            &&& sizes.len() == CATEGORY_COUNT
            &&& counts.len() == CATEGORY_COUNT
            &&& forall|c: int|
                0 <= c < CATEGORY_COUNT ==> (#[trigger] sizes[c]) == category_size(entry_views(entries@), c as nat)
            &&& forall|c: int|
                0 <= c < CATEGORY_COUNT ==> (#[trigger] counts[c]) == category_count(entry_views(entries@), c as nat)
        },
{
    let ghost es = entry_views(entries@);
    let mut sizes: Vec<u64> = vec![0, 0, 0, 0, 0, 0, 0];
    let mut counts: Vec<usize> = vec![0, 0, 0, 0, 0, 0, 0];
    let mut i: usize = 0;
    while i < entries.len()
        invariant
            es == entry_views(entries@),
            i <= entries.len(),
            sizes.len() == CATEGORY_COUNT,
            counts.len() == CATEGORY_COUNT,
            forall|c: int| 0 <= c < CATEGORY_COUNT ==> (#[trigger] sizes[c]) == category_size(es.take(i as int), c as nat),
            forall|c: int| 0 <= c < CATEGORY_COUNT ==> (#[trigger] counts[c]) == category_count(es.take(i as int), c as nat),
        decreases entries.len() - i,
    {
        let ghost next = es.take(i + 1);
        assert(next.drop_last() =~= es.take(i as int));
        assert(next.last() == (entries@[i as int].0@, entries@[i as int].1));
        let c = category_of(&str_chars(entries[i].0.as_str()));
        proof {
            lemma_category_count_bound(next, c as nat);
            lemma_category_prefix(es, i + 1, c as nat);
        }
        let s = match sizes[c].checked_add(entries[i].1) {
            Some(s) => s,
            None => {
                assert(category_size(es, c as nat) > u64::MAX);
                return None;
            },
        };
        let n = counts[c] + 1;
        sizes.set(c, s);
        counts.set(c, n);
        i = i + 1;
    }
    assert(es.take(entries.len() as int) =~= es);
    assert forall|c: nat| c < CATEGORY_COUNT implies #[trigger] category_size(es, c) <= u64::MAX by {
        assert(sizes[c as int] == category_size(es, c));
    }
    Some((sizes, counts))
}

/// The rows of the categories that hold an entry, in category order.
fn category_table(sizes: &Vec<u64>, counts: &Vec<usize>, Ghost(es): Ghost<Seq<(Seq<char>, u64)>>) -> (res:
    Vec<ApkCategory>)
    requires
        sizes.len() == CATEGORY_COUNT,
        counts.len() == CATEGORY_COUNT,
        forall|c: int| 0 <= c < CATEGORY_COUNT ==> (#[trigger] sizes[c]) == category_size(es, c as nat),
        forall|c: int| 0 <= c < CATEGORY_COUNT ==> (#[trigger] counts[c]) == category_count(es, c as nat),
    ensures
        res@.map_values(|r: ApkCategory| category_view(r)) == category_rows(es),
{
    let mut rows: Vec<ApkCategory> = Vec::new();
    let mut c: usize = 0;
    while c < CATEGORY_COUNT
        invariant
            c <= CATEGORY_COUNT,
            sizes.len() == CATEGORY_COUNT,
            counts.len() == CATEGORY_COUNT,
            forall|k: int| 0 <= k < CATEGORY_COUNT ==> (#[trigger] sizes[k]) == category_size(es, k as nat),
            forall|k: int| 0 <= k < CATEGORY_COUNT ==> (#[trigger] counts[k]) == category_count(es, k as nat),
            rows@.map_values(|r: ApkCategory| category_view(r)) == category_rows_upto(es, c as nat),
        decreases CATEGORY_COUNT - c,
    {
        let ghost before = rows@;
        if counts[c] > 0 {
            rows.push(ApkCategory { name: category_label(c).to_string(), size: sizes[c], file_count: counts[c] });
            assert(rows@.map_values(|r: ApkCategory| category_view(r)) =~= before.map_values(
                |r: ApkCategory| category_view(r),
            ).push((category_name(c as nat), category_size(es, c as nat), category_count(es, c as nat))));
        } else {
            assert(rows@.map_values(|r: ApkCategory| category_view(r)) =~= before.map_values(
                |r: ApkCategory| category_view(r),
            ) + seq![]);
        }
        c = c + 1;
    }
    rows
}

/// The architectures of the native libraries in the order they first occur, each with
/// its bytes.
fn arch_table(entries: &Vec<(String, u64)>) -> (res: (Vec<Vec<char>>, Vec<u64>))
    requires
        category_sizes_fit(entry_views(entries@)),
    ensures
        res.0@.map_values(|a: Vec<char>| a@) == arch_names(entry_views(entries@)),
        res.1.len() == res.0.len(),
        forall|j: int|
            0 <= j < res.1.len() ==> (#[trigger] res.1[j]) == arch_size(entry_views(entries@), res.0[j]@),
{
    let ghost es = entry_views(entries@);
    let mut names: Vec<Vec<char>> = Vec::new();
    let mut sizes: Vec<u64> = Vec::new();
    let mut i: usize = 0;
    while i < entries.len()
        invariant
            es == entry_views(entries@),
            category_sizes_fit(es),
            i <= entries.len(),
            names@.map_values(|a: Vec<char>| a@) == arch_names(es.take(i as int)),
            sizes.len() == names.len(),
            forall|j: int| 0 <= j < sizes.len() ==> (#[trigger] sizes[j]) == arch_size(es.take(i as int), names[j]@),
        decreases entries.len() - i,
    {
        let ghost prev = es.take(i as int);
        let ghost next = es.take(i + 1);
        assert(next.drop_last() =~= prev);
        assert(next.last() == (entries@[i as int].0@, entries@[i as int].1));
        let ghost old_names = names@;
        let ghost old_sizes = sizes@;
        let ghost nv = names@.map_values(|a: Vec<char>| a@);
        proof {
            lemma_arch_names_distinct(prev);
        }
        match arch_of_path(&str_chars(entries[i].0.as_str())) {
            Some(a) => {
                let mut j: usize = 0;
                while j < names.len() && !chars_eq(&names[j], &a)
                    invariant
                        j <= names.len(),
                        forall|q: int| 0 <= q < j ==> (#[trigger] names[q])@ != a@,
                    decreases names.len() - j,
                {
                    j = j + 1;
                }
                proof {
                    lemma_arch_bound(next, a@);
                    lemma_category_prefix(es, i + 1, 0);
                    assert(category_size(es, 0) <= u64::MAX);
                }
                if j < names.len() {
                    assert(nv[j as int] == a@);
                    assert(nv.contains(a@));
                    let s = sizes[j] + entries[i].1;
                    sizes.set(j, s);
                } else {
                    assert(!nv.contains(a@)) by {
                        if nv.contains(a@) {
                            let q = choose|q: int| 0 <= q < nv.len() && nv[q] == a@;
                            assert(names[q]@ == a@);
                        }
                    }
                    proof {
                        lemma_arch_absent(prev, a@);
                    }
                    names.push(a);
                    sizes.push(entries[i].1);
                    assert(names@.map_values(|a: Vec<char>| a@) =~= nv.push(a@));
                }
                assert forall|q: int| 0 <= q < sizes.len() implies (#[trigger] sizes[q]) == arch_size(
                    next,
                    names[q]@,
                ) by {
                    if q < old_sizes.len() {
                        assert(names[q] == old_names[q]);
                        if q != j {
                            assert(sizes[q] == old_sizes[q]);
                            assert(nv[q] == names[q]@);
                            if j < old_names.len() {
                                assert(nv[j as int] == a@);
                            }
                        }
                    }
                }
            },
            None => {
                assert forall|q: int| 0 <= q < sizes.len() implies (#[trigger] sizes[q]) == arch_size(
                    next,
                    names[q]@,
                ) by {}
            },
        }
        i = i + 1;
    }
    assert(es.take(entries.len() as int) =~= es);
    (names, sizes)
}

/// `r` is the breakdown of the APK with entries `es`: the categories that hold a file,
/// largest first (equal sizes in category order); the native libraries by
/// architecture, largest first (equal sizes in the order the architectures first
/// occur); the five largest files, largest first (equal sizes in entry order).
pub open spec fn is_apk_breakdown(
    r: ApkBreakdownResult,
    es: Seq<(Seq<char>, u64)>,
    apk_size: u64,
    file_name: Seq<char>,
) -> bool {
    &&& r.apk_file_name@ == file_name
    &&& r.total_size == apk_size
    &&& r.categories.len() == category_rows(es).len()
    &&& exists|order: Seq<usize>|
        {
            &&& order.len() == category_rows(es).len()
            &&& #[trigger] is_desc_ranking_prefix(category_keys(category_rows(es)), order)
            &&& forall|k: int|
                0 <= k < order.len() ==> category_view(#[trigger] r.categories[k]) == category_rows(es)[order[k] as int]
        }
    &&& r.native_libs.len() == arch_rows(es).len()
    &&& exists|order: Seq<usize>|
        {
            &&& order.len() == arch_rows(es).len()
            &&& #[trigger] is_desc_ranking_prefix(arch_keys(arch_rows(es)), order)
            &&& forall|k: int|
                0 <= k < order.len() ==> native_view(#[trigger] r.native_libs[k]) == arch_rows(es)[order[k] as int]
        }
    &&& r.largest_files.len() == if es.len() < LARGEST_FILES_SHOWN {
        es.len()
    } else {
        LARGEST_FILES_SHOWN as nat
    }
    &&& exists|order: Seq<usize>|
        {
            &&& order.len() == r.largest_files.len()
            &&& #[trigger] is_desc_ranking_prefix(file_keys(es), order)
            &&& forall|k: int|
                0 <= k < order.len() ==> file_view(#[trigger] r.largest_files[k]) == es[order[k] as int]
        }
}

/// Breaks an APK down by what its entries are, or `None` when the bytes of some
/// category do not fit in 64 bits. `entries` are the files of the APK with their
/// compressed sizes, `apk_size` the size of the APK file.
pub fn analyse_apk_checked(entries: Vec<(String, u64)>, apk_size: u64, file_name: &str) -> (res: Option<
    ApkBreakdownResult,
>)
    ensures
        res is None <==> !category_sizes_fit(entry_views(entries@)),
        res matches Some(r) ==> is_apk_breakdown(r, entry_views(entries@), apk_size, file_name@),
{
    let ghost es = entry_views(entries@);
    // categories, largest first
    let (sizes, counts) = match category_totals(&entries) {
        Some(t) => t,
        None => {
            return None;
        },
    };
    let table = category_table(&sizes, &counts, Ghost(es));
    let ghost rows = category_rows(es);
    let mut keys: Vec<u128> = Vec::new();
    let mut i: usize = 0;
    while i < table.len()
        invariant
            i <= table.len(),
            table@.map_values(|r: ApkCategory| category_view(r)) == rows,
            keys@ == category_keys(rows).take(i as int),
        decreases table.len() - i,
    {
        assert(category_view(table@[i as int]) == rows[i as int]);
        keys.push(table[i].size as u128);
        i = i + 1;
        assert(keys@ =~= category_keys(rows).take(i as int));
    }
    assert(keys@ =~= category_keys(rows));
    let order = stable_desc_order(&keys, table.len());
    let mut categories: Vec<ApkCategory> = Vec::new();
    let mut k: usize = 0;
    while k < order.len()
        invariant
            k <= order.len(),
            order.len() == table.len(),
            keys@ == category_keys(rows),
            is_desc_ranking_prefix(keys@, order@),
            table@.map_values(|r: ApkCategory| category_view(r)) == rows,
            categories.len() == k,
            forall|q: int| 0 <= q < k ==> category_view(#[trigger] categories[q]) == rows[order[q] as int],
        decreases order.len() - k,
    {
        let t = order[k];
        assert(order@[k as int] < keys@.len());
        assert(category_view(table@[t as int]) == rows[t as int]);
        categories.push(
            ApkCategory { name: table[t].name.clone(), size: table[t].size, file_count: table[t].file_count },
        );
        k = k + 1;
    }
    // native libraries by architecture, largest first
    let (archs, arch_sizes) = arch_table(&entries);
    let ghost arows = arch_rows(es);
    let mut akeys: Vec<u128> = Vec::new();
    let mut i: usize = 0;
    while i < archs.len()
        invariant
            i <= archs.len(),
            arch_sizes.len() == archs.len(),
            archs@.map_values(|a: Vec<char>| a@) == arch_names(es),
            forall|j: int| 0 <= j < arch_sizes.len() ==> (#[trigger] arch_sizes[j]) == arch_size(es, archs[j]@),
            akeys@ == arch_keys(arows).take(i as int),
            arows == arch_rows(es),
        decreases archs.len() - i,
    {
        assert(arch_names(es)[i as int] == archs[i as int]@);
        akeys.push(arch_sizes[i] as u128);
        i = i + 1;
        assert(akeys@ =~= arch_keys(arows).take(i as int));
    }
    assert(akeys@ =~= arch_keys(arows));
    let aorder = stable_desc_order(&akeys, archs.len());
    let mut native_libs: Vec<NativeLibDetail> = Vec::new();
    let mut k: usize = 0;
    while k < aorder.len()
        invariant
            k <= aorder.len(),
            aorder.len() == archs.len(),
            arch_sizes.len() == archs.len(),
            akeys@ == arch_keys(arows),
            is_desc_ranking_prefix(akeys@, aorder@),
            archs@.map_values(|a: Vec<char>| a@) == arch_names(es),
            forall|j: int| 0 <= j < arch_sizes.len() ==> (#[trigger] arch_sizes[j]) == arch_size(es, archs[j]@),
            arows == arch_rows(es),
            native_libs.len() == k,
            forall|q: int| 0 <= q < k ==> native_view(#[trigger] native_libs[q]) == arows[aorder[q] as int],
        decreases aorder.len() - k,
    {
        let t = aorder[k];
        assert(aorder@[k as int] < akeys@.len());
        assert(arch_names(es)[t as int] == archs[t as int]@);
        native_libs.push(NativeLibDetail { architecture: string_from_chars(&archs[t]), size: arch_sizes[t] });
        k = k + 1;
    }
    // the largest files
    let mut fkeys: Vec<u128> = Vec::new();
    let mut i: usize = 0;
    while i < entries.len()
        invariant
            i <= entries.len(),
            es == entry_views(entries@),
            fkeys@ == file_keys(es).take(i as int),
        decreases entries.len() - i,
    {
        fkeys.push(entries[i].1 as u128);
        i = i + 1;
        assert(fkeys@ =~= file_keys(es).take(i as int));
    }
    assert(fkeys@ =~= file_keys(es));
    let forder = stable_desc_order(&fkeys, LARGEST_FILES_SHOWN);
    let mut largest_files: Vec<ApkFileEntry> = Vec::new();
    let mut k: usize = 0;
    while k < forder.len()
        invariant
            k <= forder.len(),
            es == entry_views(entries@),
            fkeys@ == file_keys(es),
            is_desc_ranking_prefix(fkeys@, forder@),
            largest_files.len() == k,
            forall|q: int| 0 <= q < k ==> file_view(#[trigger] largest_files[q]) == es[forder[q] as int],
        decreases forder.len() - k,
    {
        let t = forder[k];
        assert(forder@[k as int] < fkeys@.len());
        largest_files.push(ApkFileEntry { path: entries[t].0.clone(), size: entries[t].1 });
        k = k + 1;
    }
    Some(
        ApkBreakdownResult {
            apk_file_name: file_name.to_string(),
            total_size: apk_size,
            categories,
            native_libs,
            largest_files,
        },
    )
}

/// Breaks an APK down by what its entries are. `entries` are the files of the APK with
/// their compressed sizes, `apk_size` the size of the APK file. The categories that
/// hold a file come largest first (equal sizes in category order), each with its bytes
/// and number of files; the native libraries are added up by architecture, largest
/// first (equal sizes in the order the architectures first occur); the five largest
/// files come largest first (equal sizes in entry order).
pub fn analyse_apk(entries: Vec<(String, u64)>, apk_size: u64, file_name: &str) -> (res:
    ApkBreakdownResult)
    requires
        category_sizes_fit(entry_views(entries@)),
    ensures
        is_apk_breakdown(res, entry_views(entries@), apk_size, file_name@),
{
    let ghost es = entry_views(entries@);
    match analyse_apk_checked(entries, apk_size, file_name) {
        Some(r) => r,
        None => {
            assert(false);
            ApkBreakdownResult {
                apk_file_name: String::new(),
                total_size: 0,
                categories: Vec::new(),
                native_libs: Vec::new(),
                largest_files: Vec::new(),
            }
        },
    }
}

/// The bytes of category rows, added up.
pub open spec fn rows_bytes(rows: Seq<(Seq<char>, nat, nat)>) -> nat
    decreases rows.len(),
{
    if rows.len() == 0 {
        0
    } else {
        rows_bytes(rows.drop_last()) + rows.last().1
    }
}

/// The file counts of category rows, added up.
pub open spec fn rows_files(rows: Seq<(Seq<char>, nat, nat)>) -> nat
    decreases rows.len(),
{
    if rows.len() == 0 {
        0
    } else {
        rows_files(rows.drop_last()) + rows.last().2
    }
}

/// The bytes of architecture rows, added up.
pub open spec fn arch_rows_bytes(rows: Seq<(Seq<char>, nat)>) -> nat
    decreases rows.len(),
{
    if rows.len() == 0 {
        0
    } else {
        arch_rows_bytes(rows.drop_last()) + rows.last().1
    }
}

/// The bytes and files of the categories `0..c`.
spec fn categories_bytes_upto(es: Seq<(Seq<char>, u64)>, c: nat) -> nat
    decreases c,
{
    if c == 0 {
        0
    } else {
        categories_bytes_upto(es, (c - 1) as nat) + category_size(es, (c - 1) as nat)
    }
}

spec fn categories_files_upto(es: Seq<(Seq<char>, u64)>, c: nat) -> nat
    decreases c,
{
    if c == 0 {
        0
    } else {
        categories_files_upto(es, (c - 1) as nat) + category_count(es, (c - 1) as nat)
    }
}

proof fn lemma_empty_category(es: Seq<(Seq<char>, u64)>, c: nat)
    requires
        category_count(es, c) == 0,
    ensures
        category_size(es, c) == 0,
    decreases es.len(),
{
    if es.len() > 0 {
        lemma_empty_category(es.drop_last(), c);
    }
}

proof fn lemma_rows_upto(es: Seq<(Seq<char>, u64)>, c: nat)
    ensures
        rows_bytes(category_rows_upto(es, c)) == categories_bytes_upto(es, c),
        rows_files(category_rows_upto(es, c)) == categories_files_upto(es, c),
    decreases c,
{
    if c > 0 {
        let k = (c - 1) as nat;
        lemma_rows_upto(es, k);
        let prev = category_rows_upto(es, k);
        if category_count(es, k) > 0 {
            let row = (category_name(k), category_size(es, k), category_count(es, k));
            assert(category_rows_upto(es, c) == prev + seq![row]);
            assert((prev + seq![row]).drop_last() =~= prev);
        } else {
            lemma_empty_category(es, k);
            assert(category_rows_upto(es, c) =~= prev);
        }
    }
}

proof fn lemma_categories_partition(es: Seq<(Seq<char>, u64)>, c: nat)
    requires
        c <= CATEGORY_COUNT,
    ensures
        categories_bytes_upto(es, c) == category_bytes_below(es, c),
        categories_files_upto(es, c) == category_files_below(es, c),
    decreases c,
{
    if c > 0 {
        lemma_categories_partition(es, (c - 1) as nat);
        lemma_category_below_step(es, (c - 1) as nat);
    } else {
        lemma_category_below_zero(es);
    }
}

proof fn lemma_category_below_zero(es: Seq<(Seq<char>, u64)>)
    ensures
        category_bytes_below(es, 0) == 0,
        category_files_below(es, 0) == 0,
    decreases es.len(),
{
    if es.len() > 0 {
        lemma_category_below_zero(es.drop_last());
    }
}

/// The bytes and files of the entries whose category comes before `c`.
spec fn category_bytes_below(es: Seq<(Seq<char>, u64)>, c: nat) -> nat
    decreases es.len(),
{
    if es.len() == 0 {
        0
    } else {
        category_bytes_below(es.drop_last(), c) + if category_index(es.last().0) < c {
            es.last().1 as nat
        } else {
            0
        }
    }
}

spec fn category_files_below(es: Seq<(Seq<char>, u64)>, c: nat) -> nat
    decreases es.len(),
{
    if es.len() == 0 {
        0
    } else {
        category_files_below(es.drop_last(), c) + if category_index(es.last().0) < c {
            1nat
        } else {
            0nat
        }
    }
}

proof fn lemma_category_below_step(es: Seq<(Seq<char>, u64)>, c: nat)
    ensures
        category_bytes_below(es, c + 1) == category_bytes_below(es, c) + category_size(es, c),
        category_files_below(es, c + 1) == category_files_below(es, c) + category_count(es, c),
    decreases es.len(),
{
    if es.len() > 0 {
        lemma_category_below_step(es.drop_last(), c);
    }
}

proof fn lemma_all_categories(es: Seq<(Seq<char>, u64)>)
    ensures
        category_bytes_below(es, CATEGORY_COUNT as nat) == total_bytes(es),
        category_files_below(es, CATEGORY_COUNT as nat) == es.len(),
    decreases es.len(),
{
    if es.len() > 0 {
        lemma_all_categories(es.drop_last());
    }
}

/// The categories split the APK's entries: their bytes add up to the bytes of all
/// entries, and their file counts to the number of entries.
pub proof fn law_categories_partition_entries(es: Seq<(Seq<char>, u64)>)
    ensures
        rows_bytes(category_rows(es)) == total_bytes(es),
        rows_files(category_rows(es)) == es.len(),
{
    lemma_rows_upto(es, CATEGORY_COUNT as nat);
    lemma_categories_partition(es, CATEGORY_COUNT as nat);
    lemma_all_categories(es);
}

/// The sum of `arch_size(es, a)` over the architectures `a` of `names`.
spec fn arch_sum(es: Seq<(Seq<char>, u64)>, names: Seq<Seq<char>>) -> nat
    decreases names.len(),
{
    if names.len() == 0 {
        0
    } else {
        arch_sum(es, names.drop_last()) + arch_size(es, names.last())
    }
}

proof fn lemma_arch_rows_bytes(es: Seq<(Seq<char>, u64)>, names: Seq<Seq<char>>)
    ensures
        arch_rows_bytes(names.map_values(|a: Seq<char>| (a, arch_size(es, a)))) == arch_sum(es, names),
    decreases names.len(),
{
    if names.len() > 0 {
        lemma_arch_rows_bytes(es, names.drop_last());
        assert(names.map_values(|a: Seq<char>| (a, arch_size(es, a))).drop_last() =~= names.drop_last().map_values(
            |a: Seq<char>| (a, arch_size(es, a)),
        ));
    }
}

/// Adding one entry to the APK adds its bytes to the sum over `names` exactly when its
/// architecture is one of `names`.
proof fn lemma_arch_sum_step(es: Seq<(Seq<char>, u64)>, names: Seq<Seq<char>>)
    requires
        es.len() > 0,
        names.no_duplicates(),
    ensures
        arch_sum(es, names) == arch_sum(es.drop_last(), names) + match arch_of(es.last().0) {
            Some(a) => if names.contains(a) {
                es.last().1 as nat
            } else {
                0
            },
            None => 0,
        },
    decreases names.len(),
{
    if names.len() > 0 {
        let prev = names.drop_last();
        assert(prev.no_duplicates()) by {
            assert forall|x: int, y: int| 0 <= x < prev.len() && 0 <= y < prev.len() && x != y implies prev[x]
                != prev[y] by {
                assert(prev[x] == names[x] && prev[y] == names[y]);
            }
        }
        lemma_arch_sum_step(es, prev);
        match arch_of(es.last().0) {
            Some(a) => {
                if prev.contains(a) {
                    let k = choose|k: int| 0 <= k < prev.len() && prev[k] == a;
                    assert(names[k] == a);
                    assert(names.contains(a));
                    if names.last() == a {
                        assert(names[names.len() - 1] == names[k]);
                    }
                } else if names.last() == a {
                    assert(names[names.len() - 1] == a);
                } else if names.contains(a) {
                    let k = choose|k: int| 0 <= k < names.len() && names[k] == a;
                    assert(k != names.len() - 1);
                    assert(prev[k] == a);
                }
            },
            None => {},
        }
    }
}

proof fn lemma_arch_sum_absent(es: Seq<(Seq<char>, u64)>, names: Seq<Seq<char>>, a: Seq<char>)
    requires
        arch_size(es, a) == 0,
    ensures
        arch_sum(es, names.push(a)) == arch_sum(es, names),
{
    assert(names.push(a).drop_last() =~= names);
}

proof fn lemma_arch_total(es: Seq<(Seq<char>, u64)>)
    ensures
        arch_sum(es, arch_names(es)) == category_size(es, 0),
    decreases es.len(),
{
    if es.len() > 0 {
        let prev_es = es.drop_last();
        lemma_arch_total(prev_es);
        lemma_arch_names_distinct(es);
        lemma_arch_names_distinct(prev_es);
        let prev = arch_names(prev_es);
        let cur = arch_names(es);
        lemma_arch_sum_step(es, cur);
        reveal_strlit("lib/");
        match arch_of(es.last().0) {
            Some(a) => {
                if !prev.contains(a) {
                    lemma_arch_absent(prev_es, a);
                    lemma_arch_sum_absent(prev_es, prev, a);
                }
                assert(cur.contains(a)) by {
                    if prev.contains(a) {
                    } else {
                        assert(cur[prev.len() as int] == a);
                    }
                }
            },
            None => {},
        }
    }
}

/// The native libraries by architecture add up to the native library category.
pub proof fn law_native_libs_add_up(es: Seq<(Seq<char>, u64)>)
    ensures
        arch_rows_bytes(arch_rows(es)) == category_size(es, 0),
{
    lemma_arch_rows_bytes(es, arch_names(es));
    lemma_arch_total(es);
}

} // verus!
