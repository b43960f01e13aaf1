use vstd::prelude::*;
use crate::models::pubspec_model::UnusedAssetInfo;
use crate::text::{chars_eq, contains, contains_chars, law_contains_finds_any_occurrence, str_chars};

verus! {

/// An asset as plain values: file name and path relative to the project root.
pub open spec fn asset_view(a: UnusedAssetInfo) -> (Seq<char>, Seq<char>) {
    (a.name@, a.path@)
}

/// A sequence of assets as plain values.
pub open spec fn asset_views(s: Seq<UnusedAssetInfo>) -> Seq<(Seq<char>, Seq<char>)> {
    s.map_values(|a: UnusedAssetInfo| asset_view(a))
}

/// The position of the first asset named `name`.
pub open spec fn position_of(p: Seq<(Seq<char>, Seq<char>)>, name: Seq<char>) -> Option<int>
    decreases p.len(),
{
    if p.len() == 0 {
        None
    } else {
        match position_of(p.drop_last(), name) {
            Some(k) => Some(k),
            None => if p.last().0 == name {
                Some(p.len() - 1)
            } else {
                None
            },
        }
    }
}

/// Assets are tracked by file name: declaring one whose name is tracked already takes
/// over the place of the earlier one.
pub open spec fn declare(p: Seq<(Seq<char>, Seq<char>)>, a: (Seq<char>, Seq<char>)) -> Seq<
    (Seq<char>, Seq<char>),
> {
    match position_of(p, a.0) {
        Some(k) => p.update(k, a),
        None => p.push(a),
    }
}

/// The assets tracked after declaring `assets` in order.
pub open spec fn pending_of(assets: Seq<(Seq<char>, Seq<char>)>) -> Seq<(Seq<char>, Seq<char>)>
    decreases assets.len(),
{
    if assets.len() == 0 {
        seq![]
    } else {
        declare(pending_of(assets.drop_last()), assets.last())
    }
}

/// The tracked assets whose file name `content` does not mention.
pub open spec fn remaining(p: Seq<(Seq<char>, Seq<char>)>, content: Seq<char>) -> Seq<(Seq<char>, Seq<char>)>
    decreases p.len(),
{
    if p.len() == 0 {
        seq![]
    } else {
        remaining(p.drop_last(), content) + if contains(content, p.last().0) {
            seq![]
        } else {
            seq![p.last()]
        }
    }
}

/// No two tracked assets share a file name.
pub open spec fn names_distinct(p: Seq<(Seq<char>, Seq<char>)>) -> bool {
    forall|i: int, j: int| 0 <= i < j < p.len() ==> #[trigger] p[i].0 != #[trigger] p[j].0
}

/// The extensions of the project files that are searched for asset names.
pub open spec fn scan_extensions() -> Seq<Seq<char>> {
    seq!["dart"@, "yaml"@, "yml"@, "xml"@, "json"@, "gradle"@, "plist"@, "html"@]
}

/// The declared assets that no scanned project file has mentioned yet, each file name
/// once.
pub struct AssetScan {
    pending: Vec<UnusedAssetInfo>,
}

impl View for AssetScan {
    type V = Seq<(Seq<char>, Seq<char>)>;

    closed spec fn view(&self) -> Seq<(Seq<char>, Seq<char>)> {
        asset_views(self.pending@)
    }
}

proof fn lemma_position_of(p: Seq<(Seq<char>, Seq<char>)>, name: Seq<char>)
    ensures
        match position_of(p, name) {
            Some(k) => 0 <= k < p.len() && p[k].0 == name && forall|j: int| 0 <= j < k ==> (#[trigger] p[j]).0 != name,
            None => forall|j: int| 0 <= j < p.len() ==> (#[trigger] p[j]).0 != name,
        },
    decreases p.len(),
{
    if p.len() > 0 {
        lemma_position_of(p.drop_last(), name);
        match position_of(p.drop_last(), name) {
            Some(k) => {
                assert(p[k] == p.drop_last()[k]);
                assert forall|j: int| 0 <= j < k implies (#[trigger] p[j]).0 != name by {
                    assert(p[j] == p.drop_last()[j]);
                }
            },
            None => {
                assert forall|j: int| 0 <= j < p.len() - 1 implies (#[trigger] p[j]).0 != name by {
                    assert(p[j] == p.drop_last()[j]);
                }
            },
        }
    }
}

proof fn lemma_declare_distinct(p: Seq<(Seq<char>, Seq<char>)>, a: (Seq<char>, Seq<char>))
    requires
        names_distinct(p),
    ensures
        names_distinct(declare(p, a)),
{
    lemma_position_of(p, a.0);
    let q = declare(p, a);
    assert forall|i: int, j: int| 0 <= i < j < q.len() implies #[trigger] q[i].0 != #[trigger] q[j].0 by {
        match position_of(p, a.0) {
            Some(k) => {
                if i != k && j != k {
                    assert(q[i] == p[i] && q[j] == p[j]);
                } else if i == k {
                    assert(q[j] == p[j]);
                    assert(p[k].0 == a.0);
                } else {
                    assert(q[i] == p[i]);
                    assert(p[k].0 == a.0);
                }
            },
            None => {
                if j < p.len() {
                    assert(q[i] == p[i] && q[j] == p[j]);
                } else {
                    assert(q[i] == p[i]);
                }
            },
        }
    }
}

proof fn lemma_remaining_distinct(p: Seq<(Seq<char>, Seq<char>)>, content: Seq<char>)
    requires
        names_distinct(p),
    ensures
        names_distinct(remaining(p, content)),
        forall|x: (Seq<char>, Seq<char>)| #[trigger] remaining(p, content).contains(x) ==> p.contains(x),
    decreases p.len(),
{
    if p.len() > 0 {
        let prev = p.drop_last();
        assert(names_distinct(prev)) by {
            assert forall|i: int, j: int| 0 <= i < j < prev.len() implies #[trigger] prev[i].0
                != #[trigger] prev[j].0 by {
                assert(prev[i] == p[i] && prev[j] == p[j]);
            }
        }
        lemma_remaining_distinct(prev, content);
        let r = remaining(prev, content);
        assert forall|x: (Seq<char>, Seq<char>)| #[trigger] remaining(p, content).contains(x) implies p.contains(x) by {
            if r.contains(x) {
                assert(prev.contains(x));
                let k = choose|k: int| 0 <= k < prev.len() && prev[k] == x;
                assert(p[k] == x);
            } else {
                let q = remaining(p, content);
                let k = choose|k: int| 0 <= k < q.len() && q[k] == x;
                if k < r.len() {
                    assert(q[k] == r[k]);
                    assert(r.contains(x));
                }
                assert(x == p.last());
                assert(p[p.len() - 1] == x);
            }
        }
        if !contains(content, p.last().0) {
            let q = r.push(p.last());
            assert(remaining(p, content) == q);
            assert forall|i: int, j: int| 0 <= i < j < q.len() implies #[trigger] q[i].0 != #[trigger] q[j].0 by {
                if j < r.len() {
                    assert(q[i] == r[i] && q[j] == r[j]);
                } else {
                    assert(q[i] == r[i]);
                    assert(r.contains(r[i]));
                    assert(prev.contains(r[i]));
                    let k = choose|k: int| 0 <= k < prev.len() && prev[k] == r[i];
                    assert(p[k] == prev[k]);
                    assert(p[k].0 != p[p.len() - 1].0);
                }
            }
        } else {
            assert(remaining(p, content) =~= r);
        }
    }
}

impl AssetScan {
    #[verifier::type_invariant]
    spec fn inv(self) -> bool {
        names_distinct(asset_views(self.pending@))
    }

    /// Starts a scan for the declared asset files `assets` (file name and relative path),
    /// tracked by file name: of assets that share a file name, the last one stays.
    pub fn new(assets: &Vec<UnusedAssetInfo>) -> (res: Self)
        ensures
            res@ == pending_of(asset_views(assets@)),
            names_distinct(res@),
    {
        let mut pending: Vec<UnusedAssetInfo> = Vec::new();
        let mut i: usize = 0;
        while i < assets.len()
            invariant
                i <= assets.len(),
                asset_views(pending@) == pending_of(asset_views(assets@.take(i as int))),
                names_distinct(asset_views(pending@)),
            decreases assets.len() - i,
        {
            let ghost before = asset_views(pending@);
            let ghost a = asset_view(assets@[i as int]);
            assert(asset_views(assets@.take(i + 1)).drop_last() =~= asset_views(assets@.take(i as int)));
            assert(asset_views(assets@.take(i + 1)).last() == a);
            proof {
                lemma_position_of(before, a.0);
                lemma_declare_distinct(before, a);
            }
            let mut k: usize = 0;
            while k < pending.len() && pending[k].name != assets[i].name
                invariant
                    i < assets.len(),
                    k <= pending.len(),
                    before == asset_views(pending@),
                    forall|j: int| 0 <= j < k ==> (#[trigger] pending@[j]).name@ != assets@[i as int].name@,
                decreases pending.len() - k,
            {
                k = k + 1;
            }
            let entry = UnusedAssetInfo { name: assets[i].name.clone(), path: assets[i].path.clone() };
            if k < pending.len() {
                assert forall|j: int| 0 <= j < k implies (#[trigger] before[j]).0 != a.0 by {
                    assert(before[j] == asset_view(pending@[j]));
                }
                assert(before[k as int] == asset_view(pending@[k as int]));
                assert(position_of(before, a.0) == Some(k as int));
                pending.set(k, entry);
                assert(asset_views(pending@) =~= before.update(k as int, a));
            } else {
                assert forall|j: int| 0 <= j < before.len() implies (#[trigger] before[j]).0 != a.0 by {
                    assert(before[j] == asset_view(pending@[j]));
                }
                assert(position_of(before, a.0) is None) by {
                    if position_of(before, a.0) is Some {
                        let q = position_of(before, a.0)->0;
                        assert(before[q].0 == a.0);
                    }
                }
                pending.push(entry);
                assert(asset_views(pending@) =~= before.push(a));
            }
            i = i + 1;
        }
        assert(assets@.take(assets.len() as int) =~= assets@);
        AssetScan { pending }
    }

    /// Whether every declared asset has been found: the scan can stop.
    pub fn is_done(&self) -> (res: bool)
        ensures
            res == (self@.len() == 0),
    {
        self.pending.len() == 0
    }

    /// Takes in the content of one scanned project file: the assets whose file name it
    /// mentions are found.
    pub fn record_file(&mut self, content: &str)
        ensures
            final(self)@ == remaining(old(self)@, content@),
    {
        proof {
            use_type_invariant(&*self);
        }
        let cc = str_chars(content);
        let ghost p = asset_views(self.pending@);
        let mut kept: Vec<UnusedAssetInfo> = Vec::new();
        let mut i: usize = 0;
        while i < self.pending.len()
            invariant
                cc@ == content@,
                p == asset_views(self.pending@),
                i <= self.pending.len(),
                asset_views(kept@) == remaining(p.take(i as int), content@),
            decreases self.pending.len() - i,
        {
            assert(p.take(i + 1).drop_last() =~= p.take(i as int));
            assert(p.take(i + 1).last() == asset_view(self.pending@[i as int]));
            let ghost before = asset_views(kept@);
            if !contains_chars(&cc, &str_chars(self.pending[i].name.as_str())) {
                kept.push(UnusedAssetInfo { name: self.pending[i].name.clone(), path: self.pending[i].path.clone() });
                assert(asset_views(kept@) =~= before.push(asset_view(self.pending@[i as int])));
            } else {
                assert(asset_views(kept@) =~= before);
            }
            i = i + 1;
        }
        assert(p.take(p.len() as int) =~= p);
        proof {
            lemma_remaining_distinct(p, content@);
        }
        self.pending = kept;
    }

    /// The assets that no scanned file mentions.
    pub fn into_unused(self) -> (res: Vec<UnusedAssetInfo>)
        ensures
            asset_views(res@) == self@,
    {
        proof {
            use_type_invariant(&self);
        }
        let AssetScan { pending } = self;
        pending
    }
}

/// Whether project files with extension `ext` are searched for asset names: Dart
/// sources, YAML, XML, JSON, Gradle, property lists and HTML.
pub fn is_scannable_extension(ext: &str) -> (res: bool)
    ensures
        res == scan_extensions().contains(ext@),
{
    let e = str_chars(ext);
    let exts = ["dart", "yaml", "yml", "xml", "json", "gradle", "plist", "html"];
    let mut i: usize = 0;
    while i < 8
        invariant
            e@ == ext@,
            i <= 8,
            exts@.map_values(|s: &str| s@) == scan_extensions(),
            forall|j: int| 0 <= j < i ==> scan_extensions()[j] != ext@,
        decreases 8 - i,
    {
        if chars_eq(&e, &str_chars(exts[i])) {
            assert(scan_extensions()[i as int] == ext@);
            return true;
        }
        i = i + 1;
    }
    false
}

/// The tracked assets that neither `c1` nor `c2` mentions.
spec fn remaining_both(p: Seq<(Seq<char>, Seq<char>)>, c1: Seq<char>, c2: Seq<char>) -> Seq<
    (Seq<char>, Seq<char>),
>
    decreases p.len(),
{
    if p.len() == 0 {
        seq![]
    } else {
        remaining_both(p.drop_last(), c1, c2) + if contains(c1, p.last().0) || contains(c2, p.last().0) {
            seq![]
        } else {
            seq![p.last()]
        }
    }
}

proof fn lemma_remaining_twice(p: Seq<(Seq<char>, Seq<char>)>, c1: Seq<char>, c2: Seq<char>)
    ensures
        remaining(remaining(p, c1), c2) == remaining_both(p, c1, c2),
    decreases p.len(),
{
    if p.len() > 0 {
        let prev = p.drop_last();
        lemma_remaining_twice(prev, c1, c2);
        let r = remaining(prev, c1);
        if !contains(c1, p.last().0) {
            assert(remaining(p, c1) == r.push(p.last()));
            assert(r.push(p.last()).drop_last() =~= r);
            if contains(c2, p.last().0) {
                assert(remaining(remaining(p, c1), c2) =~= remaining(r, c2));
            }
        } else {
            assert(remaining(p, c1) =~= r);
        }
        assert(remaining(remaining(p, c1), c2) =~= remaining_both(p, c1, c2));
    }
}

proof fn lemma_remaining_both_symmetric(p: Seq<(Seq<char>, Seq<char>)>, c1: Seq<char>, c2: Seq<char>)
    ensures
        remaining_both(p, c1, c2) == remaining_both(p, c2, c1),
    decreases p.len(),
{
    if p.len() > 0 {
        lemma_remaining_both_symmetric(p.drop_last(), c1, c2);
    }
}

proof fn lemma_remaining_contents(p: Seq<(Seq<char>, Seq<char>)>, c: Seq<char>)
    ensures
        forall|x: (Seq<char>, Seq<char>)| #[trigger] remaining(p, c).contains(x) <==> p.contains(x) && !contains(c, x.0),
    decreases p.len(),
{
    if p.len() > 0 {
        let prev = p.drop_last();
        lemma_remaining_contents(prev, c);
        let r = remaining(prev, c);
        let q = remaining(p, c);
        assert forall|x: (Seq<char>, Seq<char>)| #[trigger] q.contains(x) <==> p.contains(x) && !contains(c, x.0) by {
            if q.contains(x) {
                let k = choose|k: int| 0 <= k < q.len() && q[k] == x;
                if k < r.len() {
                    assert(q[k] == r[k]);
                    assert(r.contains(x));
                    let m = choose|m: int| 0 <= m < prev.len() && prev[m] == x;
                    assert(p[m] == x);
                } else {
                    assert(x == p.last());
                    assert(p[p.len() - 1] == x);
                }
            }
            if p.contains(x) && !contains(c, x.0) {
                let k = choose|k: int| 0 <= k < p.len() && p[k] == x;
                if k < p.len() - 1 {
                    assert(prev[k] == x);
                    assert(r.contains(x));
                    let m = choose|m: int| 0 <= m < r.len() && r[m] == x;
                    assert(q[m] == x);
                } else {
                    assert(q[q.len() - 1] == x);
                }
            }
        }
    }
}

/// The unused assets do not depend on the order in which project files are scanned.
pub proof fn law_scan_order_irrelevant(p: Seq<(Seq<char>, Seq<char>)>, c1: Seq<char>, c2: Seq<char>)
    ensures
        remaining(remaining(p, c1), c2) == remaining(remaining(p, c2), c1),
{
    lemma_remaining_twice(p, c1, c2);
    lemma_remaining_twice(p, c2, c1);
    lemma_remaining_both_symmetric(p, c1, c2);
}

/// Scanning the same content twice finds nothing more.
pub proof fn law_rescan_finds_nothing(p: Seq<(Seq<char>, Seq<char>)>, c: Seq<char>)
    ensures
        remaining(remaining(p, c), c) == remaining(p, c),
    decreases p.len(),
{
    if p.len() > 0 {
        let prev = p.drop_last();
        law_rescan_finds_nothing(prev, c);
        let r = remaining(prev, c);
        if !contains(c, p.last().0) {
            assert(remaining(p, c) =~= r.push(p.last()));
            assert(r.push(p.last()).drop_last() =~= r);
            assert(remaining(r.push(p.last()), c) =~= remaining(r, c).push(p.last()));
        } else {
            assert(remaining(p, c) =~= r);
        }
    }
}

/// An asset stays pending after a scanned file exactly when the file does not mention
/// its file name.
pub proof fn law_pending_after_scan(p: Seq<(Seq<char>, Seq<char>)>, c: Seq<char>, x: (Seq<char>, Seq<char>))
    ensures
        remaining(p, c).contains(x) <==> p.contains(x) && !contains(c, x.0),
{
    lemma_remaining_contents(p, c);
}

/// The position of the last declared asset named `name`.
pub open spec fn last_declared(assets: Seq<(Seq<char>, Seq<char>)>, name: Seq<char>) -> Option<int>
    decreases assets.len(),
{
    if assets.len() == 0 {
        None
    } else if assets.last().0 == name {
        Some(assets.len() - 1)
    } else {
        last_declared(assets.drop_last(), name)
    }
}

proof fn lemma_pending_distinct(assets: Seq<(Seq<char>, Seq<char>)>)
    ensures
        names_distinct(pending_of(assets)),
    decreases assets.len(),
{
    if assets.len() > 0 {
        lemma_pending_distinct(assets.drop_last());
        lemma_declare_distinct(pending_of(assets.drop_last()), assets.last());
    }
}

proof fn lemma_last_declared_bounds(assets: Seq<(Seq<char>, Seq<char>)>, name: Seq<char>)
    ensures
        last_declared(assets, name) matches Some(i) ==> 0 <= i < assets.len() && assets[i].0 == name,
    decreases assets.len(),
{
    if assets.len() > 0 && assets.last().0 != name {
        lemma_last_declared_bounds(assets.drop_last(), name);
        if let Some(i) = last_declared(assets.drop_last(), name) {
            assert(assets.drop_last()[i] == assets[i]);
        }
    }
}

/// Assets are tracked by file name, and the last declaration of a name wins: the scan
/// tracks `(name, path)` exactly when the last asset declared under `name` has `path`.
pub proof fn law_last_declaration_wins(
    assets: Seq<(Seq<char>, Seq<char>)>,
    name: Seq<char>,
    path: Seq<char>,
)
    ensures
        pending_of(assets).contains((name, path)) <==> (last_declared(assets, name) matches Some(i)
            && assets[i].1 == path),
    decreases assets.len(),
{
    lemma_last_declared_bounds(assets, name);
    if assets.len() > 0 {
        let prev_assets = assets.drop_last();
        let a = assets.last();
        let p = pending_of(prev_assets);
        let q = pending_of(assets);
        law_last_declaration_wins(prev_assets, name, path);
        lemma_last_declared_bounds(prev_assets, name);
        lemma_pending_distinct(prev_assets);
        lemma_position_of(p, a.0);
        assert(q == declare(p, a));
        match position_of(p, a.0) {
            Some(k) => {
                assert(q == p.update(k, a));
                if q.contains((name, path)) {
                    let j = choose|j: int| 0 <= j < q.len() && q[j] == (name, path);
                    if j != k {
                        assert(p[j] == (name, path));
                        assert(p.contains((name, path)));
                        if name == a.0 {
                            assert(p[j].0 == p[k].0);
                            assert(false);
                        }
                    }
                }
                if name == a.0 {
                    if path == a.1 {
                        assert(q[k] == (name, path));
                    }
                } else if p.contains((name, path)) {
                    let j = choose|j: int| 0 <= j < p.len() && p[j] == (name, path);
                    assert(j != k);
                    assert(q[j] == (name, path));
                }
            },
            None => {
                assert(q == p.push(a));
                if q.contains((name, path)) {
                    let j = choose|j: int| 0 <= j < q.len() && q[j] == (name, path);
                    if j < p.len() {
                        assert(p[j] == (name, path));
                        assert(p.contains((name, path)));
                    }
                }
                if name == a.0 {
                    if path == a.1 {
                        assert(q[p.len() as int] == (name, path));
                    }
                    if p.contains((name, path)) {
                        let j = choose|j: int| 0 <= j < p.len() && p[j] == (name, path);
                        assert(p[j].0 == a.0);
                    }
                } else if p.contains((name, path)) {
                    let j = choose|j: int| 0 <= j < p.len() && p[j] == (name, path);
                    assert(q[j] == (name, path));
                }
            },
        }
    }
}

/// The tracked assets left after scanning the contents `files` in order.
pub open spec fn remaining_after(p: Seq<(Seq<char>, Seq<char>)>, files: Seq<Seq<char>>) -> Seq<
    (Seq<char>, Seq<char>),
>
    decreases files.len(),
{
    if files.len() == 0 {
        p
    } else {
        remaining(remaining_after(p, files.drop_last()), files.last())
    }
}

/// An asset is still unused after a walk exactly when it was declared and no scanned
/// file mentions its file name.
pub proof fn law_unused_after_walk(
    p: Seq<(Seq<char>, Seq<char>)>,
    files: Seq<Seq<char>>,
    x: (Seq<char>, Seq<char>),
)
    ensures
        remaining_after(p, files).contains(x) <==> p.contains(x) && forall|k: int|
            0 <= k < files.len() ==> !contains(#[trigger] files[k], x.0),
    decreases files.len(),
{
    if files.len() > 0 {
        let prev = files.drop_last();
        law_unused_after_walk(p, prev, x);
        law_pending_after_scan(remaining_after(p, prev), files.last(), x);
        if p.contains(x) && forall|k: int| 0 <= k < files.len() ==> !contains(#[trigger] files[k], x.0) {
            assert forall|k: int| 0 <= k < prev.len() implies !contains(#[trigger] prev[k], x.0) by {
                assert(prev[k] == files[k]);
            }
            assert(!contains(files[files.len() - 1], x.0));
        }
        if remaining_after(p, files).contains(x) {
            assert forall|k: int| 0 <= k < files.len() implies !contains(#[trigger] files[k], x.0) by {
                if k < prev.len() {
                    assert(prev[k] == files[k]);
                }
            }
        }
    }
}

/// Scanning more project files can only take assets off the unused list: when every
/// content of `fewer` is also among `more`, what stays unused after `more` stays unused
/// after `fewer`.
pub proof fn law_more_files_fewer_unused(
    p: Seq<(Seq<char>, Seq<char>)>,
    fewer: Seq<Seq<char>>,
    more: Seq<Seq<char>>,
    x: (Seq<char>, Seq<char>),
)
    requires
        forall|k: int| 0 <= k < fewer.len() ==> more.contains(#[trigger] fewer[k]),
    ensures
        remaining_after(p, more).contains(x) ==> remaining_after(p, fewer).contains(x),
{
    law_unused_after_walk(p, more, x);
    law_unused_after_walk(p, fewer, x);
    if remaining_after(p, more).contains(x) {
        assert forall|k: int| 0 <= k < fewer.len() implies !contains(#[trigger] fewer[k], x.0) by {
            let j = choose|j: int| 0 <= j < more.len() && more[j] == fewer[k];
            assert(!contains(more[j], x.0));
        }
    }
}

/// The directories the search for asset references leaves out: build output, tool
/// state and version control.
pub open spec fn skipped_dirs() -> Seq<Seq<char>> {
    seq!["build"@, ".dart_tool"@, ".git"@, "target"@, ".idea"@, ".vscode"@]
}

/// Whether the search for asset references leaves out a directory named `name`:
/// `build`, `.dart_tool`, `.git`, `target`, `.idea` or `.vscode`.
pub fn is_skipped_dir(name: &str) -> (res: bool)
    ensures
        res == skipped_dirs().contains(name@),
{
    let n = str_chars(name);
    let dirs = ["build", ".dart_tool", ".git", "target", ".idea", ".vscode"];
    let mut i: usize = 0;
    while i < 6
        invariant
            n@ == name@,
            i <= 6,
            dirs@.map_values(|s: &str| s@) == skipped_dirs(),
            forall|j: int| 0 <= j < i ==> skipped_dirs()[j] != name@,
        decreases 6 - i,
    {
        if chars_eq(&n, &str_chars(dirs[i])) {
            assert(skipped_dirs()[i as int] == name@);
            return true;
        }
        i = i + 1;
    }
    false
}

/// A scanned file that mentions an asset's file name anywhere in its content takes
/// that asset off the unused list.
pub proof fn law_mentioned_asset_is_found(
    p: Seq<(Seq<char>, Seq<char>)>,
    before: Seq<char>,
    after: Seq<char>,
    x: (Seq<char>, Seq<char>),
)
    ensures
        !remaining(p, before + x.0 + after).contains(x),
{
    law_contains_finds_any_occurrence(before, x.0, after);
    law_pending_after_scan(p, before + x.0 + after, x);
}

} // verus!
