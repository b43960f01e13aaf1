use vstd::prelude::*;
use crate::analysers::asset_analyser::{format_size, size_text};
use crate::analysers::dep_analyser::str_views;
use crate::models::dep_model::{DepGraphResult, DepPackageInfo};
use crate::order::{is_desc_ranking_prefix, stable_desc_order};
use crate::text::{chars_eq, decimal, push_decimal, push_str_chars, str_chars, string_from_chars};

verus! {

/// The width of the rules under the section titles.
pub const RULE_WIDTH: usize = 60;

/// How many packages the "most depended-on" and "heaviest" sections list.
pub const SECTION_LIMIT: usize = 10;

/// The rule under a section title.
pub open spec fn rule() -> Seq<char> {
    Seq::new(RULE_WIDTH as nat, |i: int| '─')
}

/// `s` padded with spaces on the right to `width` characters.
pub open spec fn pad_right(s: Seq<char>, width: nat) -> Seq<char> {
    if s.len() < width {
        s + Seq::new((width - s.len()) as nat, |i: int| ' ')
    } else {
        s
    }
}

/// `s` padded with spaces on the left to `width` characters.
pub open spec fn pad_left(s: Seq<char>, width: nat) -> Seq<char> {
    if s.len() < width {
        Seq::new((width - s.len()) as nat, |i: int| ' ') + s
    } else {
        s
    }
}

/// The tree connector of item `i` of `n`: the last one closes the branch.
pub open spec fn connector(i: int, n: int) -> Seq<char> {
    if i == n - 1 {
        "└─"@
    } else {
        "├─"@
    }
}

/// The position of the first package named `name`.
pub open spec fn first_named(ps: Seq<DepPackageInfo>, name: Seq<char>) -> Option<int>
    decreases ps.len(),
{
    if ps.len() == 0 {
        None
    } else if ps[0].name@ == name {
        Some(0)
    } else {
        match first_named(ps.drop_first(), name) {
            Some(k) => Some(k + 1),
            None => None,
        }
    }
}

/// The size shown next to a dependency: that of the first package of that name, or
/// `sdk` where the graph has none (a package of the SDK).
pub open spec fn dep_size_label(ps: Seq<DepPackageInfo>, dep: Seq<char>) -> Seq<char> {
    match first_named(ps, dep) {
        Some(k) => size_text(ps[k].size as nat),
        None => "sdk"@,
    }
}

/// The heading line of a package: name, version and size.
pub open spec fn package_heading(p: DepPackageInfo) -> Seq<char> {
    "  "@ + p.name@ + " v"@ + p.version@ + "  "@ + size_text(p.size as nat)
}

/// The tree of a package's dependencies, each with its size.
pub open spec fn dependency_tree(ps: Seq<DepPackageInfo>, deps: Seq<Seq<char>>) -> Seq<Seq<char>> {
    Seq::new(
        deps.len(),
        |i: int| "    "@ + connector(i, deps.len() as int) + " "@ + deps[i] + "  "@ + dep_size_label(ps, deps[i]),
    )
}

/// The lines of one package of a dependency section, closed by an empty line.
pub open spec fn package_block(ps: Seq<DepPackageInfo>, p: DepPackageInfo) -> Seq<Seq<char>> {
    seq![package_heading(p)] + dependency_tree(ps, str_views(p.dependencies@)) + seq![Seq::<char>::empty()]
}

/// The packages of dependency type `t`, in graph order.
pub open spec fn of_type(ps: Seq<DepPackageInfo>, t: Seq<char>) -> Seq<DepPackageInfo>
    decreases ps.len(),
{
    if ps.len() == 0 {
        seq![]
    } else {
        of_type(ps.drop_last(), t) + if ps.last().dep_type@ == t {
            seq![ps.last()]
        } else {
            seq![]
        }
    }
}

/// The blocks of the packages of `group`.
pub open spec fn package_blocks(ps: Seq<DepPackageInfo>, group: Seq<DepPackageInfo>) -> Seq<Seq<char>>
    decreases group.len(),
{
    if group.len() == 0 {
        seq![]
    } else {
        package_blocks(ps, group.drop_last()) + package_block(ps, group.last())
    }
}

/// A section of the packages of dependency type `t`, under `title` and their number;
/// nothing where there is no such package.
pub open spec fn type_section(
    ps: Seq<DepPackageInfo>,
    lead: Seq<Seq<char>>,
    title: Seq<char>,
    t: Seq<char>,
) -> Seq<Seq<char>> {
    let group = of_type(ps, t);
    if group.len() == 0 {
        seq![]
    } else {
        lead + seq!["  "@ + title + " ("@ + decimal(group.len()) + ")"@, Seq::<char>::empty()] + package_blocks(
            ps,
            group,
        )
    }
}

/// The packages that some package depends on, in graph order.
pub open spec fn with_dependents(ps: Seq<DepPackageInfo>) -> Seq<DepPackageInfo>
    decreases ps.len(),
{
    if ps.len() == 0 {
        seq![]
    } else {
        with_dependents(ps.drop_last()) + if ps.last().dependents.len() > 0 {
            seq![ps.last()]
        } else {
            seq![]
        }
    }
}

/// At most the first `n` items of `s`.
pub open spec fn first_n<A>(s: Seq<A>, n: nat) -> Seq<A> {
    if s.len() <= n {
        s
    } else {
        s.take(n as int)
    }
}

/// The lines of one depended-on package: its heading and the packages that pull it.
pub open spec fn depended_block(p: DepPackageInfo) -> Seq<Seq<char>> {
    let ds = str_views(p.dependents@);
    seq![
        Seq::<char>::empty(),
        "  "@ + p.name@ + " v"@ + p.version@ + "  ← pulled by "@ + decimal(ds.len()) + " packages"@,
    ] + Seq::new(ds.len(), |i: int| "    "@ + connector(i, ds.len() as int) + " "@ + ds[i])
}

/// The blocks of the depended-on packages of `top`.
pub open spec fn depended_blocks(top: Seq<DepPackageInfo>) -> Seq<Seq<char>>
    decreases top.len(),
{
    if top.len() == 0 {
        seq![]
    } else {
        depended_blocks(top.drop_last()) + depended_block(top.last())
    }
}

/// The section of the most depended-on packages: the first ten that some package
/// depends on, or a note that there is none.
pub open spec fn depended_section(ps: Seq<DepPackageInfo>) -> Seq<Seq<char>> {
    let top = first_n(with_dependents(ps), SECTION_LIMIT as nat);
    seq!["  Most Depended-On (pulled by other packages)"@, rule()] + if top.len() == 0 {
        seq!["  No dependency relationships found"@]
    } else {
        depended_blocks(top)
    }
}

/// The packages with a size, in graph order.
pub open spec fn sized(ps: Seq<DepPackageInfo>) -> Seq<DepPackageInfo>
    decreases ps.len(),
{
    if ps.len() == 0 {
        seq![]
    } else {
        sized(ps.drop_last()) + if ps.last().size > 0 {
            seq![ps.last()]
        } else {
            seq![]
        }
    }
}

/// The sizes by which the heaviest packages are ordered.
pub open spec fn size_keys(ps: Seq<DepPackageInfo>) -> Seq<u128> {
    ps.map_values(|p: DepPackageInfo| p.size as u128)
}

/// The line of one heavy package: name and version, then its size.
pub open spec fn heavy_line(p: DepPackageInfo) -> Seq<char> {
    "  "@ + pad_right(p.name@ + " v"@ + p.version@, 35) + " "@ + pad_left(size_text(p.size as nat), 10)
}

/// The section of the heaviest packages, the packages of `heavy` taken in `order`.
pub open spec fn heavy_section(heavy: Seq<DepPackageInfo>, order: Seq<usize>) -> Seq<Seq<char>> {
    seq![Seq::<char>::empty(), "  Heaviest Packages"@, rule()] + Seq::new(
        order.len(),
        |k: int| heavy_line(heavy[order[k] as int]),
    )
}

/// The summary of a dependency graph, line by line; `order` ranks the packages with a
/// size, heaviest first.
pub open spec fn dep_summary(r: DepGraphResult, order: Seq<usize>) -> Seq<Seq<char>> {
    let ps = r.packages@;
    seq![
        Seq::<char>::empty(),
        "Dependency Graph"@,
        rule(),
        "  Total packages: "@ + decimal(r.total_packages as nat) + "    Total size: "@ + size_text(
            r.total_size as nat,
        ),
        rule(),
    ] + type_section(ps, seq![Seq::<char>::empty()], "Direct Dependencies"@, "direct main"@)
        + type_section(ps, seq![], "Dev Dependencies"@, "direct dev"@) + depended_section(ps)
        + heavy_section(sized(ps), order)
}

/// Appends a line.
pub(crate) fn push_line(out: &mut Vec<String>, line: &Vec<char>)
    ensures
        str_views(final(out)@) == str_views(old(out)@).push(line@),
{
    let ghost before = out@;
    out.push(string_from_chars(line));
    assert(str_views(out@) =~= str_views(before).push(line@));
}

/// Appends the characters of a string.
pub(crate) fn push_string(out: &mut Vec<char>, s: &String)
    ensures
        final(out)@ == old(out)@ + s@,
{
    push_str_chars(out, s.as_str());
}

/// The rule under a section title.
fn rule_chars() -> (res: Vec<char>)
    ensures
        res@ == rule(),
{
    let mut res: Vec<char> = Vec::new();
    let mut i: usize = 0;
    while i < RULE_WIDTH
        invariant
            i <= RULE_WIDTH,
            res@ == Seq::new(i as nat, |k: int| '─'),
        decreases RULE_WIDTH - i,
    {
        res.push('─');
        i = i + 1;
        assert(res@ =~= Seq::new(i as nat, |k: int| '─'));
    }
    res
}

/// Appends `n` spaces.
pub(crate) fn push_spaces(out: &mut Vec<char>, n: usize)
    ensures
        final(out)@ == old(out)@ + Seq::new(n as nat, |i: int| ' '),
{
    let ghost start = out@;
    let mut i: usize = 0;
    while i < n
        invariant
            i <= n,
            out@ == start + Seq::new(i as nat, |k: int| ' '),
        decreases n - i,
    {
        out.push(' ');
        i = i + 1;
        assert(out@ =~= start + Seq::new(i as nat, |k: int| ' '));
    }
}

/// Appends `s` padded with spaces on the right to `width` characters.
pub(crate) fn push_padded_right(out: &mut Vec<char>, s: &Vec<char>, width: usize)
    ensures
        final(out)@ == old(out)@ + pad_right(s@, width as nat),
{
    let ghost start = out@;
    let n = s.len();
    let mut q: usize = 0;
    while q < n
        invariant
            n == s.len(),
            q <= n,
            out@ == start + s@.take(q as int),
        decreases n - q,
    {
        out.push(s[q]);
        q = q + 1;
        assert(out@ =~= start + s@.take(q as int));
    }
    assert(s@.take(n as int) =~= s@);
    if n < width {
        push_spaces(out, width - n);
    }
    assert(out@ =~= start + pad_right(s@, width as nat));
}

/// Appends `s` padded with spaces on the left to `width` characters.
pub(crate) fn push_padded_left(out: &mut Vec<char>, s: &String, width: usize)
    ensures
        final(out)@ == old(out)@ + pad_left(s@, width as nat),
{
    let ghost start = out@;
    let sc = str_chars(s.as_str());
    if sc.len() < width {
        push_spaces(out, width - sc.len());
    }
    push_string(out, s);
    assert(out@ =~= start + pad_left(s@, width as nat));
}

/// Appends the connector of item `i` of `n`.
fn push_connector(out: &mut Vec<char>, i: usize, n: usize)
    ensures
        final(out)@ == old(out)@ + connector(i as int, n as int),
{
    if n > 0 && i == n - 1 {
        push_str_chars(out, "└─");
    } else {
        push_str_chars(out, "├─");
    }
}

proof fn lemma_first_named(ps: Seq<DepPackageInfo>, name: Seq<char>, k: int)
    requires
        0 <= k <= ps.len(),
        forall|j: int| 0 <= j < k ==> (#[trigger] ps[j]).name@ != name,
    ensures
        k < ps.len() && ps[k].name@ == name ==> first_named(ps, name) == Some(k),
        k == ps.len() ==> first_named(ps, name) is None,
    decreases k,
{
    if k > 0 {
        let rest = ps.drop_first();
        assert forall|j: int| 0 <= j < k - 1 implies (#[trigger] rest[j]).name@ != name by {
            assert(rest[j] == ps[j + 1]);
        }
        lemma_first_named(rest, name, k - 1);
        assert(ps[0].name@ != name);
        if k < ps.len() {
            assert(rest[k - 1] == ps[k]);
        }
    } else if ps.len() > 0 {
    }
}

/// The size shown next to a dependency.
fn size_label(ps: &Vec<DepPackageInfo>, dep: &String) -> (res: String)
    ensures
        res@ == dep_size_label(ps@, dep@),
{
    let mut i: usize = 0;
    while i < ps.len()
        invariant
            i <= ps.len(),
            forall|j: int| 0 <= j < i ==> (#[trigger] ps@[j]).name@ != dep@,
        decreases ps.len() - i,
    {
        if ps[i].name == *dep {
            proof {
                lemma_first_named(ps@, dep@, i as int);
            }
            return format_size(ps[i].size);
        }
        i = i + 1;
    }
    proof {
        lemma_first_named(ps@, dep@, i as int);
        reveal_strlit("sdk");
    }
    "sdk".to_string()
}

/// The heading line of a package.
fn package_heading_chars(p: &DepPackageInfo) -> (res: Vec<char>)
    ensures
        res@ == package_heading(*p),
{
    let mut out: Vec<char> = Vec::new();
    push_str_chars(&mut out, "  ");
    push_string(&mut out, &p.name);
    push_str_chars(&mut out, " v");
    push_string(&mut out, &p.version);
    push_str_chars(&mut out, "  ");
    push_string(&mut out, &format_size(p.size));
    out
}

/// Appends the tree of a package's dependencies.
fn push_dependency_tree(out: &mut Vec<String>, ps: &Vec<DepPackageInfo>, deps: &Vec<String>)
    ensures
        str_views(final(out)@) == str_views(old(out)@) + dependency_tree(ps@, str_views(deps@)),
{
    let ghost start = str_views(out@);
    let ghost dv = str_views(deps@);
    let ghost tree = dependency_tree(ps@, dv);
    let n = deps.len();
    let mut i: usize = 0;
    while i < n
        invariant
            n == deps.len(),
            dv == str_views(deps@),
            tree == dependency_tree(ps@, dv),
            i <= n,
            str_views(out@) == start + tree.take(i as int),
        decreases n - i,
    {
        let mut line: Vec<char> = Vec::new();
        push_str_chars(&mut line, "    ");
        push_connector(&mut line, i, n);
        push_str_chars(&mut line, " ");
        push_string(&mut line, &deps[i]);
        push_str_chars(&mut line, "  ");
        push_string(&mut line, &size_label(ps, &deps[i]));
        assert(dv[i as int] == deps[i as int]@);
        assert(line@ == tree[i as int]);
        push_line(out, &line);
        i = i + 1;
        assert(tree.take(i as int) =~= tree.take(i - 1).push(tree[i - 1]));
    }
    assert(tree.take(n as int) =~= tree);
}

/// Appends the block of one package of a dependency section.
fn push_package_block(out: &mut Vec<String>, ps: &Vec<DepPackageInfo>, p: &DepPackageInfo)
    ensures
        str_views(final(out)@) == str_views(old(out)@) + package_block(ps@, *p),
{
    let ghost start = str_views(out@);
    push_line(out, &package_heading_chars(p));
    push_dependency_tree(out, ps, &p.dependencies);
    push_line(out, &Vec::new());
    assert(str_views(out@) =~= start + package_block(ps@, *p));
}

proof fn lemma_of_type_step(ps: Seq<DepPackageInfo>, t: Seq<char>, i: int)
    requires
        0 <= i < ps.len(),
    ensures
        of_type(ps.take(i + 1), t) == of_type(ps.take(i), t) + if ps[i].dep_type@ == t {
            seq![ps[i]]
        } else {
            seq![]
        },
{
    assert(ps.take(i + 1).drop_last() =~= ps.take(i));
    assert(ps.take(i + 1).last() == ps[i]);
}

/// Appends the section of the packages of dependency type `t`.
fn push_type_section(out: &mut Vec<String>, ps: &Vec<DepPackageInfo>, lead: bool, title: &str, t: &str)
    ensures
        str_views(final(out)@) == str_views(old(out)@) + type_section(
            ps@,
            if lead {
                seq![Seq::<char>::empty()]
            } else {
                seq![]
            },
            title@,
            t@,
        ),
{
    let ghost start = str_views(out@);
    let tc = str_chars(t);
    let mut count: usize = 0;
    let mut i: usize = 0;
    while i < ps.len()
        invariant
            tc@ == t@,
            i <= ps.len(),
            count == of_type(ps@.take(i as int), t@).len(),
            count <= i,
        decreases ps.len() - i,
    {
        proof {
            lemma_of_type_step(ps@, t@, i as int);
        }
        if chars_eq(&str_chars(ps[i].dep_type.as_str()), &tc) {
            count = count + 1;
        }
        i = i + 1;
    }
    assert(ps@.take(ps.len() as int) =~= ps@);
    if count == 0 {
        assert(str_views(out@) =~= start + seq![]);
        return;
    }
    if lead {
        push_line(out, &Vec::new());
    }
    let mut heading: Vec<char> = Vec::new();
    push_str_chars(&mut heading, "  ");
    push_str_chars(&mut heading, title);
    push_str_chars(&mut heading, " (");
    push_decimal(&mut heading, count as u128);
    push_str_chars(&mut heading, ")");
    push_line(out, &heading);
    push_line(out, &Vec::new());
    let ghost mid = str_views(out@);
    assert(mid =~= start + (if lead {
        seq![Seq::<char>::empty()]
    } else {
        seq![]
    }) + seq!["  "@ + title@ + " ("@ + decimal(count as nat) + ")"@, Seq::<char>::empty()]);
    let mut i: usize = 0;
    while i < ps.len()
        invariant
            tc@ == t@,
            i <= ps.len(),
            str_views(out@) == mid + package_blocks(ps@, of_type(ps@.take(i as int), t@)),
        decreases ps.len() - i,
    {
        proof {
            lemma_of_type_step(ps@, t@, i as int);
        }
        let ghost group = of_type(ps@.take(i as int), t@);
        if chars_eq(&str_chars(ps[i].dep_type.as_str()), &tc) {
            push_package_block(out, ps, &ps[i]);
            assert((group + seq![ps@[i as int]]).drop_last() =~= group);
            assert(package_blocks(ps@, group + seq![ps@[i as int]]) == package_blocks(ps@, group)
                + package_block(ps@, ps@[i as int]));
            assert(str_views(out@) =~= mid + package_blocks(ps@, of_type(ps@.take(i + 1), t@)));
        } else {
            assert(of_type(ps@.take(i + 1), t@) =~= group);
        }
        i = i + 1;
    }
    assert(ps@.take(ps.len() as int) =~= ps@);
}

/// Appends the block of one depended-on package.
fn push_depended_block(out: &mut Vec<String>, p: &DepPackageInfo)
    ensures
        str_views(final(out)@) == str_views(old(out)@) + depended_block(*p),
{
    let ghost start = str_views(out@);
    let ghost ds = str_views(p.dependents@);
    let n = p.dependents.len();
    push_line(out, &Vec::new());
    let mut heading: Vec<char> = Vec::new();
    push_str_chars(&mut heading, "  ");
    push_string(&mut heading, &p.name);
    push_str_chars(&mut heading, " v");
    push_string(&mut heading, &p.version);
    push_str_chars(&mut heading, "  ← pulled by ");
    push_decimal(&mut heading, n as u128);
    push_str_chars(&mut heading, " packages");
    push_line(out, &heading);
    let ghost tree = Seq::new(ds.len(), |i: int| "    "@ + connector(i, ds.len() as int) + " "@ + ds[i]);
    let ghost mid = str_views(out@);
    let mut i: usize = 0;
    while i < n
        invariant
            n == p.dependents.len(),
            ds == str_views(p.dependents@),
            tree == Seq::new(ds.len(), |i: int| "    "@ + connector(i, ds.len() as int) + " "@ + ds[i]),
            i <= n,
            str_views(out@) == mid + tree.take(i as int),
        decreases n - i,
    {
        let mut line: Vec<char> = Vec::new();
        push_str_chars(&mut line, "    ");
        push_connector(&mut line, i, n);
        push_str_chars(&mut line, " ");
        push_string(&mut line, &p.dependents[i]);
        assert(ds[i as int] == p.dependents[i as int]@);
        assert(line@ == tree[i as int]);
        push_line(out, &line);
        i = i + 1;
        assert(tree.take(i as int) =~= tree.take(i - 1).push(tree[i - 1]));
    }
    assert(tree.take(n as int) =~= tree);
    assert(str_views(out@) =~= start + depended_block(*p));
}

proof fn lemma_with_dependents_step(ps: Seq<DepPackageInfo>, i: int)
    requires
        0 <= i < ps.len(),
    ensures
        with_dependents(ps.take(i + 1)) == with_dependents(ps.take(i)) + if ps[i].dependents.len() > 0 {
            seq![ps[i]]
        } else {
            seq![]
        },
{
    assert(ps.take(i + 1).drop_last() =~= ps.take(i));
    assert(ps.take(i + 1).last() == ps[i]);
}

/// Appends the section of the most depended-on packages.
fn push_depended_section(out: &mut Vec<String>, ps: &Vec<DepPackageInfo>)
    ensures
        str_views(final(out)@) == str_views(old(out)@) + depended_section(ps@),
{
    let ghost start = str_views(out@);
    push_str_line(out, "  Most Depended-On (pulled by other packages)");
    push_line(out, &rule_chars());
    let ghost mid = str_views(out@);
    let mut shown: usize = 0;
    let mut i: usize = 0;
    while i < ps.len()
        invariant
            i <= ps.len(),
            shown == first_n(with_dependents(ps@.take(i as int)), SECTION_LIMIT as nat).len(),
            str_views(out@) == mid + depended_blocks(first_n(with_dependents(ps@.take(i as int)), SECTION_LIMIT as nat)),
        decreases ps.len() - i,
    {
        proof {
            lemma_with_dependents_step(ps@, i as int);
        }
        let ghost w = with_dependents(ps@.take(i as int));
        let ghost top = first_n(w, SECTION_LIMIT as nat);
        if ps[i].dependents.len() > 0 && shown < SECTION_LIMIT {
            push_depended_block(out, &ps[i]);
            assert(first_n(w + seq![ps@[i as int]], SECTION_LIMIT as nat) =~= top + seq![ps@[i as int]]);
            assert((top + seq![ps@[i as int]]).drop_last() =~= top);
            shown = shown + 1;
        } else if ps[i].dependents.len() > 0 {
            assert(first_n(w + seq![ps@[i as int]], SECTION_LIMIT as nat) =~= top);
        } else {
            assert(with_dependents(ps@.take(i + 1)) =~= w);
        }
        i = i + 1;
    }
    assert(ps@.take(ps.len() as int) =~= ps@);
    if shown == 0 {
        push_str_line(out, "  No dependency relationships found");
    }
    assert(str_views(out@) =~= start + depended_section(ps@));
}

/// Appends a line given as a string slice.
pub(crate) fn push_str_line(out: &mut Vec<String>, line: &str)
    ensures
        str_views(final(out)@) == str_views(old(out)@).push(line@),
{
    push_line(out, &str_chars(line));
}

proof fn lemma_sized_step(ps: Seq<DepPackageInfo>, i: int)
    requires
        0 <= i < ps.len(),
    ensures
        sized(ps.take(i + 1)) == sized(ps.take(i)) + if ps[i].size > 0 {
            seq![ps[i]]
        } else {
            seq![]
        },
{
    assert(ps.take(i + 1).drop_last() =~= ps.take(i));
    assert(ps.take(i + 1).last() == ps[i]);
}

/// Appends the section of the heaviest packages and gives back the ranking it used.
fn push_heavy_section(out: &mut Vec<String>, ps: &Vec<DepPackageInfo>) -> (order: Vec<usize>)
    ensures
        order.len() == if sized(ps@).len() < SECTION_LIMIT {
            sized(ps@).len()
        } else {
            SECTION_LIMIT as nat
        },
        is_desc_ranking_prefix(size_keys(sized(ps@)), order@),
        str_views(final(out)@) == str_views(old(out)@) + heavy_section(sized(ps@), order@),
{
    let ghost start = str_views(out@);
    let mut heavy: Vec<usize> = Vec::new();
    let mut keys: Vec<u128> = Vec::new();
    let mut i: usize = 0;
    while i < ps.len()
        invariant
            i <= ps.len(),
            heavy.len() == keys.len(),
            heavy.len() == sized(ps@.take(i as int)).len(),
            forall|j: int| 0 <= j < heavy.len() ==> (#[trigger] heavy[j]) < ps.len() && ps@[heavy[j] as int]
                == sized(ps@.take(i as int))[j],
            keys@ == size_keys(sized(ps@.take(i as int))),
        decreases ps.len() - i,
    {
        proof {
            lemma_sized_step(ps@, i as int);
        }
        if ps[i].size > 0 {
            heavy.push(i);
            keys.push(ps[i].size as u128);
            assert(keys@ =~= size_keys(sized(ps@.take(i + 1))));
        }
        i = i + 1;
    }
    assert(ps@.take(ps.len() as int) =~= ps@);
    let ghost hv = sized(ps@);
    let order = stable_desc_order(&keys, SECTION_LIMIT);
    push_line(out, &Vec::new());
    push_str_line(out, "  Heaviest Packages");
    push_line(out, &rule_chars());
    let ghost mid = str_views(out@);
    let ghost lines = Seq::new(order.len() as nat, |k: int| heavy_line(hv[order@[k] as int]));
    let mut k: usize = 0;
    while k < order.len()
        invariant
            k <= order.len(),
            hv == sized(ps@),
            heavy.len() == hv.len(),
            keys@.len() == hv.len(),
            forall|j: int| 0 <= j < heavy.len() ==> (#[trigger] heavy[j]) < ps.len() && ps@[heavy[j] as int] == hv[j],
            is_desc_ranking_prefix(keys@, order@),
            lines == Seq::new(order.len() as nat, |k: int| heavy_line(hv[order@[k] as int])),
            str_views(out@) == mid + lines.take(k as int),
        decreases order.len() - k,
    {
        let t = order[k];
        assert(order@[k as int] < keys@.len());
        let p = &ps[heavy[t]];
        let mut label: Vec<char> = Vec::new();
        push_string(&mut label, &p.name);
        push_str_chars(&mut label, " v");
        push_string(&mut label, &p.version);
        let mut line: Vec<char> = Vec::new();
        push_str_chars(&mut line, "  ");
        push_padded_right(&mut line, &label, 35);
        push_str_chars(&mut line, " ");
        push_padded_left(&mut line, &format_size(p.size), 10);
        assert(line@ =~= heavy_line(hv[t as int]));
        push_line(out, &line);
        k = k + 1;
        assert(lines.take(k as int) =~= lines.take(k - 1).push(lines[k - 1]));
    }
    assert(lines.take(order.len() as int) =~= lines);
    order
}

/// The summary of a dependency graph, line by line: totals; the direct and the dev
/// dependencies, each with the tree of its dependencies and their sizes; the ten first
/// packages that others depend on, with the packages that pull them; and the ten
/// heaviest packages.
pub fn dep_summary_lines(result: &DepGraphResult) -> (res: Vec<String>)
    ensures
        exists|order: Seq<usize>|
            {
                &&& order.len() == if sized(result.packages@).len() < SECTION_LIMIT {
                    sized(result.packages@).len()
                } else {
                    SECTION_LIMIT as nat
                }
                &&& #[trigger] is_desc_ranking_prefix(size_keys(sized(result.packages@)), order)
                &&& str_views(res@) == dep_summary(*result, order)
            },
{
    let mut out: Vec<String> = Vec::new();
    push_line(&mut out, &Vec::new());
    push_str_line(&mut out, "Dependency Graph");
    push_line(&mut out, &rule_chars());
    let mut totals: Vec<char> = Vec::new();
    push_str_chars(&mut totals, "  Total packages: ");
    push_decimal(&mut totals, result.total_packages as u128);
    push_str_chars(&mut totals, "    Total size: ");
    push_string(&mut totals, &format_size(result.total_size));
    push_line(&mut out, &totals);
    push_line(&mut out, &rule_chars());
    push_type_section(&mut out, &result.packages, true, "Direct Dependencies", "direct main");
    push_type_section(&mut out, &result.packages, false, "Dev Dependencies", "direct dev");
    push_depended_section(&mut out, &result.packages);
    let order = push_heavy_section(&mut out, &result.packages);
    assert(str_views(out@) =~= dep_summary(*result, order@));
    out
}

} // verus!
