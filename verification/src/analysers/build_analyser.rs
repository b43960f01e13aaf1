use vstd::prelude::*;
use crate::models::build_model::{BuildOutput, BuildPhaseInfo, BuildTimingResult};
use crate::order::{
    lemma_indices_cover,
    is_desc_ranking_prefix, lemma_ranking_no_duplicates, lemma_sum_permutation, ranks_before, stable_desc_order,
    sum_at, sum_below,
};
use crate::text::{
    chars_eq, contains, contains_chars, decimal, find_char, first_index_of, lowercase, parse_u128,
    parse_u128_chars, push_decimal, ascii_lower, ascii_lower_char, ascii_upper, ascii_upper_char, is_ascii_text, push_str_chars, str_chars, string_from_chars, sub_chars, to_lowercase, trim,
    trim_chars, words, words_of, lines, lines_of, lines_acc, strip_cr, lemma_lines_acc_join,
    lemma_trim_strip_cr, law_contains_is_substring, digit_char, digits_value, is_digit, is_whitespace,
    lemma_first_index_of, trim_end, trim_start, unsigned_digits, words_acc,
};

verus! {

/// The milliseconds a verbose Flutter log line reports in its `[ +123 ms]` prefix:
/// the line opens with `[`, the text up to the first `]`, trimmed, starts with `+`,
/// and the rest splits into exactly a number and `ms`.
pub open spec fn timestamp_ms(line: Seq<char>) -> Option<u128> {
    if line.len() == 0 || line[0] != '[' {
        None
    } else {
        match first_index_of(line, ']') {
            None => None,
            Some(end) => {
                let inner = trim(line.subrange(1, end));
                if inner.len() > 0 && inner[0] == '+' {
                    let parts = words(trim(inner.drop_first()));
                    if parts.len() == 2 && parts[1] == "ms"@ {
                        parse_u128(parts[0])
                    } else {
                        None
                    }
                } else {
                    None
                }
            },
        }
    }
}

fn timestamp_of_chars(line: &Vec<char>) -> (res: Option<u128>)
    ensures
        res == timestamp_ms(line@),
{
    if line.len() == 0 || line[0] != '[' {
        return None;
    }
    let end = match find_char(line, ']') {
        None => {
            return None;
        },
        Some(e) => e,
    };
    let inner = trim_chars(&sub_chars(line, 1, end));
    if inner.len() == 0 || inner[0] != '+' {
        return None;
    }
    let rest = trim_chars(&sub_chars(&inner, 1, inner.len()));
    assert(inner@.subrange(1, inner@.len() as int) =~= inner@.drop_first());
    let parts = words_of(&rest);
    if parts.len() != 2 {
        return None;
    }
    let unit = str_chars("ms");
    if !chars_eq(&parts[1], &unit) {
        return None;
    }
    parse_u128_chars(&parts[0])
}

/// The milliseconds reported by a verbose build log line such as `[  +120 ms] ...`.
pub fn extract_timestamp(line: &str) -> (res: Option<u128>)
    ensures
        res == timestamp_ms(line@),
{
    timestamp_of_chars(&str_chars(line))
}

/// The build phase a lowercased log line belongs to, by the first keyword rule it meets.
pub open spec fn phase_name(lower: Seq<char>) -> Seq<char> {
    if contains(lower, "gradle"@) || contains(lower, "assemblerelease"@) || contains(
        lower,
        "assembledebug"@,
    ) {
        "Gradle Build"@
    } else if contains(lower, "xcode"@) || contains(lower, "xcodebuild"@) {
        "Xcode Build"@
    } else if contains(lower, "dart"@) && (contains(lower, "compil"@) || contains(lower, "kernel"@)
        || contains(lower, "snapshot"@)) {
        "Dart Compilation"@
    } else if contains(lower, "asset"@) || contains(lower, "bundle"@) || contains(lower, "font"@) {
        "Asset Bundling"@
    } else if contains(lower, "sign"@) || contains(lower, "certificate"@) {
        "Code Signing"@
    } else if contains(lower, "r8"@) || contains(lower, "proguard"@) || contains(lower, "shrink"@)
        || contains(lower, "minify"@) {
        "Code Shrinking"@
    } else if contains(lower, "dex"@) || contains(lower, "d8"@) {
        "Dexing"@
    } else if contains(lower, "merge"@) || contains(lower, "package"@) || contains(lower, "zip"@)
        || contains(lower, "apk"@) || contains(lower, "aab"@) {
        "Packaging"@
    } else {
        "Other"@
    }
}

fn has_keyword(lower: &Vec<char>, keyword: &str) -> (res: bool)
    ensures
        res == contains(lower@, keyword@),
{
    contains_chars(lower, &str_chars(keyword))
}

/// The build phase of a log line that is already lowercased.
pub fn phase_of_lowercase(lower: &str) -> (res: String)
    ensures
        res@ == phase_name(lower@),
{
    let l = str_chars(lower);
    if has_keyword(&l, "gradle") || has_keyword(&l, "assemblerelease") || has_keyword(
        &l,
        "assembledebug",
    ) {
        String::from_str("Gradle Build")
    } else if has_keyword(&l, "xcode") || has_keyword(&l, "xcodebuild") {
        String::from_str("Xcode Build")
    } else if has_keyword(&l, "dart") && (has_keyword(&l, "compil") || has_keyword(&l, "kernel")
        || has_keyword(&l, "snapshot")) {
        String::from_str("Dart Compilation")
    } else if has_keyword(&l, "asset") || has_keyword(&l, "bundle") || has_keyword(&l, "font") {
        String::from_str("Asset Bundling")
    } else if has_keyword(&l, "sign") || has_keyword(&l, "certificate") {
        String::from_str("Code Signing")
    } else if has_keyword(&l, "r8") || has_keyword(&l, "proguard") || has_keyword(&l, "shrink")
        || has_keyword(&l, "minify") {
        String::from_str("Code Shrinking")
    } else if has_keyword(&l, "dex") || has_keyword(&l, "d8") {
        String::from_str("Dexing")
    } else if has_keyword(&l, "merge") || has_keyword(&l, "package") || has_keyword(&l, "zip")
        || has_keyword(&l, "apk") || has_keyword(&l, "aab") {
        String::from_str("Packaging")
    } else {
        String::from_str("Other")
    }
}

/// The build phase of a verbose log line, judged on its lowercase form.
pub fn classify_phase(line: &str) -> (res: String)
    ensures
        res@ == phase_name(lowercase(line@)),
        is_ascii_text(line@) ==> res@ == phase_name(ascii_lower(line@)),
{
    let lower = to_lowercase(line);
    phase_of_lowercase(lower.as_str())
}

/// `ms` as the build report shows it: `Xm Ys` from a minute on, `Xs Yms` from a
/// second on, `Xms` below.
pub open spec fn duration_text(ms: nat) -> Seq<char> {
    if ms >= 60000 {
        decimal(ms / 60000) + "m "@ + decimal((ms % 60000) / 1000) + "s"@
    } else if ms >= 1000 {
        decimal(ms / 1000) + "s "@ + decimal(ms % 1000) + "ms"@
    } else {
        decimal(ms) + "ms"@
    }
}

/// Renders milliseconds in the readable form the build report uses.
pub fn format_duration(ms: u128) -> (res: String)
    ensures
        res@ == duration_text(ms as nat),
{
    let mut out: Vec<char> = Vec::new();
    if ms >= 60000 {
        push_decimal(&mut out, ms / 60000);
        push_str_chars(&mut out, "m ");
        push_decimal(&mut out, (ms % 60000) / 1000);
        push_str_chars(&mut out, "s");
    } else if ms >= 1000 {
        push_decimal(&mut out, ms / 1000);
        push_str_chars(&mut out, "s ");
        push_decimal(&mut out, ms % 1000);
        push_str_chars(&mut out, "ms");
    } else {
        push_decimal(&mut out, ms);
        push_str_chars(&mut out, "ms");
    }
    string_from_chars(&out)
}


/// The lines of the combined build log: standard output, a newline, standard error.
pub open spec fn log_lines(output: BuildOutput) -> Seq<Seq<char>> {
    lines(output.stdout@ + seq!['\n'] + output.stderr@)
}

/// The phase and the milliseconds of each log line that carries a timestamp, in log
/// order; a line is trimmed before it is read.
pub open spec fn phase_events(ls: Seq<Seq<char>>) -> Seq<(Seq<char>, u128)>
    decreases ls.len(),
{
    if ls.len() == 0 {
        seq![]
    } else {
        let prev = phase_events(ls.drop_last());
        let t = trim(ls.last());
        match timestamp_ms(t) {
            Some(d) => prev.push((phase_name(lowercase(t)), d)),
            None => prev,
        }
    }
}

/// The distinct phase names of `ev`, in the order they first occur.
pub open spec fn phase_names(ev: Seq<(Seq<char>, u128)>) -> Seq<Seq<char>>
    decreases ev.len(),
{
    if ev.len() == 0 {
        seq![]
    } else {
        let prev = phase_names(ev.drop_last());
        if prev.contains(ev.last().0) {
            prev
        } else {
            prev.push(ev.last().0)
        }
    }
}

/// The milliseconds `ev` records for the phase `name`, summed.
pub open spec fn phase_total(ev: Seq<(Seq<char>, u128)>, name: Seq<char>) -> nat
    decreases ev.len(),
{
    if ev.len() == 0 {
        0
    } else {
        phase_total(ev.drop_last(), name) + if ev.last().0 == name {
            ev.last().1 as nat
        } else {
            0
        }
    }
}

/// `phases` lists each phase of `ev` once, with its total, longest first; phases of
/// equal length keep the order in which they first occur in the log.
pub open spec fn is_phase_breakdown(
    phases: Seq<(Seq<char>, u128)>,
    ev: Seq<(Seq<char>, u128)>,
) -> bool {
    let names = phase_names(ev);
    &&& phases.len() == names.len()
    &&& forall|k: int|
        0 <= k < phases.len() ==> names.contains((#[trigger] phases[k]).0) && phases[k].1
            == phase_total(ev, phases[k].0)
    &&& forall|a: int, b: int|
        0 <= a < b < phases.len() ==> (#[trigger] phases[a]).0 != (#[trigger] phases[b]).0
    &&& forall|a: int, b: int|
        0 <= a < b < phases.len() ==> (#[trigger] phases[a]).1 > (#[trigger] phases[b]).1 || (
        phases[a].1 == phases[b].1 && names.index_of(phases[a].0) < names.index_of(phases[b].0))
}

/// The phase breakdown of a build as a sequence of plain values.
pub open spec fn phases_view(phases: Seq<BuildPhaseInfo>) -> Seq<(Seq<char>, u128)> {
    phases.map_values(|p: BuildPhaseInfo| (p.phase_name@, p.duration_ms))
}

/// Every phase total of the log fits in 128 bits.
pub open spec fn phase_totals_fit(output: BuildOutput) -> bool {
    forall|name: Seq<char>|
        #[trigger] phase_total(phase_events(log_lines(output)), name) <= u128::MAX
}

proof fn lemma_phase_names_no_duplicates(ev: Seq<(Seq<char>, u128)>)
    ensures
        phase_names(ev).no_duplicates(),
        forall|n: Seq<char>| phase_names(ev).contains(n) <==> phase_total_counts(ev, n),
    decreases ev.len(),
{
    if ev.len() > 0 {
        lemma_phase_names_no_duplicates(ev.drop_last());
        let prev = phase_names(ev.drop_last());
        let cur = phase_names(ev);
        let last = ev.last().0;
        if prev.contains(last) {
            assert(cur == prev);
            assert forall|n: Seq<char>| cur.contains(n) <==> phase_total_counts(ev, n) by {
                assert(phase_total_counts(ev, n) == (last == n || phase_total_counts(ev.drop_last(), n)));
            }
        } else {
            assert(cur == prev.push(last));
            assert forall|n: Seq<char>| cur.contains(n) <==> phase_total_counts(ev, n) by {
                assert(phase_total_counts(ev, n) == (last == n || phase_total_counts(ev.drop_last(), n)));
                if cur.contains(n) && n != last {
                    let k = choose|k: int| 0 <= k < cur.len() && cur[k] == n;
                    assert(k < prev.len());
                    assert(prev[k] == n);
                }
                if prev.contains(n) {
                    let k = choose|k: int| 0 <= k < prev.len() && prev[k] == n;
                    assert(cur[k] == n);
                }
                if n == last {
                    assert(cur[prev.len() as int] == n);
                }
            }
            assert forall|a: int, b: int| 0 <= a < cur.len() && 0 <= b < cur.len() && a != b implies cur[a]
                != cur[b] by {
                if a < prev.len() && b < prev.len() {
                } else if a < prev.len() {
                    assert(cur[a] == prev[a]);
                } else if b < prev.len() {
                    assert(cur[b] == prev[b]);
                }
            }
        }
    }
}

/// Whether some event of `ev` belongs to phase `name`.
pub open spec fn phase_total_counts(ev: Seq<(Seq<char>, u128)>, name: Seq<char>) -> bool
    decreases ev.len(),
{
    ev.len() > 0 && (ev.last().0 == name || phase_total_counts(ev.drop_last(), name))
}

proof fn lemma_phase_total_absent(ev: Seq<(Seq<char>, u128)>, name: Seq<char>)
    requires
        !phase_total_counts(ev, name),
    ensures
        phase_total(ev, name) == 0,
    decreases ev.len(),
{
    if ev.len() > 0 {
        lemma_phase_total_absent(ev.drop_last(), name);
    }
}

proof fn lemma_phase_total_grows(ls: Seq<Seq<char>>, i: int, name: Seq<char>)
    requires
        0 <= i <= ls.len(),
    ensures
        phase_total(phase_events(ls.take(i)), name) <= phase_total(phase_events(ls), name),
    decreases ls.len() - i,
{
    if i < ls.len() {
        lemma_phase_total_grows(ls, i + 1, name);
        assert(ls.take(i + 1).drop_last() =~= ls.take(i));
        let e0 = phase_events(ls.take(i));
        let e1 = phase_events(ls.take(i + 1));
        if e1 != e0 {
            assert(e1.drop_last() =~= e0);
        }
    } else {
        assert(ls.take(i) =~= ls);
    }
}

/// The phase of a trimmed log line, as characters.
fn line_phase(t: &Vec<char>) -> (res: Vec<char>)
    ensures
        res@ == phase_name(lowercase(t@)),
{
    let tstr = string_from_chars(t);
    let name_str = classify_phase(tstr.as_str());
    str_chars(name_str.as_str())
}

/// `names` are the distinct phases of `ev` in order of first occurrence and `totals`
/// their totals.
spec fn tallied(names: Seq<Vec<char>>, totals: Seq<u128>, ev: Seq<(Seq<char>, u128)>) -> bool {
    &&& names.len() == phase_names(ev).len()
    &&& totals.len() == names.len()
    &&& forall|k: int|
        0 <= k < names.len() ==> (#[trigger] names[k])@ == phase_names(ev)[k] && totals[k] == phase_total(
            ev,
            phase_names(ev)[k],
        )
}

/// The distinct phases of the log in order of first occurrence with their totals, or
/// `None` when some total does not fit in 128 bits.
#[verifier::spinoff_prover]
fn tally_phases(output: &BuildOutput) -> (res: Option<(Vec<Vec<char>>, Vec<u128>)>)
    ensures
        res is Some <==> phase_totals_fit(*output),
        res matches Some((names, totals)) ==> tallied(names@, totals@, phase_events(log_lines(*output))),
{
    let mut text = str_chars(output.stdout.as_str());
    text.push('\n');
    let err = str_chars(output.stderr.as_str());
    let mut e: usize = 0;
    let ghost head = text@;
    while e < err.len()
        invariant
            e <= err.len(),
            text@ == head + err@.take(e as int),
        decreases err.len() - e,
    {
        text.push(err[e]);
        e = e + 1;
        assert(text@ =~= head + err@.take(e as int));
    }
    assert(err@.take(err.len() as int) =~= err@);
    assert(text@ =~= output.stdout@ + seq!['\n'] + output.stderr@);
    let ls = lines_of(&text);
    let ghost all = log_lines(*output);
    assert(ls@.map_values(|l: Vec<char>| l@) =~= all);
    let mut names: Vec<Vec<char>> = Vec::new();
    let mut totals: Vec<u128> = Vec::new();
    let mut i: usize = 0;
    let ghost mut evs = phase_events(all.take(0));
    while i < ls.len()
        invariant
            i <= ls.len(),
            all == ls@.map_values(|l: Vec<char>| l@),
            all == log_lines(*output),
            evs == phase_events(all.take(i as int)),
            tallied(names@, totals@, evs),
        decreases ls.len() - i,
    {
        let ghost ev0 = evs;
        let ghost ev1 = phase_events(all.take(i + 1));
        assert(all.take(i + 1).drop_last() =~= all.take(i as int));
        assert(all.take(i + 1).last() == ls[i as int]@);
        let t = trim_chars(&ls[i]);
        match timestamp_of_chars(&t) {
            None => {
                assert(ev1 == ev0);
            },
            Some(d) => {
                let name = line_phase(&t);
                assert(ev1 == ev0.push((name@, d)));
                assert(ev1.drop_last() =~= ev0);
                let mut k: usize = 0;
                while k < names.len() && !chars_eq(&names[k], &name)
                    invariant
                        k <= names.len(),
                        forall|q: int| 0 <= q < k ==> (#[trigger] names[q])@ != name@,
                    decreases names.len() - k,
                {
                    k = k + 1;
                }
                proof {
                    lemma_phase_names_no_duplicates(ev0);
                }
                let ghost old_totals = totals@;
                let ghost old_names = names@;
                let ghost names0 = phase_names(ev0);
                assert forall|q: int| 0 <= q < old_names.len() implies (#[trigger] old_names[q])@ == names0[q]
                    && old_totals[q] == phase_total(ev0, names0[q]) by {
                    assert(names[q]@ == names0[q]);
                }
                if k == names.len() {
                    assert(!names0.contains(name@)) by {
                        if names0.contains(name@) {
                            let q = choose|q: int| 0 <= q < names0.len() && names0[q] == name@;
                            assert(names[q]@ == name@);
                        }
                    }
                    proof {
                        lemma_phase_total_absent(ev0, name@);
                    }
                    assert(phase_names(ev1) == names0.push(name@));
                    names.push(name);
                    totals.push(d);
                    assert forall|q: int| 0 <= q < names.len() implies (#[trigger] names[q])@
                        == phase_names(ev1)[q] && totals[q] == phase_total(ev1, phase_names(ev1)[q]) by {
                        let nq = phase_names(ev1)[q];
                        assert(phase_total(ev1, nq) == phase_total(ev0, nq) + if nq == name@ {
                            d as nat
                        } else {
                            0
                        });
                        if q < names.len() - 1 {
                            assert(names[q] == old_names[q]);
                            assert(old_names[q]@ == names0[q]);
                            assert(nq == names0[q]);
                            assert(nq != name@);
                        } else {
                            assert(nq == name@);
                        }
                    }
                } else {
                    assert(names0[k as int] == name@);
                    assert(names0.contains(name@));
                    assert(phase_names(ev1) == names0);
                    let sum = totals[k].checked_add(d);
                    match sum {
                        None => {
                            proof {
                                lemma_phase_total_grows(all, i + 1, name@);
                                assert(all.take(all.len() as int) =~= all);
                                assert(phase_total(ev1, name@) == phase_total(ev0, name@) + d);
                                assert(phase_total(phase_events(all), name@) > u128::MAX);
                            }
                            return None;
                        },
                        Some(v) => {
                            totals.set(k, v);
                        },
                    }
                    assert forall|q: int| 0 <= q < names.len() implies (#[trigger] names[q])@
                        == phase_names(ev1)[q] && totals[q] == phase_total(ev1, phase_names(ev1)[q]) by {
                        let nq = phase_names(ev1)[q];
                        assert(phase_total(ev1, nq) == phase_total(ev0, nq) + if nq == name@ {
                            d as nat
                        } else {
                            0
                        });
                        assert(names[q] == old_names[q]);
                        assert(old_names[q]@ == names0[q]);
                        if q != k {
                            assert(nq != name@);
                            assert(totals[q] == old_totals[q]);
                        } else {
                            assert(nq == name@);
                        }
                    }
                }
            },
        }
        assert(names.len() == phase_names(ev1).len());
        assert(forall|q: int|
            0 <= q < names.len() ==> (#[trigger] names[q])@ == phase_names(ev1)[q] && totals[q]
                == phase_total(ev1, phase_names(ev1)[q]));
        assert(tallied(names@, totals@, ev1));
        proof {
            evs = ev1;
        }
        i = i + 1;
    }
    assert(all.take(ls.len() as int) =~= all);
    proof {
        let ev = phase_events(all);
        assert(evs == ev);
        assert(names.len() == phase_names(ev).len());
        assert(totals.len() == names.len());
        assert forall|k: int| 0 <= k < names.len() implies (#[trigger] names[k])@ == phase_names(ev)[k]
            && totals[k] == phase_total(ev, phase_names(ev)[k]) by {}
        lemma_phase_names_no_duplicates(ev);
        assert forall|name: Seq<char>| #[trigger] phase_total(ev, name) <= u128::MAX by {
            if phase_names(ev).contains(name) {
                let q = choose|q: int| 0 <= q < phase_names(ev).len() && phase_names(ev)[q] == name;
                assert(names[q]@ == phase_names(ev)[q]);
                assert(totals[q] == phase_total(ev, name));
            } else {
                lemma_phase_total_absent(ev, name);
            }
        }
        assert(ev == phase_events(log_lines(*output)));
        assert(tallied(names@, totals@, ev));
    }
    Some((names, totals))
}


/// Reads the phase timings out of a verbose build log. Each line of standard output
/// and standard error that carries a `[ +N ms]` timestamp adds its milliseconds to the
/// phase its text names; the result lists every phase once, longest first, phases of
/// equal length in the order they first occur.
pub fn analyse_build_timing(build_output: &BuildOutput) -> (res: BuildTimingResult)
    requires
        phase_totals_fit(*build_output),
    ensures
        res.total_duration_ms == build_output.total_duration_ms,
        is_phase_breakdown(phases_view(res.phases@), phase_events(log_lines(*build_output))),
{
    let tally = tally_phases(build_output);
    let (names, totals) = match tally {
        Some(t) => t,
        None => {
            assert(false);
            (Vec::new(), Vec::new())
        },
    };
    let ghost ev = phase_events(log_lines(*build_output));
    let ghost pn = phase_names(ev);
    assert(tallied(names@, totals@, ev));
    let order = stable_desc_order(&totals, totals.len());
    proof {
        lemma_ranking_no_duplicates(totals@, order@);
        lemma_phase_names_no_duplicates(ev);
    }
    let mut phases: Vec<BuildPhaseInfo> = Vec::new();
    let mut k: usize = 0;
    while k < order.len()
        invariant
            k <= order.len(),
            order.len() == totals.len(),
            totals.len() == names.len(),
            names.len() == pn.len(),
            pn == phase_names(ev),
            is_desc_ranking_prefix(totals@, order@),
            forall|q: int|
                0 <= q < names.len() ==> (#[trigger] names[q])@ == pn[q] && totals[q] == phase_total(ev, pn[q]),
            phases.len() == k,
            forall|q: int|
                0 <= q < k ==> (#[trigger] phases[q]).phase_name@ == pn[order[q] as int]
                    && phases[q].duration_ms == totals[order[q] as int],
        decreases order.len() - k,
    {
        let idx = order[k];
        let name = string_from_chars(&names[idx]);
        phases.push(BuildPhaseInfo { phase_name: name, duration_ms: totals[idx] });
        k = k + 1;
    }
    proof {
        let pv = phases_view(phases@);
        assert forall|q: int| 0 <= q < pv.len() implies pn.contains((#[trigger] pv[q]).0) && pv[q].1
            == phase_total(ev, pv[q].0) by {
            let oq = order[q] as int;
            assert(0 <= oq < pn.len());
            assert(pv[q].0 == pn[oq]);
            assert(names[oq]@ == pn[oq]);
            assert(pv[q].1 == totals[oq]);
        }
        assert forall|a: int, b: int| 0 <= a < b < pv.len() implies (#[trigger] pv[a]).0 != (
        #[trigger] pv[b]).0 by {
            assert(pv[a].0 == pn[order[a] as int]);
            assert(pv[b].0 == pn[order[b] as int]);
            assert(order[a] != order[b]);
        }
        assert forall|a: int, b: int| 0 <= a < b < pv.len() implies (#[trigger] pv[a]).1 > (
        #[trigger] pv[b]).1 || (pv[a].1 == pv[b].1 && pn.index_of(pv[a].0) < pn.index_of(pv[b].0)) by {
            let oa = order[a] as int;
            let ob = order[b] as int;
            assert(ranks_before(totals@, oa, ob));
            assert(pv[a].0 == pn[oa]);
            assert(pv[b].0 == pn[ob]);
            assert(pn.index_of(pn[oa]) == oa);
            assert(pn.index_of(pn[ob]) == ob);
        }
    }
    BuildTimingResult { total_duration_ms: build_output.total_duration_ms, phases }
}

/// `analyse_build_timing`, or `None` when some phase total does not fit in 128 bits,
/// the one case in which summing the phase times overflows.
pub fn analyse_build_timing_checked(build_output: &BuildOutput) -> (res: Option<BuildTimingResult>)
    ensures
        res is None <==> !phase_totals_fit(*build_output),
        res matches Some(r) ==> r.total_duration_ms == build_output.total_duration_ms
            && is_phase_breakdown(phases_view(r.phases@), phase_events(log_lines(*build_output))),
{
    if tally_phases(build_output).is_none() {
        None
    } else {
        Some(analyse_build_timing(build_output))
    }
}

/// The milliseconds of all timestamped lines, added up.
pub open spec fn events_total(ev: Seq<(Seq<char>, u128)>) -> nat
    decreases ev.len(),
{
    if ev.len() == 0 {
        0
    } else {
        events_total(ev.drop_last()) + ev.last().1 as nat
    }
}

/// The durations of a phase breakdown, added up.
pub open spec fn durations_total(phases: Seq<(Seq<char>, u128)>) -> nat
    decreases phases.len(),
{
    if phases.len() == 0 {
        0
    } else {
        durations_total(phases.drop_last()) + phases.last().1 as nat
    }
}

/// The totals of the phases `names`, added up.
spec fn names_total(ev: Seq<(Seq<char>, u128)>, names: Seq<Seq<char>>) -> nat
    decreases names.len(),
{
    if names.len() == 0 {
        0
    } else {
        names_total(ev, names.drop_last()) + phase_total(ev, names.last())
    }
}

proof fn lemma_names_total_step(ev: Seq<(Seq<char>, u128)>, names: Seq<Seq<char>>)
    requires
        ev.len() > 0,
        names.no_duplicates(),
    ensures
        names_total(ev, names) == names_total(ev.drop_last(), names) + if names.contains(ev.last().0) {
            ev.last().1 as nat
        } else {
            0
        },
    decreases names.len(),
{
    if names.len() > 0 {
        let prev = names.drop_last();
        assert(prev.no_duplicates()) by {
            assert forall|x: int, y: int| 0 <= x < prev.len() && 0 <= y < prev.len() && x != y implies prev[x]
                != prev[y] by {
                assert(prev[x] == names[x] && prev[y] == names[y]);
            }
        }
        lemma_names_total_step(ev, prev);
        let a = ev.last().0;
        if prev.contains(a) {
            let k = choose|k: int| 0 <= k < prev.len() && prev[k] == a;
            assert(names[k] == a);
            if names.last() == a {
                assert(names[names.len() - 1] == names[k]);
            }
        } else if names.last() == a {
            assert(names[names.len() - 1] == a);
        } else if names.contains(a) {
            let k = choose|k: int| 0 <= k < names.len() && names[k] == a;
            assert(prev[k] == a);
        }
    }
}

proof fn lemma_names_total_all(ev: Seq<(Seq<char>, u128)>)
    ensures
        names_total(ev, phase_names(ev)) == events_total(ev),
    decreases ev.len(),
{
    if ev.len() > 0 {
        let prev_ev = ev.drop_last();
        lemma_names_total_all(prev_ev);
        lemma_phase_names_no_duplicates(ev);
        lemma_phase_names_no_duplicates(prev_ev);
        let prev = phase_names(prev_ev);
        let cur = phase_names(ev);
        let a = ev.last().0;
        lemma_names_total_step(ev, cur);
        if !prev.contains(a) {
            assert(cur == prev.push(a));
            assert(cur.drop_last() =~= prev);
            lemma_phase_total_absent(prev_ev, a);
            assert(cur[prev.len() as int] == a);
        }
    }
}

proof fn lemma_names_total_prefix(ev: Seq<(Seq<char>, u128)>, names: Seq<Seq<char>>, m: int)
    requires
        0 <= m <= names.len(),
    ensures
        names_total(ev, names.take(m)) == sum_below(|i: int| phase_total(ev, names[i]), m),
    decreases m,
{
    if m > 0 {
        lemma_names_total_prefix(ev, names, m - 1);
        assert(names.take(m).drop_last() =~= names.take(m - 1));
    }
}

/// A phase breakdown accounts for every timestamped millisecond of the log: its
/// durations add up to the milliseconds of all timestamped lines.
pub proof fn law_breakdown_accounts_for_every_timestamp(
    phases: Seq<(Seq<char>, u128)>,
    ev: Seq<(Seq<char>, u128)>,
)
    requires
        is_phase_breakdown(phases, ev),
        phases.len() <= usize::MAX,
    ensures
        durations_total(phases) == events_total(ev),
{
    let names = phase_names(ev);
    let n = names.len();
    lemma_phase_names_no_duplicates(ev);
    let f = |i: int| phase_total(ev, names[i]);
    let s = Seq::new(phases.len(), |k: int| names.index_of(phases[k].0) as usize);
    assert forall|k: int| 0 <= k < phases.len() implies (#[trigger] s[k]) < n && names[s[k] as int]
        == phases[k].0 by {
        assert(names.contains(phases[k].0));
        let j = names.index_of(phases[k].0);
        assert(0 <= j < n && names[j] == phases[k].0);
    }
    assert(s.no_duplicates()) by {
        assert forall|a: int, b: int| 0 <= a < s.len() && 0 <= b < s.len() && a != b implies s[a] != s[b] by {
            if a < b {
                assert(phases[a].0 != phases[b].0);
            } else {
                assert(phases[b].0 != phases[a].0);
            }
            assert(names[s[a] as int] == phases[a].0);
            assert(names[s[b] as int] == phases[b].0);
        }
    }
    // the durations, taken in the breakdown's order, are the phase totals at `s`
    assert forall|m: int| 0 <= m <= phases.len() implies #[trigger] durations_total(phases.take(m)) == sum_at(
        f,
        s.take(m),
    ) by {
        lemma_durations_prefix(phases, s, f, m);
    }
    assert(phases.take(phases.len() as int) =~= phases);
    assert(s.take(s.len() as int) =~= s);
    assert(durations_total(phases.take(phases.len() as int)) == sum_at(f, s.take(s.len() as int)));
    lemma_sum_permutation(f, s, n);
    lemma_names_total_prefix(ev, names, n as int);
    assert(names.take(n as int) =~= names);
    lemma_names_total_all(ev);
}

proof fn lemma_durations_prefix(
    phases: Seq<(Seq<char>, u128)>,
    s: Seq<usize>,
    f: spec_fn(int) -> nat,
    m: int,
)
    requires
        0 <= m <= phases.len(),
        s.len() == phases.len(),
        forall|k: int| 0 <= k < phases.len() ==> f(#[trigger] s[k] as int) == phases[k].1,
    ensures
        durations_total(phases.take(m)) == sum_at(f, s.take(m)),
    decreases m,
{
    if m > 0 {
        lemma_durations_prefix(phases, s, f, m - 1);
        assert(phases.take(m).drop_last() =~= phases.take(m - 1));
        assert(s.take(m).drop_last() =~= s.take(m - 1));
        assert(f(s[m - 1] as int) == phases[m - 1].1);
    }
}

/// The phase of an ASCII log line does not depend on the case of its letters: the line,
/// its uppercase and its lowercase form fall in the same phase.
pub proof fn law_phase_ignores_ascii_case(line: Seq<char>)
    requires
        is_ascii_text(line),
    ensures
        is_ascii_text(ascii_upper(line)),
        is_ascii_text(ascii_lower(line)),
        phase_name(ascii_lower(ascii_upper(line))) == phase_name(ascii_lower(line)),
        phase_name(ascii_lower(ascii_lower(line))) == phase_name(ascii_lower(line)),
{
    assert forall|i: int| 0 <= i < line.len() implies ascii_lower_char(ascii_upper_char(line[i]))
        == ascii_lower_char(line[i]) && ascii_lower_char(ascii_lower_char(line[i])) == ascii_lower_char(line[i])
        && (ascii_upper_char(line[i]) as u32) < 0x80 && (ascii_lower_char(line[i]) as u32) < 0x80 by {
        assert((line[i] as u32) < 0x80);
    }
    assert(is_ascii_text(ascii_upper(line))) by {
        assert forall|i: int| 0 <= i < ascii_upper(line).len() implies (#[trigger] ascii_upper(line)[i] as u32)
            < 0x80 by {
            assert(ascii_upper(line)[i] == ascii_upper_char(line[i]));
        }
    }
    assert(is_ascii_text(ascii_lower(line))) by {
        assert forall|i: int| 0 <= i < ascii_lower(line).len() implies (#[trigger] ascii_lower(line)[i] as u32)
            < 0x80 by {
            assert(ascii_lower(line)[i] == ascii_lower_char(line[i]));
        }
    }
    assert(ascii_lower(ascii_upper(line)) =~= ascii_lower(line));
    assert(ascii_lower(ascii_lower(line)) =~= ascii_lower(line));
}

/// Whether `cmd` names a build that the build timing analysis runs: `apk`, `appbundle`,
/// `ios`, `ipa`, `web`, `linux`, `macos` or `windows`.
pub open spec fn build_types() -> Seq<Seq<char>> {
    seq!["apk"@, "appbundle"@, "ios"@, "ipa"@, "web"@, "linux"@, "macos"@, "windows"@]
}

/// Whether `cmd` names one of the build types whose timing is analysed.
pub fn is_build_type(cmd: &str) -> (res: bool)
    ensures
        res == build_types().contains(cmd@),
{
    let c = str_chars(cmd);
    let types = ["apk", "appbundle", "ios", "ipa", "web", "linux", "macos", "windows"];
    let mut i: usize = 0;
    while i < 8
        invariant
            c@ == cmd@,
            i <= 8,
            types@.map_values(|s: &str| s@) == build_types(),
            forall|j: int| 0 <= j < i ==> build_types()[j] != cmd@,
        decreases 8 - i,
    {
        if chars_eq(&c, &str_chars(types[i])) {
            assert(build_types()[i as int] == cmd@);
            return true;
        }
        i = i + 1;
    }
    false
}

proof fn lemma_phase_events_concat(x: Seq<Seq<char>>, y: Seq<Seq<char>>)
    ensures
        phase_events(x + y) == phase_events(x) + phase_events(y),
    decreases y.len(),
{
    if y.len() == 0 {
        assert(x + y =~= x);
        assert(phase_events(x) + phase_events(y) =~= phase_events(x));
    } else {
        lemma_phase_events_concat(x, y.drop_last());
        assert((x + y).drop_last() =~= x + y.drop_last());
        assert((x + y).last() == y.last());
        let a = phase_events(x);
        let b = phase_events(y.drop_last());
        let t = trim(y.last());
        if let Some(d) = timestamp_ms(t) {
            assert((a + b).push((phase_name(lowercase(t)), d)) =~= a + b.push((phase_name(lowercase(t)), d)));
        }
    }
}

proof fn lemma_phase_total_concat(e1: Seq<(Seq<char>, u128)>, e2: Seq<(Seq<char>, u128)>, n: Seq<char>)
    ensures
        phase_total(e1 + e2, n) == phase_total(e1, n) + phase_total(e2, n),
        phase_total_counts(e1 + e2, n) == (phase_total_counts(e1, n) || phase_total_counts(e2, n)),
    decreases e2.len(),
{
    if e2.len() == 0 {
        assert(e1 + e2 =~= e1);
    } else {
        lemma_phase_total_concat(e1, e2.drop_last(), n);
        assert((e1 + e2).drop_last() =~= e1 + e2.drop_last());
        assert((e1 + e2).last() == e2.last());
    }
}

/// The timed phases a stream of the log gives: its lines, its last line included even
/// where it is empty (an empty line carries no timestamp).
spec fn stream_events(x: Seq<char>) -> Seq<(Seq<char>, u128)> {
    phase_events(lines_acc(x).0.push(lines_acc(x).1))
}

proof fn lemma_log_events(a: Seq<char>, b: Seq<char>)
    ensures
        phase_events(lines(a + seq!['\n'] + b)) == stream_events(a) + stream_events(b),
{
    lemma_lines_acc_join(a, b);
    let (da, ca) = lines_acc(a);
    let (db, cb) = lines_acc(b);
    let head = da.push(strip_cr(ca));
    lemma_trim_strip_cr(ca);
    lemma_phase_events_concat(da, seq![strip_cr(ca)]);
    lemma_phase_events_concat(da, seq![ca]);
    assert(da + seq![strip_cr(ca)] =~= head);
    assert(da + seq![ca] =~= da.push(ca));
    assert(seq![strip_cr(ca)].drop_last() =~= Seq::<Seq<char>>::empty());
    assert(seq![ca].drop_last() =~= Seq::<Seq<char>>::empty());
    assert(phase_events(seq![strip_cr(ca)]) == phase_events(seq![ca]));
    lemma_phase_events_concat(db, seq![cb]);
    assert(db + seq![cb] =~= db.push(cb));
    assert(seq![cb].drop_last() =~= Seq::<Seq<char>>::empty());
    if cb.len() > 0 {
        assert(lines(a + seq!['\n'] + b) =~= head + db.push(cb));
        lemma_phase_events_concat(head, db.push(cb));
    } else {
        assert(cb =~= Seq::<char>::empty());
        assert(trim(cb) =~= Seq::<char>::empty());
        assert(timestamp_ms(trim(cb)) is None);
        assert(phase_events(Seq::<Seq<char>>::empty()) =~= Seq::<(Seq<char>, u128)>::empty());
        assert(seq![cb].last() == cb);
        assert(phase_events(seq![cb]) =~= Seq::<(Seq<char>, u128)>::empty());
        assert(lines(a + seq!['\n'] + b) =~= head + db);
        lemma_phase_events_concat(head, db);
    }
}

/// In a phase breakdown, a phase with its total appears exactly when the log has that
/// phase.
proof fn lemma_breakdown_contains(phases: Seq<(Seq<char>, u128)>, ev: Seq<(Seq<char>, u128)>, x: (Seq<char>, u128))
    requires
        is_phase_breakdown(phases, ev),
    ensures
        phases.contains(x) <==> phase_total_counts(ev, x.0) && x.1 == phase_total(ev, x.0),
{
    let names = phase_names(ev);
    lemma_phase_names_no_duplicates(ev);
    let n = names.len();
    let s = Seq::new(phases.len(), |k: int| names.index_of(phases[k].0));
    assert forall|k: int| 0 <= k < s.len() implies 0 <= #[trigger] s[k] < n && names[s[k]] == phases[k].0 by {
        assert(names.contains(phases[k].0));
    }
    assert(s.no_duplicates()) by {
        assert forall|a: int, b: int| 0 <= a < s.len() && 0 <= b < s.len() && a != b implies s[a] != s[b] by {
            if a < b {
                assert(phases[a].0 != phases[b].0);
            } else {
                assert(phases[b].0 != phases[a].0);
            }
            assert(names[s[a]] == phases[a].0);
            assert(names[s[b]] == phases[b].0);
        }
    }
    lemma_indices_cover(s, n);
    if phases.contains(x) {
        let k = choose|k: int| 0 <= k < phases.len() && phases[k] == x;
        assert(names.contains(phases[k].0));
    }
    if phase_total_counts(ev, x.0) && x.1 == phase_total(ev, x.0) {
        assert(names.contains(x.0));
        let j = choose|j: int| 0 <= j < n && names[j] == x.0;
        assert(s.contains(j));
        let k = choose|k: int| 0 <= k < s.len() && s[k] == j;
        assert(phases[k].0 == x.0);
        assert(phases[k] == x);
    }
}

/// Exchanging standard output and standard error leaves the phase breakdown as a set:
/// the same phases with the same totals.
pub proof fn law_swapped_streams_same_phases(
    o1: BuildOutput,
    o2: BuildOutput,
    p1: Seq<(Seq<char>, u128)>,
    p2: Seq<(Seq<char>, u128)>,
    x: (Seq<char>, u128),
)
    requires
        o2.stdout@ == o1.stderr@,
        o2.stderr@ == o1.stdout@,
        is_phase_breakdown(p1, phase_events(log_lines(o1))),
        is_phase_breakdown(p2, phase_events(log_lines(o2))),
    ensures
        p1.contains(x) <==> p2.contains(x),
{
    let a = o1.stdout@;
    let b = o1.stderr@;
    lemma_log_events(a, b);
    lemma_log_events(b, a);
    let ev1 = phase_events(log_lines(o1));
    let ev2 = phase_events(log_lines(o2));
    assert(ev1 == stream_events(a) + stream_events(b));
    assert(ev2 == stream_events(b) + stream_events(a));
    lemma_phase_total_concat(stream_events(a), stream_events(b), x.0);
    lemma_phase_total_concat(stream_events(b), stream_events(a), x.0);
    lemma_breakdown_contains(p1, ev1, x);
    lemma_breakdown_contains(p2, ev2, x);
}

/// The report shows a duration of a minute or more as whole minutes and the seconds
/// left over: `Xm Ys` with `X` minutes and `Y < 60` seconds making up `ms` to the second.
pub proof fn law_duration_minutes(ms: nat, x: nat, y: nat)
    requires
        ms >= 60000,
        y < 60,
        x * 60000 + y * 1000 <= ms < x * 60000 + (y + 1) * 1000,
    ensures
        duration_text(ms) == decimal(x) + "m "@ + decimal(y) + "s"@,
{
    assert(ms / 60000 == x) by (nonlinear_arith)
        requires
            y < 60,
            x * 60000 + y * 1000 <= ms < x * 60000 + (y + 1) * 1000,
    ;
    assert((ms % 60000) / 1000 == y) by (nonlinear_arith)
        requires
            ms / 60000 == x,
            y < 60,
            x * 60000 + y * 1000 <= ms < x * 60000 + (y + 1) * 1000,
    ;
}

/// A duration from one second up to a minute shows as whole seconds and the
/// milliseconds left over: `Xs Yms` with `X * 1000 + Y == ms` and `Y < 1000`.
pub proof fn law_duration_seconds(ms: nat, x: nat, y: nat)
    requires
        1000 <= ms < 60000,
        y < 1000,
        x * 1000 + y == ms,
    ensures
        duration_text(ms) == decimal(x) + "s "@ + decimal(y) + "ms"@,
{
    assert(ms / 1000 == x && ms % 1000 == y) by (nonlinear_arith)
        requires
            y < 1000,
            x * 1000 + y == ms,
    ;
}

/// A duration under a second shows as its milliseconds.
pub proof fn law_duration_millis(ms: nat)
    requires
        ms < 1000,
    ensures
        duration_text(ms) == decimal(ms) + "ms"@,
{
}

/// Some stretch of the line `l` is the word `w`.
pub open spec fn mentions(l: Seq<char>, w: Seq<char>) -> bool {
    exists|i: int| 0 <= i && i + w.len() <= l.len() && #[trigger] l.subrange(i, i + w.len()) == w
}

/// The line names a Gradle build step.
pub open spec fn gradle_line(l: Seq<char>) -> bool {
    mentions(l, "gradle"@) || mentions(l, "assemblerelease"@) || mentions(l, "assembledebug"@)
}

/// The line names Xcode.
pub open spec fn xcode_line(l: Seq<char>) -> bool {
    mentions(l, "xcode"@) || mentions(l, "xcodebuild"@)
}

/// The line names compiling Dart.
pub open spec fn dart_line(l: Seq<char>) -> bool {
    mentions(l, "dart"@) && (mentions(l, "compil"@) || mentions(l, "kernel"@) || mentions(l, "snapshot"@))
}

/// The line names assets, bundles or fonts.
pub open spec fn asset_line(l: Seq<char>) -> bool {
    mentions(l, "asset"@) || mentions(l, "bundle"@) || mentions(l, "font"@)
}

/// The line names signing.
pub open spec fn signing_line(l: Seq<char>) -> bool {
    mentions(l, "sign"@) || mentions(l, "certificate"@)
}

/// The line names shrinking.
pub open spec fn shrinking_line(l: Seq<char>) -> bool {
    mentions(l, "r8"@) || mentions(l, "proguard"@) || mentions(l, "shrink"@) || mentions(l, "minify"@)
}

/// The line names dexing.
pub open spec fn dexing_line(l: Seq<char>) -> bool {
    mentions(l, "dex"@) || mentions(l, "d8"@)
}

/// The line names packaging.
pub open spec fn packaging_line(l: Seq<char>) -> bool {
    mentions(l, "merge"@) || mentions(l, "package"@) || mentions(l, "zip"@) || mentions(l, "apk"@)
        || mentions(l, "aab"@)
}

/// The phase of a lowercased log line follows the keyword table, the first rule that a
/// word of the line meets deciding: Gradle, Xcode, Dart compilation (`dart` with
/// `compil`, `kernel` or `snapshot`), assets, signing, shrinking, dexing, packaging,
/// and `Other` for a line that names none of them.
pub proof fn law_phase_keyword_rules(l: Seq<char>)
    ensures
        gradle_line(l) ==> phase_name(l) == "Gradle Build"@,
        !gradle_line(l) && xcode_line(l) ==> phase_name(l) == "Xcode Build"@,
        !gradle_line(l) && !xcode_line(l) && dart_line(l) ==> phase_name(l) == "Dart Compilation"@,
        !gradle_line(l) && !xcode_line(l) && !dart_line(l) && asset_line(l) ==> phase_name(l)
            == "Asset Bundling"@,
        !gradle_line(l) && !xcode_line(l) && !dart_line(l) && !asset_line(l) && signing_line(l)
            ==> phase_name(l) == "Code Signing"@,
        !gradle_line(l) && !xcode_line(l) && !dart_line(l) && !asset_line(l) && !signing_line(l)
            && shrinking_line(l) ==> phase_name(l) == "Code Shrinking"@,
        !gradle_line(l) && !xcode_line(l) && !dart_line(l) && !asset_line(l) && !signing_line(l)
            && !shrinking_line(l) && dexing_line(l) ==> phase_name(l) == "Dexing"@,
        !gradle_line(l) && !xcode_line(l) && !dart_line(l) && !asset_line(l) && !signing_line(l)
            && !shrinking_line(l) && !dexing_line(l) && packaging_line(l) ==> phase_name(l) == "Packaging"@,
        !gradle_line(l) && !xcode_line(l) && !dart_line(l) && !asset_line(l) && !signing_line(l)
            && !shrinking_line(l) && !dexing_line(l) && !packaging_line(l) ==> phase_name(l) == "Other"@,
{
    law_contains_is_substring(l, "gradle"@);
    law_contains_is_substring(l, "assemblerelease"@);
    law_contains_is_substring(l, "assembledebug"@);
    law_contains_is_substring(l, "xcode"@);
    law_contains_is_substring(l, "xcodebuild"@);
    law_contains_is_substring(l, "dart"@);
    law_contains_is_substring(l, "compil"@);
    law_contains_is_substring(l, "kernel"@);
    law_contains_is_substring(l, "snapshot"@);
    law_contains_is_substring(l, "asset"@);
    law_contains_is_substring(l, "bundle"@);
    law_contains_is_substring(l, "font"@);
    law_contains_is_substring(l, "sign"@);
    law_contains_is_substring(l, "certificate"@);
    law_contains_is_substring(l, "r8"@);
    law_contains_is_substring(l, "proguard"@);
    law_contains_is_substring(l, "shrink"@);
    law_contains_is_substring(l, "minify"@);
    law_contains_is_substring(l, "dex"@);
    law_contains_is_substring(l, "d8"@);
    law_contains_is_substring(l, "merge"@);
    law_contains_is_substring(l, "package"@);
    law_contains_is_substring(l, "zip"@);
    law_contains_is_substring(l, "apk"@);
    law_contains_is_substring(l, "aab"@);
}

proof fn lemma_decimal_digits(n: nat)
    ensures
        decimal(n).len() > 0,
        forall|i: int| 0 <= i < decimal(n).len() ==> is_digit(#[trigger] decimal(n)[i]),
        digits_value(decimal(n)) == n,
    decreases n,
{
    if n >= 10 {
        lemma_decimal_digits(n / 10);
        let d = decimal(n);
        let q = decimal(n / 10);
        assert(d == q.push(digit_char(n % 10)));
        assert(d.drop_last() =~= q);
        assert(digit_char(n % 10) as nat == 48 + n % 10);
        assert(d.last() == digit_char(n % 10));
        assert(digits_value(d) == digits_value(q) * 10 + (d.last() as nat - 48) as nat);
        assert((n / 10) * 10 + n % 10 == n);
        assert forall|i: int| 0 <= i < d.len() implies is_digit(#[trigger] d[i]) by {
            if i < q.len() {
                assert(d[i] == q[i]);
            }
        }
    } else {
        assert(digit_char(n) as nat == 48 + n);
        assert(decimal(n).drop_last() =~= Seq::<char>::empty());
        assert(digits_value(Seq::<char>::empty()) == 0);
        assert(decimal(n).last() == digit_char(n));
    }
}

/// A number written in decimal reads back as the same number.
pub proof fn law_decimal_reads_back(n: u128)
    ensures
        parse_u128(decimal(n as nat)) == Some(n),
{
    lemma_decimal_digits(n as nat);
    let d = decimal(n as nat);
    assert(is_digit(d[0]));
    assert(unsigned_digits(d) == d);
}

proof fn lemma_words_of_one_word(d: Seq<char>)
    requires
        forall|i: int| 0 <= i < d.len() ==> !is_whitespace(#[trigger] d[i]),
    ensures
        words_acc(d) == (Seq::<Seq<char>>::empty(), d),
    decreases d.len(),
{
    if d.len() > 0 {
        let p = d.drop_last();
        assert forall|i: int| 0 <= i < p.len() implies !is_whitespace(#[trigger] p[i]) by {
            assert(p[i] == d[i]);
        }
        lemma_words_of_one_word(p);
        assert(!is_whitespace(d[d.len() - 1]));
        assert(p.push(d.last()) =~= d);
    } else {
        assert(d =~= Seq::<char>::empty());
    }
}

/// A verbose log line that opens with `[ +N ms]` reports `N` milliseconds, whatever
/// follows the first `]` (further brackets included).
pub proof fn law_timestamp_of_prefix(n: u128, rest: Seq<char>)
    ensures
        timestamp_ms(seq!['[', ' ', '+'] + decimal(n as nat) + seq![' ', 'm', 's', ']'] + rest) == Some(n),
{
    let d = decimal(n as nat);
    lemma_decimal_digits(n as nat);
    law_decimal_reads_back(n);
    let dl = d.len() as int;
    let line = seq!['[', ' ', '+'] + d + seq![' ', 'm', 's', ']'] + rest;
    let e = 3 + dl + 3;
    assert(line[0] == '[');
    assert forall|k: int| 0 <= k < e implies line[k] != ']' by {
        if 3 <= k < 3 + dl {
            assert(line[k] == d[k - 3]);
            assert(is_digit(d[k - 3]));
        }
    }
    assert(line[e] == ']');
    lemma_first_index_of(line, ']', e);
    let sub = line.subrange(1, e);
    let x = seq!['+'] + d + seq![' ', 'm', 's'];
    assert(sub =~= seq![' '] + x);
    assert(sub[0] == ' ');
    assert(sub.drop_first() =~= x);
    assert(x[0] == '+');
    assert(trim_start(x) == x);
    assert(trim_start(sub) == trim_start(sub.drop_first()));
    assert(x.last() == 's');
    assert(trim_end(x) == x);
    assert(trim(sub) == x);
    let y = d + seq![' ', 'm', 's'];
    assert(x.drop_first() =~= y);
    assert(y[0] == d[0]);
    assert(is_digit(d[0]));
    assert(trim_start(y) == y);
    assert(y.last() == 's');
    assert(trim_end(y) == y);
    assert forall|i: int| 0 <= i < d.len() implies !is_whitespace(#[trigger] d[i]) by {
        assert(is_digit(d[i]));
    }
    lemma_words_of_one_word(d);
    let y1 = d.push(' ');
    let y2 = y1.push('m');
    assert(y2.push('s') =~= y);
    assert(y1.drop_last() =~= d);
    assert(words_acc(y1) == (seq![d], Seq::<char>::empty()));
    assert(y2.drop_last() =~= y1);
    assert(words_acc(y2) == (seq![d], seq!['m']));
    assert(y.drop_last() =~= y2);
    assert(seq!['m'].push('s') =~= seq!['m', 's']);
    assert(words_acc(y) == (seq![d], seq!['m', 's']));
    assert(words(y) =~= seq![d, seq!['m', 's']]);
    reveal_strlit("ms");
    assert(seq!['m', 's'] =~= "ms"@);
}

} // verus!
